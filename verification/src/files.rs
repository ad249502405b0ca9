//! Choosing model files by their names.
use crate::pipeline::DecoderWeights;
use crate::text::{
    begins_with, chars_of, contains_text, finishes_with, has_part, has_prefix, has_suffix,
    same_text, stands_at, text_of,
};
use vstd::prelude::*;

verus! {

/// How the weights of a model are quantized.
#[derive(Debug, Clone, Copy, PartialEq, Eq, Structural)]
pub enum QuantizationType {
    Unquantized,
    GgufQ8_0,
    GgufQ6K,
    GgufQ4_0,
}

/// Whether position `i` holds the last dot of a name.
pub open spec fn is_last_dot(name: Seq<char>, i: int) -> bool {
    0 <= i < name.len() && name[i] == '.' && forall|j: int| i < j < name.len() ==> name[j] != '.'
}

/// A file's name has an extension: what follows its last dot, where that is not the first
/// character.
pub open spec fn has_extension(name: Seq<char>, ext: Seq<char>) -> bool {
    exists|i: int| 0 < i && #[trigger] is_last_dot(name, i) && name.skip(i + 1) == ext
}

/// Whether a file's name has an extension.
pub fn extension_is(name: &str, ext: &str) -> (r: bool)
    ensures
        r == has_extension(name@, ext@),
{
    let chars = chars_of(name);
    let mut i: usize = chars.len();
    while i > 0
        invariant
            chars@ == name@,
            i <= name@.len(),
            forall|j: int| i <= j < name@.len() ==> name@[j] != '.',
        decreases i,
    {
        i -= 1;
        if chars[i] == '.' {
            let tail = text_of(&chars, i + 1, chars.len());
            proof {
                assert(is_last_dot(name@, i as int));
                assert(tail@ =~= name@.skip(i + 1));
                assert forall|k: int| #[trigger] is_last_dot(name@, k) implies k == i by {
                    if k < i {
                        assert(name@[i as int] != '.');
                    }
                }
            }
            return i > 0 && same_text(tail.as_str(), ext);
        }
    }
    false
}

/// The position of the first name with a property, or none.
pub open spec fn is_first_name(names: Seq<String>, p: spec_fn(Seq<char>) -> bool, i: int) -> bool {
    0 <= i < names.len() && p(names[i]@) && forall|j: int|
        0 <= j < i ==> !p(#[trigger] names[j]@)
}

/// The position of the first name with the extension `gguf`.
pub fn find_gguf_file(names: &Vec<String>) -> (r: Option<usize>)
    ensures
        match r {
            Some(i) => is_first_name(names@, |n: Seq<char>| has_extension(n, "gguf"@), i as int),
            None => forall|j: int|
                0 <= j < names@.len() ==> !has_extension(#[trigger] names@[j]@, "gguf"@),
        },
{
    let mut i: usize = 0;
    while i < names.len()
        invariant
            i <= names@.len(),
            forall|j: int| 0 <= j < i ==> !has_extension(#[trigger] names@[j]@, "gguf"@),
        decreases names@.len() - i,
    {
        if extension_is(names[i].as_str(), "gguf") {
            return Some(i);
        }
        i += 1;
    }
    None
}

/// A name that a GGUF file with the weights of a decoder has.
pub open spec fn is_decoder_name(name: Seq<char>) -> bool {
    has_extension(name, "gguf"@) && begins_with(name, "model-"@)
}

/// The position of the first name that a GGUF file with the weights of a decoder has.
pub fn find_decoder_gguf(names: &Vec<String>) -> (r: Option<usize>)
    ensures
        match r {
            Some(i) => is_first_name(names@, |n: Seq<char>| is_decoder_name(n), i as int),
            None => forall|j: int| 0 <= j < names@.len() ==> !is_decoder_name(#[trigger] names@[j]@),
        },
{
    let mut i: usize = 0;
    while i < names.len()
        invariant
            i <= names@.len(),
            forall|j: int| 0 <= j < i ==> !is_decoder_name(#[trigger] names@[j]@),
        decreases names@.len() - i,
    {
        if extension_is(names[i].as_str(), "gguf") && has_prefix(names[i].as_str(), "model-") {
            return Some(i);
        }
        i += 1;
    }
    None
}

/// A name that a file of weights may have.
pub open spec fn is_weights_name(name: Seq<char>) -> bool {
    has_extension(name, "safetensors"@) && begins_with(name, "model"@)
}

/// Where safetensors weights are.
#[derive(Debug, Clone, Copy, PartialEq, Eq, Structural)]
pub enum WeightsFile {
    /// In `model.safetensors`.
    Single,
    /// In the file of this position in the directory.
    Listed(usize),
}

/// The file of weights: `model.safetensors` where it exists, otherwise the first one whose name
/// starts with `model` and ends in `.safetensors`.
pub fn find_safetensors_file(single_exists: bool, names: &Vec<String>) -> (r: Option<WeightsFile>)
    ensures
        match r {
            Some(WeightsFile::Single) => single_exists,
            Some(WeightsFile::Listed(i)) => !single_exists && is_first_name(
                names@,
                |n: Seq<char>| is_weights_name(n),
                i as int,
            ),
            None => !single_exists && forall|j: int|
                0 <= j < names@.len() ==> !is_weights_name(#[trigger] names@[j]@),
        },
{
    if single_exists {
        return Some(WeightsFile::Single);
    }
    let mut i: usize = 0;
    while i < names.len()
        invariant
            i <= names@.len(),
            !single_exists,
            forall|j: int| 0 <= j < i ==> !is_weights_name(#[trigger] names@[j]@),
        decreases names@.len() - i,
    {
        let name = names[i].as_str();
        if extension_is(name, "safetensors") && has_prefix(name, "model") {
            return Some(WeightsFile::Listed(i));
        }
        i += 1;
    }
    None
}

/// The quantization that a GGUF file's name tells; eight bits where it tells none.
pub open spec fn gguf_quantization(name: Seq<char>) -> QuantizationType {
    if contains_text(name, "q4"@) || contains_text(name, "Q4"@) {
        QuantizationType::GgufQ4_0
    } else if contains_text(name, "q6k"@) || contains_text(name, "Q6K"@) || contains_text(
        name,
        "q6_k"@,
    ) {
        QuantizationType::GgufQ6K
    } else {
        QuantizationType::GgufQ8_0
    }
}

/// The quantization of a decoder: none where safetensors were asked for or no name ends in `.gguf`,
/// otherwise what the first such name tells.
pub fn detect_quantization(names: &Vec<String>, decoder_weights: DecoderWeights) -> (r:
    QuantizationType)
    ensures
        decoder_weights is Safetensors ==> r is Unquantized,
        !(decoder_weights is Safetensors) ==> {
            ||| r is Unquantized && forall|j: int|
                0 <= j < names@.len() ==> !finishes_with(#[trigger] names@[j]@, ".gguf"@)
            ||| exists|i: int|
                0 <= i < names@.len() && finishes_with(#[trigger] names@[i]@, ".gguf"@) && (
                forall|j: int| 0 <= j < i ==> !finishes_with(#[trigger] names@[j]@, ".gguf"@)) && r
                    == gguf_quantization(names@[i]@)
        },
{
    if decoder_weights == DecoderWeights::Safetensors {
        return QuantizationType::Unquantized;
    }
    let mut i: usize = 0;
    while i < names.len()
        invariant
            i <= names@.len(),
            !(decoder_weights is Safetensors),
            forall|j: int| 0 <= j < i ==> !finishes_with(#[trigger] names@[j]@, ".gguf"@),
        decreases names@.len() - i,
    {
        let name = names[i].as_str();
        if has_suffix(name, ".gguf") {
            let q = if has_part(name, "q4") || has_part(name, "Q4") {
                QuantizationType::GgufQ4_0
            } else if has_part(name, "q6k") || has_part(name, "Q6K") || has_part(name, "q6_k") {
                QuantizationType::GgufQ6K
            } else {
                QuantizationType::GgufQ8_0
            };
            assert(finishes_with(names@[i as int]@, ".gguf"@));
            assert(q == gguf_quantization(names@[i as int]@));
            return q;
        }
        i += 1;
    }
    QuantizationType::Unquantized
}

/// A file with its size, where that is known.
pub struct FileSize {
    pub name: String,
    pub size: Option<u64>,
}

/// What a file adds to the size of the weights.
pub open spec fn weights_share(f: FileSize) -> nat {
    if finishes_with(f.name@, ".safetensors"@) || finishes_with(f.name@, ".gguf"@) {
        match f.size {
            Some(n) => n as nat,
            None => 0,
        }
    } else {
        0
    }
}

/// The size of all files of weights.
pub open spec fn weights_size(files: Seq<FileSize>) -> nat
    decreases files.len(),
{
    if files.len() == 0 {
        0
    } else {
        weights_size(files.drop_last()) + weights_share(files.last())
    }
}

proof fn lemma_weights_size_grows(files: Seq<FileSize>, i: int)
    requires
        0 <= i <= files.len(),
    ensures
        weights_size(files.take(i)) <= weights_size(files),
    decreases files.len(),
{
    if i < files.len() {
        lemma_weights_size_grows(files.drop_last(), i);
        assert(files.drop_last().take(i) =~= files.take(i));
    } else {
        assert(files.take(i) =~= files);
    }
}

/// The size of all files of weights, where it is not zero.
pub fn weights_total_size(files: &Vec<FileSize>) -> (r: Option<u64>)
    requires
        weights_size(files@) <= u64::MAX,
    ensures
        r == if weights_size(files@) > 0 {
            Some(weights_size(files@) as u64)
        } else {
            None::<u64>
        },
{
    let mut total: u64 = 0;
    let mut i: usize = 0;
    assert(files@.take(0).len() == 0);
    while i < files.len()
        invariant
            i <= files@.len(),
            total == weights_size(files@.take(i as int)),
            weights_size(files@) <= u64::MAX,
        decreases files@.len() - i,
    {
        proof {
            lemma_weights_size_grows(files@, i + 1);
            assert(files@.take(i + 1).drop_last() =~= files@.take(i as int));
            assert(files@.take(i + 1).last() == files@[i as int]);
        }
        let f = &files[i];
        if has_suffix(f.name.as_str(), ".safetensors") || has_suffix(f.name.as_str(), ".gguf") {
            if let Some(n) = f.size {
                total = total + n;
            }
        }
        i += 1;
    }
    assert(files@.take(files@.len() as int) =~= files@);
    if total > 0 {
        Some(total)
    } else {
        None
    }
}

/// A name in front, a dot and an ending without a dot make a name with that extension and no other. A name
/// without a dot, or with its only one in front, has none.
pub proof fn law_extension_follows_the_last_dot(stem: Seq<char>, ext: Seq<char>, other: Seq<char>)
    requires
        forall|j: int| 0 <= j < ext.len() ==> #[trigger] ext[j] != '.',
    ensures
        stem.len() > 0 ==> has_extension(stem + seq!['.'] + ext, ext),
        has_extension(stem + seq!['.'] + ext, other) ==> other == ext && stem.len() > 0,
        !has_extension(ext, other),
{
    let name = stem + seq!['.'] + ext;
    let at = stem.len() as int;
    assert(name[at] == '.');
    assert forall|j: int| at < j < name.len() implies name[j] != '.' by {
        assert(name[j] == ext[j - at - 1]);
    }
    assert(is_last_dot(name, at));
    assert(name.skip(at + 1) =~= ext);
    assert forall|i: int| #[trigger] is_last_dot(name, i) implies i == at by {
        if i < at {
            assert(name[at] != '.');
        }
    }
    assert forall|i: int| !(#[trigger] is_last_dot(ext, i)) by {
        if is_last_dot(ext, i) {
            assert(ext[i] != '.');
        }
    }
}

/// A file more adds its size where its name ends in `.safetensors` or `.gguf` and the size is known, and
/// nothing otherwise. Where the files stand does not matter.
pub proof fn law_sizes_add_up(files: Seq<FileSize>, f: FileSize, more: Seq<FileSize>)
    ensures
        weights_size(Seq::empty()) == 0,
        ({
            let weights = {
                ||| f.name@.len() >= 12 && f.name@.skip(f.name@.len() - 12) == ".safetensors"@
                ||| f.name@.len() >= 5 && f.name@.skip(f.name@.len() - 5) == ".gguf"@
            };
            weights_size(files.push(f)) - weights_size(files) == if weights && f.size is Some {
                f.size->0 as int
            } else {
                0
            }
        }),
        weights_size(files + more) == weights_size(files) + weights_size(more),
    decreases more.len(),
{
    reveal_strlit(".safetensors");
    reveal_strlit(".gguf");
    let name = f.name@;
    assert(files.push(f).drop_last() =~= files);
    assert(finishes_with(name, ".safetensors"@) <==> (name.len() >= 12 && name.skip(
        name.len() - 12,
    ) == ".safetensors"@)) by {
        if name.len() >= 12 {
            assert(name.skip(name.len() - 12) =~= name.subrange(name.len() - 12, name.len() as int));
        }
    }
    assert(finishes_with(name, ".gguf"@) <==> (name.len() >= 5 && name.skip(name.len() - 5)
        == ".gguf"@)) by {
        if name.len() >= 5 {
            assert(name.skip(name.len() - 5) =~= name.subrange(name.len() - 5, name.len() as int));
        }
    }
    if more.len() > 0 {
        law_sizes_add_up(files, f, more.drop_last());
        assert((files + more).drop_last() =~= files + more.drop_last());
        assert((files + more).last() == more.last());
    } else {
        assert(files + more =~= files);
    }
}

/// Four bits outweigh six, and six outweigh eight: a name that tells of four bits is of four, whatever else
/// it tells, and one that tells of neither four nor six is of eight.
pub proof fn law_names_tell_their_bits(front: Seq<char>, back: Seq<char>)
    ensures
        gguf_quantization(front + "q4"@ + back) is GgufQ4_0,
        gguf_quantization(front + "Q4"@ + back) is GgufQ4_0,
        !(gguf_quantization(front + "q6k"@ + back) is GgufQ8_0),
        !(gguf_quantization(front + "Q6K"@ + back) is GgufQ8_0),
        !(gguf_quantization(front + "q6_k"@ + back) is GgufQ8_0),
        (forall|j: int| 0 <= j < front.len() ==> #[trigger] front[j] != 'q' && front[j] != 'Q')
            ==> gguf_quantization(front) is GgufQ8_0,
        (forall|j: int| 0 <= j < front.len() ==> #[trigger] front[j] != '4') && (exists|at: int|
            #[trigger] stands_at(front, "q6_k"@, at)) ==> gguf_quantization(front) is GgufQ6K,
{
    reveal_strlit("q4");
    reveal_strlit("Q4");
    reveal_strlit("q6k");
    reveal_strlit("Q6K");
    reveal_strlit("q6_k");
    let at = front.len() as int;
    lemma_part_stands(front, "q4"@, back);
    lemma_part_stands(front, "Q4"@, back);
    lemma_part_stands(front, "q6k"@, back);
    lemma_part_stands(front, "Q6K"@, back);
    lemma_part_stands(front, "q6_k"@, back);
    assert forall|i: int| #[trigger] stands_at(front, "q4"@, i) implies front[i] == 'q' && front[i
        + 1] == '4' by {
        assert(front.subrange(i, i + 2)[0] == 'q');
        assert(front.subrange(i, i + 2)[1] == '4');
    }
    assert forall|i: int| #[trigger] stands_at(front, "Q4"@, i) implies front[i] == 'Q' && front[i
        + 1] == '4' by {
        assert(front.subrange(i, i + 2)[0] == 'Q');
        assert(front.subrange(i, i + 2)[1] == '4');
    }
    assert forall|i: int| #[trigger] stands_at(front, "q6k"@, i) implies front[i] == 'q' by {
        assert(front.subrange(i, i + 3)[0] == 'q');
    }
    assert forall|i: int| #[trigger] stands_at(front, "Q6K"@, i) implies front[i] == 'Q' by {
        assert(front.subrange(i, i + 3)[0] == 'Q');
    }
    assert forall|i: int| #[trigger] stands_at(front, "q6_k"@, i) implies front[i] == 'q' by {
        assert(front.subrange(i, i + 4)[0] == 'q');
    }
}

proof fn lemma_part_stands(front: Seq<char>, part: Seq<char>, back: Seq<char>)
    ensures
        stands_at(front + part + back, part, front.len() as int),
{
    let s = front + part + back;
    let at = front.len() as int;
    assert(s.subrange(at, at + part.len()) =~= part);
}

} // verus!
