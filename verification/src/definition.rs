//! Tokenizers that are defined in JSON, and which definitions can be used.
use crate::chunks::views;
use crate::json::{
    does_mention, flag_in, items_in, json_of, json_tree, member, member_of, member_trees,
    members_in, mentions, read_json, text_in, value_trees, JsonTree,
};
use crate::text::{begins_with, chars_of, has_prefix, same_text, text_of};
use tokenizers::Tokenizer as FastTokenizer;
use vstd::prelude::*;

verus! {

/// `tokenizers::Tokenizer`.
#[verifier::external_type_specification]
#[verifier::external_body]
pub struct ExTokenizer(FastTokenizer);

/// `tokenizers::DecoderWrapper`.
#[verifier::external_type_specification]
#[verifier::external_body]
pub struct ExDecoderWrapper(tokenizers::DecoderWrapper);

/// `tokenizers::normalizers::Precompiled`.
#[verifier::external_type_specification]
#[verifier::external_body]
pub struct ExPrecompiled(tokenizers::normalizers::Precompiled);

// ---------------------------------------------------------------------------
// Putting texts together
// ---------------------------------------------------------------------------

/// How a tokenizer puts texts together: by one step or by several.
pub enum DecoderTree {
    /// A step that strips a character off each text, up to so many times at its start and at its end.
    Strip(char, nat, nat, tokenizers::DecoderWrapper),
    /// A step that looks at the last text.
    Last(tokenizers::DecoderWrapper),
    /// A step that searches each text for a pattern and replaces it.
    Replace(tokenizers::DecoderWrapper),
    /// Any other step.
    Step(tokenizers::DecoderWrapper),
    /// One after another.
    Chain(Seq<DecoderTree>),
}

/// How a decoder puts texts together.
pub uninterp spec fn decoder_tree(d: tokenizers::DecoderWrapper) -> DecoderTree;

/// A decoder, written in JSON; none where it cannot be.
pub uninterp spec fn decoder_description(d: tokenizers::DecoderWrapper) -> Option<JsonTree>;

/// A step that replaces a pattern looks for a plain text, not for a regular expression.
pub open spec fn replaces_text(d: tokenizers::DecoderWrapper) -> bool {
    decoder_description(d) matches Some(t) && member(t, "pattern"@) matches Some(p) && member(
        p,
        "String"@,
    ) is Some
}

/// All texts of a list are empty.
pub open spec fn all_empty(texts: Seq<Seq<char>>) -> bool {
    forall|i: int| 0 <= i < texts.len() ==> (#[trigger] texts[i]).len() == 0
}

/// What a single step makes of texts; none where it refuses them.
pub uninterp spec fn step_result(d: tokenizers::DecoderWrapper, texts: Seq<Seq<char>>) -> Option<
    Seq<Seq<char>>,
>;

/// Stripping a text at both ends does not cross over: there is another character in it, or it is long
/// enough for both.
pub open spec fn strippable(text: Seq<char>, content: char, start: nat, stop: nat) -> bool {
    ||| exists|i: int| 0 <= i < text.len() && #[trigger] text[i] != content
    ||| (if start < text.len() {
        start
    } else {
        text.len()
    }) + stop <= text.len()
}

/// Every text of a list can be stripped.
pub open spec fn all_strippable(
    texts: Seq<Seq<char>>,
    content: char,
    start: nat,
    stop: nat,
) -> bool {
    forall|i: int| 0 <= i < texts.len() ==> strippable(#[trigger] texts[i], content, start, stop)
}

/// What a decoder makes of texts; none where a step refuses them.
pub open spec fn passed(t: DecoderTree, texts: Seq<Seq<char>>) -> Option<Seq<Seq<char>>>
    decreases t, 0int,
{
    match t {
        DecoderTree::Strip(_, _, _, d) => step_result(d, texts),
        DecoderTree::Last(d) => step_result(d, texts),
        DecoderTree::Replace(d) => step_result(d, texts),
        DecoderTree::Step(d) => step_result(d, texts),
        DecoderTree::Chain(parts) => passed_from(parts, 0, texts),
    }
}

/// What the steps from the `i`-th on make of texts.
pub open spec fn passed_from(parts: Seq<DecoderTree>, i: int, texts: Seq<Seq<char>>) -> Option<
    Seq<Seq<char>>,
>
    decreases parts, parts.len() - i,
{
    if 0 <= i < parts.len() {
        match passed(parts[i], texts) {
            Some(next) => passed_from(parts, i + 1, next),
            None => None,
        }
    } else {
        Some(texts)
    }
}

/// No step gets texts that it cannot take: none to look at the last of, too short to be stripped, or such
/// that would be searched for a regular expression.
pub open spec fn digestible(t: DecoderTree, texts: Seq<Seq<char>>) -> bool
    decreases t, 0int,
{
    match t {
        DecoderTree::Strip(content, start, stop, _) => all_strippable(texts, content, start, stop),
        DecoderTree::Last(_) => texts.len() > 0,
        DecoderTree::Replace(d) => replaces_text(d) || all_empty(texts),
        DecoderTree::Step(_) => true,
        DecoderTree::Chain(parts) => digestible_from(parts, 0, texts),
    }
}

/// No step from the `i`-th on gets texts that it cannot take.
pub open spec fn digestible_from(
    parts: Seq<DecoderTree>,
    i: int,
    texts: Seq<Seq<char>>,
) -> bool
    decreases parts, parts.len() - i,
{
    if 0 <= i < parts.len() {
        digestible(parts[i], texts) && match passed(parts[i], texts) {
            Some(next) => digestible_from(parts, i + 1, next),
            None => true,
        }
    } else {
        true
    }
}

/// A decoder, one level deep.
pub enum DecoderNode {
    Strip(char, usize, usize),
    Last,
    Replace,
    Step,
    Chain(Vec<tokenizers::DecoderWrapper>),
}

/// The variants of `tokenizers::DecoderWrapper`.
#[verifier::external_body]
fn open_decoder(d: &tokenizers::DecoderWrapper) -> (r: DecoderNode)
    ensures
        match r {
            DecoderNode::Strip(content, start, stop) => decoder_tree(*d) == DecoderTree::Strip(
                content,
                start as nat,
                stop as nat,
                *d,
            ),
            DecoderNode::Last => decoder_tree(*d) == DecoderTree::Last(*d),
            DecoderNode::Replace => decoder_tree(*d) == DecoderTree::Replace(*d),
            DecoderNode::Step => decoder_tree(*d) == DecoderTree::Step(*d),
            DecoderNode::Chain(parts) => decoder_tree(*d) == DecoderTree::Chain(
                parts@.map_values(|p: tokenizers::DecoderWrapper| decoder_tree(p)),
            ),
        },
{
    match d {
        tokenizers::DecoderWrapper::Strip(s) => DecoderNode::Strip(s.content, s.start, s.stop),
        tokenizers::DecoderWrapper::Sequence(s) => DecoderNode::Chain(s.get_decoders().to_vec()),
        tokenizers::DecoderWrapper::BPE(_) => DecoderNode::Last,
        tokenizers::DecoderWrapper::ByteLevel(_) => DecoderNode::Step,
        tokenizers::DecoderWrapper::WordPiece(_) => DecoderNode::Step,
        tokenizers::DecoderWrapper::Metaspace(_) => DecoderNode::Step,
        tokenizers::DecoderWrapper::CTC(_) => DecoderNode::Step,
        tokenizers::DecoderWrapper::Replace(_) => DecoderNode::Replace,
        tokenizers::DecoderWrapper::Fuse(_) => DecoderNode::Step,
        tokenizers::DecoderWrapper::ByteFallback(_) => DecoderNode::Step,
    }
}

/// `serde_json::to_value` of a decoder.
#[verifier::external_body]
fn describe_decoder(d: &tokenizers::DecoderWrapper) -> (r: Result<
    serde_json::Value,
    serde_json::Error,
>)
    ensures
        match r {
            Ok(v) => decoder_description(*d) == Some(json_tree(v)),
            Err(_) => decoder_description(*d) is None,
        },
{
    serde_json::to_value(d)
}

fn does_replace_text(d: &tokenizers::DecoderWrapper) -> (r: bool)
    ensures
        r == replaces_text(*d),
{
    match describe_decoder(d) {
        Ok(v) => match member_of(&v, "pattern") {
            Some(p) => member_of(p, "String").is_some(),
            None => false,
        },
        Err(_) => false,
    }
}

fn are_all_empty(texts: &Vec<String>) -> (r: bool)
    ensures
        r == all_empty(views(texts@)),
{
    let mut i: usize = 0;
    while i < texts.len()
        invariant
            i <= texts@.len(),
            forall|k: int| 0 <= k < i ==> (#[trigger] views(texts@)[k]).len() == 0,
        decreases texts@.len() - i,
    {
        assert(views(texts@)[i as int] == texts@[i as int]@);
        if chars_of(texts[i].as_str()).len() != 0 {
            return false;
        }
        i += 1;
    }
    true
}

/// `Decoder::decode_chain` of a single step. One that looks at the last text panics where there is none,
/// and one that strips panics where the two ends of a text cross over. A search for a regular expression
/// panics where it takes too many attempts. What went wrong is not told.
#[verifier::external_body]
fn take_step(d: &tokenizers::DecoderWrapper, texts: Vec<String>) -> (r: Option<Vec<String>>)
    requires
        decoder_tree(*d) !is Chain,
        digestible(decoder_tree(*d), views(texts@)),
    ensures
        match r {
            Some(next) => step_result(*d, views(texts@)) == Some(views(next@)),
            None => step_result(*d, views(texts@)) is None,
        },
{
    tokenizers::Decoder::decode_chain(d, texts).ok()
}

fn is_strippable(text: &str, content: char, start: usize, stop: usize) -> (r: bool)
    ensures
        r == strippable(text@, content, start as nat, stop as nat),
{
    let chars = chars_of(text);
    let n: usize = chars.len();
    let mut i: usize = 0;
    while i < n
        invariant
            i <= n == chars@.len(),
            chars@ == text@,
            forall|k: int| 0 <= k < i ==> #[trigger] text@[k] == content,
        decreases n - i,
    {
        if chars[i] != content {
            assert(text@[i as int] != content);
            return true;
        }
        i += 1;
    }
    let lead: usize = if start < n {
        start
    } else {
        n
    };
    stop <= n - lead
}

fn are_strippable(texts: &Vec<String>, content: char, start: usize, stop: usize) -> (r: bool)
    ensures
        r == all_strippable(views(texts@), content, start as nat, stop as nat),
{
    let mut i: usize = 0;
    while i < texts.len()
        invariant
            i <= texts@.len(),
            forall|k: int|
                0 <= k < i ==> strippable(
                    #[trigger] views(texts@)[k],
                    content,
                    start as nat,
                    stop as nat,
                ),
        decreases texts@.len() - i,
    {
        assert(views(texts@)[i as int] == texts@[i as int]@);
        if !is_strippable(texts[i].as_str(), content, start, stop) {
            return false;
        }
        i += 1;
    }
    true
}

/// What became of texts on their way through a decoder.
enum Passage {
    /// A step got texts that it cannot take.
    Stuck,
    /// A step refused them.
    Refused,
    /// They came out as these.
    Through(Vec<String>),
}

fn pass(d: &tokenizers::DecoderWrapper, texts: Vec<String>) -> (r: Passage)
    ensures
        r is Stuck == !digestible(decoder_tree(*d), views(texts@)),
        match r {
            Passage::Stuck => true,
            Passage::Refused => passed(decoder_tree(*d), views(texts@)) is None,
            Passage::Through(next) => passed(decoder_tree(*d), views(texts@)) == Some(
                views(next@),
            ),
        },
    decreases decoder_tree(*d),
{
    let parts = match open_decoder(d) {
        DecoderNode::Chain(parts) => parts,
        DecoderNode::Strip(content, start, stop) => {
            if !are_strippable(&texts, content, start, stop) {
                return Passage::Stuck;
            }
            return match take_step(d, texts) {
                Some(next) => Passage::Through(next),
                None => Passage::Refused,
            };
        },
        DecoderNode::Last => {
            if texts.len() == 0 {
                return Passage::Stuck;
            }
            return match take_step(d, texts) {
                Some(next) => Passage::Through(next),
                None => Passage::Refused,
            };
        },
        DecoderNode::Replace => {
            if !does_replace_text(d) && !are_all_empty(&texts) {
                return Passage::Stuck;
            }
            return match take_step(d, texts) {
                Some(next) => Passage::Through(next),
                None => Passage::Refused,
            };
        },
        DecoderNode::Step => {
            return match take_step(d, texts) {
                Some(next) => Passage::Through(next),
                None => Passage::Refused,
            };
        },
    };
    let ghost tree = decoder_tree(*d);
    let ghost trees = parts@.map_values(|p: tokenizers::DecoderWrapper| decoder_tree(p));
    let ghost first = views(texts@);
    let mut current: Vec<String> = texts;
    let mut i: usize = 0;
    while i < parts.len()
        invariant
            i <= parts@.len(),
            first == views(texts@),
            tree == decoder_tree(*d),
            tree == DecoderTree::Chain(trees),
            trees == parts@.map_values(|p: tokenizers::DecoderWrapper| decoder_tree(p)),
            digestible(tree, first) == digestible_from(trees, i as int, views(current@)),
            passed(tree, first) == passed_from(trees, i as int, views(current@)),
        decreases parts@.len() - i,
    {
        assert(trees[i as int] == decoder_tree(parts@[i as int]));
        assert(decreases_to!(tree => tree->Chain_0[i as int]));
        match pass(&parts[i], current) {
            Passage::Stuck => {
                return Passage::Stuck;
            },
            Passage::Refused => {
                return Passage::Refused;
            },
            Passage::Through(next) => {
                current = next;
            },
        }
        i += 1;
    }
    Passage::Through(current)
}

// ---------------------------------------------------------------------------
// Definitions
// ---------------------------------------------------------------------------

/// The definition that a tokenizer was read from.
pub uninterp spec fn tokenizer_definition(t: FastTokenizer) -> JsonTree;

/// A tree defines a tokenizer.
pub uninterp spec fn defines_tokenizer(definition: JsonTree) -> bool;

/// How a tokenizer puts texts together, where its definition says so.
pub uninterp spec fn tokenizer_decoder(t: FastTokenizer) -> Option<DecoderTree>;

/// The text of a token.
pub uninterp spec fn token_text(t: FastTokenizer, id: u32) -> Option<Seq<char>>;

/// A text is that of a special token.
pub uninterp spec fn special_text(t: FastTokenizer, text: Seq<char>) -> bool;

/// The number that the tokenizer of a definition has for a token's text.
pub uninterp spec fn token_number(definition: JsonTree, text: Seq<char>) -> Option<u32>;

/// `text` can be what the tokenizer of a definition has for tokens, special ones left out; none where it
/// has none. Which of several texts with the same number comes out is open.
pub uninterp spec fn text_outcome(
    definition: JsonTree,
    ids: Seq<u32>,
    text: Option<Seq<char>>,
) -> bool;

/// The texts of tokens, without those that have none and the special ones.
pub open spec fn kept_texts(t: FastTokenizer, ids: Seq<u32>) -> Seq<Seq<char>>
    decreases ids.len(),
{
    if ids.len() == 0 {
        Seq::empty()
    } else {
        let before = kept_texts(t, ids.drop_last());
        match token_text(t, ids.last()) {
            Some(s) => if special_text(t, s) {
                before
            } else {
                before.push(s)
            },
            None => before,
        }
    }
}

/// The texts of tokens can be put together.
pub open spec fn can_decode(t: FastTokenizer, ids: Seq<u32>) -> bool {
    tokenizer_decoder(t) matches Some(d) ==> digestible(d, kept_texts(t, ids))
}

/// A table of characters that was compiled elsewhere can be read.
pub uninterp spec fn table_reads(table: JsonTree) -> bool;

/// An object is tagged as a table of characters that was compiled elsewhere.
pub open spec fn is_table(t: JsonTree) -> bool {
    member(t, "type"@) matches Some(k) && mentions(k, "Precompiled"@)
}

/// Every table of characters that was compiled elsewhere can be read.
pub open spec fn tables_read(t: JsonTree) -> bool
    decreases t,
{
    match t {
        JsonTree::List(items) => forall|i: int|
            0 <= i < items.len() ==> tables_read(#[trigger] items[i]),
        JsonTree::Object(members) => {
            &&& is_table(t) ==> table_reads(t)
            &&& forall|i: int| 0 <= i < members.len() ==> tables_read((#[trigger] members[i]).1)
        },
        _ => true,
    }
}

/// An added token is taken as it is written.
pub open spec fn as_written(token: JsonTree) -> bool {
    member(token, "normalized"@) == Some(JsonTree::Flag(false))
}

/// Added tokens are taken as they are written.
pub open spec fn each_as_written(tokens: Seq<JsonTree>) -> bool {
    forall|i: int| 0 <= i < tokens.len() ==> as_written(#[trigger] tokens[i])
}

/// All added tokens of a definition are taken as they are written.
pub open spec fn all_as_written(definition: JsonTree) -> bool {
    match member(definition, "added_tokens"@) {
        Some(JsonTree::List(tokens)) => each_as_written(tokens),
        _ => true,
    }
}

/// The tables of characters that the normalizer of a definition names can be read. Neither a table nor a
/// regular expression is applied to added tokens.
pub open spec fn normalizer_usable(definition: JsonTree) -> bool {
    match member(definition, "normalizer"@) {
        Some(n) => {
            &&& mentions(n, "Precompiled"@) ==> tables_read(n)
            &&& mentions(n, "Precompiled"@) || mentions(n, "Regex"@) ==> all_as_written(definition)
        },
        None => true,
    }
}

/// The one space in a text stands at `k`.
pub open spec fn only_space(s: Seq<char>, k: int) -> bool {
    &&& 0 <= k < s.len()
    &&& s[k] == ' '
    &&& forall|j: int| 0 <= j < s.len() && j != k ==> #[trigger] s[j] != ' '
}

/// The two texts that a merge joins. They stand in a list, or in one text with a space between them.
pub open spec fn merge_parts(merge: JsonTree) -> Option<(Seq<char>, Seq<char>)> {
    match merge {
        JsonTree::Text(s) => {
            let k = choose|k: int| only_space(s, k);
            if only_space(s, k) {
                Some((s.take(k), s.skip(k + 1)))
            } else {
                None
            }
        },
        JsonTree::List(parts) => if parts.len() == 2 {
            match (parts[0], parts[1]) {
                (JsonTree::Text(a), JsonTree::Text(b)) => Some((a, b)),
                _ => None,
            }
        } else {
            None
        },
        _ => None,
    }
}

/// A line with a version, which is no merge.
pub open spec fn is_version(merge: JsonTree) -> bool {
    merge matches JsonTree::Text(s) && begins_with(s, "#version"@)
}

/// The vocabulary has the text that a merge makes: the first one and the second one without the mark of
/// continued words, which stands in front of it.
pub open spec fn merge_known(vocab: JsonTree, mark: Seq<char>, merge: JsonTree) -> bool {
    is_version(merge) || (merge_parts(merge) matches Some((a, b)) && begins_with(b, mark) && member(
        vocab,
        a + b.skip(mark.len() as int),
    ) is Some)
}

/// The vocabulary has the texts that merges make.
pub open spec fn all_known(vocab: JsonTree, mark: Seq<char>, merges: Seq<JsonTree>) -> bool {
    forall|i: int| 0 <= i < merges.len() ==> merge_known(vocab, mark, #[trigger] merges[i])
}

/// The mark in front of continued words.
pub open spec fn continuation_mark(model: JsonTree) -> Seq<char> {
    match member(model, "continuing_subword_prefix"@) {
        Some(JsonTree::Text(s)) => s,
        _ => Seq::empty(),
    }
}

/// The merges of a model make texts that its vocabulary has.
pub open spec fn merges_known(model: JsonTree) -> bool {
    match member(model, "merges"@) {
        Some(JsonTree::List(merges)) => match member(model, "vocab"@) {
            Some(vocab) => all_known(vocab, continuation_mark(model), merges),
            None => true,
        },
        _ => true,
    }
}

/// A model says that it has no merges: it is of one of the other kinds.
pub open spec fn without_merges(model: JsonTree) -> bool {
    member(model, "type"@) matches Some(JsonTree::Text(kind)) && (kind == "WordPiece"@ || kind
        == "WordLevel"@ || kind == "Unigram"@)
}

/// The merges in a definition make texts that its vocabulary has, unless its model has none.
pub open spec fn definition_merges_known(definition: JsonTree) -> bool {
    member(definition, "model"@) matches Some(model) ==> without_merges(model) || merges_known(model)
}

fn has_no_merges(model: &serde_json::Value) -> (r: bool)
    ensures
        r == without_merges(json_tree(*model)),
{
    match member_of(model, "type") {
        Some(k) => match text_in(k) {
            Some(kind) => same_text(kind, "WordPiece") || same_text(kind, "WordLevel") || same_text(
                kind,
                "Unigram",
            ),
            None => false,
        },
        None => false,
    }
}

/// `serde_json::from_str` into `tokenizers::normalizers::Precompiled` of a value that is written in JSON.
#[verifier::external_body]
fn read_table(table: &serde_json::Value) -> (r: Result<
    tokenizers::normalizers::Precompiled,
    serde_json::Error,
>)
    ensures
        r is Ok == table_reads(json_tree(*table)),
{
    serde_json::from_str(&table.to_string())
}

fn do_tables_read(v: &serde_json::Value) -> (r: bool)
    ensures
        r == tables_read(json_tree(*v)),
    decreases json_tree(*v),
{
    let ghost tree = json_tree(*v);
    if let Some(items) = items_in(v) {
        let ghost trees = value_trees(items@);
        let mut i: usize = 0;
        while i < items.len()
            invariant
                i <= items@.len(),
                trees == value_trees(items@),
                tree == json_tree(*v),
                tree == JsonTree::List(trees),
                forall|k: int| 0 <= k < i ==> tables_read(#[trigger] trees[k]),
            decreases items@.len() - i,
        {
            assert(trees[i as int] == json_tree(items@[i as int]));
            assert(decreases_to!(tree => tree->List_0[i as int]));
            if !do_tables_read(&items[i]) {
                assert(!tables_read(trees[i as int]));
                assert(!tables_read(JsonTree::List(trees)));
                return false;
            }
            i += 1;
        }
        return true;
    }
    let members = match members_in(v) {
        Some(m) => m,
        None => {
            return true;
        },
    };
    if let Some(k) = member_of(v, "type") {
        if does_mention(k, "Precompiled") && read_table(v).is_err() {
            return false;
        }
    }
    let ghost trees = member_trees(members@);
    let mut i: usize = 0;
    while i < members.len()
        invariant
            i <= members@.len(),
            trees == member_trees(members@),
            tree == json_tree(*v),
            tree == JsonTree::Object(trees),
            is_table(tree) ==> table_reads(tree),
            forall|k: int| 0 <= k < i ==> tables_read((#[trigger] trees[k]).1),
        decreases members@.len() - i,
    {
        assert(trees[i as int].1 == json_tree(members@[i as int].1));
        assert(decreases_to!(tree => tree->Object_0[i as int].1));
        if !do_tables_read(&members[i].1) {
            assert(!tables_read(trees[i as int].1));
            assert(!tables_read(JsonTree::Object(trees)));
            return false;
        }
        i += 1;
    }
    true
}

fn are_all_as_written(definition: &serde_json::Value) -> (r: bool)
    ensures
        r == all_as_written(json_tree(*definition)),
{
    let tokens = match member_of(definition, "added_tokens") {
        Some(t) => match items_in(t) {
            Some(items) => items,
            None => {
                return true;
            },
        },
        None => {
            return true;
        },
    };
    let ghost trees = value_trees(tokens@);
    let mut i: usize = 0;
    while i < tokens.len()
        invariant
            i <= tokens@.len(),
            trees == value_trees(tokens@),
            member(json_tree(*definition), "added_tokens"@) == Some(JsonTree::List(trees)),
            forall|k: int| 0 <= k < i ==> as_written(#[trigger] trees[k]),
        decreases tokens@.len() - i,
    {
        assert(trees[i as int] == json_tree(tokens@[i as int]));
        let written = match member_of(&tokens[i], "normalized") {
            Some(flag) => match flag_in(flag) {
                Some(b) => !b,
                None => false,
            },
            None => false,
        };
        if !written {
            assert(!as_written(trees[i as int]));
            assert(!each_as_written(trees));
            return false;
        }
        i += 1;
    }
    true
}

fn read_merge(merge: &serde_json::Value) -> (r: Option<(String, String)>)
    ensures
        match r {
            Some(p) => merge_parts(json_tree(*merge)) == Some((p.0@, p.1@)),
            None => merge_parts(json_tree(*merge)) is None,
        },
{
    if let Some(parts) = items_in(merge) {
        if parts.len() != 2 {
            return None;
        }
        assert(value_trees(parts@)[0] == json_tree(parts@[0]));
        assert(value_trees(parts@)[1] == json_tree(parts@[1]));
        return match (text_in(&parts[0]), text_in(&parts[1])) {
            (Some(a), Some(b)) => Some((a.to_owned(), b.to_owned())),
            _ => None,
        };
    }
    let s = match text_in(merge) {
        Some(s) => s,
        None => {
            return None;
        },
    };
    let chars = chars_of(s);
    let n: usize = chars.len();
    let mut k: usize = 0;
    while k < n && chars[k] != ' '
        invariant
            k <= n == chars@.len(),
            forall|j: int| 0 <= j < k ==> #[trigger] chars@[j] != ' ',
        decreases n - k,
    {
        k += 1;
    }
    if k == n {
        return None;
    }
    let mut j: usize = k + 1;
    while j < n
        invariant
            k < j <= n == chars@.len(),
            chars@ == s@,
            json_tree(*merge) == JsonTree::Text(s@),
            chars@[k as int] == ' ',
            forall|i: int| 0 <= i < j && i != k ==> #[trigger] chars@[i] != ' ',
        decreases n - j,
    {
        if chars[j] == ' ' {
            assert forall|i: int| !only_space(s@, i) by {
                if only_space(s@, i) {
                    assert(s@[k as int] != ' ' || k == i);
                    assert(s@[j as int] != ' ' || j == i);
                }
            }
            return None;
        }
        j += 1;
    }
    proof {
        assert(only_space(s@, k as int));
        let c = choose|c: int| only_space(s@, c);
        assert(s@[k as int] != ' ' || k == c);
        assert(s@.subrange(0, k as int) =~= s@.take(k as int));
        assert(s@.subrange(k + 1, n as int) =~= s@.skip(k + 1));
    }
    Some((text_of(&chars, 0, k), text_of(&chars, k + 1, n)))
}

fn is_merge_known(vocab: &serde_json::Value, mark: &str, merge: &serde_json::Value) -> (r: bool)
    ensures
        r == merge_known(json_tree(*vocab), mark@, json_tree(*merge)),
{
    if let Some(s) = text_in(merge) {
        if has_prefix(s, "#version") {
            return true;
        }
    }
    let (a, b) = match read_merge(merge) {
        Some(p) => p,
        None => {
            return false;
        },
    };
    if !has_prefix(b.as_str(), mark) {
        return false;
    }
    let chars = chars_of(b.as_str());
    let rest = text_of(&chars, chars_of(mark).len(), chars.len());
    let mut text: String = a;
    let ghost first = text@;
    text.push_str(rest.as_str());
    assert(rest@ =~= b@.skip(mark@.len() as int));
    assert(text@ =~= first + b@.skip(mark@.len() as int));
    member_of(vocab, text.as_str()).is_some()
}

fn are_merges_known(model: &serde_json::Value) -> (r: bool)
    ensures
        r == merges_known(json_tree(*model)),
{
    let merges = match member_of(model, "merges") {
        Some(m) => match items_in(m) {
            Some(items) => items,
            None => {
                return true;
            },
        },
        None => {
            return true;
        },
    };
    let vocab = match member_of(model, "vocab") {
        Some(v) => v,
        None => {
            return true;
        },
    };
    let mut mark: String = String::new();
    if let Some(p) = member_of(model, "continuing_subword_prefix") {
        if let Some(s) = text_in(p) {
            mark.push_str(s);
        }
    }
    assert(mark@ =~= continuation_mark(json_tree(*model)));
    let ghost trees = value_trees(merges@);
    let mut i: usize = 0;
    while i < merges.len()
        invariant
            i <= merges@.len(),
            trees == value_trees(merges@),
            mark@ == continuation_mark(json_tree(*model)),
            member(json_tree(*model), "merges"@) == Some(JsonTree::List(trees)),
            member(json_tree(*model), "vocab"@) == Some(json_tree(*vocab)),
            forall|k: int|
                0 <= k < i ==> merge_known(json_tree(*vocab), mark@, #[trigger] trees[k]),
        decreases merges@.len() - i,
    {
        assert(trees[i as int] == json_tree(merges@[i as int]));
        if !is_merge_known(vocab, mark.as_str(), &merges[i]) {
            assert(!merge_known(json_tree(*vocab), mark@, trees[i as int]));
            assert(!all_known(json_tree(*vocab), mark@, trees));
            return false;
        }
        i += 1;
    }
    true
}

/// `serde_json::from_value` into `tokenizers::Tokenizer`. It panics on a table of characters that cannot be
/// read, and may panic where it applies one, or a regular expression, to added tokens. It panics on merges
/// that make longer texts than the vocabulary has or lack a mark in front. It is believed to come back on
/// the definitions that are left.
#[verifier::external_body]
fn read_tokenizer(definition: serde_json::Value) -> (r: Result<FastTokenizer, serde_json::Error>)
    requires
        normalizer_usable(json_tree(definition)),
        definition_merges_known(json_tree(definition)),
    ensures
        r is Ok == defines_tokenizer(json_tree(definition)),
        r matches Ok(t) ==> tokenizer_definition(t) == json_tree(definition),
{
    serde_json::from_value::<FastTokenizer>(definition)
}

/// `Tokenizer::get_decoder`: how a tokenizer puts texts together.
#[verifier::external_body]
fn decoder_of(t: &FastTokenizer) -> (r: Option<tokenizers::DecoderWrapper>)
    ensures
        match r {
            Some(d) => tokenizer_decoder(*t) == Some(decoder_tree(d)),
            None => tokenizer_decoder(*t) is None,
        },
{
    t.get_decoder().cloned()
}

/// `Tokenizer::token_to_id` looks a token's text up.
#[verifier::external_body]
fn token_to_id(t: &FastTokenizer, text: &str) -> (r: Option<u32>)
    ensures
        r == token_number(tokenizer_definition(*t), text@),
{
    t.token_to_id(text)
}

/// `Tokenizer::id_to_token` looks the text of a token up.
#[verifier::external_body]
fn id_to_token(t: &FastTokenizer, id: u32) -> (r: Option<String>)
    ensures
        match r {
            Some(s) => token_text(*t, id) == Some(s@),
            None => token_text(*t, id) is None,
        },
{
    t.id_to_token(id)
}

/// `AddedVocabulary::is_special_token` of `Tokenizer::get_added_vocabulary`.
#[verifier::external_body]
fn is_special_token(t: &FastTokenizer, text: &str) -> (r: bool)
    ensures
        r == special_text(*t, text@),
{
    t.get_added_vocabulary().is_special_token(text)
}

fn texts_of(t: &FastTokenizer, ids: &Vec<u32>) -> (r: Vec<String>)
    ensures
        views(r@) == kept_texts(*t, ids@),
{
    let mut texts: Vec<String> = Vec::new();
    let mut i: usize = 0;
    assert(views(texts@) =~= kept_texts(*t, ids@.take(0)));
    while i < ids.len()
        invariant
            i <= ids@.len(),
            views(texts@) == kept_texts(*t, ids@.take(i as int)),
        decreases ids@.len() - i,
    {
        proof {
            assert(ids@.take(i + 1).drop_last() =~= ids@.take(i as int));
            assert(ids@.take(i + 1).last() == ids@[i as int]);
        }
        if let Some(s) = id_to_token(t, ids[i]) {
            if !is_special_token(t, s.as_str()) {
                let ghost before = texts@;
                texts.push(s);
                assert(views(texts@) =~= views(before).push(s@));
            }
        }
        i += 1;
    }
    assert(ids@.take(ids@.len() as int) =~= ids@);
    texts
}

/// `Tokenizer::decode` with special tokens left out. What went wrong is not told. It hands the texts of the
/// tokens to the decoder, which must be able to take them.
#[verifier::external_body]
fn decode_tokens(t: &FastTokenizer, ids: &Vec<u32>) -> (r: Option<String>)
    requires
        can_decode(*t, ids@),
    ensures
        match r {
            Some(s) => text_outcome(tokenizer_definition(*t), ids@, Some(s@)),
            None => text_outcome(tokenizer_definition(*t), ids@, None),
        },
{
    t.decode(ids, true).ok()
}

/// A tokenizer that was read from a definition.
pub struct WhisperTokenizer {
    inner: FastTokenizer,
}

/// The definition that a tokenizer was read from.
pub closed spec fn definition_of(t: WhisperTokenizer) -> JsonTree {
    tokenizer_definition(t.inner)
}

/// The texts of tokens, without those that have none and the special ones.
pub closed spec fn left_texts(t: WhisperTokenizer, ids: Seq<u32>) -> Seq<Seq<char>> {
    kept_texts(t.inner, ids)
}

/// The texts of tokens can be put together.
pub closed spec fn decodable(t: WhisperTokenizer, ids: Seq<u32>) -> bool {
    can_decode(t.inner, ids)
}

/// `text` is what a tokenizer has for tokens. Where it has no text left for them and cannot do without,
/// that is the empty text. It has none where texts cannot be put together.
pub open spec fn tokens_told(t: WhisperTokenizer, ids: Seq<u32>, text: Option<Seq<char>>) -> bool {
    if decodable(t, ids) {
        text_outcome(definition_of(t), ids, text)
    } else if left_texts(t, ids).len() == 0 {
        text == Some(Seq::<char>::empty())
    } else {
        text is None
    }
}

/// Why a definition cannot be used.
#[derive(Debug, Clone, Copy, PartialEq, Eq, Structural)]
pub enum DefinitionError {
    /// It does not define a tokenizer, or has merges that make texts outside of the vocabulary.
    Malformed,
    /// Its normalizer names a table of characters that cannot be read, or applies a table or a regular
    /// expression to added tokens.
    Normalizer,
}

impl WhisperTokenizer {
    /// The tokenizer of a definition in JSON.
    pub fn from_json(definition: &str) -> (r: Result<WhisperTokenizer, DefinitionError>)
        ensures
            match json_of(definition@) {
                None => r matches Err(e) && e == DefinitionError::Malformed,
                Some(d) => match r {
                    Ok(t) => {
                        &&& definition_of(t) == d
                        &&& normalizer_usable(d)
                        &&& definition_merges_known(d)
                        &&& defines_tokenizer(d)
                    },
                    Err(DefinitionError::Normalizer) => !normalizer_usable(d),
                    Err(DefinitionError::Malformed) => {
                        &&& normalizer_usable(d)
                        &&& !definition_merges_known(d) || !defines_tokenizer(d)
                    },
                },
            },
    {
        let value = match read_json(definition) {
            Ok(v) => v,
            Err(_) => {
                return Err(DefinitionError::Malformed);
            },
        };
        if let Some(n) = member_of(&value, "normalizer") {
            let table = does_mention(n, "Precompiled");
            if table && !do_tables_read(n) {
                return Err(DefinitionError::Normalizer);
            }
            if (table || does_mention(n, "Regex")) && !are_all_as_written(&value) {
                return Err(DefinitionError::Normalizer);
            }
        }
        if let Some(model) = member_of(&value, "model") {
            if !has_no_merges(model) && !are_merges_known(model) {
                return Err(DefinitionError::Malformed);
            }
        }
        match read_tokenizer(value) {
            Ok(inner) => Ok(WhisperTokenizer { inner }),
            Err(_) => Err(DefinitionError::Malformed),
        }
    }

    /// The number of a token's text.
    pub fn token_id(&self, text: &str) -> (r: Option<u32>)
        ensures
            r == token_number(definition_of(*self), text@),
    {
        token_to_id(&self.inner, text)
    }

    /// The text of tokens, special ones left out.
    pub fn decode(&self, ids: &Vec<u32>) -> (r: Option<String>)
        ensures
            match r {
                Some(s) => tokens_told(*self, ids@, Some(s@)),
                None => tokens_told(*self, ids@, None),
            },
    {
        if let Some(d) = decoder_of(&self.inner) {
            let texts = texts_of(&self.inner, ids);
            let none = texts.len() == 0;
            if let Passage::Stuck = pass(&d, texts) {
                if none {
                    let empty: String = String::new();
                    assert(empty@ =~= Seq::<char>::empty());
                    return Some(empty);
                }
                return None;
            }
        }
        decode_tokens(&self.inner, ids)
    }
}

/// Tokens give their texts in order. A special token, or one without a text, gives none.
pub proof fn law_special_texts_are_left_out(t: FastTokenizer, ids: Seq<u32>, id: u32)
    ensures
        kept_texts(t, Seq::empty()).len() == 0,
        token_text(t, id) matches Some(s) ==> kept_texts(t, ids.push(id)) == (if special_text(t, s) {
            kept_texts(t, ids)
        } else {
            kept_texts(t, ids).push(s)
        }),
        token_text(t, id) is None ==> kept_texts(t, ids.push(id)) == kept_texts(t, ids),
{
    assert(ids.push(id).drop_last() =~= ids);
}

/// The steps of a chain pass texts on one after another: what one step more makes of texts is what it makes
/// of those that the steps before it gave.
pub proof fn law_steps_pass_texts_on(
    parts: Seq<DecoderTree>,
    last: DecoderTree,
    texts: Seq<Seq<char>>,
)
    ensures
        passed(DecoderTree::Chain(Seq::empty()), texts) == Some(texts),
        passed(DecoderTree::Chain(parts.push(last)), texts) == match passed(
            DecoderTree::Chain(parts),
            texts,
        ) {
            Some(next) => passed(last, next),
            None => None,
        },
{
    assert(passed_from(Seq::<DecoderTree>::empty(), 0, texts) == Some(texts));
    lemma_one_step_more(parts, last, 0, texts);
}

proof fn lemma_one_step_more(
    parts: Seq<DecoderTree>,
    last: DecoderTree,
    i: int,
    texts: Seq<Seq<char>>,
)
    requires
        0 <= i <= parts.len(),
    ensures
        passed_from(parts.push(last), i, texts) == match passed_from(parts, i, texts) {
            Some(next) => passed(last, next),
            None => None,
        },
    decreases parts.len() - i,
{
    let more = parts.push(last);
    if i < parts.len() {
        assert(more[i] == parts[i]);
        match passed(parts[i], texts) {
            Some(next) => {
                lemma_one_step_more(parts, last, i + 1, next);
            },
            None => {},
        }
    } else {
        assert(more[i] == last);
        match passed(last, texts) {
            Some(next) => {
                assert(passed_from(more, i + 1, next) == Some(next));
            },
            None => {},
        }
    }
}

} // verus!
