//! The token decoder of Qwen3-ASR.
//!
//! The base vocabulary maps texts to numbers. Special tokens and other added ones follow from a
//! second table. Token texts are written in the byte-level alphabet of GPT-2, in which a printable
//! character stands for each byte, and are turned back into bytes before they are read as UTF-8.
use crate::json::{
    flag_in, items_in, json_of, json_tree, member, member_of, member_trees, members_in, read_json,
    text_in, value_trees, JsonTree,
};
use crate::text::{chars_of, number_of, parse_number, same_text, trim, trimmed};
use std::collections::{HashMap, HashSet};
use vstd::prelude::*;
use vstd::utf8::{decode_utf8, encode_utf8, valid_utf8};

verus! {

broadcast use vstd::std_specs::hash::group_hash_axioms;

// ---------------------------------------------------------------------------
// The byte-level alphabet
// ---------------------------------------------------------------------------

/// Bytes that stand for themselves: printable ASCII and printable Latin-1.
pub open spec fn stands_for_itself(b: u8) -> bool {
    33 <= b <= 126 || 161 <= b <= 172 || 174 <= b <= 255
}

/// The number of lesser bytes that do not stand for themselves.
pub open spec fn unprintable_below(b: int) -> int {
    if b <= 33 {
        b
    } else if b <= 127 {
        33
    } else if b <= 161 {
        33 + (b - 127)
    } else if b <= 173 {
        67
    } else {
        68
    }
}

/// The code point that stands for a byte: its own, or the next free one from 256 on.
pub open spec fn byte_code(b: u8) -> u32 {
    if stands_for_itself(b) {
        b as u32
    } else {
        (256 + unprintable_below(b as int)) as u32
    }
}

/// No code point stands for two bytes.
pub proof fn law_byte_alphabet_is_injective(a: u8, b: u8)
    requires
        byte_code(a) == byte_code(b),
    ensures
        a == b,
{
}

/// Printable bytes stand for themselves. The others are counted from 256 on in their order: the first one is
/// zero, and the next one behind another has the next code point.
pub proof fn law_unprintable_bytes_are_counted(a: u8, b: u8)
    ensures
        33 <= b <= 126 || 161 <= b <= 172 || 174 <= b ==> byte_code(b) == b,
        byte_code(0) == 256,
        byte_code(32) == 0x120,
        a < b && !(33 <= a <= 126 || 161 <= a <= 172 || 174 <= a) && !(33 <= b <= 126 || 161 <= b
            <= 172 || 174 <= b) && (forall|m: u8|
            a < m < b ==> 33 <= #[trigger] byte_code(m) <= 126 || 161 <= byte_code(m) <= 172 || 174
                <= byte_code(m) <= 255) ==> byte_code(b) == byte_code(a) + 1,
{
    if a < b && !(33 <= a <= 126 || 161 <= a <= 172 || 174 <= a) && !(33 <= b <= 126 || 161 <= b
        <= 172 || 174 <= b) && (forall|m: u8|
        a < m < b ==> 33 <= #[trigger] byte_code(m) <= 126 || 161 <= byte_code(m) <= 172 || 174
            <= byte_code(m) <= 255) {
        let next = (a + 1) as u8;
        if next < b {
            assert(byte_code(next) <= 255);
            if a == 32 {
                assert(byte_code(127) > 255);
            }
            if a == 160 {
                assert(byte_code(173) > 255);
            }
        }
    }
}

/// The code points of the alphabet with the bytes that they stand for.
pub open spec fn byte_table() -> Map<u32, u8> {
    Map::new(
        |c: u32| exists|b: u8| #[trigger] byte_code(b) == c,
        |c: u32| choose|b: u8| #[trigger] byte_code(b) == c,
    )
}

/// The table gives each byte back from the code point that stands for it.
pub proof fn law_byte_table_inverts(b: u8)
    ensures
        byte_table().contains_key(byte_code(b)),
        byte_table()[byte_code(b)] == b,
{
    let c = byte_code(b);
    let a = choose|a: u8| #[trigger] byte_code(a) == c;
    assert(byte_code(a) == c);
    law_byte_alphabet_is_injective(a, b);
}

/// The bytes by the code points that stand for them.
pub fn gpt2_byte_decoder() -> (r: HashMap<u32, u8>)
    ensures
        r@ == byte_table(),
{
    let mut map: HashMap<u32, u8> = HashMap::new();
    let mut b: u32 = 0;
    let mut n: u32 = 0;
    while b < 256
        invariant
            b <= 256,
            n == unprintable_below(b as int),
            forall|a: u8| a < b ==> #[trigger] map@.contains_key(byte_code(a)),
            forall|a: u8| a < b ==> #[trigger] map@[byte_code(a)] == a,
            forall|c: u32| #[trigger]
                map@.contains_key(c) ==> exists|a: u8| a < b && #[trigger] byte_code(a) == c,
        decreases 256 - b,
    {
        let itself = (b >= 33 && b <= 126) || (b >= 161 && b <= 172) || b >= 174;
        let code: u32 = if itself {
            b
        } else {
            256 + n
        };
        let ghost before = map@;
        assert(code == byte_code(b as u8));
        map.insert(code, b as u8);
        assert forall|a: u8| a < b + 1 implies #[trigger] map@[byte_code(a)] == a by {
            if a < b {
                assert(before.contains_key(byte_code(a)));
                assert(before[byte_code(a)] == a);
                if byte_code(a) == code {
                    law_byte_alphabet_is_injective(a, b as u8);
                }
            }
        }
        assert forall|a: u8| a < b + 1 implies #[trigger] map@.contains_key(byte_code(a)) by {
            if a < b {
                assert(before.contains_key(byte_code(a)));
            }
        }
        assert forall|c: u32| #[trigger] map@.contains_key(c) implies exists|a: u8|
            a < b + 1 && #[trigger] byte_code(a) == c by {
            if c == code {
                assert(byte_code(b as u8) == c);
            } else {
                assert(before.contains_key(c));
                let a = choose|a: u8| a < b && #[trigger] byte_code(a) == c;
                assert(byte_code(a) == c);
            }
        }
        if !itself {
            n = n + 1;
        }
        b = b + 1;
    }
    proof {
        assert forall|c: u32| map@.contains_key(c) == byte_table().contains_key(c) by {
            if byte_table().contains_key(c) {
                let a = choose|a: u8| #[trigger] byte_code(a) == c;
                assert(map@.contains_key(byte_code(a)));
            }
        }
        assert forall|c: u32| map@.contains_key(c) implies map@[c] == byte_table()[c] by {
            let a = choose|a: u8| a < b && #[trigger] byte_code(a) == c;
            law_byte_table_inverts(a);
            assert(map@[byte_code(a)] == a);
        }
        assert(map@ =~= byte_table());
    }
    map
}

/// What reading bytes as UTF-8 gives, where ill-formed parts are replaced.
pub uninterp spec fn utf8_lossy(bytes: Seq<u8>) -> Seq<char>;

/// `String::from_utf8_lossy` reads bytes as UTF-8. Ill-formed parts become replacement characters;
/// well-formed bytes are read exactly.
#[verifier::external_body]
fn read_lossy(bytes: &Vec<u8>) -> (r: String)
    ensures
        r@ == utf8_lossy(bytes@),
        valid_utf8(bytes@) ==> r@ == decode_utf8(bytes@),
{
    String::from_utf8_lossy(bytes).to_string()
}

/// The bytes that a character stands for: the one of the table, or its own UTF-8 form.
pub open spec fn bytes_of_char(c: char, table: Map<u32, u8>) -> Seq<u8> {
    if table.contains_key(c as u32) {
        seq![table[c as u32]]
    } else {
        encode_utf8(seq![c])
    }
}

/// The bytes that a text stands for.
pub open spec fn bytes_under(s: Seq<char>, table: Map<u32, u8>) -> Seq<u8>
    decreases s.len(),
{
    if s.len() == 0 {
        Seq::empty()
    } else {
        bytes_under(s.drop_last(), table) + bytes_of_char(s.last(), table)
    }
}

/// Characters are read one by one in their order: one more adds the byte of the table that it stands for, or
/// its own UTF-8 form where the table does not have it.
pub proof fn law_characters_add_their_bytes(s: Seq<char>, c: char, table: Map<u32, u8>)
    ensures
        table.contains_key(c as u32) ==> bytes_under(s.push(c), table) == bytes_under(s, table).push(
            table[c as u32],
        ),
        !table.contains_key(c as u32) ==> bytes_under(s.push(c), table) == bytes_under(s, table)
            + encode_utf8(seq![c]),
        bytes_under(Seq::<char>::empty(), table).len() == 0,
{
    assert(s.push(c).drop_last() =~= s);
    if table.contains_key(c as u32) {
        assert(bytes_under(s, table) + seq![table[c as u32]] =~= bytes_under(s, table).push(
            table[c as u32],
        ));
    }
}

/// The text that a text in the byte-level alphabet stands for.
pub fn byte_level_decode(s: &str, byte_decoder: &HashMap<u32, u8>) -> (r: String)
    ensures
        r@ == utf8_lossy(bytes_under(s@, byte_decoder@)),
        valid_utf8(bytes_under(s@, byte_decoder@)) ==> r@ == decode_utf8(
            bytes_under(s@, byte_decoder@),
        ),
{
    let chars = chars_of(s);
    let mut bytes: Vec<u8> = Vec::new();
    let mut i: usize = 0;
    assert(s@.take(0).len() == 0);
    while i < chars.len()
        invariant
            chars@ == s@,
            i <= s@.len(),
            bytes@ == bytes_under(s@.take(i as int), byte_decoder@),
        decreases s@.len() - i,
    {
        let ch = chars[i];
        proof {
            assert(s@.take(i + 1).drop_last() == s@.take(i as int));
            assert(s@.take(i + 1).last() == ch);
        }
        match byte_decoder.get(&(ch as u32)) {
            Some(b) => {
                bytes.push(*b);
                assert(bytes@ =~= bytes_under(s@.take(i as int), byte_decoder@) + seq![*b]);
            },
            None => {
                let mut one: String = String::new();
                one.push(ch);
                assert(one@ =~= seq![ch]);
                let ghost before = bytes@;
                let enc = one.as_str().as_bytes();
                bytes.extend_from_slice(enc);
                assert(bytes@ =~= before + encode_utf8(seq![ch]));
            },
        }
        i += 1;
    }
    assert(s@.take(s@.len() as int) == s@);
    read_lossy(&bytes)
}

/// Bytes written in the byte-level alphabet.
pub open spec fn byte_level_text(bytes: Seq<u8>) -> Seq<char> {
    bytes.map_values(|b: u8| byte_code(b) as char)
}

/// Bytes written in the byte-level alphabet stand for themselves: reading them through the table
/// gives them back.
pub proof fn law_byte_level_roundtrip(bytes: Seq<u8>)
    ensures
        bytes_under(byte_level_text(bytes), byte_table()) == bytes,
    decreases bytes.len(),
{
    let s = byte_level_text(bytes);
    if bytes.len() > 0 {
        law_byte_level_roundtrip(bytes.drop_last());
        assert(s.drop_last() =~= byte_level_text(bytes.drop_last()));
        let b = bytes.last();
        law_byte_table_inverts(b);
        assert(s.last() as u32 == byte_code(b));
        assert(bytes_of_char(s.last(), byte_table()) =~= seq![b]);
        assert(bytes =~= bytes.drop_last() + seq![b]);
    } else {
        assert(bytes =~= Seq::<u8>::empty());
    }
}

/// The UTF-8 bytes of a text, written in the byte-level alphabet, stand for well-formed bytes that
/// read as that text.
pub proof fn law_byte_level_text_reads_back(text: Seq<char>)
    ensures
        valid_utf8(bytes_under(byte_level_text(encode_utf8(text)), byte_table())),
        decode_utf8(bytes_under(byte_level_text(encode_utf8(text)), byte_table())) == text,
{
    broadcast use vstd::utf8::encode_utf8_valid_utf8, vstd::utf8::encode_utf8_decode_utf8;

    law_byte_level_roundtrip(encode_utf8(text));
}

// ---------------------------------------------------------------------------
// Tables
// ---------------------------------------------------------------------------

/// What a vocabulary file in JSON holds: texts with their numbers, if it is one object whose values
/// are numbers of 32 bits.
pub uninterp spec fn vocabulary_entries(json: Seq<char>) -> Option<Seq<(Seq<char>, u32)>>;

/// Texts with numbers, by their characters.
pub open spec fn entry_views(entries: Seq<(String, u32)>) -> Seq<(Seq<char>, u32)> {
    entries.map_values(|e: (String, u32)| (e.0@, e.1))
}

/// No text comes twice.
pub open spec fn distinct_texts(entries: Seq<(Seq<char>, u32)>) -> bool {
    forall|i: int, j: int|
        0 <= i < j < entries.len() ==> (#[trigger] entries[i]).0 != (#[trigger] entries[j]).0
}

/// `serde_json::from_str` into a map from texts to numbers, in the order of the texts. No text comes
/// twice.
#[verifier::external_body]
fn read_vocabulary(json: &str) -> (r: Result<Vec<(String, u32)>, serde_json::Error>)
    ensures
        match r {
            Ok(entries) => vocabulary_entries(json@) == Some(entry_views(entries@)),
            Err(_) => vocabulary_entries(json@) is None,
        },
        r matches Ok(entries) ==> distinct_texts(entry_views(entries@)),
{
    serde_json::from_str::<std::collections::BTreeMap<String, u32>>(json).map(
        |m| m.into_iter().collect(),
    )
}

/// An entry of the table of added tokens. `body` is missing where the entry is malformed.
pub struct AddedTokenEntry {
    /// The token's number in decimal.
    pub key: String,
    /// The token's text, and whether it is left out of decoded texts.
    pub body: Option<(String, bool)>,
}

/// An entry of the table of added tokens, by its characters.
#[verifier::ext_equal]
pub struct AddedView {
    pub key: Seq<char>,
    pub body: Option<(Seq<char>, bool)>,
}

impl View for AddedTokenEntry {
    type V = AddedView;

    open spec fn view(&self) -> AddedView {
        AddedView {
            key: self.key@,
            body: match self.body {
                Some(b) => Some((b.0@, b.1)),
                None => None,
            },
        }
    }
}

/// Entries of the table of added tokens, by their characters.
pub open spec fn added_views(entries: Seq<AddedTokenEntry>) -> Seq<AddedView> {
    entries.map_values(|e: AddedTokenEntry| e@)
}

/// The text and the flag of an added token, as JSON gives them: under their names in an object, or as a
/// list of the two.
pub open spec fn added_body(t: JsonTree) -> Option<(Seq<char>, bool)> {
    match t {
        JsonTree::Object(_) => match (member(t, "content"@), member(t, "special"@)) {
            (Some(JsonTree::Text(content)), Some(JsonTree::Flag(special))) => Some(
                (content, special),
            ),
            _ => None,
        },
        JsonTree::List(items) => if items.len() == 2 {
            match (items[0], items[1]) {
                (JsonTree::Text(content), JsonTree::Flag(special)) => Some((content, special)),
                _ => None,
            }
        } else {
            None
        },
        _ => None,
    }
}

/// The entries of a table of added tokens; none where it is no object.
pub open spec fn table_entries(table: Option<JsonTree>) -> Seq<AddedView> {
    match table {
        Some(JsonTree::Object(members)) => members.map_values(
            |m: (Seq<char>, JsonTree)| AddedView { key: m.0, body: added_body(m.1) },
        ),
        _ => Seq::empty(),
    }
}

/// The entries of the table of added tokens of a configuration in JSON; none where it is not JSON.
pub open spec fn added_entries(config_json: Seq<char>) -> Option<Seq<AddedView>> {
    match json_of(config_json) {
        None => None,
        Some(config) => Some(table_entries(member(config, "added_tokens_decoder"@))),
    }
}

fn read_added_body(v: &serde_json::Value) -> (r: Option<(String, bool)>)
    ensures
        match r {
            Some(b) => added_body(json_tree(*v)) == Some((b.0@, b.1)),
            None => added_body(json_tree(*v)) is None,
        },
{
    let (content, special) = if let Some(items) = items_in(v) {
        assert(json_tree(*v) == JsonTree::List(value_trees(items@)));
        if items.len() != 2 {
            return None;
        }
        assert(value_trees(items@)[0] == json_tree(items@[0]));
        assert(value_trees(items@)[1] == json_tree(items@[1]));
        (&items[0], &items[1])
    } else {
        match (member_of(v, "content"), member_of(v, "special")) {
            (Some(content), Some(special)) => (content, special),
            _ => {
                return None;
            },
        }
    };
    match (text_in(content), flag_in(special)) {
        (Some(c), Some(s)) => Some((c.to_owned(), s)),
        _ => None,
    }
}

/// Reads the entries of the table of added tokens from a configuration in JSON.
pub fn read_added_entries(config_json: &str) -> (r: Result<Vec<AddedTokenEntry>, TokenizerError>)
    ensures
        match r {
            Ok(entries) => added_entries(config_json@) == Some(added_views(entries@)),
            Err(e) => e is MalformedConfig && added_entries(config_json@) is None,
        },
{
    let config = match read_json(config_json) {
        Ok(c) => c,
        Err(_) => {
            return Err(TokenizerError::MalformedConfig);
        },
    };
    let ghost table = member(json_tree(config), "added_tokens_decoder"@);
    let mut entries: Vec<AddedTokenEntry> = Vec::new();
    assert(added_views(entries@) =~= Seq::empty());
    let members = match member_of(&config, "added_tokens_decoder") {
        Some(t) => match members_in(t) {
            Some(m) => m,
            None => {
                return Ok(entries);
            },
        },
        None => {
            return Ok(entries);
        },
    };
    let ghost all = table_entries(table);
    let mut i: usize = 0;
    while i < members.len()
        invariant
            i <= members@.len(),
            all.len() == members@.len(),
            all == table_entries(Some(JsonTree::Object(member_trees(members@)))),
            added_views(entries@) == all.take(i as int),
        decreases members@.len() - i,
    {
        let entry = AddedTokenEntry {
            key: members[i].0.clone(),
            body: read_added_body(&members[i].1),
        };
        let ghost before = entries@;
        entries.push(entry);
        proof {
            assert(all[i as int] =~= entry@);
            assert(added_views(entries@) =~= added_views(before).push(entry@));
            assert(all.take(i + 1) =~= all.take(i as int).push(entry@));
        }
        i += 1;
    }
    assert(all.take(all.len() as int) =~= all);
    Ok(entries)
}

/// An added token.
pub struct AddedToken {
    pub id: u32,
    pub content: String,
    pub special: bool,
}

/// Why a tokenizer could not be made.
pub enum TokenizerError {
    /// The vocabulary is not an object of numbers.
    MalformedVocabulary,
    /// The configuration is not JSON.
    MalformedConfig,
    /// A key in the table of added tokens is not a number.
    MalformedId(String),
    /// An entry in the table of added tokens lacks its text or its flag.
    MalformedEntry(String),
    /// A number is too large for a table of texts on this machine.
    IdTooLarge,
}

/// The number that an added token's key spells.
pub open spec fn added_id(e: AddedView) -> Option<nat> {
    match number_of(e.key) {
        Some(n) if n <= u32::MAX => Some(n),
        _ => None,
    }
}

/// An entry that can be used.
pub open spec fn good_entry(e: AddedView) -> bool {
    added_id(e) is Some && e.body is Some
}

/// The added token of an entry.
pub open spec fn token_of_entry(e: AddedView, t: AddedToken) -> bool {
    &&& added_id(e) == Some(t.id as nat)
    &&& e.body == Some((t.content@, t.special))
}

/// All entries can be used.
pub open spec fn all_good(entries: Seq<AddedView>) -> bool {
    forall|i: int| 0 <= i < entries.len() ==> good_entry(#[trigger] entries[i])
}

/// Entry `i` is the first that cannot be used, and the error says why.
pub open spec fn first_bad(entries: Seq<AddedView>, i: int, e: TokenizerError) -> bool {
    &&& 0 <= i < entries.len()
    &&& !good_entry(entries[i])
    &&& forall|j: int| 0 <= j < i ==> good_entry(#[trigger] entries[j])
    &&& if added_id(entries[i]) is None {
        e matches TokenizerError::MalformedId(k) && k@ == entries[i].key
    } else {
        e matches TokenizerError::MalformedEntry(k) && k@ == entries[i].key
    }
}

/// The error is that of the first entry that cannot be used.
pub open spec fn reports_first_bad(entries: Seq<AddedView>, e: TokenizerError) -> bool {
    exists|i: int| #[trigger] first_bad(entries, i, e)
}

/// Reads the table of added tokens. The first entry that cannot be used is reported: its key where
/// that is not a number, otherwise what is missing.
pub fn read_added_tokens(entries: &Vec<AddedTokenEntry>) -> (r: Result<
    Vec<AddedToken>,
    TokenizerError,
>)
    ensures
        match r {
            Ok(tokens) => {
                &&& tokens@.len() == entries@.len()
                &&& forall|i: int|
                    0 <= i < tokens@.len() ==> token_of_entry(
                        added_views(entries@)[i],
                        #[trigger] tokens@[i],
                    )
            },
            Err(e) => reports_first_bad(added_views(entries@), e),
        },
        r is Ok == all_good(added_views(entries@)),
{
    let ghost views = added_views(entries@);
    let mut out: Vec<AddedToken> = Vec::new();
    let mut i: usize = 0;
    while i < entries.len()
        invariant
            i <= entries@.len(),
            views == added_views(entries@),
            out@.len() == i,
            forall|j: int| 0 <= j < i ==> token_of_entry(views[j], #[trigger] out@[j]),
            forall|j: int| 0 <= j < i ==> good_entry(#[trigger] views[j]),
        decreases entries@.len() - i,
    {
        let e = &entries[i];
        assert(views[i as int] == e@);
        match parse_number(e.key.as_str(), u32::MAX as u64) {
            None => {
                let error = TokenizerError::MalformedId(e.key.clone());
                assert(first_bad(views, i as int, error));
                return Err(error);
            },
            Some(id) => match &e.body {
                None => {
                    let error = TokenizerError::MalformedEntry(e.key.clone());
                    assert(first_bad(views, i as int, error));
                    return Err(error);
                },
                Some(body) => {
                    let t = AddedToken {
                        id: id as u32,
                        content: body.0.clone(),
                        special: body.1,
                    };
                    assert(token_of_entry(views[i as int], t));
                    out.push(t);
                    assert(good_entry(views[i as int]));
                },
            },
        }
        i += 1;
    }
    Ok(out)
}

// ---------------------------------------------------------------------------
// The tokenizer
// ---------------------------------------------------------------------------

/// The first end-of-text token.
pub const END_OF_TEXT: u32 = 151643;

/// The second end-of-text token, which ends a turn of a dialogue.
pub const END_OF_TURN: u32 = 151645;

/// A token decoder.
pub struct Tokenizer {
    /// The text of each token.
    pub id_to_token: Vec<Option<String>>,
    /// Texts with their numbers. Of several entries with one text the first one counts.
    pub token_to_id: Vec<(String, u32)>,
    /// Tokens that are left out of decoded texts.
    pub special_ids: HashSet<u32>,
    /// Tokens that end a text.
    pub eos_token_ids: HashSet<u32>,
    /// The bytes of the byte-level alphabet.
    pub byte_decoder: HashMap<u32, u8>,
}

/// The text of a token, by its characters.
pub open spec fn text_view(t: Option<String>) -> Option<Seq<char>> {
    match t {
        Some(s) => Some(s@),
        None => None,
    }
}

/// The last of the entries with a number, by its text.
pub open spec fn last_text(entries: Seq<(String, u32)>, id: u32) -> Option<Seq<char>>
    decreases entries.len(),
{
    if entries.len() == 0 {
        None
    } else if entries.last().1 == id {
        Some(entries.last().0@)
    } else {
        last_text(entries.drop_last(), id)
    }
}

/// The last of the added tokens with a number.
pub open spec fn last_added(added: Seq<AddedToken>, id: u32) -> Option<AddedToken>
    decreases added.len(),
{
    if added.len() == 0 {
        None
    } else if added.last().id == id {
        Some(added.last())
    } else {
        last_added(added.drop_last(), id)
    }
}

/// The text that a token has after all tables were read: an added token's own, otherwise the
/// vocabulary's.
pub open spec fn token_text(
    vocab: Seq<(String, u32)>,
    added: Seq<AddedToken>,
    id: u32,
) -> Option<Seq<char>> {
    match last_added(added, id) {
        Some(t) => Some(t.content@),
        None => last_text(vocab, id),
    }
}

/// The number of the first entry with a text.
pub open spec fn first_id(entries: Seq<(String, u32)>, text: Seq<char>) -> Option<u32>
    decreases entries.len(),
{
    if entries.len() == 0 {
        None
    } else if entries[0].0@ == text {
        Some(entries[0].1)
    } else {
        first_id(entries.skip(1), text)
    }
}

/// An added token that no later one with the same number replaces.
pub open spec fn survives(added: Seq<AddedToken>, i: int) -> bool {
    0 <= i < added.len() && forall|j: int| i < j < added.len() ==> added[j].id != added[i].id
}

/// The added tokens among the first `n` that survive, with their texts.
pub open spec fn surviving(added: Seq<AddedToken>, n: int) -> Seq<(Seq<char>, u32)>
    decreases n,
{
    if n <= 0 {
        Seq::empty()
    } else if survives(added, n - 1) {
        surviving(added, n - 1).push((added[n - 1].content@, added[n - 1].id))
    } else {
        surviving(added, n - 1)
    }
}

/// Every number leaves room for the table of texts that ends with it.
pub open spec fn ids_fit(vocab: Seq<(Seq<char>, u32)>, added: Seq<AddedToken>) -> bool {
    &&& forall|i: int| 0 <= i < vocab.len() ==> (#[trigger] vocab[i]).1 < usize::MAX
    &&& forall|i: int| 0 <= i < added.len() ==> (#[trigger] added[i]).id < usize::MAX
}

/// The text that tokens give, before the byte-level alphabet is undone: the texts of the tokens up to
/// the first one that ends a text, without the special ones and those that have no text.
pub open spec fn raw_text(t: Tokenizer, ids: Seq<u32>) -> Seq<char>
    decreases ids.len(),
{
    if ids.len() == 0 || t.eos_token_ids@.contains(ids[0]) {
        Seq::empty()
    } else {
        own_text(t, ids[0]) + raw_text(t, ids.skip(1))
    }
}

/// What one token adds.
pub open spec fn own_text(t: Tokenizer, id: u32) -> Seq<char> {
    if !t.special_ids@.contains(id) && (id as int) < t.id_to_token@.len() {
        match t.id_to_token@[id as int] {
            Some(s) => s@,
            None => Seq::empty(),
        }
    } else {
        Seq::empty()
    }
}

fn greatest_id(vocab: &Vec<(String, u32)>, added: &Vec<AddedToken>) -> (r: u32)
    ensures
        forall|i: int| 0 <= i < vocab@.len() ==> (#[trigger] vocab@[i]).1 <= r,
        forall|i: int| 0 <= i < added@.len() ==> (#[trigger] added@[i]).id <= r,
        r == 0 || (exists|i: int| 0 <= i < vocab@.len() && (#[trigger] vocab@[i]).1 == r) || (
        exists|i: int| 0 <= i < added@.len() && (#[trigger] added@[i]).id == r),
{
    let mut max: u32 = 0;
    let mut i: usize = 0;
    while i < vocab.len()
        invariant
            i <= vocab@.len(),
            forall|j: int| 0 <= j < i ==> (#[trigger] vocab@[j]).1 <= max,
            max == 0 || (exists|j: int| 0 <= j < i && (#[trigger] vocab@[j]).1 == max),
        decreases vocab@.len() - i,
    {
        if vocab[i].1 > max {
            max = vocab[i].1;
        }
        i += 1;
    }
    let mut k: usize = 0;
    while k < added.len()
        invariant
            k <= added@.len(),
            forall|j: int| 0 <= j < vocab@.len() ==> (#[trigger] vocab@[j]).1 <= max,
            forall|j: int| 0 <= j < k ==> (#[trigger] added@[j]).id <= max,
            max == 0 || (exists|j: int| 0 <= j < vocab@.len() && (#[trigger] vocab@[j]).1 == max)
                || (exists|j: int| 0 <= j < k && (#[trigger] added@[j]).id == max),
        decreases added@.len() - k,
    {
        if added[k].id > max {
            max = added[k].id;
        }
        k += 1;
    }
    max
}

fn replaced_later(added: &Vec<AddedToken>, i: usize) -> (r: bool)
    requires
        i < added@.len(),
    ensures
        r == !survives(added@, i as int),
{
    let n: usize = added.len();
    let mut j: usize = i + 1;
    while j < n
        invariant
            i < j <= n,
            n == added@.len(),
            forall|k: int| i < k < j ==> added@[k].id != added@[i as int].id,
        decreases added@.len() - j,
    {
        if added[j].id == added[i].id {
            return true;
        }
        j += 1;
    }
    false
}

/// The texts that the vocabulary gives to the first `len` numbers.
fn vocabulary_texts(vocab: &Vec<(String, u32)>, len: usize) -> (r: Vec<Option<String>>)
    requires
        forall|k: int| 0 <= k < vocab@.len() ==> (#[trigger] vocab@[k]).1 < len,
    ensures
        r@.len() == len,
        forall|id: u32| id < len ==> text_view(#[trigger] r@[id as int]) == last_text(vocab@, id),
{
    let mut id_to_token: Vec<Option<String>> = Vec::new();
    let mut n: usize = 0;
    while n < len
        invariant
            n <= len,
            id_to_token@.len() == n,
            forall|k: int| 0 <= k < n ==> (#[trigger] id_to_token@[k]) is None,
        decreases len - n,
    {
        id_to_token.push(None);
        n += 1;
    }
    let mut i: usize = 0;
    assert(vocab@.take(0).len() == 0);
    while i < vocab.len()
        invariant
            i <= vocab@.len(),
            id_to_token@.len() == len,
            forall|k: int| 0 <= k < vocab@.len() ==> (#[trigger] vocab@[k]).1 < len,
            forall|id: u32|
                id < len ==> text_view(#[trigger] id_to_token@[id as int]) == last_text(
                    vocab@.take(i as int),
                    id,
                ),
        decreases vocab@.len() - i,
    {
        let id = vocab[i].1;
        let text = vocab[i].0.clone();
        let ghost before = id_to_token@;
        id_to_token.set(id as usize, Some(text));
        proof {
            assert(vocab@.take(i + 1).drop_last() == vocab@.take(i as int));
            assert(vocab@.take(i + 1).last() == vocab@[i as int]);
            assert forall|k: u32| k < len implies text_view(#[trigger] id_to_token@[k as int])
                == last_text(vocab@.take(i + 1), k) by {
                if k != id {
                    assert(id_to_token@[k as int] == before[k as int]);
                }
            }
        }
        i += 1;
    }
    assert(vocab@.take(vocab@.len() as int) == vocab@);
    id_to_token
}

/// Puts the texts of added tokens in the place of those that were there.
fn place_added(id_to_token: &mut Vec<Option<String>>, added: &Vec<AddedToken>)
    requires
        forall|k: int| 0 <= k < added@.len() ==> (#[trigger] added@[k]).id < old(id_to_token)@.len(),
    ensures
        final(id_to_token)@.len() == old(id_to_token)@.len(),
        forall|id: u32|
            id < final(id_to_token)@.len() ==> text_view(#[trigger] final(id_to_token)@[id as int])
                == match last_added(added@, id) {
                Some(t) => Some(t.content@),
                None => text_view(old(id_to_token)@[id as int]),
            },
{
    let ghost first = id_to_token@;
    let mut a: usize = 0;
    assert(added@.take(0).len() == 0);
    while a < added.len()
        invariant
            a <= added@.len(),
            id_to_token@.len() == first.len(),
            forall|k: int| 0 <= k < added@.len() ==> (#[trigger] added@[k]).id < first.len(),
            forall|id: u32|
                id < first.len() ==> text_view(#[trigger] id_to_token@[id as int])
                    == match last_added(added@.take(a as int), id) {
                    Some(t) => Some(t.content@),
                    None => text_view(first[id as int]),
                },
        decreases added@.len() - a,
    {
        let id = added[a].id;
        let text = added[a].content.clone();
        let ghost before = id_to_token@;
        id_to_token.set(id as usize, Some(text));
        proof {
            assert(added@.take(a + 1).drop_last() == added@.take(a as int));
            assert(added@.take(a + 1).last() == added@[a as int]);
            assert forall|k: u32| k < first.len() implies text_view(
                #[trigger] id_to_token@[k as int],
            ) == match last_added(added@.take(a + 1), k) {
                Some(t) => Some(t.content@),
                None => text_view(first[k as int]),
            } by {
                if k != id {
                    assert(id_to_token@[k as int] == before[k as int]);
                }
            }
        }
        a += 1;
    }
    assert(added@.take(added@.len() as int) == added@);
}

/// Lists the added tokens that are not replaced behind those that are listed.
fn list_added(token_to_id: &mut Vec<(String, u32)>, added: &Vec<AddedToken>)
    ensures
        entry_views(final(token_to_id)@) == entry_views(old(token_to_id)@) + surviving(
            added@,
            added@.len() as int,
        ),
{
    let ghost base = token_to_id@;
    let mut a: usize = 0;
    assert(entry_views(token_to_id@) =~= entry_views(base) + surviving(added@, 0));
    while a < added.len()
        invariant
            a <= added@.len(),
            entry_views(token_to_id@) == entry_views(base) + surviving(added@, a as int),
        decreases added@.len() - a,
    {
        if !replaced_later(added, a) {
            let ghost listed = token_to_id@;
            let entry = (added[a].content.clone(), added[a].id);
            token_to_id.push(entry);
            assert(entry_views(token_to_id@) =~= entry_views(listed).push(
                (added@[a as int].content@, added@[a as int].id),
            ));
            assert(entry_views(token_to_id@) =~= entry_views(base) + surviving(added@, a + 1));
        }
        a += 1;
    }
}

/// The added tokens that are left out of decoded texts.
fn special_added(added: &Vec<AddedToken>) -> (r: HashSet<u32>)
    ensures
        forall|id: u32| #[trigger]
            r@.contains(id) == (last_added(added@, id) matches Some(t) && t.special),
{
    let mut special_ids: HashSet<u32> = HashSet::new();
    let mut a: usize = 0;
    while a < added.len()
        invariant
            a <= added@.len(),
            forall|id: u32| #[trigger]
                special_ids@.contains(id) == exists|k: int|
                    0 <= k < a && survives(added@, k) && (#[trigger] added@[k]).id == id
                        && added@[k].special,
        decreases added@.len() - a,
    {
        let ghost marked = special_ids@;
        if !replaced_later(added, a) && added[a].special {
            special_ids.insert(added[a].id);
        }
        proof {
            assert forall|k: u32| #[trigger] special_ids@.contains(k) == exists|m: int|
                0 <= m < a + 1 && survives(added@, m) && (#[trigger] added@[m]).id == k
                    && added@[m].special by {
                if marked.contains(k) {
                    let m = choose|m: int|
                        0 <= m < a && survives(added@, m) && (#[trigger] added@[m]).id == k
                            && added@[m].special;
                    assert(added@[m].id == k);
                }
                if exists|m: int|
                    0 <= m < a + 1 && survives(added@, m) && (#[trigger] added@[m]).id == k
                        && added@[m].special {
                    let m = choose|m: int|
                        0 <= m < a + 1 && survives(added@, m) && (#[trigger] added@[m]).id == k
                            && added@[m].special;
                    if m < a {
                        assert(marked.contains(k));
                    }
                }
            }
        }
        a += 1;
    }
    proof {
        assert forall|id: u32| #[trigger] special_ids@.contains(id) == (last_added(added@, id)
            matches Some(t) && t.special) by {
            lemma_last_added(added@, id);
        }
    }
    special_ids
}

/// The text of tokens.
pub open spec fn decoded_text(t: Tokenizer, ids: Seq<u32>) -> Seq<char> {
    trimmed(utf8_lossy(bytes_under(raw_text(t, ids), t.byte_decoder@)))
}

impl Tokenizer {
    /// The invariant that the constructor sets up: the byte table is the alphabet's, and the tokens
    /// that end a text are the two fixed ones.
    pub open spec fn wf(self) -> bool {
        &&& self.byte_decoder@ == byte_table()
        &&& self.eos_token_ids@ == set![END_OF_TEXT, END_OF_TURN]
    }

    /// A tokenizer from the vocabulary and the added tokens. An added token replaces the text that
    /// the vocabulary has for its number, but never the number that the vocabulary has for its text.
    pub fn from_tables(vocab: Vec<(String, u32)>, added: &Vec<AddedToken>) -> (r: Tokenizer)
        requires
            ids_fit(entry_views(vocab@), added@),
        ensures
            r.wf(),
            built_from(r, vocab@, added@),
    {
        let max_id = greatest_id(&vocab, added);
        proof {
            assert forall|i: int| 0 <= i < vocab@.len() implies (#[trigger] vocab@[i]).1
                < usize::MAX by {
                assert(entry_views(vocab@)[i].1 < usize::MAX);
            }
        }
        let len: usize = max_id as usize + 1;
        let mut id_to_token = vocabulary_texts(&vocab, len);
        place_added(&mut id_to_token, added);
        let special_ids = special_added(added);
        proof {
            assert forall|id: u32| id >= len implies token_text(vocab@, added@, id) is None by {
                lemma_no_text(vocab@, added@, id);
            }
        }
        let mut token_to_id: Vec<(String, u32)> = vocab;
        list_added(&mut token_to_id, added);
        let mut eos_token_ids: HashSet<u32> = HashSet::new();
        eos_token_ids.insert(END_OF_TEXT);
        eos_token_ids.insert(END_OF_TURN);
        assert(eos_token_ids@ =~= set![END_OF_TEXT, END_OF_TURN]);
        Tokenizer {
            id_to_token,
            token_to_id,
            special_ids,
            eos_token_ids,
            byte_decoder: gpt2_byte_decoder(),
        }
    }

    /// A tokenizer from the texts of a vocabulary and of a configuration with a table of added tokens.
    pub fn from_vocab_and_merges(vocab_json: &str, config_json: &str) -> (r: Result<
        Tokenizer,
        TokenizerError,
    >)
        ensures
            r matches Ok(t) ==> {
                &&& t.wf()
                &&& vocabulary_entries(vocab_json@) is Some
                &&& distinct_texts(vocabulary_entries(vocab_json@)->0)
                &&& added_entries(config_json@) is Some
                &&& all_good(added_entries(config_json@)->0)
                &&& made_of_files(
                    t,
                    vocabulary_entries(vocab_json@)->0,
                    added_entries(config_json@)->0,
                )
            },
            r matches Err(e) ==> if vocabulary_entries(vocab_json@) is None {
                e is MalformedVocabulary
            } else if added_entries(config_json@) is None {
                e is MalformedConfig
            } else if !all_good(added_entries(config_json@)->0) {
                reports_first_bad(added_entries(config_json@)->0, e)
            } else {
                e is IdTooLarge && u32::MAX >= usize::MAX
            },
    {
        let vocab = match read_vocabulary(vocab_json) {
            Ok(v) => v,
            Err(_) => {
                return Err(TokenizerError::MalformedVocabulary);
            },
        };
        let entries = match read_added_entries(config_json) {
            Ok(e) => e,
            Err(e) => {
                return Err(e);
            },
        };
        let added = match read_added_tokens(&entries) {
            Ok(a) => a,
            Err(e) => {
                return Err(e);
            },
        };
        if greatest_id(&vocab, &added) as usize == usize::MAX {
            return Err(TokenizerError::IdTooLarge);
        }
        let ghost v = vocab@;
        let ghost views = added_views(entries@);
        let t = Tokenizer::from_tables(vocab, &added);
        assert(made_from(t, vocabulary_entries(vocab_json@)->0, views, v, added@));
        assert(made_of_files(t, vocabulary_entries(vocab_json@)->0, views));
        Ok(t)
    }

    /// The text of tokens: up to the first one that ends a text, without special tokens, and without
    /// white space at either end.
    pub fn decode(&self, token_ids: &[u32]) -> (r: String)
        ensures
            r@ == decoded_text(*self, token_ids@),
            valid_utf8(bytes_under(raw_text(*self, token_ids@), self.byte_decoder@)) ==> r@
                == trimmed(
                decode_utf8(bytes_under(raw_text(*self, token_ids@), self.byte_decoder@)),
            ),
    {
        let mut raw: String = String::new();
        let mut i: usize = 0;
        let n: usize = token_ids.len();
        assert(token_ids@.skip(0) == token_ids@);
        while i < n && !self.eos_token_ids.contains(&token_ids[i])
            invariant
                i <= n == token_ids@.len(),
                raw@ + raw_text(*self, token_ids@.skip(i as int)) == raw_text(*self, token_ids@),
            decreases n - i,
        {
            let id = token_ids[i];
            let ghost before = raw@;
            proof {
                assert(token_ids@.skip(i as int)[0] == id);
                assert(token_ids@.skip(i as int).skip(1) == token_ids@.skip(i + 1));
            }
            if !self.special_ids.contains(&id) && (id as usize) < self.id_to_token.len() {
                match &self.id_to_token[id as usize] {
                    Some(t) => {
                        raw.push_str(t.as_str());
                    },
                    None => {},
                }
            }
            assert(raw@ =~= before + own_text(*self, id));
            assert(before + (own_text(*self, id) + raw_text(*self, token_ids@.skip(i + 1)))
                =~= raw@ + raw_text(*self, token_ids@.skip(i + 1)));
            i += 1;
        }
        proof {
            if i < n {
                assert(token_ids@.skip(i as int)[0] == token_ids@[i as int]);
            }
            assert(raw@ =~= raw_text(*self, token_ids@));
        }
        trim(byte_level_decode(raw.as_str(), &self.byte_decoder).as_str())
    }

    /// The number of a text.
    pub fn token_id(&self, token: &str) -> (r: Option<u32>)
        ensures
            r == first_id(self.token_to_id@, token@),
    {
        let mut i: usize = 0;
        assert(self.token_to_id@.skip(0) == self.token_to_id@);
        while i < self.token_to_id.len()
            invariant
                i <= self.token_to_id@.len(),
                first_id(self.token_to_id@.skip(i as int), token@) == first_id(
                    self.token_to_id@,
                    token@,
                ),
            decreases self.token_to_id@.len() - i,
        {
            let e = &self.token_to_id[i];
            assert(self.token_to_id@.skip(i as int)[0] == self.token_to_id@[i as int]);
            assert(self.token_to_id@.skip(i as int).skip(1) == self.token_to_id@.skip(i + 1));
            if same_text(e.0.as_str(), token) {
                return Some(e.1);
            }
            i += 1;
        }
        None
    }
}

/// A tokenizer holds what the tables give.
pub open spec fn built_from(
    t: Tokenizer,
    vocab: Seq<(String, u32)>,
    added: Seq<AddedToken>,
) -> bool {
    &&& forall|id: u32|
        (if id < t.id_to_token@.len() {
            text_view(#[trigger] t.id_to_token@[id as int])
        } else {
            None
        }) == token_text(vocab, added, id)
    &&& entry_views(t.token_to_id@) == entry_views(vocab) + surviving(added, added.len() as int)
    &&& forall|id: u32| #[trigger]
        t.special_ids@.contains(id) == (last_added(added, id) matches Some(a) && a.special)
}

/// A tokenizer holds what the tables `vocab` and `added` give, which were read from files.
pub open spec fn made_from(
    t: Tokenizer,
    file: Seq<(Seq<char>, u32)>,
    entries: Seq<AddedView>,
    vocab: Seq<(String, u32)>,
    added: Seq<AddedToken>,
) -> bool {
    &&& entry_views(vocab) == file
    &&& added.len() == entries.len()
    &&& forall|i: int| 0 <= i < added.len() ==> token_of_entry(entries[i], #[trigger] added[i])
    &&& built_from(t, vocab, added)
}

/// A tokenizer holds what files give.
pub open spec fn made_of_files(
    t: Tokenizer,
    file: Seq<(Seq<char>, u32)>,
    entries: Seq<AddedView>,
) -> bool {
    exists|vocab: Seq<(String, u32)>, added: Seq<AddedToken>| #[trigger]
        made_from(t, file, entries, vocab, added)
}

proof fn lemma_no_text(vocab: Seq<(String, u32)>, added: Seq<AddedToken>, id: u32)
    requires
        forall|i: int| 0 <= i < vocab.len() ==> (#[trigger] vocab[i]).1 != id,
        forall|i: int| 0 <= i < added.len() ==> (#[trigger] added[i]).id != id,
    ensures
        last_text(vocab, id) is None,
        last_added(added, id) is None,
    decreases vocab.len() + added.len(),
{
    if vocab.len() > 0 {
        lemma_no_text(vocab.drop_last(), added, id);
    } else if added.len() > 0 {
        lemma_no_text(vocab, added.drop_last(), id);
    }
}

proof fn lemma_last_added(added: Seq<AddedToken>, id: u32)
    ensures
        (last_added(added, id) matches Some(t) && t.special) == exists|k: int|
            0 <= k < added.len() && survives(added, k) && (#[trigger] added[k]).id == id
                && added[k].special,
    decreases added.len(),
{
    if added.len() > 0 {
        let n = added.len() - 1;
        let shorter = added.drop_last();
        lemma_last_added(shorter, id);
        if added.last().id == id {
            assert(survives(added, n));
            if exists|k: int|
                0 <= k < added.len() && survives(added, k) && (#[trigger] added[k]).id == id
                    && added[k].special {
                let k = choose|k: int|
                    0 <= k < added.len() && survives(added, k) && (#[trigger] added[k]).id == id
                        && added[k].special;
                assert(k == n) by {
                    if k < n {
                        assert(added[n].id != added[k].id);
                    }
                }
            }
            if added.last().special {
                assert(added[n].id == id);
            }
        } else {
            assert forall|k: int| 0 <= k < n && added[k].id == id implies survives(added, k)
                == survives(shorter, k) by {
                if survives(shorter, k) {
                    assert forall|j: int| k < j < added.len() implies added[j].id
                        != added[k].id by {
                        if j < n {
                            assert(shorter[j].id != shorter[k].id);
                        }
                    }
                }
                if survives(added, k) {
                    assert forall|j: int| k < j < shorter.len() implies shorter[j].id
                        != shorter[k].id by {
                        assert(added[j].id != added[k].id);
                    }
                }
            }
            if exists|k: int|
                0 <= k < added.len() && survives(added, k) && (#[trigger] added[k]).id == id
                    && added[k].special {
                let k = choose|k: int|
                    0 <= k < added.len() && survives(added, k) && (#[trigger] added[k]).id == id
                        && added[k].special;
                assert(shorter[k].id == id);
            }
            if exists|k: int|
                0 <= k < shorter.len() && survives(shorter, k) && (#[trigger] shorter[k]).id == id
                    && shorter[k].special {
                let k = choose|k: int|
                    0 <= k < shorter.len() && survives(shorter, k) && (#[trigger] shorter[k]).id
                        == id && shorter[k].special;
                assert(added[k].id == id);
            }
        }
    }
}

/// Tokens give their texts in order: those of a first part without a token that ends a text come before those
/// of the rest. A token gives its own text, and nothing where it is special or has none.
pub proof fn law_tokens_give_their_texts_in_order(t: Tokenizer, a: Seq<u32>, b: Seq<u32>, id: u32)
    requires
        forall|i: int| 0 <= i < a.len() ==> !t.eos_token_ids@.contains(#[trigger] a[i]),
    ensures
        raw_text(t, a + b) == raw_text(t, a) + raw_text(t, b),
        t.eos_token_ids@.contains(id) ==> raw_text(t, seq![id]).len() == 0,
        t.special_ids@.contains(id) ==> raw_text(t, seq![id]).len() == 0,
        (id as int) >= t.id_to_token@.len() ==> raw_text(t, seq![id]).len() == 0,
        (id as int) < t.id_to_token@.len() && !t.special_ids@.contains(id)
            && !t.eos_token_ids@.contains(id) ==> match t.id_to_token@[id as int] {
            Some(text) => raw_text(t, seq![id]) == text@,
            None => raw_text(t, seq![id]).len() == 0,
        },
    decreases a.len(),
{
    let alone = seq![id];
    assert(alone[0] == id);
    assert(alone.skip(1) =~= Seq::<u32>::empty());
    assert(raw_text(t, alone.skip(1)) =~= Seq::<char>::empty());
    assert(own_text(t, id) + Seq::<char>::empty() =~= own_text(t, id));
    if a.len() == 0 {
        assert(a + b =~= b);
        assert(raw_text(t, a) + raw_text(t, b) =~= raw_text(t, b));
    } else {
        let rest = a.skip(1);
        assert forall|i: int| 0 <= i < rest.len() implies !t.eos_token_ids@.contains(
            #[trigger] rest[i],
        ) by {
            assert(rest[i] == a[i + 1]);
        }
        assert(!t.eos_token_ids@.contains(a[0]));
        law_tokens_give_their_texts_in_order(t, rest, b, id);
        assert((a + b).skip(1) =~= rest + b);
        assert((a + b)[0] == a[0]);
        assert(own_text(t, a[0]) + (raw_text(t, rest) + raw_text(t, b)) =~= (own_text(t, a[0])
            + raw_text(t, rest)) + raw_text(t, b));
    }
}

/// The two tokens that end a text are those of the model, and the space is written as `Ġ`.
pub proof fn law_tokenizers_end_at_the_models_tokens(t: Tokenizer, id: u32)
    requires
        t.wf(),
    ensures
        t.eos_token_ids@.contains(id) <==> id == 151643 || id == 151645,
        t.byte_decoder@.contains_key('Ġ' as u32),
        t.byte_decoder@['Ġ' as u32] == 32,
{
    law_byte_table_inverts(32);
    assert('Ġ' as u32 == 0x120);
    assert(byte_code(32) == 0x120);
}

/// A token's text is that of the last added token with its number, and it is special where that one is; a
/// number without one has the text of the last entry of the vocabulary with it, and is not special.
pub proof fn law_added_tokens_replace_texts(
    t: Tokenizer,
    vocab: Seq<(String, u32)>,
    added: Seq<AddedToken>,
    i: int,
)
    requires
        built_from(t, vocab, added),
    ensures
        0 <= i < added.len() && (forall|j: int|
            i < j < added.len() ==> (#[trigger] added[j]).id != added[i].id) ==> {
            &&& (added[i].id as int) < t.id_to_token@.len()
            &&& text_view(t.id_to_token@[added[i].id as int]) == Some(added[i].content@)
            &&& t.special_ids@.contains(added[i].id) == added[i].special
        },
        0 <= i < vocab.len() && (forall|j: int|
            i < j < vocab.len() ==> (#[trigger] vocab[j]).1 != vocab[i].1) && (forall|j: int|
            0 <= j < added.len() ==> (#[trigger] added[j]).id != vocab[i].1) ==> {
            &&& (vocab[i].1 as int) < t.id_to_token@.len()
            &&& text_view(t.id_to_token@[vocab[i].1 as int]) == Some(vocab[i].0@)
            &&& !t.special_ids@.contains(vocab[i].1)
        },
{
    if 0 <= i < added.len() && (forall|j: int|
        i < j < added.len() ==> (#[trigger] added[j]).id != added[i].id) {
        lemma_last_added_is(added, i);
        let id = added[i].id;
        assert(token_text(vocab, added, id) == Some(added[i].content@));
        if id >= t.id_to_token@.len() {
            assert((if id < t.id_to_token@.len() {
                text_view(t.id_to_token@[id as int])
            } else {
                None
            }) == token_text(vocab, added, id));
        }
        assert(t.special_ids@.contains(id) == (last_added(added, id) matches Some(a) && a.special));
    }
    if 0 <= i < vocab.len() && (forall|j: int|
        i < j < vocab.len() ==> (#[trigger] vocab[j]).1 != vocab[i].1) && (forall|j: int|
        0 <= j < added.len() ==> (#[trigger] added[j]).id != vocab[i].1) {
        let id = vocab[i].1;
        lemma_last_text_is(vocab, i);
        lemma_no_text(Seq::<(String, u32)>::empty(), added, id);
        assert(token_text(vocab, added, id) == Some(vocab[i].0@));
        if id >= t.id_to_token@.len() {
            assert((if id < t.id_to_token@.len() {
                text_view(t.id_to_token@[id as int])
            } else {
                None
            }) == token_text(vocab, added, id));
        }
        assert(t.special_ids@.contains(id) == (last_added(added, id) matches Some(a) && a.special));
    }
}

proof fn lemma_last_added_is(added: Seq<AddedToken>, i: int)
    requires
        0 <= i < added.len(),
        forall|j: int| i < j < added.len() ==> (#[trigger] added[j]).id != added[i].id,
    ensures
        last_added(added, added[i].id) == Some(added[i]),
    decreases added.len(),
{
    if i < added.len() - 1 {
        let shorter = added.drop_last();
        assert(added[added.len() - 1].id != added[i].id);
        assert forall|j: int| i < j < shorter.len() implies (#[trigger] shorter[j]).id
            != shorter[i].id by {
            assert(shorter[j] == added[j]);
        }
        lemma_last_added_is(shorter, i);
    }
}

proof fn lemma_last_text_is(vocab: Seq<(String, u32)>, i: int)
    requires
        0 <= i < vocab.len(),
        forall|j: int| i < j < vocab.len() ==> (#[trigger] vocab[j]).1 != vocab[i].1,
    ensures
        last_text(vocab, vocab[i].1) == Some(vocab[i].0@),
    decreases vocab.len(),
{
    if i < vocab.len() - 1 {
        let shorter = vocab.drop_last();
        assert(vocab[vocab.len() - 1].1 != vocab[i].1);
        assert forall|j: int| i < j < shorter.len() implies (#[trigger] shorter[j]).1
            != shorter[i].1 by {
            assert(shorter[j] == vocab[j]);
        }
        lemma_last_text_is(shorter, i);
    }
}

/// A text has the number of the first entry with it, and none where there is no such entry.
pub proof fn law_first_entry_counts(entries: Seq<(String, u32)>, text: Seq<char>)
    ensures
        first_id(entries, text) matches Some(n) ==> exists|i: int|
            0 <= i < entries.len() && (#[trigger] entries[i]).0@ == text && entries[i].1 == n
                && forall|j: int| 0 <= j < i ==> (#[trigger] entries[j]).0@ != text,
        first_id(entries, text) is None ==> forall|i: int|
            0 <= i < entries.len() ==> (#[trigger] entries[i]).0@ != text,
    decreases entries.len(),
{
    if entries.len() > 0 && entries[0].0@ != text {
        let rest = entries.skip(1);
        law_first_entry_counts(rest, text);
        if let Some(n) = first_id(entries, text) {
            let i = choose|i: int|
                0 <= i < rest.len() && (#[trigger] rest[i]).0@ == text && rest[i].1 == n
                    && forall|j: int| 0 <= j < i ==> (#[trigger] rest[j]).0@ != text;
            assert(entries[i + 1] == rest[i]);
            assert forall|j: int| 0 <= j < i + 1 implies (#[trigger] entries[j]).0@ != text by {
                if j > 0 {
                    assert(entries[j] == rest[j - 1]);
                }
            }
        } else {
            assert forall|i: int| 0 <= i < entries.len() implies (#[trigger] entries[i]).0@ != text by {
                if i > 0 {
                    assert(entries[i] == rest[i - 1]);
                }
            }
        }
    }
}

/// Texts of the vocabulary keep their numbers: an added token with the same text does not take its place. A
/// text that the vocabulary lacks has the number of an added token that no later one with its number
/// replaces.
pub proof fn law_vocabulary_keeps_its_numbers(
    t: Tokenizer,
    vocab: Seq<(String, u32)>,
    added: Seq<AddedToken>,
    text: Seq<char>,
)
    requires
        built_from(t, vocab, added),
    ensures
        first_id(vocab, text) matches Some(n) ==> first_id(t.token_to_id@, text) == Some(n),
        first_id(vocab, text) is None ==> (first_id(t.token_to_id@, text) matches Some(n)
            ==> exists|k: int|
            0 <= k < added.len() && (#[trigger] added[k]).content@ == text && added[k].id == n
                && forall|j: int| k < j < added.len() ==> (#[trigger] added[j]).id != n),
{
    let listed = t.token_to_id@;
    let more = surviving(added, added.len() as int);
    let all = entry_views(listed);
    assert(all.len() == vocab.len() + more.len());
    law_first_entry_counts(vocab, text);
    law_first_entry_counts(listed, text);
    assert forall|i: int| 0 <= i < vocab.len() implies (#[trigger] listed[i]).0@ == vocab[i].0@
        && listed[i].1 == vocab[i].1 by {
        assert(all[i] == entry_views(vocab)[i]);
        assert(all[i] == (listed[i].0@, listed[i].1));
    }
    if let Some(n) = first_id(vocab, text) {
        let i = choose|i: int|
            0 <= i < vocab.len() && (#[trigger] vocab[i]).0@ == text && vocab[i].1 == n
                && forall|j: int| 0 <= j < i ==> (#[trigger] vocab[j]).0@ != text;
        assert(listed[i].0@ == text);
        let m = first_id(listed, text)->0;
        let k = choose|k: int|
            0 <= k < listed.len() && (#[trigger] listed[k]).0@ == text && listed[k].1 == m
                && forall|j: int| 0 <= j < k ==> (#[trigger] listed[j]).0@ != text;
        if k < i {
            assert(vocab[k].0@ == listed[k].0@);
        }
        assert(k == i);
    } else if let Some(n) = first_id(listed, text) {
        let k = choose|k: int|
            0 <= k < listed.len() && (#[trigger] listed[k]).0@ == text && listed[k].1 == n
                && forall|j: int| 0 <= j < k ==> (#[trigger] listed[j]).0@ != text;
        if k < vocab.len() {
            assert(vocab[k].0@ == listed[k].0@);
        }
        let m = k - vocab.len();
        assert(all[k] == more[m]);
        assert(all[k] == (listed[k].0@, listed[k].1));
        lemma_surviving_entry(added, added.len() as int, m);
        let a = choose|a: int|
            0 <= a < added.len() && #[trigger] survives(added, a) && more[m] == (
                added[a].content@,
                added[a].id,
            );
        assert(added[a].content@ == text);
    }
}

proof fn lemma_surviving_entry(added: Seq<AddedToken>, n: int, m: int)
    requires
        0 <= n <= added.len(),
        0 <= m < surviving(added, n).len(),
    ensures
        exists|a: int|
            0 <= a < n && #[trigger] survives(added, a) && surviving(added, n)[m] == (
                added[a].content@,
                added[a].id,
            ),
    decreases n,
{
    if n > 0 {
        let before = surviving(added, n - 1);
        if m < before.len() {
            lemma_surviving_entry(added, n - 1, m);
            let a = choose|a: int|
                0 <= a < n - 1 && #[trigger] survives(added, a) && before[m] == (
                    added[a].content@,
                    added[a].id,
                );
            assert(surviving(added, n)[m] == before[m]);
            assert(survives(added, a));
        } else {
            assert(survives(added, n - 1));
        }
    }
}

/// Nothing after the first token that ends a text has an influence.
pub proof fn law_decoding_stops_at_the_end(t: Tokenizer, ids: Seq<u32>, more: Seq<u32>)
    requires
        exists|i: int| 0 <= i < ids.len() && t.eos_token_ids@.contains(#[trigger] ids[i]),
    ensures
        raw_text(t, ids + more) == raw_text(t, ids),
    decreases ids.len(),
{
    if !t.eos_token_ids@.contains(ids[0]) {
        let i = choose|i: int| 0 <= i < ids.len() && t.eos_token_ids@.contains(#[trigger] ids[i]);
        assert(ids.skip(1)[i - 1] == ids[i]);
        law_decoding_stops_at_the_end(t, ids.skip(1), more);
        assert((ids + more).skip(1) =~= ids.skip(1) + more);
    }
}

} // verus!
