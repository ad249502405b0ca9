//! Texts in JSON as trees.
use crate::text::same_text;
use vstd::prelude::*;

verus! {

/// `serde_json::Error`.
#[verifier::external_type_specification]
#[verifier::external_body]
pub struct ExJsonError(serde_json::Error);

/// `serde_json::Value`.
#[verifier::external_type_specification]
#[verifier::external_body]
pub struct ExJsonValue(serde_json::Value);

/// What a value in JSON holds. A number stands there as it is written, and the members of an object have
/// different names.
pub enum JsonTree {
    Null,
    Flag(bool),
    Number(Seq<char>),
    Text(Seq<char>),
    List(Seq<JsonTree>),
    Object(Seq<(Seq<char>, JsonTree)>),
}

/// What a value holds.
pub uninterp spec fn json_tree(v: serde_json::Value) -> JsonTree;

/// What a text in JSON holds; none where it is not JSON.
pub uninterp spec fn json_of(text: Seq<char>) -> Option<JsonTree>;

/// Values, by what they hold.
pub open spec fn value_trees(values: Seq<serde_json::Value>) -> Seq<JsonTree> {
    values.map_values(|v: serde_json::Value| json_tree(v))
}

/// Members, by what they hold.
pub open spec fn member_trees(members: Seq<(String, serde_json::Value)>) -> Seq<
    (Seq<char>, JsonTree),
> {
    members.map_values(|m: (String, serde_json::Value)| (m.0@, json_tree(m.1)))
}

/// What the first member with a name holds.
pub open spec fn named_member(members: Seq<(Seq<char>, JsonTree)>, name: Seq<char>) -> Option<
    JsonTree,
>
    decreases members.len(),
{
    if members.len() == 0 {
        None
    } else if members[0].0 == name {
        Some(members[0].1)
    } else {
        named_member(members.skip(1), name)
    }
}

/// What the member of an object with a name holds; none where there is no such member or no object.
pub open spec fn member(t: JsonTree, name: Seq<char>) -> Option<JsonTree> {
    match t {
        JsonTree::Object(members) => named_member(members, name),
        _ => None,
    }
}

/// `serde_json::from_str` into a value.
#[verifier::external_body]
pub(crate) fn read_json(text: &str) -> (r: Result<serde_json::Value, serde_json::Error>)
    ensures
        match r {
            Ok(v) => json_of(text@) == Some(json_tree(v)),
            Err(_) => json_of(text@) is None,
        },
{
    serde_json::from_str::<serde_json::Value>(text)
}

/// `Value::get` with a name: the member of an object.
#[verifier::external_body]
pub(crate) fn member_of<'a>(v: &'a serde_json::Value, name: &str) -> (r: Option<
    &'a serde_json::Value,
>)
    ensures
        match r {
            Some(m) => member(json_tree(*v), name@) == Some(json_tree(*m)),
            None => member(json_tree(*v), name@) is None,
        },
{
    v.get(name)
}

/// `Value::as_str`: the text of a text.
#[verifier::external_body]
pub(crate) fn text_in(v: &serde_json::Value) -> (r: Option<&str>)
    ensures
        match r {
            Some(s) => json_tree(*v) == JsonTree::Text(s@),
            None => json_tree(*v) !is Text,
        },
{
    v.as_str()
}

/// `Value::as_bool`: the flag of a flag.
#[verifier::external_body]
pub(crate) fn flag_in(v: &serde_json::Value) -> (r: Option<bool>)
    ensures
        match r {
            Some(b) => json_tree(*v) == JsonTree::Flag(b),
            None => json_tree(*v) !is Flag,
        },
{
    v.as_bool()
}

/// `Value::as_array`: the items of a list.
#[verifier::external_body]
pub(crate) fn items_in(v: &serde_json::Value) -> (r: Option<&Vec<serde_json::Value>>)
    ensures
        match r {
            Some(items) => json_tree(*v) == JsonTree::List(value_trees(items@)),
            None => json_tree(*v) !is List,
        },
{
    v.as_array()
}

/// `Value::as_object`: the members of an object, in the order in which the object has them.
#[verifier::external_body]
pub(crate) fn members_in(v: &serde_json::Value) -> (r: Option<Vec<(String, serde_json::Value)>>)
    ensures
        match r {
            Some(members) => json_tree(*v) == JsonTree::Object(member_trees(members@)),
            None => json_tree(*v) !is Object,
        },
{
    v.as_object().map(|o| o.iter().map(|(name, m)| (name.clone(), m.clone())).collect())
}

/// A text stands somewhere in a tree, be it as a name.
pub open spec fn mentions(t: JsonTree, text: Seq<char>) -> bool
    decreases t,
{
    match t {
        JsonTree::Text(s) => s == text,
        JsonTree::List(items) => exists|i: int|
            0 <= i < items.len() && mentions(#[trigger] items[i], text),
        JsonTree::Object(members) => exists|i: int|
            0 <= i < members.len() && ((#[trigger] members[i]).0 == text || mentions(
                members[i].1,
                text,
            )),
        _ => false,
    }
}

/// Whether a text stands somewhere in a value, be it as a name.
pub fn does_mention(v: &serde_json::Value, text: &str) -> (r: bool)
    ensures
        r == mentions(json_tree(*v), text@),
    decreases json_tree(*v),
{
    let ghost tree = json_tree(*v);
    if let Some(s) = text_in(v) {
        return same_text(s, text);
    }
    if let Some(items) = items_in(v) {
        let ghost trees = value_trees(items@);
        let mut i: usize = 0;
        while i < items.len()
            invariant
                i <= items@.len(),
                trees == value_trees(items@),
                tree == json_tree(*v),
                tree == JsonTree::List(trees),
                forall|k: int| 0 <= k < i ==> !mentions(#[trigger] trees[k], text@),
            decreases items@.len() - i,
        {
            assert(trees[i as int] == json_tree(items@[i as int]));
            assert(decreases_to!(tree => tree->List_0[i as int]));
            if does_mention(&items[i], text) {
                assert(mentions(trees[i as int], text@));
                assert(mentions(JsonTree::List(trees), text@));
                return true;
            }
            i += 1;
        }
        return false;
    }
    if let Some(members) = members_in(v) {
        let ghost trees = member_trees(members@);
        let mut i: usize = 0;
        while i < members.len()
            invariant
                i <= members@.len(),
                trees == member_trees(members@),
                tree == json_tree(*v),
                tree == JsonTree::Object(trees),
                forall|k: int|
                    0 <= k < i ==> (#[trigger] trees[k]).0 != text@ && !mentions(
                        trees[k].1,
                        text@,
                    ),
            decreases members@.len() - i,
        {
            assert(trees[i as int].1 == json_tree(members@[i as int].1));
            assert(decreases_to!(tree => tree->Object_0[i as int].1));
            assert(trees[i as int].0 == members@[i as int].0@);
            if same_text(members[i].0.as_str(), text) || does_mention(&members[i].1, text) {
                assert(trees[i as int].0 == text@ || mentions(trees[i as int].1, text@));
                assert(mentions(JsonTree::Object(trees), text@));
                return true;
            }
            i += 1;
        }
        return false;
    }
    false
}

} // verus!
