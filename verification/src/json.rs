//! JSON documents as plain trees.

use vstd::prelude::*;

use crate::text::{same, Text};

verus! {

/// A JSON document.
pub enum Json {
    Null,
    Bool(bool),
    Number(String),
    Text(String),
    List(Vec<Json>),
    Object(Vec<(String, Json)>),
}

/// What a JSON document holds. The members of an object stand in the order in
/// which the document's reader hands them out.
pub enum Tree {
    Null,
    Bool(bool),
    Number(Text),
    Text(Text),
    List(Seq<Tree>),
    Object(Seq<(Text, Tree)>),
}

impl View for Json {
    type V = Tree;

    open spec fn view(&self) -> Tree
        decreases self,
    {
        match self {
            Json::Null => Tree::Null,
            Json::Bool(b) => Tree::Bool(*b),
            Json::Number(n) => Tree::Number(n@),
            Json::Text(t) => Tree::Text(t@),
            Json::List(items) => Tree::List(
                Seq::new(
                    items@.len(),
                    |i: int|
                        if 0 <= i < items@.len() {
                            items@[i].view()
                        } else {
                            Tree::Null
                        },
                ),
            ),
            Json::Object(members) => Tree::Object(
                Seq::new(
                    members@.len(),
                    |i: int|
                        (
                            if 0 <= i < members@.len() {
                                members@[i].0@
                            } else {
                                Seq::empty()
                            },
                            if 0 <= i < members@.len() {
                                members@[i].1.view()
                            } else {
                                Tree::Null
                            },
                        ),
                ),
            ),
        }
    }
}

/// `serde_json::Value`.
#[verifier::external_type_specification]
#[verifier::external_body]
pub struct ExValue(serde_json::Value);

/// The document that a `serde_json::Value` holds.
pub uninterp spec fn json_held(value: serde_json::Value) -> Tree;

/// What `serde_json::from_str` makes of a text: the document, or the message
/// of its error.
pub uninterp spec fn json_read(text: Text) -> Result<Tree, Text>;

/// `serde_json::from_str`, with the error as its message. The result depends on
/// the text alone.
#[verifier::external_body]
fn value_from_text(text: &str) -> (r: Result<serde_json::Value, String>)
    ensures
        match r {
            Ok(value) => json_read(text@) == Ok::<Tree, Text>(json_held(value)),
            Err(message) => json_read(text@) == Err::<Tree, Text>(message@),
        },
{
    serde_json::from_str(text).map_err(|e: serde_json::Error| e.to_string())
}

/// A `serde_json::Value` as a plain tree: each variant becomes the variant of
/// the same name, the members of an object in the order in which
/// `serde_json::Map` iterates over them.
#[verifier::external_body]
fn plain(value: serde_json::Value) -> (r: Json)
    ensures
        r@ == json_held(value),
{
    match value {
        serde_json::Value::Null => Json::Null,
        serde_json::Value::Bool(b) => Json::Bool(b),
        serde_json::Value::Number(n) => Json::Number(n.to_string()),
        serde_json::Value::String(s) => Json::Text(s),
        serde_json::Value::Array(items) => Json::List(items.into_iter().map(plain).collect()),
        serde_json::Value::Object(members) => Json::Object(
            members.into_iter().map(|(key, child)| (key, plain(child))).collect(),
        ),
    }
}

/// Reads a JSON document.
pub fn read_json(text: &str) -> (r: Result<Json, String>)
    ensures
        match r {
            Ok(document) => json_read(text@) == Ok::<Tree, Text>(document@),
            Err(message) => json_read(text@) == Err::<Tree, Text>(message@),
        },
{
    match value_from_text(text) {
        Ok(value) => Ok(plain(value)),
        Err(message) => Err(message),
    }
}

/// The place of a member in an object, or the number of members.
pub open spec fn place(members: Seq<(Text, Tree)>, key: Text) -> int
    decreases members.len(),
{
    if members.len() == 0 {
        0
    } else if members[0].0 == key {
        0
    } else {
        1 + place(members.drop_first(), key)
    }
}

/// The member of an object under a key.
pub open spec fn member(members: Seq<(Text, Tree)>, key: Text) -> Option<Tree> {
    let i = place(members, key);
    if 0 <= i < members.len() {
        Some(members[i].1)
    } else {
        None
    }
}

/// The text under a key.
pub open spec fn text_member(members: Seq<(Text, Tree)>, key: Text) -> Option<Text> {
    match member(members, key) {
        Some(Tree::Text(t)) => Some(t),
        _ => None,
    }
}

proof fn lemma_place(members: Seq<(Text, Tree)>, key: Text, i: int)
    requires
        0 <= i <= members.len(),
        forall|j: int| 0 <= j < i ==> (#[trigger] members[j]).0 != key,
        i < members.len() ==> members[i].0 == key,
    ensures
        place(members, key) == i,
    decreases i,
{
    if i > 0 {
        assert(members[0].0 != key);
        assert forall|j: int| 0 <= j < i - 1 implies (#[trigger] members.drop_first()[j]).0
            != key by {
            assert(members[j + 1].0 != key);
        }
        lemma_place(members.drop_first(), key, i - 1);
    }
}

/// The members of an object as trees.
pub open spec fn members_view(members: Vec<(String, Json)>) -> Seq<(Text, Tree)> {
    Seq::new(members@.len(), |i: int| (members@[i].0@, members@[i].1@))
}

/// The items of a list as trees.
pub open spec fn items_view(items: Vec<Json>) -> Seq<Tree> {
    Seq::new(items@.len(), |i: int| items@[i]@)
}

/// The view of a list and of an object, in terms of their parts.
pub proof fn lemma_parts(node: Json)
    ensures
        node matches Json::List(items) ==> node@ == Tree::List(items_view(items)),
        node matches Json::Object(members) ==> node@ == Tree::Object(members_view(members)),
{
    match node {
        Json::List(items) => {
            assert(node@->List_0 =~= items_view(items));
        },
        Json::Object(members) => {
            assert(node@ is Object);
            let seen = node@->Object_0;
            assert(seen.len() == members@.len());
            assert forall|i: int| 0 <= i < members@.len() implies #[trigger] seen[i]
                == members_view(members)[i] by {
                assert(seen[i].0 == members@[i].0@);
                assert(seen[i].1 == members@[i].1@);
            }
            assert(seen =~= members_view(members));
        },
        _ => {},
    }
}

/// Finds the place of a member.
pub fn find_member(members: &Vec<(String, Json)>, key: &str) -> (r: Option<usize>)
    ensures
        match r {
            Some(i) => i < members@.len() && place(members_view(*members), key@) == i,
            None => place(members_view(*members), key@) == members@.len(),
        },
{
    let mut i: usize = 0;
    let ghost all = members_view(*members);
    while i < members.len()
        invariant
            all == members_view(*members),
            i <= members@.len(),
            forall|j: int| 0 <= j < i ==> (#[trigger] all[j]).0 != key@,
        decreases members.len() - i,
    {
        if same(members[i].0.as_str(), key) {
            proof {
                assert(all[i as int].0 == key@);
                lemma_place(all, key@, i as int);
            }
            return Some(i);
        }
        assert(all[i as int].0 != key@);
        i = i + 1;
    }
    proof {
        lemma_place(all, key@, i as int);
    }
    None
}

/// The text under a key.
pub fn find_text<'a>(members: &'a Vec<(String, Json)>, key: &str) -> (r: Option<&'a String>)
    ensures
        match r {
            Some(t) => text_member(members_view(*members), key@) == Some(t@),
            None => text_member(members_view(*members), key@) is None,
        },
{
    match find_member(members, key) {
        Some(i) => match &members[i].1 {
            Json::Text(t) => Some(t),
            _ => None,
        },
        None => None,
    }
}

} // verus!
