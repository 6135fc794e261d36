//! JSON values.

use vstd::prelude::*;
use crate::outside;
use crate::outside::JsonNode;

verus! {

/// A JSON value. The members of an object stand in the order of their
/// document's map; a number is kept as its text.
pub enum Json {
    Null,
    Bool(bool),
    Number(String),
    Text(String),
    Array(Vec<Json>),
    Object(Vec<(String, Json)>),
}

/// What a JSON value holds.
pub enum Tree {
    Null,
    Bool(bool),
    Number(Seq<char>),
    Text(Seq<char>),
    Array(Seq<Tree>),
    Object(Seq<(Seq<char>, Tree)>),
}

/// What a JSON value holds.
pub open spec fn tree(j: Json) -> Tree
    decreases j,
{
    match j {
        Json::Null => Tree::Null,
        Json::Bool(b) => Tree::Bool(b),
        Json::Number(t) => Tree::Number(t@),
        Json::Text(t) => Tree::Text(t@),
        Json::Array(items) => Tree::Array(
            Seq::new(
                items@.len(),
                |i: int|
                    if 0 <= i < items@.len() {
                        tree(items@[i])
                    } else {
                        Tree::Null
                    },
            ),
        ),
        Json::Object(members) => Tree::Object(
            Seq::new(
                members@.len(),
                |i: int|
                    if 0 <= i < members@.len() {
                        (members@[i].0@, tree(members@[i].1))
                    } else {
                        (Seq::empty(), Tree::Null)
                    },
            ),
        ),
    }
}

impl View for Json {
    type V = Tree;

    /// What the value holds.
    open spec fn view(&self) -> Tree {
        tree(*self)
    }
}

/// The value of the first of the given members that has the given name.
pub open spec fn first_member(members: Seq<(Seq<char>, Tree)>, key: Seq<char>) -> Option<Tree>
    decreases members.len(),
{
    if members.len() == 0 {
        None
    } else if members[0].0 == key {
        Some(members[0].1)
    } else {
        first_member(members.skip(1), key)
    }
}

/// The member of an object.
pub open spec fn member(j: Tree, key: Seq<char>) -> Option<Tree> {
    match j {
        Tree::Object(m) => first_member(m, key),
        _ => None,
    }
}

/// The text of a string value.
pub open spec fn as_text(j: Option<Tree>) -> Option<Seq<char>> {
    match j {
        Some(Tree::Text(t)) => Some(t),
        _ => None,
    }
}

/// The truth value of a boolean value.
pub open spec fn as_bool(j: Option<Tree>) -> Option<bool> {
    match j {
        Some(Tree::Bool(b)) => Some(b),
        _ => None,
    }
}

/// The text of a string member.
pub open spec fn text_member(j: Tree, key: Seq<char>) -> Option<Seq<char>> {
    as_text(member(j, key))
}

/// What each of the values holds.
pub open spec fn trees(items: Seq<Json>) -> Seq<Tree> {
    items.map_values(|j: Json| j@)
}

impl Json {
    /// The member of an object with the given name.
    pub fn get(&self, key: &str) -> (r: Option<&Json>)
        ensures
            match r {
                Some(v) => member(self@, key@) == Some(v@),
                None => member(self@, key@) is None,
            },
    {
        match self {
            Json::Object(m) => {
                let wanted: String = key.to_owned();
                let ghost held = match self@ {
                    Tree::Object(members) => members,
                    _ => Seq::empty(),
                };
                let mut i: usize = 0;
                proof {
                    assert(held.skip(0) == held);
                }
                while i < m.len()
                    invariant
                        i <= m.len(),
                        held.len() == m.len(),
                        self@ == Tree::Object(held),
                        forall|k: int| 0 <= k < held.len() ==> #[trigger] held[k] == (
                            m@[k].0@,
                            m@[k].1@,
                        ),
                        wanted@ == key@,
                        first_member(held.skip(i as int), key@) == first_member(held, key@),
                    decreases m.len() - i,
                {
                    proof {
                        assert(held.skip(i as int)[0] == held[i as int]);
                        assert(held.skip(i as int).skip(1) == held.skip(i + 1));
                    }
                    if m[i].0 == wanted {
                        return Some(&m[i].1);
                    }
                    i += 1;
                }
                None
            },
            _ => None,
        }
    }

    /// The text of a string value.
    pub fn as_str(&self) -> (r: Option<&str>)
        ensures
            match r {
                Some(t) => as_text(Some(self@)) == Some(t@),
                None => as_text(Some(self@)) is None,
            },
    {
        match self {
            Json::Text(t) => Some(t.as_str()),
            _ => None,
        }
    }

    /// The text of the string member with the given name.
    pub fn get_str(&self, key: &str) -> (r: Option<&str>)
        ensures
            match r {
                Some(t) => text_member(self@, key@) == Some(t@),
                None => text_member(self@, key@) is None,
            },
    {
        match self.get(key) {
            Some(v) => v.as_str(),
            None => None,
        }
    }

    /// The truth value of the boolean member with the given name.
    pub fn get_bool(&self, key: &str) -> (r: Option<bool>)
        ensures
            r == as_bool(member(self@, key@)),
    {
        match self.get(key) {
            Some(Json::Bool(b)) => Some(*b),
            _ => None,
        }
    }

    /// The items of the array member with the given name.
    pub fn get_array(&self, key: &str) -> (r: Option<&Vec<Json>>)
        ensures
            match r {
                Some(a) => member(self@, key@) == Some(Tree::Array(trees(a@))),
                None => !(member(self@, key@) matches Some(Tree::Array(_))),
            },
    {
        match self.get(key) {
            Some(Json::Array(a)) => {
                proof {
                    lemma_array(*a);
                }
                Some(a)
            },
            _ => None,
        }
    }
}

/// An array holds what its items hold.
pub proof fn lemma_array(items: Vec<Json>)
    ensures
        Json::Array(items)@ == Tree::Array(trees(items@)),
{
    if let Tree::Array(held) = Json::Array(items)@ {
        assert(held == trees(items@));
    }
}

/// Moves what a `serde_json::Value` holds into a value of this library.
fn content_of(v: serde_json::Value) -> (r: Json)
    ensures
        r@ == outside::json_held(v),
    decreases outside::json_held(v),
{
    let ghost held = outside::json_held(v);
    match outside::json_node(v) {
        JsonNode::Null => Json::Null,
        JsonNode::Bool(b) => Json::Bool(b),
        JsonNode::Number(t) => Json::Number(t),
        JsonNode::Text(t) => Json::Text(t),
        JsonNode::Array(items) => {
            let ghost all = items@;
            let ghost below = all.map_values(|x: serde_json::Value| outside::json_held(x));
            let mut out: Vec<Json> = Vec::new();
            for x in it: items
                invariant
                    it.seq() == all,
                    out@.len() == it.index(),
                    held == outside::json_held(v),
                    held == Tree::Array(below),
                    below == all.map_values(|x: serde_json::Value| outside::json_held(x)),
                    forall|i: int| 0 <= i < out@.len() ==> (#[trigger] out@[i])@ == below[i],
            {
                proof {
                    assert(below[it.index() as int] == outside::json_held(x));
                    assert(decreases_to!(held => held->Array_0[it.index() as int]));
                }
                out.push(content_of(x));
            }
            proof {
                lemma_array(out);
                assert(trees(out@) == below);
            }
            Json::Array(out)
        },
        JsonNode::Object(members) => {
            let ghost all = members@;
            let ghost below = all.map_values(
                |m: (String, serde_json::Value)| (m.0@, outside::json_held(m.1)),
            );
            let mut out: Vec<(String, Json)> = Vec::new();
            for m in it: members
                invariant
                    it.seq() == all,
                    out@.len() == it.index(),
                    held == outside::json_held(v),
                    held == Tree::Object(below),
                    below == all.map_values(
                        |m: (String, serde_json::Value)| (m.0@, outside::json_held(m.1)),
                    ),
                    forall|i: int| 0 <= i < out@.len() ==> ((#[trigger] out@[i]).0@, out@[i].1@)
                        == below[i],
            {
                proof {
                    assert(below[it.index() as int] == (m.0@, outside::json_held(m.1)));
                    assert(decreases_to!(held => held->Object_0[it.index() as int]));
                    assert(decreases_to!(held => held->Object_0[it.index() as int].1));
                }
                out.push((m.0, content_of(m.1)));
            }
            let r = Json::Object(out);
            proof {
                if let Tree::Object(members_held) = r@ {
                    assert(members_held == below);
                }
            }
            r
        },
    }
}

/// Reads a JSON document. Nothing comes out where the text is not one.
pub fn parse_json(s: &str) -> (r: Option<Json>)
    ensures
        match r {
            Some(j) => outside::json_document(s@) == Some(j@),
            None => outside::json_document(s@) is None,
        },
{
    match outside::read_json(s) {
        Ok(v) => Some(content_of(v)),
        Err(_) => None,
    }
}

/// The value that a response body holds: null where it is no JSON document.
pub open spec fn body_value(s: Seq<char>) -> Tree {
    match outside::json_document(s) {
        Some(j) => j,
        None => Tree::Null,
    }
}

/// Reads a response body, which is null where it is no JSON document.
pub fn parse_body(s: &str) -> (r: Json)
    ensures
        r@ == body_value(s@),
{
    match parse_json(s) {
        Some(j) => j,
        None => Json::Null,
    }
}

} // verus!
