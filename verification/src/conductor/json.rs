//! JSON documents.

use crate::text::same_text;
use vstd::prelude::*;

verus! {

/// A JSON document. Numbers keep their text; the members of an object have
/// different names.
#[derive(Debug)]
pub enum Json {
    Null,
    Bool(bool),
    Number(String),
    Text(String),
    Array(Vec<Json>),
    Object(Vec<(String, Json)>),
}

/// What a document holds, part by part.
pub enum JsonView {
    Null,
    Bool(bool),
    Number(Seq<char>),
    Text(Seq<char>),
    Array(Seq<JsonView>),
    Object(Seq<(Seq<char>, JsonView)>),
}

/// What `doc` holds.
pub open spec fn contents(doc: Json) -> JsonView
    decreases doc,
{
    match doc {
        Json::Null => JsonView::Null,
        Json::Bool(b) => JsonView::Bool(b),
        Json::Number(n) => JsonView::Number(n@),
        Json::Text(s) => JsonView::Text(s@),
        Json::Array(items) => JsonView::Array(
            Seq::new(
                items@.len(),
                |i: int|
                    if 0 <= i < items@.len() {
                        contents(items[i])
                    } else {
                        JsonView::Null
                    },
            ),
        ),
        Json::Object(members) => JsonView::Object(
            Seq::new(
                members@.len(),
                |i: int|
                    if 0 <= i < members@.len() {
                        (members[i].0@, contents(members[i].1))
                    } else {
                        (Seq::empty(), JsonView::Null)
                    },
            ),
        ),
    }
}

impl View for Json {
    type V = JsonView;

    open spec fn view(&self) -> JsonView {
        contents(*self)
    }
}

/// What documents hold.
pub open spec fn all_contents(docs: Seq<Json>) -> Seq<JsonView> {
    docs.map_values(|d: Json| d@)
}

/// A parsed document as `serde_json` has it.
#[verifier::external_type_specification]
#[verifier::external_body]
pub struct ExValue(serde_json::Value);

/// What `serde_json::from_str` makes of a text: a document, or its complaint.
pub uninterp spec fn json_parsed(text: Seq<char>) -> Result<JsonView, Seq<char>>;

/// Parses a text by `serde_json::from_str`. The document, or else the text of the
/// error, depends on the text alone.
#[verifier::external_body]
pub(crate) fn parse_json(text: &str) -> (r: Result<Json, String>)
    ensures
        match r {
            Ok(doc) => json_parsed(text@) == Ok::<JsonView, Seq<char>>(doc@),
            Err(e) => json_parsed(text@) == Err::<JsonView, Seq<char>>(e@),
        },
{
    match serde_json::from_str::<serde_json::Value>(text) {
        Ok(value) => Ok(json_of(&value)),
        Err(e) => Err(e.to_string()),
    }
}

/// The same document as a `Json`, variant by variant: the conversion that
/// `parse_json` applies to the result of `serde_json::from_str`.
#[verifier::external_body]
fn json_of(value: &serde_json::Value) -> Json {
    match value {
        serde_json::Value::Null => Json::Null,
        serde_json::Value::Bool(b) => Json::Bool(*b),
        serde_json::Value::Number(n) => Json::Number(n.to_string()),
        serde_json::Value::String(s) => Json::Text(s.clone()),
        serde_json::Value::Array(items) => Json::Array(items.iter().map(json_of).collect()),
        serde_json::Value::Object(members) => {
            Json::Object(members.iter().map(|(k, v)| (k.clone(), json_of(v))).collect())
        },
    }
}

/// The position of the first member called `name`, counted from `i`.
pub open spec fn member_index(
    members: Seq<(Seq<char>, JsonView)>,
    name: Seq<char>,
    i: int,
) -> Option<int>
    decreases members.len() - i,
{
    if i < 0 || i >= members.len() {
        None
    } else if members[i].0 == name {
        Some(i)
    } else {
        member_index(members, name, i + 1)
    }
}

/// The member `name` of an object; none for anything else.
pub open spec fn member(doc: JsonView, name: Seq<char>) -> Option<JsonView> {
    match doc {
        JsonView::Object(members) => match member_index(members, name, 0) {
            Some(i) => Some(members[i].1),
            None => None,
        },
        _ => None,
    }
}

/// The text of a string; none for anything else.
pub open spec fn text_of(doc: JsonView) -> Option<Seq<char>> {
    match doc {
        JsonView::Text(s) => Some(s),
        _ => None,
    }
}

/// The items of an array; none for anything else.
pub open spec fn items_of(doc: JsonView) -> Option<Seq<JsonView>> {
    match doc {
        JsonView::Array(items) => Some(items),
        _ => None,
    }
}

impl Json {
    /// The member `name` of an object.
    pub fn get(&self, name: &str) -> (r: Option<&Json>)
        ensures
            match r {
                Some(v) => member(self@, name@) == Some(v@),
                None => member(self@, name@) is None,
            },
    {
        match self {
            Json::Object(members) => {
                let ghost parts = self@->Object_0;
                let n: usize = members.len();
                let mut i: usize = 0;
                while i < n
                    invariant
                        i <= n == members@.len(),
                        self@ == JsonView::Object(parts),
                        parts.len() == n,
                        forall|j: int|
                            0 <= j < n ==> #[trigger] parts[j] == (
                                members@[j].0@,
                                contents(members@[j].1),
                            ),
                        member_index(parts, name@, 0) == member_index(parts, name@, i as int),
                    decreases n - i,
                {
                    assert(parts[i as int].0 == members@[i as int].0@);
                    if same_text(members[i].0.as_str(), name) {
                        return Some(&members[i].1);
                    }
                    i = i + 1;
                }
                None
            },
            _ => None,
        }
    }

    /// The text of a string.
    pub fn as_str(&self) -> (r: Option<&str>)
        ensures
            match r {
                Some(s) => text_of(self@) == Some(s@),
                None => text_of(self@) is None,
            },
    {
        match self {
            Json::Text(s) => Some(s.as_str()),
            _ => None,
        }
    }

    /// The items of an array.
    pub fn as_array(&self) -> (r: Option<&Vec<Json>>)
        ensures
            match r {
                Some(v) => items_of(self@) == Some(all_contents(v@)),
                None => items_of(self@) is None,
            },
    {
        match self {
            Json::Array(items) => {
                assert(self@->Array_0 =~= all_contents(items@));
                Some(items)
            },
            _ => None,
        }
    }
}

/// Whether `doc` is an object in which exactly one member is called `name`, and that
/// is `value`.
pub open spec fn has_one(doc: JsonView, name: Seq<char>, value: JsonView) -> bool {
    exists|members: Seq<(Seq<char>, JsonView)>, k: int| #[trigger]
        is_only_member(doc, name, value, members, k)
}

/// Whether the members of `doc` are `members`, and `k` is the only one called `name`.
pub open spec fn is_only_member(
    doc: JsonView,
    name: Seq<char>,
    value: JsonView,
    members: Seq<(Seq<char>, JsonView)>,
    k: int,
) -> bool {
    &&& doc == JsonView::Object(members)
    &&& 0 <= k < members.len()
    &&& members[k] == (name, value)
    &&& forall|j: int| 0 <= j < members.len() && j != k ==> (#[trigger] members[j]).0 != name
}

/// Whether `doc` has no member called `name`: it is no object, or all its members
/// are called otherwise.
pub open spec fn has_none(doc: JsonView, name: Seq<char>) -> bool {
    doc matches JsonView::Object(members) ==> forall|j: int|
        0 <= j < members.len() ==> (#[trigger] members[j]).0 != name
}

/// A member is found by its name wherever it stands, and only there.
pub proof fn members_are_found_by_name(doc: JsonView, name: Seq<char>, value: JsonView)
    ensures
        has_one(doc, name, value) ==> member(doc, name) == Some(value),
        has_none(doc, name) <==> member(doc, name) is None,
{
    if has_one(doc, name, value) {
        let (members, k) = choose|members: Seq<(Seq<char>, JsonView)>, k: int| #[trigger]
            is_only_member(doc, name, value, members, k);
        lemma_member_at(members, name, 0, k);
    }
    match doc {
        JsonView::Object(members) => {
            lemma_member_or_none(members, name, 0);
        },
        _ => {},
    }
}

proof fn lemma_member_at(members: Seq<(Seq<char>, JsonView)>, name: Seq<char>, i: int, k: int)
    requires
        0 <= i <= k < members.len(),
        members[k].0 == name,
        forall|j: int| 0 <= j < members.len() && j != k ==> (#[trigger] members[j]).0 != name,
    ensures
        member_index(members, name, i) == Some(k),
    decreases k - i,
{
    if i < k {
        assert(members[i].0 != name);
        lemma_member_at(members, name, i + 1, k);
    }
}

proof fn lemma_member_or_none(members: Seq<(Seq<char>, JsonView)>, name: Seq<char>, i: int)
    requires
        0 <= i <= members.len(),
    ensures
        member_index(members, name, i) is None <==> forall|j: int|
            i <= j < members.len() ==> (#[trigger] members[j]).0 != name,
    decreases members.len() - i,
{
    if i < members.len() {
        lemma_member_or_none(members, name, i + 1);
    }
}

} // verus!
