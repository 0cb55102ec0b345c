//! JSON values as plain data, and their reading from text.

use vstd::prelude::*;

use crate::num::{number_in, parse_number, Num};
use crate::text::same;

verus! {

/// A JSON value. A number keeps its text.
#[derive(Debug)]
pub enum Json {
    Null,
    Bool(bool),
    Number(String),
    Text(String),
    Array(Vec<Json>),
    Object(Vec<(String, Json)>),
}

/// What a JSON value holds.
#[verifier::ext_equal]
pub enum JsonView {
    Null,
    Bool(bool),
    Number(Seq<char>),
    Text(Seq<char>),
    Array(Seq<JsonView>),
    Object(Seq<Member>),
}

/// One field of an object.
#[verifier::ext_equal]
pub struct Member {
    pub key: Seq<char>,
    pub value: JsonView,
}

impl View for Json {
    type V = JsonView;

    open spec fn view(&self) -> JsonView
        decreases self,
    {
        match self {
            Json::Null => JsonView::Null,
            Json::Bool(b) => JsonView::Bool(*b),
            Json::Number(s) => JsonView::Number(s@),
            Json::Text(s) => JsonView::Text(s@),
            Json::Array(items) => JsonView::Array(
                Seq::new(
                    items@.len(),
                    |i: int|
                        if 0 <= i < items@.len() {
                            items@[i].view()
                        } else {
                            JsonView::Null
                        },
                ),
            ),
            Json::Object(fields) => JsonView::Object(
                Seq::new(
                    fields@.len(),
                    |i: int|
                        if 0 <= i < fields@.len() {
                            Member { key: fields@[i].0@, value: fields@[i].1.view() }
                        } else {
                            Member { key: seq![], value: JsonView::Null }
                        },
                ),
            ),
        }
    }
}

/// The value of the first field called `key`, from field `from` on.
pub open spec fn lookup(fields: Seq<Member>, key: Seq<char>, from: int) -> Option<
    JsonView,
>
    decreases fields.len() - from,
{
    if from < 0 || from >= fields.len() {
        None
    } else if fields[from].key == key {
        Some(fields[from].value)
    } else {
        lookup(fields, key, from + 1)
    }
}

impl JsonView {
    /// The field `key` of an object.
    pub open spec fn field(self, key: Seq<char>) -> Option<JsonView> {
        match self {
            JsonView::Object(fields) => lookup(fields, key, 0),
            _ => None,
        }
    }

    /// The text of a string.
    pub open spec fn text(self) -> Option<Seq<char>> {
        match self {
            JsonView::Text(s) => Some(s),
            _ => None,
        }
    }

    /// The items of an array.
    pub open spec fn items(self) -> Option<Seq<JsonView>> {
        match self {
            JsonView::Array(items) => Some(items),
            _ => None,
        }
    }

    /// The number that a number or a numeric string holds.
    pub open spec fn number(self) -> Option<Num> {
        match self {
            JsonView::Number(s) => number_in(s),
            JsonView::Text(s) => number_in(s),
            _ => None,
        }
    }

    /// The value of a boolean.
    pub open spec fn flag(self) -> Option<bool> {
        match self {
            JsonView::Bool(b) => Some(b),
            _ => None,
        }
    }

    /// The field `key`, read as a string.
    pub open spec fn text_field(self, key: Seq<char>) -> Option<Seq<char>> {
        match self.field(key) {
            Some(v) => v.text(),
            None => None,
        }
    }

    /// The field `key`, read as an array.
    pub open spec fn array_field(self, key: Seq<char>) -> Option<Seq<JsonView>> {
        match self.field(key) {
            Some(v) => v.items(),
            None => None,
        }
    }

    /// The field `first`, or the field `second` where there is none.
    pub open spec fn either(self, first: Seq<char>, second: Seq<char>) -> Option<JsonView> {
        match self.field(first) {
            Some(v) => Some(v),
            None => self.field(second),
        }
    }
}

/// The text of an optional value.
pub open spec fn text_in(v: Option<JsonView>) -> Option<Seq<char>> {
    match v {
        Some(j) => j.text(),
        None => None,
    }
}

/// The items of an optional value.
pub open spec fn items_in(v: Option<JsonView>) -> Option<Seq<JsonView>> {
    match v {
        Some(j) => j.items(),
        None => None,
    }
}

/// The number of an optional value.
pub open spec fn number_at(v: Option<JsonView>) -> Option<Num> {
    match v {
        Some(j) => j.number(),
        None => None,
    }
}

/// An optional value, by what it holds.
pub open spec fn seen(v: Option<&Json>) -> Option<JsonView> {
    match v {
        Some(j) => Some(j@),
        None => None,
    }
}

/// An optional text, by its characters.
pub open spec fn seen_text(v: Option<&str>) -> Option<Seq<char>> {
    match v {
        Some(s) => Some(s@),
        None => None,
    }
}

impl Json {
    /// The field `key` of an object.
    pub fn get(&self, key: &str) -> (r: Option<&Json>)
        ensures
            seen(r) == self@.field(key@),
    {
        match self {
            Json::Object(fields) => {
                let mut i: usize = 0;
                while i < fields.len()
                    invariant
                        self == Json::Object(*fields),
                        i <= fields@.len(),
                        self@ is Object,
                        self@->Object_0.len() == fields@.len(),
                        lookup(self@->Object_0, key@, 0) == lookup(
                            self@->Object_0,
                            key@,
                            i as int,
                        ),
                    decreases fields@.len() - i,
                {
                    assert(self@->Object_0[i as int].key == fields@[i as int].0@);
                    assert(self@->Object_0[i as int].value == fields@[i as int].1@);
                    if same(fields[i].0.as_str(), key) {
                        return Some(&fields[i].1);
                    }
                    i = i + 1;
                }
                None
            },
            _ => None,
        }
    }

    /// The field `first`, or the field `second` where there is none.
    pub fn get_either(&self, first: &str, second: &str) -> (r: Option<&Json>)
        ensures
            seen(r) == self@.either(first@, second@),
    {
        match self.get(first) {
            Some(v) => Some(v),
            None => self.get(second),
        }
    }

    /// The text of a string.
    pub fn as_text(&self) -> (r: Option<&str>)
        ensures
            seen_text(r) == self@.text(),
    {
        match self {
            Json::Text(s) => Some(s.as_str()),
            _ => None,
        }
    }

    /// The items of an array.
    pub fn as_items(&self) -> (r: Option<&Vec<Json>>)
        ensures
            r is Some <==> self@.items() is Some,
            r matches Some(v) ==> {
                &&& self@.items()->Some_0.len() == v@.len()
                &&& forall|i: int|
                    0 <= i < v@.len() ==> (#[trigger] v@[i])@ == self@.items()->Some_0[i]
            },
    {
        match self {
            Json::Array(items) => Some(items),
            _ => None,
        }
    }

    /// The number that a number or a numeric string holds.
    pub fn as_number(&self) -> (r: Option<Num>)
        ensures
            r == self@.number(),
    {
        match self {
            Json::Number(s) => parse_number(s.as_str()),
            Json::Text(s) => parse_number(s.as_str()),
            _ => None,
        }
    }

    /// The value of a boolean.
    pub fn as_bool(&self) -> (r: Option<bool>)
        ensures
            r == self@.flag(),
    {
        match self {
            Json::Bool(b) => Some(*b),
            _ => None,
        }
    }

    /// The field `key`, read as a string.
    pub fn get_text(&self, key: &str) -> (r: Option<&str>)
        ensures
            seen_text(r) == self@.text_field(key@),
    {
        match self.get(key) {
            Some(v) => v.as_text(),
            None => None,
        }
    }

    /// A copy of the value.
    pub fn copy(&self) -> (r: Json)
        ensures
            r@ == self@,
        decreases self,
    {
        match self {
            Json::Null => Json::Null,
            Json::Bool(b) => Json::Bool(*b),
            Json::Number(s) => Json::Number(s.clone()),
            Json::Text(s) => Json::Text(s.clone()),
            Json::Array(items) => {
                let mut out: Vec<Json> = Vec::new();
                let mut i: usize = 0;
                while i < items.len()
                    invariant
                        self == Json::Array(*items),
                        i <= items@.len(),
                        out@.len() == i,
                        forall|k: int| 0 <= k < i ==> (#[trigger] out@[k])@ == items@[k]@,
                    decreases items@.len() - i,
                {
                    assert(decreases_to!(self => self->Array_0@[i as int]));
                    out.push(items[i].copy());
                    i = i + 1;
                }
                let r = Json::Array(out);
                assert(r@->Array_0 =~= self@->Array_0);
                r
            },
            Json::Object(fields) => {
                let mut out: Vec<(String, Json)> = Vec::new();
                let mut i: usize = 0;
                while i < fields.len()
                    invariant
                        self == Json::Object(*fields),
                        i <= fields@.len(),
                        out@.len() == i,
                        forall|k: int|
                            0 <= k < i ==> (#[trigger] out@[k]).0@ == fields@[k].0@ && out@[k].1@
                                == fields@[k].1@,
                    decreases fields@.len() - i,
                {
                    assert(decreases_to!(self => self->Object_0@[i as int].1));
                    out.push((fields[i].0.clone(), fields[i].1.copy()));
                    i = i + 1;
                }
                let r = Json::Object(out);
                assert(r@->Object_0 =~= self@->Object_0);
                r
            },
        }
    }

    /// Reads a JSON document.
    pub fn from_text(text: &str) -> (r: Result<Json, String>)
        ensures
            match r {
                Ok(j) => parsed(text@) == Ok::<JsonView, Seq<char>>(j@),
                Err(e) => parsed(text@) == Err::<JsonView, Seq<char>>(e@),
            },
    {
        match parse_value(text) {
            Ok(v) => Ok(convert(v)),
            Err(e) => Err(e),
        }
    }
}

/// Reads the number of an optional value.
pub fn number_of_field(v: Option<&Json>) -> (r: Option<Num>)
    ensures
        r == number_at(seen(v)),
{
    match v {
        Some(j) => j.as_number(),
        None => None,
    }
}

/// Reads the text of an optional value.
pub fn text_of_field(v: Option<&Json>) -> (r: Option<&str>)
    ensures
        seen_text(r) == text_in(seen(v)),
{
    match v {
        Some(j) => j.as_text(),
        None => None,
    }
}

// --- the JSON reader ---------------------------------------------------------

/// A value of the JSON reader.
#[verifier::external_type_specification]
#[verifier::external_body]
pub struct ExValue(serde_json::Value);

/// What a value of the JSON reader holds.
pub uninterp spec fn value_tree(v: serde_json::Value) -> JsonView;

/// What the JSON reader makes of a text: the value, or its message.
pub uninterp spec fn parsed(text: Seq<char>) -> Result<JsonView, Seq<char>>;

/// `serde_json::from_str::<Value>`: the value that the text stands for, or
/// the text of the error; both depend on the text alone.
#[verifier::external_body]
fn parse_value(text: &str) -> (r: Result<serde_json::Value, String>)
    ensures
        match r {
            Ok(v) => parsed(text@) == Ok::<JsonView, Seq<char>>(value_tree(v)),
            Err(e) => parsed(text@) == Err::<JsonView, Seq<char>>(e@),
        },
{
    serde_json::from_str(text).map_err(|e| e.to_string())
}

/// One level of a value of the JSON reader.
enum Node {
    Null,
    Bool(bool),
    Number(String),
    Text(String),
    Array(Vec<serde_json::Value>),
    Object(Vec<(String, serde_json::Value)>),
}

spec fn node_view(n: Node) -> JsonView {
    match n {
        Node::Null => JsonView::Null,
        Node::Bool(b) => JsonView::Bool(b),
        Node::Number(s) => JsonView::Number(s@),
        Node::Text(s) => JsonView::Text(s@),
        Node::Array(items) => JsonView::Array(
            Seq::new(items@.len(), |i: int| value_tree(items@[i])),
        ),
        Node::Object(fields) => JsonView::Object(
            Seq::new(fields@.len(), |i: int| Member { key: fields@[i].0@, value: value_tree(fields@[i].1) }),
        ),
    }
}

/// Takes a `serde_json::Value` apart by its variant: the fields of an object
/// in the order of its map, a number as `Number` displays it.
#[verifier::external_body]
fn open_value(v: serde_json::Value) -> (r: Node)
    ensures
        node_view(r) == value_tree(v),
{
    match v {
        serde_json::Value::Null => Node::Null,
        serde_json::Value::Bool(b) => Node::Bool(b),
        serde_json::Value::Number(n) => Node::Number(n.to_string()),
        serde_json::Value::String(s) => Node::Text(s),
        serde_json::Value::Array(items) => Node::Array(items),
        serde_json::Value::Object(fields) => Node::Object(fields.into_iter().collect()),
    }
}

/// Turns a value of the JSON reader into plain data.
fn convert(v: serde_json::Value) -> (r: Json)
    ensures
        r@ == value_tree(v),
    decreases value_tree(v),
{
    let ghost tree = value_tree(v);
    match open_value(v) {
        Node::Null => Json::Null,
        Node::Bool(b) => Json::Bool(b),
        Node::Number(s) => Json::Number(s),
        Node::Text(s) => Json::Text(s),
        Node::Array(items) => {
            let mut out: Vec<Json> = Vec::new();
            let ghost all = items@;
            for item in it: items
                invariant
                    it.seq() == all,
                    tree == value_tree(v),
                    tree == JsonView::Array(Seq::new(all.len(), |i: int| value_tree(all[i]))),
                    out@.len() == it.index(),
                    forall|k: int|
                        0 <= k < it.index() ==> (#[trigger] out@[k])@ == value_tree(all[k]),
            {
                proof {
                    let at = it.index();
                    assert(tree->Array_0[at] == value_tree(item));
                    assert(decreases_to!(tree => tree->Array_0[at]));
                }
                out.push(convert(item));
            }
            let r = Json::Array(out);
            assert(r@->Array_0 =~= tree->Array_0);
            r
        },
        Node::Object(fields) => {
            let mut out: Vec<(String, Json)> = Vec::new();
            let ghost all = fields@;
            for field in it: fields
                invariant
                    it.seq() == all,
                    tree == value_tree(v),
                    tree == JsonView::Object(
                        Seq::new(all.len(), |i: int| Member { key: all[i].0@, value: value_tree(all[i].1) }),
                    ),
                    out@.len() == it.index(),
                    forall|k: int|
                        0 <= k < it.index() ==> (#[trigger] out@[k]).0@ == all[k].0@ && out@[k].1@
                            == value_tree(all[k].1),
            {
                proof {
                    let at = it.index();
                    assert(tree->Object_0[at].value == value_tree(field.1));
                    assert(decreases_to!(tree => tree->Object_0[at].value));
                }
                out.push((field.0, convert(field.1)));
            }
            let r = Json::Object(out);
            assert(r@->Object_0 =~= tree->Object_0);
            r
        },
    }
}

} // verus!
