//! TOML documents as plain data.

use vstd::prelude::*;

use crate::text::same;

verus! {

/// A TOML value. A float is kept as its shortest numeral.
#[derive(Debug)]
pub enum Toml {
    Text(String),
    Integer(i64),
    Float(String),
    Bool(bool),
    Datetime,
    Array(Vec<Toml>),
    Table(Vec<(String, Toml)>),
}

/// A TOML value by what it holds.
#[verifier::ext_equal]
pub enum TomlView {
    Text(Seq<char>),
    Integer(int),
    Float(Seq<char>),
    Bool(bool),
    Datetime,
    Array(Seq<TomlView>),
    Table(Seq<Entry>),
}

/// One entry of a table.
#[verifier::ext_equal]
pub struct Entry {
    pub key: Seq<char>,
    pub value: TomlView,
}

impl View for Toml {
    type V = TomlView;

    open spec fn view(&self) -> TomlView
        decreases self,
    {
        match self {
            Toml::Text(s) => TomlView::Text(s@),
            Toml::Integer(n) => TomlView::Integer(*n as int),
            Toml::Float(s) => TomlView::Float(s@),
            Toml::Bool(b) => TomlView::Bool(*b),
            Toml::Datetime => TomlView::Datetime,
            Toml::Array(items) => TomlView::Array(
                Seq::new(
                    items@.len(),
                    |i: int|
                        if 0 <= i < items@.len() {
                            items@[i].view()
                        } else {
                            TomlView::Datetime
                        },
                ),
            ),
            Toml::Table(entries) => TomlView::Table(
                Seq::new(
                    entries@.len(),
                    |i: int|
                        if 0 <= i < entries@.len() {
                            Entry { key: entries@[i].0@, value: entries@[i].1.view() }
                        } else {
                            Entry { key: seq![], value: TomlView::Datetime }
                        },
                ),
            ),
        }
    }
}

/// The value of the first entry called `key`, from entry `from` on.
pub open spec fn entry_from(entries: Seq<Entry>, key: Seq<char>, from: int) -> Option<TomlView>
    decreases entries.len() - from,
{
    if from < 0 || from >= entries.len() {
        None
    } else if entries[from].key == key {
        Some(entries[from].value)
    } else {
        entry_from(entries, key, from + 1)
    }
}

impl TomlView {
    /// The entry `key` of a table.
    pub open spec fn entry(self, key: Seq<char>) -> Option<TomlView> {
        match self {
            TomlView::Table(entries) => entry_from(entries, key, 0),
            _ => None,
        }
    }
}

/// An optional value, by what it holds.
pub open spec fn toml_seen(v: Option<&Toml>) -> Option<TomlView> {
    match v {
        Some(t) => Some(t@),
        None => None,
    }
}

impl Toml {
    /// The entry `key` of a table.
    pub fn get(&self, key: &str) -> (r: Option<&Toml>)
        ensures
            toml_seen(r) == self@.entry(key@),
    {
        match self {
            Toml::Table(entries) => {
                let mut i: usize = 0;
                while i < entries.len()
                    invariant
                        self == Toml::Table(*entries),
                        i <= entries@.len(),
                        self@ is Table,
                        self@->Table_0.len() == entries@.len(),
                        entry_from(self@->Table_0, key@, 0) == entry_from(
                            self@->Table_0,
                            key@,
                            i as int,
                        ),
                    decreases entries@.len() - i,
                {
                    assert(self@->Table_0[i as int].key == entries@[i as int].0@);
                    assert(self@->Table_0[i as int].value == entries@[i as int].1@);
                    if same(entries[i].0.as_str(), key) {
                        return Some(&entries[i].1);
                    }
                    i = i + 1;
                }
                None
            },
            _ => None,
        }
    }

    /// Reads a TOML document.
    pub fn from_text(text: &str) -> (r: Result<Toml, String>)
        ensures
            match r {
                Ok(t) => toml_parsed(text@) == Ok::<TomlView, Seq<char>>(t@),
                Err(e) => toml_parsed(text@) == Err::<TomlView, Seq<char>>(e@),
            },
    {
        match parse_toml(text) {
            Ok(v) => Ok(convert(v)),
            Err(e) => Err(e),
        }
    }
}

// --- the TOML reader ---------------------------------------------------------

/// A value of the TOML reader.
#[verifier::external_type_specification]
#[verifier::external_body]
pub struct ExTomlValue(toml::Value);

/// What a value of the TOML reader holds.
pub uninterp spec fn toml_tree(v: toml::Value) -> TomlView;

/// What the TOML reader makes of a text: the value, or its message.
pub uninterp spec fn toml_parsed(text: Seq<char>) -> Result<TomlView, Seq<char>>;

/// `toml::from_str::<Value>`: the document that the text stands for, or the
/// text of the error; both depend on the text alone.
#[verifier::external_body]
fn parse_toml(text: &str) -> (r: Result<toml::Value, String>)
    ensures
        match r {
            Ok(v) => toml_parsed(text@) == Ok::<TomlView, Seq<char>>(toml_tree(v)),
            Err(e) => toml_parsed(text@) == Err::<TomlView, Seq<char>>(e@),
        },
{
    toml::from_str::<toml::Value>(text).map_err(|e| e.to_string())
}

/// One level of a value of the TOML reader.
enum TomlNode {
    Text(String),
    Integer(i64),
    Float(String),
    Bool(bool),
    Datetime,
    Array(Vec<toml::Value>),
    Table(Vec<(String, toml::Value)>),
}

spec fn node_view(n: TomlNode) -> TomlView {
    match n {
        TomlNode::Text(s) => TomlView::Text(s@),
        TomlNode::Integer(i) => TomlView::Integer(i as int),
        TomlNode::Float(s) => TomlView::Float(s@),
        TomlNode::Bool(b) => TomlView::Bool(b),
        TomlNode::Datetime => TomlView::Datetime,
        TomlNode::Array(items) => TomlView::Array(
            Seq::new(items@.len(), |i: int| toml_tree(items@[i])),
        ),
        TomlNode::Table(entries) => TomlView::Table(
            Seq::new(
                entries@.len(),
                |i: int| Entry { key: entries@[i].0@, value: toml_tree(entries@[i].1) },
            ),
        ),
    }
}

/// Takes a `toml::Value` apart by its variant: the entries of a table in the
/// order of its map, a float as it displays.
#[verifier::external_body]
fn open_toml(v: toml::Value) -> (r: TomlNode)
    ensures
        node_view(r) == toml_tree(v),
{
    match v {
        toml::Value::String(s) => TomlNode::Text(s),
        toml::Value::Integer(n) => TomlNode::Integer(n),
        toml::Value::Float(x) => TomlNode::Float(x.to_string()),
        toml::Value::Boolean(b) => TomlNode::Bool(b),
        toml::Value::Datetime(_) => TomlNode::Datetime,
        toml::Value::Array(items) => TomlNode::Array(items),
        toml::Value::Table(entries) => TomlNode::Table(entries.into_iter().collect()),
    }
}

/// Turns a value of the TOML reader into plain data.
fn convert(v: toml::Value) -> (r: Toml)
    ensures
        r@ == toml_tree(v),
    decreases toml_tree(v),
{
    let ghost tree = toml_tree(v);
    match open_toml(v) {
        TomlNode::Text(s) => Toml::Text(s),
        TomlNode::Integer(n) => Toml::Integer(n),
        TomlNode::Float(s) => Toml::Float(s),
        TomlNode::Bool(b) => Toml::Bool(b),
        TomlNode::Datetime => Toml::Datetime,
        TomlNode::Array(items) => {
            let mut out: Vec<Toml> = Vec::new();
            let ghost all = items@;
            for item in it: items
                invariant
                    it.seq() == all,
                    tree == toml_tree(v),
                    tree == TomlView::Array(Seq::new(all.len(), |i: int| toml_tree(all[i]))),
                    out@.len() == it.index(),
                    forall|k: int|
                        0 <= k < it.index() ==> (#[trigger] out@[k])@ == toml_tree(all[k]),
            {
                proof {
                    let at = it.index();
                    assert(tree->Array_0[at] == toml_tree(item));
                    assert(decreases_to!(tree => tree->Array_0[at]));
                }
                out.push(convert(item));
            }
            let r = Toml::Array(out);
            assert(r@->Array_0 =~= tree->Array_0);
            r
        },
        TomlNode::Table(entries) => {
            let mut out: Vec<(String, Toml)> = Vec::new();
            let ghost all = entries@;
            for entry in it: entries
                invariant
                    it.seq() == all,
                    tree == toml_tree(v),
                    tree == TomlView::Table(
                        Seq::new(
                            all.len(),
                            |i: int| Entry { key: all[i].0@, value: toml_tree(all[i].1) },
                        ),
                    ),
                    out@.len() == it.index(),
                    forall|k: int|
                        0 <= k < it.index() ==> (#[trigger] out@[k]).0@ == all[k].0@ && out@[k].1@
                            == toml_tree(all[k].1),
            {
                proof {
                    let at = it.index();
                    assert(tree->Table_0[at].value == toml_tree(entry.1));
                    assert(decreases_to!(tree => tree->Table_0[at].value));
                }
                out.push((entry.0, convert(entry.1)));
            }
            let r = Toml::Table(out);
            assert(r@->Table_0 =~= tree->Table_0);
            r
        },
    }
}

} // verus!
