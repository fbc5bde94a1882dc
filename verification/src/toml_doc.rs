//! TOML documents: the tree that configurations and rules are read from.

use vstd::prelude::*;

use crate::model::opt_text;
use crate::plain_toml::PlainDocument;
use crate::text::{same, str_views};

verus! {

/// A TOML value. A float is kept by the bits of its double, a date by its text.
#[derive(Debug, PartialEq)]
pub enum Toml {
    Text(String),
    Integer(i64),
    Float { bits: u64 },
    Bool(bool),
    Datetime(String),
    Array(Vec<Toml>),
    Table(Vec<(String, Toml)>),
}

/// The view of a [`Toml`].
pub enum TomlView {
    Text(Seq<char>),
    Integer(i64),
    Float { bits: u64 },
    Bool(bool),
    Datetime(Seq<char>),
    Array(Seq<TomlView>),
    Table(Seq<(Seq<char>, TomlView)>),
}

impl View for Toml {
    type V = TomlView;

    open spec fn view(&self) -> TomlView {
        toml_tree(*self)
    }
}

/// The view of a TOML value.
pub open spec fn toml_tree(v: Toml) -> TomlView
    decreases v,
{
    match v {
        Toml::Text(s) => TomlView::Text(s@),
        Toml::Integer(n) => TomlView::Integer(n),
        Toml::Float { bits } => TomlView::Float { bits },
        Toml::Bool(b) => TomlView::Bool(b),
        Toml::Datetime(s) => TomlView::Datetime(s@),
        Toml::Array(items) => TomlView::Array(toml_items(items@)),
        Toml::Table(entries) => TomlView::Table(toml_entries(entries@)),
    }
}

/// The views of the items of an array.
pub open spec fn toml_items(items: Seq<Toml>) -> Seq<TomlView>
    decreases items,
{
    Seq::new(
        items.len(),
        |i: int|
            if 0 <= i < items.len() {
                toml_tree(items[i])
            } else {
                TomlView::Bool(false)
            },
    )
}

/// The views of the entries of a table.
pub open spec fn toml_entries(entries: Seq<(String, Toml)>) -> Seq<(Seq<char>, TomlView)>
    decreases entries,
{
    Seq::new(
        entries.len(),
        |i: int|
            if 0 <= i < entries.len() {
                (entries[i].0@, toml_tree(entries[i].1))
            } else {
                (seq![], TomlView::Bool(false))
            },
    )
}

/// The items of an array, one by one.
pub proof fn lemma_toml_items(items: Seq<Toml>)
    ensures
        toml_items(items).len() == items.len(),
        forall|i: int| 0 <= i < items.len() ==> #[trigger] toml_items(items)[i] == items[i]@,
{
}

/// The entries of a table, one by one.
pub proof fn lemma_toml_entries(entries: Seq<(String, Toml)>)
    ensures
        toml_entries(entries).len() == entries.len(),
        forall|i: int|
            0 <= i < entries.len() ==> #[trigger] toml_entries(entries)[i] == (
                entries[i].0@,
                entries[i].1@,
            ),
{
}

/// The value of the first entry named `key`.
pub open spec fn entry(entries: Seq<(Seq<char>, TomlView)>, key: Seq<char>) -> Option<TomlView>
    decreases entries.len(),
{
    if entries.len() == 0 {
        None
    } else if entries[0].0 == key {
        Some(entries[0].1)
    } else {
        entry(entries.drop_first(), key)
    }
}

/// Whether no two entries have the same name.
pub open spec fn entries_differ(entries: Seq<(Seq<char>, TomlView)>) -> bool {
    forall|i: int, j: int|
        0 <= i < j < entries.len() ==> (#[trigger] entries[i]).0 != (#[trigger] entries[j]).0
}

/// Where no two entries have the same name, each is found by its name.
pub proof fn lemma_entry_at(entries: Seq<(Seq<char>, TomlView)>, i: int)
    requires
        entries_differ(entries),
        0 <= i < entries.len(),
    ensures
        entry(entries, entries[i].0) == Some(entries[i].1),
    decreases entries.len(),
{
    if i > 0 {
        let rest = entries.drop_first();
        assert forall|a: int, b: int| 0 <= a < b < rest.len() implies (#[trigger] rest[a]).0 != (
        #[trigger] rest[b]).0 by {
            assert(rest[a] == entries[a + 1]);
            assert(rest[b] == entries[b + 1]);
        }
        assert(entries[0].0 != entries[i].0);
        assert(rest[i - 1] == entries[i]);
        lemma_entry_at(rest, i - 1);
    }
}

/// A name that no entry has is not found.
pub proof fn lemma_no_entry(entries: Seq<(Seq<char>, TomlView)>, key: Seq<char>)
    requires
        forall|i: int| 0 <= i < entries.len() ==> (#[trigger] entries[i]).0 != key,
    ensures
        entry(entries, key) is None,
    decreases entries.len(),
{
    if entries.len() > 0 {
        let rest = entries.drop_first();
        assert forall|i: int| 0 <= i < rest.len() implies (#[trigger] rest[i]).0 != key by {
            assert(rest[i] == entries[i + 1]);
        }
        lemma_no_entry(rest, key);
    }
}

impl TomlView {
    /// The value of the entry named `key` of a table.
    pub open spec fn get(self, key: Seq<char>) -> Option<TomlView> {
        match self {
            TomlView::Table(entries) => entry(entries, key),
            _ => None,
        }
    }
}

/// The value of the first entry named `key`.
pub fn get_entry<'a>(entries: &'a Vec<(String, Toml)>, key: &str) -> (r: Option<&'a Toml>)
    ensures
        match r {
            Some(v) => entry(toml_entries(entries@), key@) == Some(v@),
            None => entry(toml_entries(entries@), key@) is None,
        },
{
    let ghost all = toml_entries(entries@);
    let mut i: usize = 0;
    assert(all.skip(0) == all);
    while i < entries.len()
        invariant
            i <= entries.len(),
            all == toml_entries(entries@),
            entry(all, key@) == entry(all.skip(i as int), key@),
        decreases entries.len() - i,
    {
        proof {
            lemma_toml_entries(entries@);
            assert(all.skip(i as int)[0] == all[i as int]);
            assert(all.skip(i as int).drop_first() == all.skip(i + 1));
        }
        if same(entries[i].0.as_str(), key) {
            return Some(&entries[i].1);
        }
        i += 1;
    }
    None
}

impl Toml {
    /// The value of the entry named `key` of a table.
    pub fn get(&self, key: &str) -> (r: Option<&Toml>)
        ensures
            match r {
                Some(v) => self@.get(key@) == Some(v@),
                None => self@.get(key@) is None,
            },
    {
        match self {
            Toml::Table(entries) => get_entry(entries, key),
            _ => None,
        }
    }
}

impl Clone for Toml {
    fn clone(&self) -> (r: Toml)
        ensures
            r@ == self@,
        decreases self,
    {
        match self {
            Toml::Text(s) => Toml::Text(s.clone()),
            Toml::Integer(n) => Toml::Integer(*n),
            Toml::Float { bits } => Toml::Float { bits: *bits },
            Toml::Bool(b) => Toml::Bool(*b),
            Toml::Datetime(s) => Toml::Datetime(s.clone()),
            Toml::Array(items) => {
                let mut copies: Vec<Toml> = Vec::new();
                let mut i: usize = 0;
                while i < items.len()
                    invariant
                        i <= items.len(),
                        copies.len() == i,
                        forall|j: int| 0 <= j < i ==> #[trigger] copies@[j]@ == items@[j]@,
                        decreases_to!(self => items@),
                    decreases items.len() - i,
                {
                    let copy = items[i].clone();
                    copies.push(copy);
                    i += 1;
                }
                proof {
                    lemma_toml_items(items@);
                    lemma_toml_items(copies@);
                    assert(toml_items(copies@) =~= toml_items(items@));
                }
                Toml::Array(copies)
            },
            Toml::Table(entries) => {
                let mut copies: Vec<(String, Toml)> = Vec::new();
                let mut i: usize = 0;
                while i < entries.len()
                    invariant
                        i <= entries.len(),
                        copies.len() == i,
                        forall|j: int|
                            0 <= j < i ==> (#[trigger] copies@[j]).0@ == entries@[j].0@
                                && copies@[j].1@ == entries@[j].1@,
                        decreases_to!(self => entries@),
                    decreases entries.len() - i,
                {
                    proof {
                        assert(decreases_to!(entries@ => entries@[i as int]));
                        assert(decreases_to!(entries@[i as int] => entries@[i as int].1));
                    }
                    let copy = entries[i].1.clone();
                    copies.push((entries[i].0.clone(), copy));
                    i += 1;
                }
                proof {
                    lemma_toml_entries(entries@);
                    lemma_toml_entries(copies@);
                    assert(toml_entries(copies@) =~= toml_entries(entries@));
                }
                Toml::Table(copies)
            },
        }
    }
}

/// `toml::Value`, a TOML value as the crate reads it.
#[verifier::external_type_specification]
#[verifier::external_body]
pub struct ExTomlValue(toml::Value);

/// What a `toml::Value` holds.
pub uninterp spec fn toml_value_view(v: toml::Value) -> TomlView;

/// The outermost layer of a `toml::Value`.
enum TomlLayer {
    Text(String),
    Integer(i64),
    Float { bits: u64 },
    Bool(bool),
    Datetime(String),
    Array(Vec<toml::Value>),
    Table(Vec<(String, toml::Value)>),
}

spec fn toml_layer_view(layer: TomlLayer) -> TomlView {
    match layer {
        TomlLayer::Text(s) => TomlView::Text(s@),
        TomlLayer::Integer(n) => TomlView::Integer(n),
        TomlLayer::Float { bits } => TomlView::Float { bits },
        TomlLayer::Bool(b) => TomlView::Bool(b),
        TomlLayer::Datetime(s) => TomlView::Datetime(s@),
        TomlLayer::Array(items) => TomlView::Array(
            items@.map_values(|v: toml::Value| toml_value_view(v)),
        ),
        TomlLayer::Table(entries) => TomlView::Table(
            entries@.map_values(|e: (String, toml::Value)| (e.0@, toml_value_view(e.1))),
        ),
    }
}

/// The outermost layer of a `toml::Value`: its variant, and what that holds.
/// The entries of a table come in the order in which it keeps them.
#[verifier::external_body]
fn open_toml(v: toml::Value) -> (r: TomlLayer)
    ensures
        toml_layer_view(r) == toml_value_view(v),
{
    match v {
        toml::Value::String(s) => TomlLayer::Text(s),
        toml::Value::Integer(n) => TomlLayer::Integer(n),
        toml::Value::Float(x) => TomlLayer::Float { bits: x.to_bits() },
        toml::Value::Boolean(b) => TomlLayer::Bool(b),
        toml::Value::Datetime(d) => TomlLayer::Datetime(d.to_string()),
        toml::Value::Array(items) => TomlLayer::Array(items),
        toml::Value::Table(entries) => TomlLayer::Table(entries.into_iter().collect()),
    }
}

/// The value that a `toml::Value` holds.
fn toml_of(v: toml::Value) -> (r: Toml)
    ensures
        r@ == toml_value_view(v),
    decreases toml_value_view(v),
{
    match open_toml(v) {
        TomlLayer::Text(s) => Toml::Text(s),
        TomlLayer::Integer(n) => Toml::Integer(n),
        TomlLayer::Float { bits } => Toml::Float { bits },
        TomlLayer::Bool(b) => Toml::Bool(b),
        TomlLayer::Datetime(s) => Toml::Datetime(s),
        TomlLayer::Array(items) => {
            let ghost inner = items@.map_values(|v: toml::Value| toml_value_view(v));
            let ghost all = items@;
            let mut out: Vec<Toml> = Vec::new();
            for item in it: items
                invariant
                    it.seq() == all,
                    inner == all.map_values(|v: toml::Value| toml_value_view(v)),
                    toml_value_view(v) == TomlView::Array(inner),
                    out.len() == it.index(),
                    forall|j: int| 0 <= j < out.len() ==> #[trigger] out@[j]@ == inner[j],
            {
                proof {
                    let k = it.index() as int;
                    assert(inner[k] == toml_value_view(item));
                    assert(decreases_to!(toml_value_view(v) => toml_value_view(v)->Array_0));
                    assert(decreases_to!(inner => inner[k]));
                }
                let value = toml_of(item);
                out.push(value);
            }
            proof {
                lemma_toml_items(out@);
                assert(toml_items(out@) =~= inner);
            }
            Toml::Array(out)
        },
        TomlLayer::Table(entries) => {
            let ghost inner = entries@.map_values(
                |e: (String, toml::Value)| (e.0@, toml_value_view(e.1)),
            );
            let ghost all = entries@;
            let mut out: Vec<(String, Toml)> = Vec::new();
            for named in it: entries
                invariant
                    it.seq() == all,
                    inner == all.map_values(
                        |e: (String, toml::Value)| (e.0@, toml_value_view(e.1)),
                    ),
                    toml_value_view(v) == TomlView::Table(inner),
                    out.len() == it.index(),
                    forall|j: int|
                        0 <= j < out.len() ==> ((#[trigger] out@[j]).0@, out@[j].1@) == inner[j],
            {
                proof {
                    let k = it.index() as int;
                    assert(inner[k] == (named.0@, toml_value_view(named.1)));
                    assert(decreases_to!(toml_value_view(v) => toml_value_view(v)->Table_0));
                    assert(decreases_to!(inner => inner[k]));
                    assert(decreases_to!(inner[k] => inner[k].1));
                }
                let (name, value) = named;
                let value = toml_of(value);
                out.push((name, value));
            }
            proof {
                lemma_toml_entries(out@);
                assert(toml_entries(out@) =~= inner);
            }
            Toml::Table(out)
        },
    }
}

/// What the `toml` crate makes of a text: the entries of a document, or the
/// words of its error.
pub uninterp spec fn parsed_toml(text: Seq<char>) -> Result<TomlView, Seq<char>>;

/// `str::parse` into a `toml::Table`, as a `toml::Value`, is a function of the
/// text. A document is a table. Of plain documents, what is read is what is
/// written: a basic string holds the characters between its quotes, with a
/// backslash and a quote behind a backslash for themselves, digits are a decimal
/// integer, and an entry belongs to the table whose header stands above it. Which
/// other texts are documents and what they hold is left to the name.
#[verifier::external_body]
fn read_document(text: &str) -> (r: Result<toml::Value, String>)
    ensures
        match r {
            Ok(v) => {
                &&& parsed_toml(text@) == Ok::<TomlView, Seq<char>>(toml_value_view(v))
                &&& toml_value_view(v) is Table
            },
            Err(e) => parsed_toml(text@) == Err::<TomlView, Seq<char>>(e@),
        },
        forall|doc: PlainDocument|
            text@ == #[trigger] doc.text() && doc.is_plain() ==> match r {
                Ok(v) => doc.is_held_by(toml_value_view(v)),
                Err(_) => false,
            },
{
    text.parse::<toml::Table>().map(toml::Value::Table).map_err(|e| e.to_string())
}

/// Reads a TOML document.
pub fn parse_toml(text: &str) -> (r: Result<Toml, String>)
    ensures
        match r {
            Ok(v) => {
                &&& parsed_toml(text@) == Ok::<TomlView, Seq<char>>(v@)
                &&& v@ is Table
            },
            Err(e) => parsed_toml(text@) == Err::<TomlView, Seq<char>>(e@),
        },
        forall|doc: PlainDocument|
            text@ == #[trigger] doc.text() && doc.is_plain() ==> match r {
                Ok(v) => doc.is_held_by(v@),
                Err(_) => false,
            },
{
    match read_document(text) {
        Ok(v) => Ok(toml_of(v)),
        Err(e) => Err(e),
    }
}

/// The words for a field that is not there.
pub open spec fn missing_field(key: Seq<char>) -> Seq<char> {
    "missing field `"@ + key + "`"@
}

/// The words for a field of the wrong type.
pub open spec fn wrong_type(key: Seq<char>, expected: Seq<char>) -> Seq<char> {
    "invalid type for field `"@ + key + "`: expected "@ + expected
}

/// The text of a field that must be there.
pub open spec fn required_text(v: TomlView, key: Seq<char>) -> Result<Seq<char>, Seq<char>> {
    match v.get(key) {
        Some(TomlView::Text(s)) => Ok(s),
        Some(_) => Err(wrong_type(key, "a string"@)),
        None => Err(missing_field(key)),
    }
}

/// The text of a field that may be missing.
pub open spec fn optional_text(v: TomlView, key: Seq<char>) -> Result<
    Option<Seq<char>>,
    Seq<char>,
> {
    match v.get(key) {
        Some(TomlView::Text(s)) => Ok(Some(s)),
        Some(_) => Err(wrong_type(key, "a string"@)),
        None => Ok(None),
    }
}

/// The table of a field that must be there.
pub open spec fn required_table(v: TomlView, key: Seq<char>) -> Result<
    Seq<(Seq<char>, TomlView)>,
    Seq<char>,
> {
    match v.get(key) {
        Some(TomlView::Table(entries)) => Ok(entries),
        Some(_) => Err(wrong_type(key, "a table"@)),
        None => Err(missing_field(key)),
    }
}

/// The words for a field that is not there.
pub fn say_missing(key: &str) -> (r: String)
    ensures
        r@ == missing_field(key@),
{
    let mut s = "missing field `".to_owned();
    s.append(key);
    s.append("`");
    s
}

/// The words for a field of the wrong type.
pub fn say_wrong_type(key: &str, expected: &str) -> (r: String)
    ensures
        r@ == wrong_type(key@, expected@),
{
    let mut s = "invalid type for field `".to_owned();
    s.append(key);
    s.append("`: expected ");
    s.append(expected);
    s
}

/// The text of a field that must be there.
pub fn need_text(v: &Toml, key: &str) -> (r: Result<String, String>)
    ensures
        match r {
            Ok(s) => required_text(v@, key@) == Ok::<Seq<char>, Seq<char>>(s@),
            Err(e) => required_text(v@, key@) == Err::<Seq<char>, Seq<char>>(e@),
        },
{
    match v.get(key) {
        Some(Toml::Text(s)) => Ok(s.clone()),
        Some(_) => Err(say_wrong_type(key, "a string")),
        None => Err(say_missing(key)),
    }
}

/// The text of a field that may be missing.
pub fn may_text(v: &Toml, key: &str) -> (r: Result<Option<String>, String>)
    ensures
        match r {
            Ok(s) => optional_text(v@, key@) == Ok::<Option<Seq<char>>, Seq<char>>(opt_text(s)),
            Err(e) => optional_text(v@, key@) == Err::<Option<Seq<char>>, Seq<char>>(e@),
        },
{
    match v.get(key) {
        Some(Toml::Text(s)) => Ok(Some(s.clone())),
        Some(_) => Err(say_wrong_type(key, "a string")),
        None => Ok(None),
    }
}

/// The table of a field that must be there.
pub fn need_table<'a>(v: &'a Toml, key: &str) -> (r: Result<&'a Toml, String>)
    ensures
        match r {
            Ok(t) => t@ is Table && required_table(v@, key@) == Ok::<
                Seq<(Seq<char>, TomlView)>,
                Seq<char>,
            >(t@->Table_0),
            Err(e) => required_table(v@, key@) == Err::<Seq<(Seq<char>, TomlView)>, Seq<char>>(e@),
        },
{
    match v.get(key) {
        Some(t) => match t {
            Toml::Table(_) => Ok(t),
            _ => Err(say_wrong_type(key, "a table")),
        },
        None => Err(say_missing(key)),
    }
}

/// A record as a table: one that is written as a list has its fields in their order,
/// and at least those that it cannot be without. Whether there may be more items
/// than fields, which then say nothing, depends on the reader.
pub open spec fn as_table(v: TomlView, names: Seq<Seq<char>>, least: nat, more: bool) -> TomlView {
    match v {
        TomlView::Array(items) => if items.len() < least || (!more && items.len() > names.len()) {
            v
        } else {
            let n = if items.len() < names.len() {
                items.len()
            } else {
                names.len()
            };
            TomlView::Table(Seq::new(n, |i: int| (names[i], items[i])))
        },
        _ => v,
    }
}

/// The record of a field that must be there.
pub open spec fn required_record(
    v: TomlView,
    key: Seq<char>,
    names: Seq<Seq<char>>,
    least: nat,
    more: bool,
) -> Result<Seq<(Seq<char>, TomlView)>, Seq<char>> {
    match v.get(key) {
        Some(found) => match as_table(found, names, least, more) {
            TomlView::Table(entries) => Ok(entries),
            _ => Err(wrong_type(key, "a table"@)),
        },
        None => Err(missing_field(key)),
    }
}

/// The table of a record that is written as a list.
pub fn list_as_table(v: &Toml, names: &[&'static str], least: usize, more: bool) -> (r: Option<
    Toml,
>)
    ensures
        match r {
            Some(t) => t@ is Table && as_table(v@, str_views(names@), least as nat, more) == t@,
            None => as_table(v@, str_views(names@), least as nat, more) == v@,
        },
{
    let ghost want = as_table(v@, str_views(names@), least as nat, more);
    let items = match v {
        Toml::Array(items) => items,
        _ => {
            return None;
        },
    };
    proof {
        lemma_toml_items(items@);
    }
    if items.len() < least || (!more && items.len() > names.len()) {
        return None;
    }
    let mut entries: Vec<(String, Toml)> = Vec::new();
    let mut i: usize = 0;
    while i < items.len() && i < names.len()
        invariant
            i <= items.len(),
            i <= names.len(),
            entries.len() == i,
            v@ == TomlView::Array(toml_items(items@)),
            toml_items(items@).len() == items.len(),
            forall|j: int| 0 <= j < items.len() ==> #[trigger] toml_items(items@)[j] == items@[j]@,
            forall|j: int|
                0 <= j < i ==> (#[trigger] entries@[j]).0@ == names@[j]@ && entries@[j].1@
                    == items@[j]@,
        decreases items.len() - i,
    {
        entries.push((names[i].to_owned(), items[i].clone()));
        i += 1;
    }
    proof {
        lemma_toml_entries(entries@);
        assert(toml_entries(entries@) =~= want->Table_0);
    }
    Some(Toml::Table(entries))
}

/// The record of a field that must be there.
pub fn need_record(v: &Toml, key: &str, names: &[&'static str], least: usize, more: bool) -> (r:
    Result<Toml, String>)
    ensures
        match r {
            Ok(t) => t@ is Table && required_record(
                v@,
                key@,
                str_views(names@),
                least as nat,
                more,
            ) == Ok::<Seq<(Seq<char>, TomlView)>, Seq<char>>(t@->Table_0),
            Err(e) => required_record(v@, key@, str_views(names@), least as nat, more) == Err::<
                Seq<(Seq<char>, TomlView)>,
                Seq<char>,
            >(e@),
        },
{
    match v.get(key) {
        Some(found) => match list_as_table(found, names, least, more) {
            Some(t) => Ok(t),
            None => match found {
                Toml::Table(_) => Ok(found.clone()),
                _ => Err(say_wrong_type(key, "a table")),
            },
        },
        None => Err(say_missing(key)),
    }
}

} // verus!
