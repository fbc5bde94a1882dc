//! Documents of two levels as TOML texts: values, tables of values, and arrays of such
//! tables.

use vstd::prelude::*;

use crate::plain_toml::{is_bare_key, lemma_entry_found};
use crate::toml_doc::{
    entries_differ, entry, lemma_entry_at, lemma_toml_entries, lemma_toml_items,
    parsed_toml, toml_entries, toml_items, toml_value_view, Toml, TomlView,
};

verus! {

/// Whether a value is a text, an integer or a truth value.
pub open spec fn is_scalar(v: TomlView) -> bool {
    v is Text || v is Integer || v is Bool
}

/// Whether entries have bare names, no two of which are the same.
pub open spec fn are_named(entries: Seq<(Seq<char>, TomlView)>) -> bool {
    &&& entries_differ(entries)
    &&& forall|i: int| 0 <= i < entries.len() ==> is_bare_key((#[trigger] entries[i]).0)
}

/// Whether a value is a table of scalars.
pub open spec fn is_scalar_table(v: TomlView) -> bool {
    &&& v matches TomlView::Table(entries)
    &&& are_named(entries)
    &&& forall|i: int| 0 <= i < entries.len() ==> is_scalar((#[trigger] entries[i]).1)
}

/// Whether a value can stand in a document of two levels.
pub open spec fn is_low(v: TomlView) -> bool {
    match v {
        TomlView::Array(items) => forall|i: int|
            0 <= i < items.len() ==> is_scalar_table(#[trigger] items[i]),
        TomlView::Table(_) => is_scalar_table(v),
        _ => is_scalar(v),
    }
}

/// Whether a value is a document of two levels.
pub open spec fn is_flat(v: TomlView) -> bool {
    &&& v matches TomlView::Table(entries)
    &&& are_named(entries)
    &&& forall|i: int| 0 <= i < entries.len() ==> is_low((#[trigger] entries[i]).1)
}

/// Whether two tables are the same but for the order of their entries.
pub open spec fn same_table(a: TomlView, b: TomlView) -> bool {
    &&& a is Table
    &&& b is Table
    &&& forall|key: Seq<char>| #[trigger] a.get(key) == b.get(key)
}

/// Whether two values are the same but for the order of the entries of tables.
pub open spec fn same_low(a: TomlView, b: TomlView) -> bool {
    a == b || match (a, b) {
        (TomlView::Array(x), TomlView::Array(y)) => {
            &&& x.len() == y.len()
            &&& forall|i: int| 0 <= i < x.len() ==> same_table(#[trigger] x[i], y[i])
        },
        (TomlView::Table(_), TomlView::Table(_)) => same_table(a, b),
        _ => false,
    }
}

/// Whether two entries are the same but for the order of the entries of tables.
pub open spec fn same_entry(a: Option<TomlView>, b: Option<TomlView>) -> bool {
    match (a, b) {
        (Some(x), Some(y)) => same_low(x, y),
        (None, None) => true,
        _ => false,
    }
}

/// Whether two documents of two levels are the same but for the order of entries.
pub open spec fn same_document(a: TomlView, b: TomlView) -> bool {
    &&& a is Table
    &&& b is Table
    &&& forall|key: Seq<char>| same_entry(#[trigger] a.get(key), b.get(key))
}

/// What is the same as a third document is the same.
proof fn lemma_same_document(a: TomlView, b: TomlView, c: TomlView)
    requires
        same_document(a, b),
        same_document(b, c),
    ensures
        same_document(a, c),
{
    assert forall|key: Seq<char>| same_entry(#[trigger] a.get(key), c.get(key)) by {
        assert(same_entry(a.get(key), b.get(key)));
        assert(same_entry(b.get(key), c.get(key)));
    }
}

/// A document is the same as itself.
pub proof fn lemma_document_is_itself(a: TomlView)
    requires
        a is Table,
    ensures
        same_document(a, a),
{
}

/// A layer of a value that is written.
enum Part {
    Text(String),
    Integer(i64),
    Bool(bool),
    Array(Vec<toml::Value>),
    Table(Vec<(String, toml::Value)>),
}

spec fn part_view(part: Part) -> TomlView {
    match part {
        Part::Text(s) => TomlView::Text(s@),
        Part::Integer(n) => TomlView::Integer(n),
        Part::Bool(b) => TomlView::Bool(b),
        Part::Array(items) => TomlView::Array(
            items@.map_values(|v: toml::Value| toml_value_view(v)),
        ),
        Part::Table(entries) => TomlView::Table(
            entries@.map_values(|e: (String, toml::Value)| (e.0@, toml_value_view(e.1))),
        ),
    }
}

/// The `toml::Value` of a layer. A table keeps its entries in an order of its own; no two
/// may have one name.
#[verifier::external_body]
fn close_toml(part: Part) -> (r: toml::Value)
    requires
        part_view(part) matches TomlView::Table(entries) ==> entries_differ(entries),
    ensures
        match part_view(part) {
            TomlView::Table(entries) => {
                &&& toml_value_view(r) matches TomlView::Table(kept)
                &&& entries_differ(kept)
                &&& forall|key: Seq<char>| #[trigger] entry(kept, key) == entry(entries, key)
            },
            v => toml_value_view(r) == v,
        },
{
    match part {
        Part::Text(s) => toml::Value::String(s),
        Part::Integer(n) => toml::Value::Integer(n),
        Part::Bool(b) => toml::Value::Boolean(b),
        Part::Array(items) => toml::Value::Array(items),
        Part::Table(entries) => toml::Value::Table(entries.into_iter().collect()),
    }
}

/// `toml::to_string_pretty` on a document of two levels, which it can always write. Read
/// again, the text is that document, but for the order of entries.
#[verifier::external_body]
fn write_document(v: &toml::Value) -> (r: String)
    requires
        is_flat(toml_value_view(*v)),
    ensures
        match parsed_toml(r@) {
            Ok(doc) => same_document(doc, toml_value_view(*v)),
            Err(_) => false,
        },
{
    toml::to_string_pretty(v).unwrap()
}

/// A table keeps what holds of its entries, in whatever order it keeps them.
proof fn lemma_kept_entries(
    kept: Seq<(Seq<char>, TomlView)>,
    entries: Seq<(Seq<char>, TomlView)>,
    i: int,
) -> (j: int)
    requires
        entries_differ(kept),
        forall|key: Seq<char>| #[trigger] entry(kept, key) == entry(entries, key),
        0 <= i < kept.len(),
    ensures
        0 <= j < entries.len(),
        entries[j] == kept[i],
{
    lemma_entry_at(kept, i);
    assert(entry(entries, kept[i].0) == Some(kept[i].1));
    lemma_entry_found(entries, kept[i].0)
}

fn scalar_value(v: &Toml) -> (r: toml::Value)
    requires
        is_scalar(v@),
    ensures
        toml_value_view(r) == v@,
{
    match v {
        Toml::Text(s) => close_toml(Part::Text(s.clone())),
        Toml::Integer(n) => close_toml(Part::Integer(*n)),
        Toml::Bool(b) => close_toml(Part::Bool(*b)),
        _ => {
            assert(false);
            close_toml(Part::Bool(false))
        },
    }
}

fn scalar_table_value(entries: &Vec<(String, Toml)>) -> (r: toml::Value)
    requires
        is_scalar_table(TomlView::Table(toml_entries(entries@))),
    ensures
        is_scalar_table(toml_value_view(r)),
        same_table(toml_value_view(r), TomlView::Table(toml_entries(entries@))),
{
    let ghost given = toml_entries(entries@);
    let mut out: Vec<(String, toml::Value)> = Vec::new();
    let mut i: usize = 0;
    proof {
        lemma_toml_entries(entries@);
    }
    while i < entries.len()
        invariant
            i <= entries.len(),
            out.len() == i,
            given == toml_entries(entries@),
            given.len() == entries.len(),
            is_scalar_table(TomlView::Table(given)),
            forall|j: int|
                0 <= j < entries.len() ==> #[trigger] given[j] == (entries@[j].0@, entries@[j].1@),
            forall|j: int|
                0 <= j < i ==> ((#[trigger] out@[j]).0@, toml_value_view(out@[j].1)) == given[j],
        decreases entries.len() - i,
    {
        assert(is_scalar(given[i as int].1));
        let value = scalar_value(&entries[i].1);
        out.push((entries[i].0.clone(), value));
        i += 1;
    }
    assert(out@.map_values(|e: (String, toml::Value)| (e.0@, toml_value_view(e.1))) =~= given);
    let r = close_toml(Part::Table(out));
    proof {
        let kept = toml_value_view(r)->Table_0;
        assert forall|k: int| 0 <= k < kept.len() implies is_bare_key((#[trigger] kept[k]).0)
            && is_scalar(kept[k].1) by {
            let j = lemma_kept_entries(kept, given, k);
            assert(is_bare_key(given[j].0) && is_scalar(given[j].1));
        }
    }
    r
}

fn array_value(items: &Vec<Toml>) -> (r: toml::Value)
    requires
        is_low(TomlView::Array(toml_items(items@))),
    ensures
        is_low(toml_value_view(r)),
        same_low(toml_value_view(r), TomlView::Array(toml_items(items@))),
{
    let ghost given = toml_items(items@);
    let mut out: Vec<toml::Value> = Vec::new();
    let mut i: usize = 0;
    proof {
        lemma_toml_items(items@);
        let whole = TomlView::Array(given);
        assert(whole->Array_0 == given);
        assert forall|j: int| 0 <= j < given.len() implies is_scalar_table(#[trigger] given[j]) by {
            assert(is_low(whole));
            assert(is_scalar_table(whole->Array_0[j]));
        }
    }
    while i < items.len()
        invariant
            i <= items.len(),
            out.len() == i,
            given == toml_items(items@),
            given.len() == items.len(),
            forall|j: int| 0 <= j < given.len() ==> is_scalar_table(#[trigger] given[j]),
            forall|j: int| 0 <= j < items.len() ==> #[trigger] given[j] == items@[j]@,
            forall|j: int|
                0 <= j < i ==> is_scalar_table(toml_value_view(#[trigger] out@[j])) && same_table(
                    toml_value_view(out@[j]),
                    given[j],
                ),
        decreases items.len() - i,
    {
        assert(is_scalar_table(given[i as int]));
        match &items[i] {
            Toml::Table(entries) => {
                let value = scalar_table_value(entries);
                out.push(value);
            },
            _ => {
                assert(false);
            },
        }
        i += 1;
    }
    let ghost views = out@.map_values(|v: toml::Value| toml_value_view(v));
    assert forall|j: int| 0 <= j < views.len() implies is_scalar_table(#[trigger] views[j])
        && same_table(views[j], given[j]) by {
        assert(views[j] == toml_value_view(out@[j]));
    }
    close_toml(Part::Array(out))
}

/// The text of a document of two levels. Read again, it is that document, but for the
/// order of entries.
pub fn document_text(v: &Toml) -> (r: String)
    requires
        is_flat(v@),
    ensures
        match parsed_toml(r@) {
            Ok(doc) => same_document(doc, v@),
            Err(_) => false,
        },
{
    let entries = match v {
        Toml::Table(entries) => entries,
        _ => {
            assert(false);
            return String::new();
        },
    };
    let ghost given = toml_entries(entries@);
    let ghost mut low: Seq<(Seq<char>, TomlView)> = seq![];
    let mut out: Vec<(String, toml::Value)> = Vec::new();
    let mut i: usize = 0;
    proof {
        lemma_toml_entries(entries@);
    }
    while i < entries.len()
        invariant
            i <= entries.len(),
            out.len() == i,
            low.len() == i,
            given == toml_entries(entries@),
            given.len() == entries.len(),
            is_flat(TomlView::Table(given)),
            forall|j: int|
                0 <= j < entries.len() ==> #[trigger] given[j] == (entries@[j].0@, entries@[j].1@),
            forall|j: int|
                0 <= j < i ==> (out@[j].0@, toml_value_view(out@[j].1)) == #[trigger] low[j],
            forall|j: int|
                0 <= j < i ==> (#[trigger] low[j]).0 == given[j].0 && is_low(low[j].1) && same_low(
                    low[j].1,
                    given[j].1,
                ),
        decreases entries.len() - i,
    {
        assert(is_low(given[i as int].1));
        let value = match &entries[i].1 {
            Toml::Array(items) => array_value(items),
            Toml::Table(inner) => scalar_table_value(inner),
            scalar => scalar_value(scalar),
        };
        proof {
            low = low.push((given[i as int].0, toml_value_view(value)));
        }
        out.push((entries[i].0.clone(), value));
        i += 1;
    }
    proof {
        assert(out@.map_values(|e: (String, toml::Value)| (e.0@, toml_value_view(e.1))) =~= low);
        assert forall|a: int, b: int| 0 <= a < b < low.len() implies (#[trigger] low[a]).0 != (
        #[trigger] low[b]).0 by {
            assert(given[a].0 != given[b].0);
        }
    }
    let whole = close_toml(Part::Table(out));
    proof {
        let kept = toml_value_view(whole)->Table_0;
        assert forall|k: int| 0 <= k < kept.len() implies is_bare_key((#[trigger] kept[k]).0)
            && is_low(kept[k].1) by {
            let j = lemma_kept_entries(kept, low, k);
            assert(is_bare_key(given[j].0));
        }
        assert forall|key: Seq<char>| same_entry(
            #[trigger] toml_value_view(whole).get(key),
            v@.get(key),
        ) by {
            assert(entry(kept, key) == entry(low, key));
            lemma_same_names(low, given, key);
        }
    }
    let text = write_document(&whole);
    proof {
        lemma_same_document(parsed_toml(text@)->Ok_0, toml_value_view(whole), v@);
    }
    text
}

/// Tables of which each entry is the same but for the order in it are the same.
proof fn lemma_same_names(
    low: Seq<(Seq<char>, TomlView)>,
    given: Seq<(Seq<char>, TomlView)>,
    key: Seq<char>,
)
    requires
        low.len() == given.len(),
        forall|j: int|
            0 <= j < low.len() ==> (#[trigger] low[j]).0 == given[j].0 && same_low(
                low[j].1,
                given[j].1,
            ),
    ensures
        same_entry(entry(low, key), entry(given, key)),
    decreases low.len(),
{
    if low.len() > 0 {
        let a = low.drop_first();
        let b = given.drop_first();
        assert(low[0].0 == given[0].0);
        assert forall|j: int| 0 <= j < a.len() implies (#[trigger] a[j]).0 == b[j].0 && same_low(
            a[j].1,
            b[j].1,
        ) by {
            assert(a[j] == low[j + 1] && b[j] == given[j + 1]);
        }
        lemma_same_names(a, b, key);
    }
}

} // verus!
