//! Plain TOML documents: the form in which configurations and rules are written.
//!
//! A plain document is one table with its sub-tables, each with its header. Names
//! are bare, and values are integers and one-line strings.

use vstd::prelude::*;

use crate::text::{dec_int, joined};
use crate::toml_doc::{entries_differ, entry, lemma_entry_at, TomlView};

verus! {

/// The characters of a TOML basic string for one character.
pub open spec fn escaped_char(c: char) -> Seq<char> {
    if c == '\\' {
        seq!['\\', '\\']
    } else if c == '"' {
        seq!['\\', '"']
    } else {
        seq![c]
    }
}

/// A text as it stands between the quotes of a TOML basic string.
pub open spec fn escaped(s: Seq<char>) -> Seq<char>
    decreases s.len(),
{
    if s.len() == 0 {
        seq![]
    } else {
        escaped(s.drop_last()) + escaped_char(s.last())
    }
}

/// The text that an escaped one stands for: a backslash stands for the
/// character behind it.
pub open spec fn unescaped(s: Seq<char>) -> Seq<char>
    decreases s.len(),
{
    if s.len() == 0 {
        seq![]
    } else if s[0] == '\\' && s.len() > 1 {
        seq![s[1]] + unescaped(s.skip(2))
    } else {
        seq![s[0]] + unescaped(s.skip(1))
    }
}

proof fn lemma_unescaped_append(a: Seq<char>, b: Seq<char>)
    ensures
        unescaped(escaped(a) + b) == a + unescaped(b),
    decreases a.len(),
{
    if a.len() == 0 {
        assert(escaped(a) + b == b);
        assert(a + unescaped(b) == unescaped(b));
    } else {
        let init = a.drop_last();
        let c = a.last();
        let tail = escaped_char(c) + b;
        assert(escaped(a) + b =~= escaped(init) + tail);
        lemma_unescaped_append(init, tail);
        if c == '\\' || c == '"' {
            assert(tail.skip(2) =~= b);
        } else {
            assert(tail.skip(1) =~= b);
        }
        assert(init + (seq![c] + unescaped(b)) =~= a + unescaped(b));
    }
}

/// Escaping loses nothing.
pub proof fn lemma_escaping_is_invertible(s: Seq<char>)
    ensures
        unescaped(escaped(s)) == s,
{
    lemma_unescaped_append(s, seq![]);
    assert(escaped(s) + Seq::<char>::empty() =~= escaped(s));
    assert(s + Seq::<char>::empty() =~= s);
}

/// Whether a character may stand in a name without quotes.
pub open spec fn is_bare_char(c: char) -> bool {
    ('a' <= c <= 'z') || ('A' <= c <= 'Z') || ('0' <= c <= '9') || c == '_' || c == '-'
}

/// Whether a text is a name that needs no quotes.
pub open spec fn is_bare_key(key: Seq<char>) -> bool {
    &&& key.len() > 0
    &&& forall|i: int| 0 <= i < key.len() ==> is_bare_char(#[trigger] key[i])
}

/// Whether a text has no control characters but tabs.
pub open spec fn is_plain_text(s: Seq<char>) -> bool {
    forall|i: int|
        0 <= i < s.len() ==> (#[trigger] s[i] == '\t' || (' ' <= s[i] && s[i] != '\u{7f}'))
}

/// Whether a text is one that nothing in it needs a backslash.
pub open spec fn is_verbatim(s: Seq<char>) -> bool {
    &&& is_plain_text(s)
    &&& !s.contains('\\')
    &&& !s.contains('"')
}

/// Whether a value is an integer or a text without control characters.
pub open spec fn is_plain_value(v: TomlView) -> bool {
    match v {
        TomlView::Text(s) => is_plain_text(s),
        TomlView::Integer(_) => true,
        _ => false,
    }
}

/// Whether entries have bare names, no two of which are the same, and plain values.
pub open spec fn are_plain_entries(entries: Seq<(Seq<char>, TomlView)>) -> bool {
    &&& entries_differ(entries)
    &&& forall|i: int|
        0 <= i < entries.len() ==> is_bare_key((#[trigger] entries[i]).0) && is_plain_value(
            entries[i].1,
        )
}

/// The entries of the first table named `name`.
pub open spec fn table_entries(
    tables: Seq<(Seq<char>, Seq<(Seq<char>, TomlView)>)>,
    name: Seq<char>,
) -> Option<Seq<(Seq<char>, TomlView)>>
    decreases tables.len(),
{
    if tables.len() == 0 {
        None
    } else if tables[0].0 == name {
        Some(tables[0].1)
    } else {
        table_entries(tables.drop_first(), name)
    }
}

/// One table with its own entries and its sub-tables.
pub struct PlainDocument {
    pub name: Seq<char>,
    pub entries: Seq<(Seq<char>, TomlView)>,
    pub tables: Seq<(Seq<char>, Seq<(Seq<char>, TomlView)>)>,
}

impl PlainDocument {
    /// Whether all names are bare, all values plain, and no two names of the same
    /// table the same.
    pub open spec fn is_plain(self) -> bool {
        &&& is_bare_key(self.name)
        &&& are_plain_entries(self.entries)
        &&& forall|i: int|
            0 <= i < self.tables.len() ==> {
                &&& is_bare_key((#[trigger] self.tables[i]).0)
                &&& are_plain_entries(self.tables[i].1)
                &&& entry(self.entries, self.tables[i].0) is None
            }
        &&& forall|i: int, j: int|
            0 <= i < j < self.tables.len() ==> (#[trigger] self.tables[i]).0 != (
            #[trigger] self.tables[j]).0
    }

    /// The text of the document.
    pub open spec fn text(self) -> Seq<char> {
        "["@ + self.name + "]\n"@ + lines_text(self.entries) + tables_text(self.name, self.tables)
    }

    /// Whether a value holds what the document says, and nothing else. The order of
    /// the entries of a table is left open.
    pub open spec fn is_held_by(self, v: TomlView) -> bool {
        &&& v.get(self.name) matches Some(TomlView::Table(body)) && {
            &&& entries_differ(body)
            &&& forall|key: Seq<char>|
                match (entry(self.entries, key), table_entries(self.tables, key)) {
                    (Some(value), _) => #[trigger] entry(body, key) == Some(value),
                    (None, Some(table)) => {
                        &&& entry(body, key) matches Some(TomlView::Table(inner))
                        &&& same_entries(inner, table)
                    },
                    (None, None) => entry(body, key) is None,
                }
        }
    }
}

/// Whether the entries of a table are these, in any order.
pub open spec fn same_entries(
    found: Seq<(Seq<char>, TomlView)>,
    written: Seq<(Seq<char>, TomlView)>,
) -> bool {
    &&& entries_differ(found)
    &&& forall|key: Seq<char>| #[trigger] entry(found, key) == entry(written, key)
}

/// A plain value in TOML.
pub open spec fn value_text(v: TomlView) -> Seq<char> {
    match v {
        TomlView::Text(s) => "\""@ + escaped(s) + "\""@,
        TomlView::Integer(n) => dec_int(n as int),
        _ => seq![],
    }
}

/// The line of an entry.
pub open spec fn line_text(e: (Seq<char>, TomlView)) -> Seq<char> {
    e.0 + " = "@ + value_text(e.1) + "\n"@
}

/// The lines of entries.
pub open spec fn lines_text(entries: Seq<(Seq<char>, TomlView)>) -> Seq<char>
    decreases entries.len(),
{
    if entries.len() == 0 {
        seq![]
    } else {
        lines_text(entries.drop_last()) + line_text(entries.last())
    }
}

/// Sub-tables, each behind an empty line and its header.
pub open spec fn tables_text(
    name: Seq<char>,
    tables: Seq<(Seq<char>, Seq<(Seq<char>, TomlView)>)>,
) -> Seq<char>
    decreases tables.len(),
{
    if tables.len() == 0 {
        seq![]
    } else {
        let last = tables.last();
        tables_text(name, tables.drop_last()) + ("\n["@ + name + "."@ + last.0 + "]\n"@
            + lines_text(last.1))
    }
}

/// The line of a text.
pub proof fn lemma_text_line(key: Seq<char>, s: Seq<char>)
    ensures
        line_text((key, TomlView::Text(s))) == (key + " = "@ + "\""@) + escaped(s) + ("\""@ + "\n"@),
{
    assert(line_text((key, TomlView::Text(s))) =~= (key + " = "@ + "\""@) + escaped(s) + ("\""@
        + "\n"@));
}

/// A line more.
pub proof fn lemma_lines_push(entries: Seq<(Seq<char>, TomlView)>, e: (Seq<char>, TomlView))
    ensures
        lines_text(entries.push(e)) == lines_text(entries) + line_text(e),
{
    assert(entries.push(e).drop_last() =~= entries);
}

/// A sub-table more.
pub proof fn lemma_tables_push(
    name: Seq<char>,
    tables: Seq<(Seq<char>, Seq<(Seq<char>, TomlView)>)>,
    table: (Seq<char>, Seq<(Seq<char>, TomlView)>),
)
    ensures
        tables_text(name, tables.push(table)) == tables_text(name, tables) + ("\n["@ + name + "."@
            + table.0 + "]\n"@ + lines_text(table.1)),
{
    assert(tables.push(table).drop_last() =~= tables);
}

/// What is found with an entry more.
pub proof fn lemma_entry_push(
    entries: Seq<(Seq<char>, TomlView)>,
    e: (Seq<char>, TomlView),
    key: Seq<char>,
)
    ensures
        entry(entries.push(e), key) == (match entry(entries, key) {
            Some(v) => Some(v),
            None => if e.0 == key {
                Some(e.1)
            } else {
                None
            },
        }),
    decreases entries.len(),
{
    let all = entries.push(e);
    if entries.len() == 0 {
        reveal_with_fuel(entry, 2);
        assert(all[0] == e);
        assert(all.drop_first() =~= seq![]);
    } else {
        assert(all[0] == entries[0]);
        assert(all.drop_first() =~= entries.drop_first().push(e));
        lemma_entry_push(entries.drop_first(), e, key);
    }
}

/// What is found with a sub-table more.
pub proof fn lemma_table_push(
    tables: Seq<(Seq<char>, Seq<(Seq<char>, TomlView)>)>,
    table: (Seq<char>, Seq<(Seq<char>, TomlView)>),
    name: Seq<char>,
)
    ensures
        table_entries(tables.push(table), name) == (match table_entries(tables, name) {
            Some(entries) => Some(entries),
            None => if table.0 == name {
                Some(table.1)
            } else {
                None
            },
        }),
    decreases tables.len(),
{
    let all = tables.push(table);
    if tables.len() == 0 {
        reveal_with_fuel(table_entries, 2);
        assert(all[0] == table);
        assert(all.drop_first() =~= seq![]);
    } else {
        assert(all[0] == tables[0]);
        assert(all.drop_first() =~= tables.drop_first().push(table));
        lemma_table_push(tables.drop_first(), table, name);
    }
}

/// What is found is one of the entries.
pub proof fn lemma_entry_found(entries: Seq<(Seq<char>, TomlView)>, key: Seq<char>) -> (i: int)
    requires
        entry(entries, key) is Some,
    ensures
        0 <= i < entries.len(),
        entries[i].0 == key,
        entry(entries, key) == Some(entries[i].1),
    decreases entries.len(),
{
    if entries[0].0 == key {
        0
    } else {
        lemma_entry_found(entries.drop_first(), key) + 1
    }
}

/// Plain entries stay so with one more of a new bare name and a plain value.
pub proof fn lemma_plain_push(entries: Seq<(Seq<char>, TomlView)>, e: (Seq<char>, TomlView))
    requires
        are_plain_entries(entries),
        is_bare_key(e.0),
        is_plain_value(e.1),
        entry(entries, e.0) is None,
    ensures
        are_plain_entries(entries.push(e)),
{
    let all = entries.push(e);
    assert forall|i: int, j: int| 0 <= i < j < all.len() implies (#[trigger] all[i]).0 != (
    #[trigger] all[j]).0 by {
        if j == entries.len() && all[i].0 == e.0 {
            assert(all[i] == entries[i]);
            lemma_entry_at(entries, i);
        }
    }
    assert forall|i: int| 0 <= i < all.len() implies is_bare_key((#[trigger] all[i]).0)
        && is_plain_value(all[i].1) by {
        if i < entries.len() {
            assert(all[i] == entries[i]);
        }
    }
}

/// A text that needs no backslashes is written as it is.
pub proof fn lemma_verbatim(s: Seq<char>)
    requires
        is_verbatim(s),
    ensures
        escaped(s) == s,
    decreases s.len(),
{
    if s.len() > 0 {
        let t = s.drop_last();
        assert forall|i: int| 0 <= i < t.len() implies (#[trigger] t[i] == '\t' || (' ' <= t[i]
            && t[i] != '\u{7f}')) by {
            assert(t[i] == s[i]);
        }
        assert(!t.contains('\\')) by {
            if t.contains('\\') {
                let i = choose|i: int| 0 <= i < t.len() && t[i] == '\\';
                assert(s[i] == '\\');
            }
        }
        assert(!t.contains('"')) by {
            if t.contains('"') {
                let i = choose|i: int| 0 <= i < t.len() && t[i] == '"';
                assert(s[i] == '"');
            }
        }
        lemma_verbatim(t);
        assert(s.contains(s.last()));
        assert(s =~= t + seq![s.last()]);
    }
}

/// Whether a text stands between quotes as it is and has no tabs.
pub open spec fn is_simple_text(s: Seq<char>) -> bool {
    is_verbatim(s) && !s.contains('\t')
}

/// A line of a document of which every line stands for itself. What follows a header
/// or an entry on its line is nothing, or a blank and a comment.
pub enum PlainLine {
    Blank,
    Note(Seq<char>),
    Header { outer: Seq<char>, table: Option<Seq<char>>, tail: Seq<char> },
    Text { key: Seq<char>, value: Seq<char>, tail: Seq<char> },
    List { key: Seq<char>, values: Seq<Seq<char>>, tail: Seq<char> },
    Integer { key: Seq<char>, number: i64, tail: Seq<char> },
}

/// Whether a text may follow a header or an entry on its line.
pub open spec fn is_tail(s: Seq<char>) -> bool {
    s.len() == 0 || (s.len() >= 2 && s[0] == ' ' && s[1] == '#' && is_plain_text(s))
}

impl PlainLine {
    /// Whether the parts of the line can stand as they are.
    pub open spec fn is_plain(self) -> bool {
        match self {
            PlainLine::Blank => true,
            PlainLine::Note(s) => is_plain_text(s),
            PlainLine::Header { outer, table, tail } => {
                &&& is_bare_key(outer)
                &&& table matches Some(t) ==> is_bare_key(t)
                &&& is_tail(tail)
            },
            PlainLine::Text { key, value, tail } => {
                is_bare_key(key) && is_simple_text(value) && is_tail(tail)
            },
            PlainLine::List { key, values, tail } => {
                &&& is_bare_key(key)
                &&& forall|i: int| 0 <= i < values.len() ==> is_simple_text(#[trigger] values[i])
                &&& is_tail(tail)
            },
            PlainLine::Integer { key, tail, .. } => is_bare_key(key) && is_tail(tail),
        }
    }

    /// The line, with its end.
    pub open spec fn text(self) -> Seq<char> {
        match self {
            PlainLine::Blank => "\n"@,
            PlainLine::Note(s) => "#"@ + s + "\n"@,
            PlainLine::Header { outer, table, tail } => "["@ + outer + (match table {
                Some(t) => "."@ + t,
                None => seq![],
            }) + "]"@ + tail + "\n"@,
            PlainLine::Text { key, value, tail } => key + " = "@ + quoted_text(value) + tail
                + "\n"@,
            PlainLine::List { key, values, tail } => key + " = ["@ + joined(
                values.map_values(|v: Seq<char>| quoted_text(v)),
                ", "@,
            ) + "]"@ + tail + "\n"@,
            PlainLine::Integer { key, number, tail } => key + " = "@ + dec_int(number as int) + tail
                + "\n"@,
        }
    }

    /// The comment on the line.
    pub open spec fn note(self) -> Seq<char> {
        match self {
            PlainLine::Blank => seq![],
            PlainLine::Note(s) => s,
            PlainLine::Header { tail, .. } => tail,
            PlainLine::Text { tail, .. } => tail,
            PlainLine::List { tail, .. } => tail,
            PlainLine::Integer { tail, .. } => tail,
        }
    }
}

/// A text between quotes.
pub open spec fn quoted_text(s: Seq<char>) -> Seq<char> {
    "\""@ + s + "\""@
}

/// Whether all lines can stand as they are.
pub open spec fn are_plain_lines(lines: Seq<PlainLine>) -> bool {
    forall|i: int| 0 <= i < lines.len() ==> (#[trigger] lines[i]).is_plain()
}

/// The text of lines.
pub open spec fn whole_text(lines: Seq<PlainLine>) -> Seq<char>
    decreases lines.len(),
{
    if lines.len() == 0 {
        seq![]
    } else {
        whole_text(lines.drop_last()) + lines.last().text()
    }
}

/// The comments of lines, in order, with an empty one for a line that has none.
pub open spec fn notes(lines: Seq<PlainLine>) -> Seq<Seq<char>> {
    lines.map_values(|l: PlainLine| l.note())
}

/// Whether the lines before `k` that follow the header of `outer.table` hold no other
/// header.
pub open spec fn is_in_table(
    lines: Seq<PlainLine>,
    k: int,
    outer: Seq<char>,
    table: Seq<char>,
) -> bool {
    exists|h: int|
        0 <= h < k && (#[trigger] lines[h] matches PlainLine::Header { outer: o, table: t, .. } && o
            == outer && t == Some(table)) && forall|j: int|
            h < j < k ==> !(#[trigger] lines[j] is Header)
}

} // verus!
