//! Files with the configuration of text parsers: drafts that a person edits, the
//! files they are saved to, and the list of saved files.

use vstd::prelude::*;

use crate::order::{
    keys_view, reordered, sorted_positions, stable_order, SortKey, SortKeyView,
};
use crate::parsers::text_config::{
    fields_of, mapped_group, mapped_text, text_entries, text_parser_fields, FieldsView,
};
use crate::parsers::{config_of, config_of_text, extra_entries, ConfigView, ParserConfig};
use crate::pattern::{compile, regex_problem};
use crate::plain_toml::{
    are_plain_entries, escaped, is_bare_key, is_plain_text, lemma_entry_found, lemma_entry_push,
    lemma_lines_push, lemma_plain_push, lemma_table_push, lemma_tables_push, line_text, lines_text,
    same_entries, table_entries, PlainDocument,
};
use crate::tagging::rule_file::{escape_toml_string, slug, slugify};
use crate::text::{extension_of, has_extension, trim, trimmed};
use crate::toml_doc::{entry, lemma_entry_at, TomlView};

verus! {

/// The fields of a text parser as a person edits them. An empty text means that
/// nothing is said.
#[derive(Debug, PartialEq, Eq, Default)]
pub struct TextFormatDraft {
    pub name: String,
    pub sourcetype: String,
    pub regex: String,
    pub timestamp_format: String,
    pub multiline_start_pattern: String,
    pub assume_offset: String,
    pub level_group: String,
    pub message_group: String,
}

/// The view of a [`TextFormatDraft`].
#[verifier::ext_equal]
pub struct DraftView {
    pub name: Seq<char>,
    pub sourcetype: Seq<char>,
    pub regex: Seq<char>,
    pub timestamp_format: Seq<char>,
    pub multiline_start_pattern: Seq<char>,
    pub assume_offset: Seq<char>,
    pub level_group: Seq<char>,
    pub message_group: Seq<char>,
}

impl View for TextFormatDraft {
    type V = DraftView;

    open spec fn view(&self) -> DraftView {
        DraftView {
            name: self.name@,
            sourcetype: self.sourcetype@,
            regex: self.regex@,
            timestamp_format: self.timestamp_format@,
            multiline_start_pattern: self.multiline_start_pattern@,
            assume_offset: self.assume_offset@,
            level_group: self.level_group@,
            message_group: self.message_group@,
        }
    }
}

impl Clone for TextFormatDraft {
    fn clone(&self) -> (r: Self)
        ensures
            r@ == self@,
    {
        TextFormatDraft {
            name: self.name.clone(),
            sourcetype: self.sourcetype.clone(),
            regex: self.regex.clone(),
            timestamp_format: self.timestamp_format.clone(),
            multiline_start_pattern: self.multiline_start_pattern.clone(),
            assume_offset: self.assume_offset.clone(),
            level_group: self.level_group.clone(),
            message_group: self.message_group.clone(),
        }
    }
}

/// A text that may be missing, with the empty text for none.
pub open spec fn or_empty(s: Option<Seq<char>>) -> Seq<char> {
    match s {
        Some(s) => s,
        None => seq![],
    }
}

/// The draft of a configuration.
pub open spec fn draft_of(config: ConfigView, fields: FieldsView) -> DraftView {
    DraftView {
        name: config.name,
        sourcetype: config.sourcetype,
        regex: fields.regex,
        timestamp_format: fields.timestamp_format,
        multiline_start_pattern: or_empty(fields.multiline_start_pattern),
        assume_offset: or_empty(fields.assume_offset),
        level_group: or_empty(mapped_group(fields.field_mapping, "level"@)),
        message_group: or_empty(mapped_group(fields.field_mapping, "message"@)),
    }
}

/// The draft that a text holds, or why it holds none.
pub open spec fn draft_of_text(text: Seq<char>) -> Result<DraftView, Seq<char>> {
    match config_of_text(text) {
        Err(e) => Err("invalid parser config: "@ + e),
        Ok(config) => match fields_of(config.extra) {
            Err(e) => Err("not a valid text parser config: "@ + e),
            Ok(fields) => Ok(draft_of(config, fields)),
        },
    }
}

/// `key = "value"` and the end of the line, for a value without the blanks
/// around it.
pub open spec fn toml_line(key: Seq<char>, value: Seq<char>) -> Seq<char> {
    key + " = \""@ + escaped(trimmed(value)) + "\"\n"@
}

/// A line for a value that is not blank, else nothing.
pub open spec fn optional_line(key: Seq<char>, value: Seq<char>) -> Seq<char> {
    if trimmed(value).len() == 0 {
        seq![]
    } else {
        toml_line(key, value)
    }
}

/// The text of the file that a draft is saved to.
pub open spec fn draft_file(d: DraftView) -> Seq<char> {
    "[parser]\n"@ + toml_line("name"@, d.name) + toml_line("sourcetype"@, d.sourcetype)
        + "\n[parser.pattern]\n"@ + toml_line("regex"@, d.regex) + toml_line(
        "timestamp_format"@,
        d.timestamp_format,
    ) + optional_line("multiline_start_pattern"@, d.multiline_start_pattern) + optional_line(
        "assume_offset"@,
        d.assume_offset,
    ) + (if trimmed(d.level_group).len() == 0 && trimmed(d.message_group).len() == 0 {
        seq![]
    } else {
        "\n[parser.field_mapping]\n"@ + optional_line("level"@, d.level_group) + optional_line(
            "message"@,
            d.message_group,
        )
    })
}

/// The entries with one more for a value that is not blank.
pub open spec fn with_optional(
    entries: Seq<(Seq<char>, TomlView)>,
    key: Seq<char>,
    value: Seq<char>,
) -> Seq<(Seq<char>, TomlView)> {
    if trimmed(value).len() == 0 {
        entries
    } else {
        entries.push((key, TomlView::Text(trimmed(value))))
    }
}

/// The entries with one more, for a value without the blanks around it.
pub open spec fn with_text(
    entries: Seq<(Seq<char>, TomlView)>,
    key: Seq<char>,
    value: Seq<char>,
) -> Seq<(Seq<char>, TomlView)> {
    entries.push((key, TomlView::Text(trimmed(value))))
}

/// What a draft says of the lines of a source.
pub open spec fn pattern_entries(d: DraftView) -> Seq<(Seq<char>, TomlView)> {
    with_optional(
        with_optional(
            with_text(
                with_text(Seq::empty(), "regex"@, d.regex),
                "timestamp_format"@,
                d.timestamp_format,
            ),
            "multiline_start_pattern"@,
            d.multiline_start_pattern,
        ),
        "assume_offset"@,
        d.assume_offset,
    )
}

/// What a draft says of the groups of its expression.
pub open spec fn mapping_entries(d: DraftView) -> Seq<(Seq<char>, TomlView)> {
    with_optional(
        with_optional(Seq::empty(), "level"@, d.level_group),
        "message"@,
        d.message_group,
    )
}

/// The document that the file of a draft is.
pub open spec fn draft_document(d: DraftView) -> PlainDocument {
    let tables = Seq::empty().push(("pattern"@, pattern_entries(d)));
    PlainDocument {
        name: "parser"@,
        entries: with_text(with_text(Seq::empty(), "name"@, d.name), "sourcetype"@, d.sourcetype),
        tables: if trimmed(d.level_group).len() == 0 && trimmed(d.message_group).len() == 0 {
            tables
        } else {
            tables.push(("field_mapping"@, mapping_entries(d)))
        },
    }
}

/// The draft without the blanks around its texts.
pub open spec fn trimmed_draft(d: DraftView) -> DraftView {
    DraftView {
        name: trimmed(d.name),
        sourcetype: trimmed(d.sourcetype),
        regex: trimmed(d.regex),
        timestamp_format: trimmed(d.timestamp_format),
        multiline_start_pattern: trimmed(d.multiline_start_pattern),
        assume_offset: trimmed(d.assume_offset),
        level_group: trimmed(d.level_group),
        message_group: trimmed(d.message_group),
    }
}

/// Whether a draft can be written so that it is read back: none of its texts holds
/// control characters other than tabs, but for the blanks around it.
pub open spec fn is_writable_draft(d: DraftView) -> bool {
    let t = trimmed_draft(d);
    &&& is_plain_text(t.name)
    &&& is_plain_text(t.sourcetype)
    &&& is_plain_text(t.regex)
    &&& is_plain_text(t.timestamp_format)
    &&& is_plain_text(t.multiline_start_pattern)
    &&& is_plain_text(t.assume_offset)
    &&& is_plain_text(t.level_group)
    &&& is_plain_text(t.message_group)
}

proof fn lemma_toml_line(key: Seq<char>, value: Seq<char>)
    ensures
        toml_line(key, value) == line_text((key, TomlView::Text(trimmed(value)))),
{
    reveal_strlit("\"");
    reveal_strlit("\n");
    reveal_strlit(" = ");
    reveal_strlit(" = \"");
    reveal_strlit("\"\n");
    assert(" = \""@ =~= " = "@ + "\""@);
    assert("\"\n"@ =~= "\""@ + "\n"@);
    assert(toml_line(key, value) =~= line_text((key, TomlView::Text(trimmed(value)))));
}

proof fn lemma_text_more(entries: Seq<(Seq<char>, TomlView)>, key: Seq<char>, value: Seq<char>)
    ensures
        lines_text(with_text(entries, key, value)) == lines_text(entries) + toml_line(key, value),
        lines_text(with_optional(entries, key, value)) == lines_text(entries) + optional_line(
            key,
            value,
        ),
{
    lemma_toml_line(key, value);
    lemma_lines_push(entries, (key, TomlView::Text(trimmed(value))));
    assert(lines_text(entries) + Seq::<char>::empty() =~= lines_text(entries));
}

proof fn lemma_draft_headers()
    ensures
        "[parser]\n"@ == "["@ + "parser"@ + "]\n"@,
        "\n[parser.pattern]\n"@ == "\n["@ + "parser"@ + "."@ + "pattern"@ + "]\n"@,
        "\n[parser.field_mapping]\n"@ == "\n["@ + "parser"@ + "."@ + "field_mapping"@ + "]\n"@,
{
    reveal_strlit("[");
    reveal_strlit("]\n");
    reveal_strlit("\n[");
    reveal_strlit(".");
    reveal_strlit("parser");
    reveal_strlit("pattern");
    reveal_strlit("field_mapping");
    reveal_strlit("[parser]\n");
    reveal_strlit("\n[parser.pattern]\n");
    reveal_strlit("\n[parser.field_mapping]\n");
    assert("[parser]\n"@ =~= "["@ + "parser"@ + "]\n"@);
    assert("\n[parser.pattern]\n"@ =~= "\n["@ + "parser"@ + "."@ + "pattern"@ + "]\n"@);
    assert("\n[parser.field_mapping]\n"@ =~= "\n["@ + "parser"@ + "."@ + "field_mapping"@
        + "]\n"@);
}

proof fn lemma_draft_text(d: DraftView)
    ensures
        draft_document(d).text() == draft_file(d),
{
    let none = Seq::<(Seq<char>, TomlView)>::empty();
    let no_tables = Seq::<(Seq<char>, Seq<(Seq<char>, TomlView)>)>::empty();
    let doc = draft_document(d);
    let named = with_text(none, "name"@, d.name);
    lemma_text_more(none, "name"@, d.name);
    lemma_text_more(named, "sourcetype"@, d.sourcetype);
    let p1 = with_text(none, "regex"@, d.regex);
    let p2 = with_text(p1, "timestamp_format"@, d.timestamp_format);
    let p3 = with_optional(p2, "multiline_start_pattern"@, d.multiline_start_pattern);
    lemma_text_more(none, "regex"@, d.regex);
    lemma_text_more(p1, "timestamp_format"@, d.timestamp_format);
    lemma_text_more(p2, "multiline_start_pattern"@, d.multiline_start_pattern);
    lemma_text_more(p3, "assume_offset"@, d.assume_offset);
    let m1 = with_optional(none, "level"@, d.level_group);
    lemma_text_more(none, "level"@, d.level_group);
    lemma_text_more(m1, "message"@, d.message_group);
    let pattern = ("pattern"@, pattern_entries(d));
    let mapping = ("field_mapping"@, mapping_entries(d));
    lemma_tables_push("parser"@, no_tables, pattern);
    lemma_tables_push("parser"@, no_tables.push(pattern), mapping);
    lemma_draft_headers();
    lemma_draft_pieces(
        "[parser]\n"@,
        toml_line("name"@, d.name),
        toml_line("sourcetype"@, d.sourcetype),
        "\n[parser.pattern]\n"@,
        toml_line("regex"@, d.regex),
        toml_line("timestamp_format"@, d.timestamp_format),
        optional_line("multiline_start_pattern"@, d.multiline_start_pattern),
        optional_line("assume_offset"@, d.assume_offset),
        "\n[parser.field_mapping]\n"@,
        optional_line("level"@, d.level_group),
        optional_line("message"@, d.message_group),
    );
}

proof fn lemma_draft_pieces(
    h: Seq<char>,
    name: Seq<char>,
    kind: Seq<char>,
    p: Seq<char>,
    regex: Seq<char>,
    format: Seq<char>,
    start: Seq<char>,
    offset: Seq<char>,
    m: Seq<char>,
    level: Seq<char>,
    message: Seq<char>,
)
    ensures
        ({
            let none = Seq::<char>::empty();
            let head = h + (none + name + kind);
            let first = none + (p + (none + regex + format + start + offset));
            let written = h + name + kind + p + regex + format + start + offset;
            &&& head + first == written + none
            &&& head + (first + (m + (none + level + message))) == written + (m + level + message)
        }),
{
    let none = Seq::<char>::empty();
    let head = h + (none + name + kind);
    let first = none + (p + (none + regex + format + start + offset));
    let written = h + name + kind + p + regex + format + start + offset;
    assert(head + first =~= written + none);
    assert(head + (first + (m + (none + level + message))) =~= (head + first) + (m + level
        + message));
    assert(written + none =~= written);
}

proof fn lemma_optional_plain(entries: Seq<(Seq<char>, TomlView)>, key: Seq<char>, value: Seq<char>)
    requires
        are_plain_entries(entries),
        is_bare_key(key),
        is_plain_text(trimmed(value)),
        entry(entries, key) is None,
    ensures
        are_plain_entries(with_text(entries, key, value)),
        are_plain_entries(with_optional(entries, key, value)),
{
    lemma_plain_push(entries, (key, TomlView::Text(trimmed(value))));
}

/// What is found with one entry more.
proof fn lemma_found_more(
    entries: Seq<(Seq<char>, TomlView)>,
    key: Seq<char>,
    value: Seq<char>,
    other: Seq<char>,
)
    ensures
        other != key ==> entry(with_text(entries, key, value), other) == entry(entries, other),
        other != key ==> entry(with_optional(entries, key, value), other) == entry(entries, other),
        entry(entries, key) is None ==> entry(with_text(entries, key, value), key) == Some(
            TomlView::Text(trimmed(value)),
        ),
        entry(entries, key) is None ==> entry(with_optional(entries, key, value), key) == (
        if trimmed(value).len() == 0 {
            None
        } else {
            Some(TomlView::Text(trimmed(value)))
        }),
{
    let e = (key, TomlView::Text(trimmed(value)));
    lemma_entry_push(entries, e, other);
    lemma_entry_push(entries, e, key);
}

proof fn lemma_draft_names()
    ensures
        is_bare_key("parser"@),
        is_bare_key("name"@) && "name"@.len() == 4,
        is_bare_key("sourcetype"@) && "sourcetype"@.len() == 10,
        is_bare_key("pattern"@) && "pattern"@.len() == 7,
        is_bare_key("field_mapping"@) && "field_mapping"@.len() == 13,
        is_bare_key("regex"@) && "regex"@.len() == 5,
        is_bare_key("timestamp_format"@) && "timestamp_format"@.len() == 16,
        is_bare_key("multiline_start_pattern"@) && "multiline_start_pattern"@.len() == 23,
        is_bare_key("assume_offset"@) && "assume_offset"@.len() == 13,
        "assume_year"@.len() == 11,
        is_bare_key("level"@) && "level"@.len() == 5,
        is_bare_key("message"@) && "message"@.len() == 7,
{
    reveal_strlit("parser");
    reveal_strlit("name");
    reveal_strlit("sourcetype");
    reveal_strlit("pattern");
    reveal_strlit("field_mapping");
    reveal_strlit("regex");
    reveal_strlit("timestamp_format");
    reveal_strlit("multiline_start_pattern");
    reveal_strlit("assume_offset");
    reveal_strlit("assume_year");
    reveal_strlit("level");
    reveal_strlit("message");
}

/// What is found in the file of a draft.
proof fn lemma_draft_entries(d: DraftView)
    ensures
        ({
            let doc = draft_document(d);
            let said = |s: Seq<char>|
                if trimmed(s).len() == 0 {
                    None::<TomlView>
                } else {
                    Some(TomlView::Text(trimmed(s)))
                };
            let pattern = pattern_entries(d);
            let mapping = mapping_entries(d);
            &&& entry(doc.entries, "name"@) == Some(TomlView::Text(trimmed(d.name)))
            &&& entry(doc.entries, "sourcetype"@) == Some(TomlView::Text(trimmed(d.sourcetype)))
            &&& entry(doc.entries, "pattern"@) is None
            &&& entry(doc.entries, "field_mapping"@) is None
            &&& table_entries(doc.tables, "pattern"@) == Some(pattern)
            &&& table_entries(doc.tables, "field_mapping"@) == (if trimmed(d.level_group).len() == 0
                && trimmed(d.message_group).len() == 0 {
                None
            } else {
                Some(mapping)
            })
            &&& entry(pattern, "regex"@) == Some(TomlView::Text(trimmed(d.regex)))
            &&& entry(pattern, "timestamp_format"@) == Some(
                TomlView::Text(trimmed(d.timestamp_format)),
            )
            &&& entry(pattern, "multiline_start_pattern"@) == said(d.multiline_start_pattern)
            &&& entry(pattern, "assume_offset"@) == said(d.assume_offset)
            &&& entry(pattern, "assume_year"@) is None
            &&& entry(mapping, "level"@) == said(d.level_group)
            &&& entry(mapping, "message"@) == said(d.message_group)
        }),
{
    let none = Seq::<(Seq<char>, TomlView)>::empty();
    let no_tables = Seq::<(Seq<char>, Seq<(Seq<char>, TomlView)>)>::empty();
    lemma_draft_names();
    let named = with_text(none, "name"@, d.name);
    lemma_found_more(none, "name"@, d.name, "sourcetype"@);
    lemma_found_more(none, "name"@, d.name, "pattern"@);
    lemma_found_more(none, "name"@, d.name, "field_mapping"@);
    lemma_found_more(named, "sourcetype"@, d.sourcetype, "name"@);
    lemma_found_more(named, "sourcetype"@, d.sourcetype, "pattern"@);
    lemma_found_more(named, "sourcetype"@, d.sourcetype, "field_mapping"@);
    let pattern = ("pattern"@, pattern_entries(d));
    let mapping = ("field_mapping"@, mapping_entries(d));
    lemma_table_push(no_tables, pattern, "pattern"@);
    lemma_table_push(no_tables, pattern, "field_mapping"@);
    lemma_table_push(no_tables.push(pattern), mapping, "pattern"@);
    lemma_table_push(no_tables.push(pattern), mapping, "field_mapping"@);
    lemma_pattern_found(d);
    let m1 = with_optional(none, "level"@, d.level_group);
    lemma_found_more(none, "level"@, d.level_group, "message"@);
    lemma_found_more(m1, "message"@, d.message_group, "level"@);
}

proof fn lemma_pattern_found(d: DraftView)
    ensures
        ({
            let pattern = pattern_entries(d);
            let said = |s: Seq<char>|
                if trimmed(s).len() == 0 {
                    None::<TomlView>
                } else {
                    Some(TomlView::Text(trimmed(s)))
                };
            &&& entry(pattern, "regex"@) == Some(TomlView::Text(trimmed(d.regex)))
            &&& entry(pattern, "timestamp_format"@) == Some(
                TomlView::Text(trimmed(d.timestamp_format)),
            )
            &&& entry(pattern, "multiline_start_pattern"@) == said(d.multiline_start_pattern)
            &&& entry(pattern, "assume_offset"@) == said(d.assume_offset)
            &&& entry(pattern, "assume_year"@) is None
        }),
{
    let none = Seq::<(Seq<char>, TomlView)>::empty();
    lemma_draft_names();
    let p1 = with_text(none, "regex"@, d.regex);
    let p2 = with_text(p1, "timestamp_format"@, d.timestamp_format);
    let p3 = with_optional(p2, "multiline_start_pattern"@, d.multiline_start_pattern);
    lemma_found_more(none, "regex"@, d.regex, "timestamp_format"@);
    lemma_found_more(none, "regex"@, d.regex, "multiline_start_pattern"@);
    lemma_found_more(none, "regex"@, d.regex, "assume_offset"@);
    lemma_found_more(none, "regex"@, d.regex, "assume_year"@);
    lemma_found_more(p1, "timestamp_format"@, d.timestamp_format, "regex"@);
    lemma_found_more(p1, "timestamp_format"@, d.timestamp_format, "multiline_start_pattern"@);
    lemma_found_more(p1, "timestamp_format"@, d.timestamp_format, "assume_offset"@);
    lemma_found_more(p1, "timestamp_format"@, d.timestamp_format, "assume_year"@);
    lemma_found_more(p2, "multiline_start_pattern"@, d.multiline_start_pattern, "regex"@);
    lemma_found_more(p2, "multiline_start_pattern"@, d.multiline_start_pattern, "timestamp_format"@);
    lemma_found_more(p2, "multiline_start_pattern"@, d.multiline_start_pattern, "assume_offset"@);
    lemma_found_more(p2, "multiline_start_pattern"@, d.multiline_start_pattern, "assume_year"@);
    lemma_found_more(p3, "assume_offset"@, d.assume_offset, "regex"@);
    lemma_found_more(p3, "assume_offset"@, d.assume_offset, "timestamp_format"@);
    lemma_found_more(p3, "assume_offset"@, d.assume_offset, "multiline_start_pattern"@);
    lemma_found_more(p3, "assume_offset"@, d.assume_offset, "assume_year"@);
}

proof fn lemma_pattern_is_plain(d: DraftView)
    requires
        is_writable_draft(d),
    ensures
        are_plain_entries(pattern_entries(d)),
{
    let none = Seq::<(Seq<char>, TomlView)>::empty();
    lemma_draft_names();
    let p1 = with_text(none, "regex"@, d.regex);
    let p2 = with_text(p1, "timestamp_format"@, d.timestamp_format);
    let p3 = with_optional(p2, "multiline_start_pattern"@, d.multiline_start_pattern);
    lemma_found_more(none, "regex"@, d.regex, "timestamp_format"@);
    lemma_found_more(none, "regex"@, d.regex, "multiline_start_pattern"@);
    lemma_found_more(none, "regex"@, d.regex, "assume_offset"@);
    lemma_found_more(p1, "timestamp_format"@, d.timestamp_format, "multiline_start_pattern"@);
    lemma_found_more(p1, "timestamp_format"@, d.timestamp_format, "assume_offset"@);
    lemma_found_more(p2, "multiline_start_pattern"@, d.multiline_start_pattern, "assume_offset"@);
    lemma_optional_plain(none, "regex"@, d.regex);
    lemma_optional_plain(p1, "timestamp_format"@, d.timestamp_format);
    lemma_optional_plain(p2, "multiline_start_pattern"@, d.multiline_start_pattern);
    lemma_optional_plain(p3, "assume_offset"@, d.assume_offset);
}

/// The file of a draft is a plain document.
pub proof fn lemma_draft_file_is_plain(d: DraftView)
    requires
        is_writable_draft(d),
    ensures
        draft_document(d).is_plain(),
        draft_document(d).text() == draft_file(d),
{
    let none = Seq::<(Seq<char>, TomlView)>::empty();
    let doc = draft_document(d);
    lemma_draft_text(d);
    lemma_draft_names();
    lemma_draft_entries(d);
    let named = with_text(none, "name"@, d.name);
    lemma_found_more(none, "name"@, d.name, "sourcetype"@);
    lemma_optional_plain(none, "name"@, d.name);
    lemma_optional_plain(named, "sourcetype"@, d.sourcetype);
    lemma_pattern_is_plain(d);
    let m1 = with_optional(none, "level"@, d.level_group);
    lemma_found_more(none, "level"@, d.level_group, "message"@);
    lemma_optional_plain(none, "level"@, d.level_group);
    lemma_optional_plain(m1, "message"@, d.message_group);
    assert(doc.tables.len() <= 2);
    assert(doc.tables[0] == ("pattern"@, pattern_entries(d)));
    if doc.tables.len() == 2 {
        assert(doc.tables[1] == ("field_mapping"@, mapping_entries(d)));
    }
    assert("pattern"@ != "field_mapping"@);
}

/// The rest of a configuration has what is neither the name nor the kind of source.
proof fn lemma_extra_entry(entries: Seq<(Seq<char>, TomlView)>, key: Seq<char>)
    requires
        key != "name"@ && key != "sourcetype"@,
    ensures
        entry(extra_entries(entries), key) == entry(entries, key),
    decreases entries.len(),
{
    if entries.len() > 0 {
        let before = entries.drop_last();
        lemma_extra_entry(before, key);
        lemma_entry_push(before, entries.last(), key);
        lemma_entry_push(extra_entries(before), entries.last(), key);
        assert(before.push(entries.last()) =~= entries);
    }
}

/// A table of texts is read text by text.
proof fn lemma_texts_read(entries: Seq<(Seq<char>, TomlView)>)
    requires
        forall|i: int| 0 <= i < entries.len() ==> (#[trigger] entries[i]).1 is Text,
    ensures
        text_entries(entries) matches Ok(m) && m == entries.map_values(
            |e: (Seq<char>, TomlView)| (e.0, e.1->Text_0),
        ),
    decreases entries.len(),
{
    let read = |e: (Seq<char>, TomlView)| (e.0, e.1->Text_0);
    if entries.len() > 0 {
        let before = entries.drop_last();
        assert forall|i: int| 0 <= i < before.len() implies (#[trigger] before[i]).1 is Text by {
            assert(before[i] == entries[i]);
        }
        lemma_texts_read(before);
        assert(entries[entries.len() - 1].1 is Text);
        assert(before.map_values(read).push(read(entries.last())) =~= entries.map_values(read));
    } else {
        assert(entries.map_values(read) =~= seq![]);
    }
}

/// A target is mapped to the text of its entry.
proof fn lemma_mapped_entry(entries: Seq<(Seq<char>, TomlView)>, key: Seq<char>)
    requires
        forall|i: int| 0 <= i < entries.len() ==> (#[trigger] entries[i]).1 is Text,
    ensures
        mapped_group(
            entries.map_values(|e: (Seq<char>, TomlView)| (e.0, e.1->Text_0)),
            key,
        ) == (match entry(entries, key) {
            Some(v) => Some(v->Text_0),
            None => None,
        }),
    decreases entries.len(),
{
    let read = |e: (Seq<char>, TomlView)| (e.0, e.1->Text_0);
    let m = entries.map_values(read);
    if entries.len() > 0 && entries[0].0 != key {
        let rest = entries.drop_first();
        assert forall|i: int| 0 <= i < rest.len() implies (#[trigger] rest[i]).1 is Text by {
            assert(rest[i] == entries[i + 1]);
        }
        lemma_mapped_entry(rest, key);
        assert(m.drop_first() =~= rest.map_values(read));
    }
}

/// The groups that a draft names are found in what its file says of them.
proof fn lemma_mapping_reads_back(d: DraftView, found: Seq<(Seq<char>, TomlView)>)
    requires
        same_entries(found, mapping_entries(d)),
    ensures
        text_entries(found) matches Ok(m) && or_empty(mapped_group(m, "level"@)) == trimmed(
            d.level_group,
        ) && or_empty(mapped_group(m, "message"@)) == trimmed(d.message_group),
{
    lemma_draft_entries(d);
    let written = mapping_entries(d);
    assert forall|i: int| 0 <= i < found.len() implies (#[trigger] found[i]).1 is Text by {
        lemma_entry_at(found, i);
        let j = lemma_entry_found(written, found[i].0);
        assert(written[j].1 is Text);
    }
    lemma_texts_read(found);
    lemma_mapped_entry(found, "level"@);
    lemma_mapped_entry(found, "message"@);
    assert(entry(found, "level"@) == entry(written, "level"@));
    assert(entry(found, "message"@) == entry(written, "message"@));
    assert(trimmed(d.level_group).len() == 0 ==> trimmed(d.level_group) =~= seq![]);
    assert(trimmed(d.message_group).len() == 0 ==> trimmed(d.message_group) =~= seq![]);
}

/// A document that holds what the file of a draft says holds the draft, without the
/// blanks around its texts.
proof fn lemma_draft_reads_back(v: TomlView, d: DraftView)
    requires
        draft_document(d).is_held_by(v),
    ensures
        config_of(v) matches Ok(config) && (fields_of(config.extra) matches Ok(fields) && draft_of(
            config,
            fields,
        ) == trimmed_draft(d)),
{
    let doc = draft_document(d);
    lemma_draft_names();
    lemma_draft_entries(d);
    let body = v.get("parser"@)->0->Table_0;
    assert(entry(body, "name"@) == Some(TomlView::Text(trimmed(d.name))));
    assert(entry(body, "sourcetype"@) == Some(TomlView::Text(trimmed(d.sourcetype))));
    let config = config_of(v)->Ok_0;
    assert(config.extra == extra_entries(body));
    lemma_extra_entry(body, "pattern"@);
    lemma_extra_entry(body, "field_mapping"@);
    assert(entry(body, "pattern"@) matches Some(TomlView::Table(inner)) && same_entries(
        inner,
        pattern_entries(d),
    ));
    let pattern = entry(body, "pattern"@)->0->Table_0;
    let written = pattern_entries(d);
    assert(entry(pattern, "regex"@) == entry(written, "regex"@));
    assert(entry(pattern, "timestamp_format"@) == entry(written, "timestamp_format"@));
    assert(entry(pattern, "multiline_start_pattern"@) == entry(written, "multiline_start_pattern"@));
    assert(entry(pattern, "assume_offset"@) == entry(written, "assume_offset"@));
    assert(entry(pattern, "assume_year"@) == entry(written, "assume_year"@));
    assert(trimmed(d.multiline_start_pattern).len() == 0 ==> trimmed(d.multiline_start_pattern)
        =~= seq![]);
    assert(trimmed(d.assume_offset).len() == 0 ==> trimmed(d.assume_offset) =~= seq![]);
    if trimmed(d.level_group).len() == 0 && trimmed(d.message_group).len() == 0 {
        assert(entry(body, "field_mapping"@) is None);
        assert(trimmed(d.level_group) =~= seq![]);
        assert(trimmed(d.message_group) =~= seq![]);
    } else {
        assert(entry(body, "field_mapping"@) matches Some(TomlView::Table(inner))
            && same_entries(inner, mapping_entries(d)));
        lemma_mapping_reads_back(d, entry(body, "field_mapping"@)->0->Table_0);
    }
    let fields = fields_of(config.extra)->Ok_0;
    assert(draft_of(config, fields) =~= trimmed_draft(d));
}

fn text_or_empty(s: Option<String>) -> (r: String)
    ensures
        r@ == or_empty(crate::model::opt_text(s)),
{
    match s {
        Some(s) => s,
        None => String::new(),
    }
}

fn push_line(out: &mut String, key: &str, value: &str)
    ensures
        final(out)@ == old(out)@ + toml_line(key@, value@),
{
    out.append(key);
    out.append(" = \"");
    out.append(escape(trim(value).as_str()).as_str());
    out.append("\"\n");
}

fn is_blank(s: &str) -> (r: bool)
    ensures
        r == (trimmed(s@).len() == 0),
{
    let t = trim(s);
    t.as_str().unicode_len() == 0
}

fn push_optional_line(out: &mut String, key: &str, value: &str)
    ensures
        final(out)@ == old(out)@ + optional_line(key@, value@),
{
    if !is_blank(value) {
        push_line(out, key, value);
    }
}

/// A text as it stands between the quotes of a TOML basic string.
pub fn escape(input: &str) -> (r: String)
    ensures
        r@ == escaped(input@),
{
    escape_toml_string(input)
}

impl TextFormatDraft {
    /// The draft that a text holds, or why it holds none. The text that a draft was
    /// saved to holds the draft, without the blanks around its texts.
    pub fn from_toml_str(text: &str) -> (r: Result<TextFormatDraft, String>)
        ensures
            match r {
                Ok(d) => draft_of_text(text@) == Ok::<DraftView, Seq<char>>(d@),
                Err(e) => draft_of_text(text@) == Err::<DraftView, Seq<char>>(e@),
            },
            forall|saved: DraftView|
                text@ == #[trigger] draft_file(saved) && is_writable_draft(saved) ==> match r {
                    Ok(d) => d@ == trimmed_draft(saved),
                    Err(_) => false,
                },
    {
        let parsed = ParserConfig::from_toml_str(text);
        proof {
            assert forall|saved: DraftView|
                text@ == #[trigger] draft_file(saved) && is_writable_draft(saved) implies match draft_of_text(text@) {
                Ok(d) => d == trimmed_draft(saved),
                Err(_) => false,
            } by {
                let doc = draft_document(saved);
                lemma_draft_file_is_plain(saved);
                assert(text@ == doc.text());
                match parsed {
                    Ok(c) => {
                        let v = choose|v: TomlView| #[trigger]
                            doc.is_held_by(v) && config_of(v) == Ok::<ConfigView, Seq<char>>(c@);
                        lemma_draft_reads_back(v, saved);
                    },
                    Err(e) => {
                        let v = choose|v: TomlView| #[trigger]
                            doc.is_held_by(v) && config_of(v) == Err::<ConfigView, Seq<char>>(
                                e.reason@,
                            );
                        lemma_draft_reads_back(v, saved);
                    },
                }
            }
        }
        let config = match parsed {
            Ok(config) => config,
            Err(e) => {
                return Err(e.message());
            },
        };
        let fields = match text_parser_fields(&config) {
            Ok(fields) => fields,
            Err(reason) => {
                let mut e = "not a valid text parser config: ".to_owned();
                e.append(reason.as_str());
                return Err(e);
            },
        };
        let level_group = text_or_empty(mapped_text(&fields.field_mapping, "level"));
        let message_group = text_or_empty(mapped_text(&fields.field_mapping, "message"));
        Ok(
            TextFormatDraft {
                name: config.parser.name,
                sourcetype: config.parser.sourcetype,
                regex: fields.pattern.regex,
                timestamp_format: fields.pattern.timestamp_format,
                multiline_start_pattern: text_or_empty(fields.pattern.multiline_start_pattern),
                assume_offset: text_or_empty(fields.pattern.assume_offset),
                level_group,
                message_group,
            },
        )
    }

    /// Whether the draft says enough to be saved: the four fields that every
    /// format needs are not blank, and the regular expression is one. That the
    /// rest is right shows when a source is read.
    pub fn is_saveable(&self) -> (r: bool)
        ensures
            r == {
                &&& trimmed(self@.name).len() != 0
                &&& trimmed(self@.sourcetype).len() != 0
                &&& trimmed(self@.regex).len() != 0
                &&& trimmed(self@.timestamp_format).len() != 0
                &&& regex_problem(trimmed(self@.regex)) is None
            },
    {
        !is_blank(self.name.as_str()) && !is_blank(self.sourcetype.as_str()) && !is_blank(
            self.regex.as_str(),
        ) && !is_blank(self.timestamp_format.as_str()) && compile(
            trim(self.regex.as_str()).as_str(),
        ).is_ok()
    }

    /// The text of the file that the draft is saved to.
    pub fn to_toml(&self) -> (r: String)
        ensures
            r@ == draft_file(self@),
    {
        let mut out = "[parser]\n".to_owned();
        push_line(&mut out, "name", self.name.as_str());
        push_line(&mut out, "sourcetype", self.sourcetype.as_str());
        out.append("\n[parser.pattern]\n");
        push_line(&mut out, "regex", self.regex.as_str());
        push_line(&mut out, "timestamp_format", self.timestamp_format.as_str());
        push_optional_line(
            &mut out,
            "multiline_start_pattern",
            self.multiline_start_pattern.as_str(),
        );
        push_optional_line(&mut out, "assume_offset", self.assume_offset.as_str());
        let ghost head = out@;
        if !is_blank(self.level_group.as_str()) || !is_blank(self.message_group.as_str()) {
            out.append("\n[parser.field_mapping]\n");
            push_optional_line(&mut out, "level", self.level_group.as_str());
            push_optional_line(&mut out, "message", self.message_group.as_str());
            assert(out@ =~= head + ("\n[parser.field_mapping]\n"@ + optional_line(
                "level"@,
                self@.level_group,
            ) + optional_line("message"@, self@.message_group)));
        } else {
            assert(out@ =~= head + seq![]);
        }
        out
    }
}

/// What a draft is saved as: the name of its file and the text in it.
#[derive(Debug)]
pub struct DraftFile {
    pub file_name: String,
    pub text: String,
}

/// The file that a draft is saved to. A file of that name is overwritten.
pub fn save(draft: &TextFormatDraft) -> (r: DraftFile)
    ensures
        r.file_name@ == slug(draft@.name) + ".toml"@,
        r.text@ == draft_file(draft@),
{
    let mut file_name = slugify(draft.name.as_str());
    file_name.append(".toml");
    DraftFile { file_name, text: draft.to_toml() }
}

/// A file of a directory, by its name, with its text where it could be read.
#[derive(Debug)]
pub struct ConfigFile {
    pub file_name: String,
    pub text: Option<String>,
}

/// A saved configuration.
#[derive(Debug, PartialEq, Eq)]
pub struct SavedConfig {
    /// The name of the file in its directory.
    pub path: String,
    pub name: String,
    pub sourcetype: String,
}

/// The view of a [`SavedConfig`].
#[verifier::ext_equal]
pub struct SavedView {
    pub path: Seq<char>,
    pub name: Seq<char>,
    pub sourcetype: Seq<char>,
}

impl View for SavedConfig {
    type V = SavedView;

    open spec fn view(&self) -> SavedView {
        SavedView { path: self.path@, name: self.name@, sourcetype: self.sourcetype@ }
    }
}

impl Clone for SavedConfig {
    fn clone(&self) -> (r: Self)
        ensures
            r@ == self@,
    {
        SavedConfig {
            path: self.path.clone(),
            name: self.name.clone(),
            sourcetype: self.sourcetype.clone(),
        }
    }
}

/// The views of a list of saved configurations.
pub open spec fn saved_view(v: Seq<SavedConfig>) -> Seq<SavedView> {
    v.map_values(|s: SavedConfig| s@)
}

/// The saved configuration of a file, if it holds one.
pub open spec fn saved_in(file: ConfigFile) -> Option<SavedView> {
    if extension_of(file.file_name@) != Some("toml"@) {
        None
    } else {
        match file.text {
            None => None,
            Some(text) => match config_of_text(text@) {
                Err(_) => None,
                Ok(config) => Some(
                    SavedView {
                        path: file.file_name@,
                        name: config.name,
                        sourcetype: config.sourcetype,
                    },
                ),
            },
        }
    }
}

/// The saved configurations of files, in the order of the files.
pub open spec fn saved_found(files: Seq<ConfigFile>) -> Seq<SavedView>
    decreases files.len(),
{
    if files.len() == 0 {
        seq![]
    } else {
        match saved_in(files.last()) {
            Some(s) => saved_found(files.drop_last()).push(s),
            None => saved_found(files.drop_last()),
        }
    }
}

/// What saved configurations are sorted by: their names.
pub open spec fn saved_keys(found: Seq<SavedView>) -> Seq<SortKeyView> {
    found.map_values(|s: SavedView| SortKeyView { rank: 0, text: s.name, minor: 0 })
}

fn saved_of(file: &ConfigFile) -> (r: Option<SavedConfig>)
    ensures
        match r {
            Some(s) => saved_in(*file) == Some(s@),
            None => saved_in(*file) is None,
        },
{
    if !has_extension(file.file_name.as_str(), "toml") {
        return None;
    }
    match &file.text {
        None => None,
        Some(text) => match ParserConfig::from_toml_str(text.as_str()) {
            Err(_) => None,
            Ok(config) => Some(
                SavedConfig {
                    path: file.file_name.clone(),
                    name: config.parser.name,
                    sourcetype: config.parser.sourcetype,
                },
            ),
        },
    }
}

/// The saved configurations of a directory, in the order of their names. A file
/// that cannot be read, or that holds none, is passed over.
pub fn list_saved_configs(files: &Vec<ConfigFile>) -> (r: Vec<SavedConfig>)
    ensures
        ({
            let found = saved_found(files@);
            saved_view(r@) == reordered(found, stable_order(saved_keys(found)))
        }),
{
    let mut found: Vec<SavedConfig> = Vec::new();
    let mut keys: Vec<SortKey> = Vec::new();
    let mut i: usize = 0;
    assert(saved_view(found@) =~= seq![]);
    assert(keys_view(keys@) =~= saved_keys(seq![]));
    while i < files.len()
        invariant
            i <= files.len(),
            saved_view(found@) == saved_found(files@.take(i as int)),
            keys_view(keys@) == saved_keys(saved_view(found@)),
        decreases files.len() - i,
    {
        let ghost found_before = found@;
        let ghost keys_before = keys@;
        proof {
            let next = files@.take(i + 1);
            assert(next.drop_last() == files@.take(i as int));
            assert(next.last() == files@[i as int]);
        }
        if let Some(saved) = saved_of(&files[i]) {
            let key = SortKey { rank: 0, text: saved.name.clone(), minor: 0 };
            let ghost sv = saved@;
            keys.push(key);
            found.push(saved);
            proof {
                assert(saved_view(found@) =~= saved_view(found_before).push(sv));
                assert(keys_view(keys@) =~= keys_view(keys_before).push(key@));
                assert(saved_keys(saved_view(found@)) =~= saved_keys(
                    saved_view(found_before),
                ).push(key@));
            }
        }
        i += 1;
    }
    assert(files@.take(i as int) == files@);
    let ghost fv = saved_view(found@);
    let order = sorted_positions(&keys);
    let ghost o = order@.map_values(|i: usize| i as int);
    let ghost want = reordered(fv, o);
    let mut sorted: Vec<SavedConfig> = Vec::new();
    let mut k: usize = 0;
    while k < order.len()
        invariant
            k <= order.len(),
            o == order@.map_values(|i: usize| i as int),
            order.len() == found.len(),
            fv == saved_view(found@),
            want == reordered(fv, o),
            forall|j: int| 0 <= j < o.len() ==> 0 <= #[trigger] o[j] < found.len(),
            saved_view(sorted@) == want.take(k as int),
        decreases order.len() - k,
    {
        let ghost before = sorted@;
        assert(o[k as int] == order@[k as int]);
        let saved = found[order[k]].clone();
        let ghost sv = saved@;
        sorted.push(saved);
        proof {
            assert(saved_view(sorted@) =~= saved_view(before).push(sv));
            assert(want.take(k + 1) =~= want.take(k as int).push(want[k as int]));
        }
        k += 1;
    }
    assert(want.take(k as int) == want);
    sorted
}

} // verus!
