//! Writing rule files: new ones, and one more pattern for an existing one.

use vstd::prelude::*;

use crate::model::opt_text;
use crate::order::{sort_texts, sorted_texts};
use crate::plain_toml::{
    are_plain_entries, are_plain_lines, escaped, escaped_char, is_bare_key, is_plain_text, is_plain_value,
    is_in_table, is_simple_text, is_verbatim, lemma_entry_found, lemma_entry_push, lemma_lines_push, lemma_plain_push, lemma_tables_push,
    lemma_text_line, lemma_verbatim, line_text, lines_text, notes, tables_text, value_text, whole_text, PlainDocument,
    PlainLine,
};
use crate::tagging::rule::{
    condition_holds, rule_matches, rule_of, rule_of_text, substrings, text_items,
    RuleView, Subject,
};
use crate::text::{
    ascii_lower, chars_of, dec_i64, dec_int, extension_of, has_extension, lower_char, parse_i64,
    occurs_in, parsed_i64, same, texts,
};
use crate::toml_doc::{entries_differ, entry, lemma_entry_at, parsed_toml, TomlView};

verus! {

/// Whether a character is an ASCII letter or digit.
pub open spec fn is_alnum(c: char) -> bool {
    ('a' <= c <= 'z') || ('A' <= c <= 'Z') || ('0' <= c <= '9')
}

fn alnum(c: char) -> (r: bool)
    ensures
        r == is_alnum(c),
{
    ('a' <= c && c <= 'z') || ('A' <= c && c <= 'Z') || ('0' <= c && c <= '9')
}

/// The letters and digits of `s` in lower case, with one underscore for each
/// stretch of other characters that follows a letter or digit.
pub open spec fn slug_raw(s: Seq<char>) -> Seq<char>
    decreases s.len(),
{
    if s.len() == 0 {
        seq![]
    } else {
        let before = slug_raw(s.drop_last());
        if is_alnum(s.last()) {
            before.push(ascii_lower(s.last()))
        } else if before.len() > 0 && before.last() != '_' {
            before.push('_')
        } else {
            before
        }
    }
}

/// The file stem of a name: its letters and digits in lower case, with one
/// underscore between each two stretches of them; `rule` where there are none.
pub open spec fn slug(name: Seq<char>) -> Seq<char> {
    let raw = slug_raw(name);
    let trimmed = if raw.len() > 0 && raw.last() == '_' {
        raw.drop_last()
    } else {
        raw
    };
    if trimmed.len() == 0 {
        "rule"@
    } else {
        trimmed
    }
}

/// Whether a character may stand in a slug.
pub open spec fn is_slug_char(c: char) -> bool {
    ('a' <= c <= 'z') || ('0' <= c <= '9') || c == '_'
}

/// Whether a text is made of words of lower-case letters and digits with single
/// underscores between them.
pub open spec fn is_slug(s: Seq<char>) -> bool {
    &&& s.len() > 0
    &&& s[0] != '_'
    &&& s.last() != '_'
    &&& forall|i: int| 0 <= i < s.len() ==> is_slug_char(#[trigger] s[i])
    &&& forall|i: int| 0 <= i < s.len() - 1 && #[trigger] s[i] == '_' ==> s[i + 1] != '_'
}

proof fn lemma_slug_raw(s: Seq<char>)
    ensures
        ({
            let raw = slug_raw(s);
            &&& raw.len() > 0 ==> raw[0] != '_'
            &&& forall|i: int| 0 <= i < raw.len() ==> is_slug_char(#[trigger] raw[i])
            &&& forall|i: int| 0 <= i < raw.len() - 1 && #[trigger] raw[i] == '_' ==> raw[i + 1] != '_'
        }),
    decreases s.len(),
{
    if s.len() > 0 {
        lemma_slug_raw(s.drop_last());
        let c = s.last();
        if is_alnum(c) {
            assert(is_slug_char(ascii_lower(c)) && ascii_lower(c) != '_');
        }
    }
}

/// A slug is never empty, and has no other form than words with single
/// underscores between them.
pub proof fn lemma_slug_form(name: Seq<char>)
    ensures
        is_slug(slug(name)),
{
    lemma_slug_raw(name);
    reveal_strlit("rule");
    let raw = slug_raw(name);
    if raw.len() > 0 && raw.last() == '_' && raw.len() > 1 {
        assert(raw[raw.len() - 2] != '_');
    }
}

proof fn lemma_slug_raw_of_slug(s: Seq<char>)
    requires
        s.len() > 0 ==> s[0] != '_',
        forall|i: int| 0 <= i < s.len() ==> is_slug_char(#[trigger] s[i]),
        forall|i: int| 0 <= i < s.len() - 1 && #[trigger] s[i] == '_' ==> s[i + 1] != '_',
    ensures
        slug_raw(s) == s,
    decreases s.len(),
{
    if s.len() > 0 {
        let t = s.drop_last();
        lemma_slug_raw_of_slug(t);
        let c = s.last();
        assert(is_slug_char(s[s.len() - 1]));
        assert(s == t.push(c));
        if c == '_' {
            assert(t.len() > 0);
            assert(s[t.len() - 1] == t.last());
        }
    }
}

/// The slug of a slug is the slug itself.
pub proof fn lemma_slug_idempotent(name: Seq<char>)
    ensures
        slug(slug(name)) == slug(name),
{
    lemma_slug_form(name);
    lemma_slug_raw_of_slug(slug(name));
}

/// The file stem of a rule or tag name.
pub fn slugify(name: &str) -> (r: String)
    ensures
        r@ == slug(name@),
{
    let v = chars_of(name);
    let mut out: Vec<char> = Vec::new();
    let mut i: usize = 0;
    while i < v.len()
        invariant
            i <= v.len(),
            v@ == name@,
            out@ == slug_raw(name@.take(i as int)),
        decreases v.len() - i,
    {
        proof {
            let next = name@.take(i + 1);
            assert(next.drop_last() == name@.take(i as int));
            assert(next.last() == v@[i as int]);
        }
        if alnum(v[i]) {
            out.push(lower_char(v[i]));
        } else if out.len() > 0 && out[out.len() - 1] != '_' {
            out.push('_');
        }
        i += 1;
    }
    assert(name@.take(i as int) == name@);
    if out.len() > 0 && out[out.len() - 1] == '_' {
        let _ = out.pop();
    }
    if out.len() == 0 {
        "rule".to_owned()
    } else {
        let s = crate::text::string_of(&out, 0, out.len());
        assert(s@ == out@);
        s
    }
}

/// A text as it stands between the quotes of a TOML basic string.
pub fn escape_toml_string(input: &str) -> (r: String)
    ensures
        r@ == escaped(input@),
{
    let v = chars_of(input);
    let mut r = String::new();
    let mut i: usize = 0;
    while i < v.len()
        invariant
            i <= v.len(),
            v@ == input@,
            r@ == escaped(input@.take(i as int)),
        decreases v.len() - i,
    {
        let ghost before = r@;
        let c: char = v[i];
        proof {
            let next = input@.take(i + 1);
            assert(next.drop_last() == input@.take(i as int));
            assert(next.last() == c);
        }
        if c == '\\' || c == '"' {
            r.push('\\');
        }
        r.push(c);
        assert(r@ =~= before + escaped_char(c));
        i += 1;
    }
    assert(input@.take(i as int) == input@);
    r
}

/// What a new rule checks.
#[derive(Debug)]
pub enum RuleCondition {
    /// The message holds a text.
    MessageContains(String),
    /// A field has a value.
    FieldEquals { field: &'static str, value: String },
}

/// The number that a text is the decimal form of.
pub open spec fn plain_number(value: Seq<char>) -> Option<i64> {
    match parsed_i64(value) {
        Some(n) => if dec_int(n as int) == value {
            Some(n)
        } else {
            None
        },
        None => None,
    }
}

/// A value in TOML: a number where the text is the decimal form of one, else a
/// string.
pub open spec fn value_in_toml(value: Seq<char>) -> Seq<char> {
    match plain_number(value) {
        Some(n) => dec_int(n as int),
        None => "\""@ + escaped(value) + "\""@,
    }
}

/// The conditions of a new rule, in TOML. One on the message holds for all
/// kinds of sources; one on a field is tied to one kind.
pub open spec fn condition_in_toml(sourcetype: Seq<char>, condition: RuleCondition) -> Seq<char> {
    match condition {
        RuleCondition::MessageContains(pattern) => "message_contains = \""@ + escaped(pattern@)
            + "\""@,
        RuleCondition::FieldEquals { field, value } => "sourcetype = \""@ + escaped(sourcetype)
            + "\"\n"@ + field@ + " = "@ + value_in_toml(value@),
    }
}

/// The text of a rule file.
pub open spec fn rule_file_text(name: Seq<char>, conditions: Seq<char>, tag: Seq<char>) -> Seq<char> {
    "[rule]\nname = \""@ + name
        + "\"\ndescription = \"Created from the timeline's advanced tagging dialog\"\n\n[rule.match]\n"@
        + conditions + "\n\n[rule.tag]\nvalue = \""@ + tag + "\"\n"@
}

/// The value that a text stands for: a number where it is the decimal form of one,
/// else itself.
pub open spec fn condition_value(value: Seq<char>) -> TomlView {
    match plain_number(value) {
        Some(n) => TomlView::Integer(n),
        None => TomlView::Text(value),
    }
}

/// The entries that the conditions of a new rule are.
pub open spec fn condition_entries(sourcetype: Seq<char>, condition: RuleCondition) -> Seq<
    (Seq<char>, TomlView),
> {
    match condition {
        RuleCondition::MessageContains(pattern) => Seq::empty().push(
            ("message_contains"@, TomlView::Text(pattern@)),
        ),
        RuleCondition::FieldEquals { field, value } => Seq::empty().push(
            ("sourcetype"@, TomlView::Text(sourcetype)),
        ).push((field@, condition_value(value@))),
    }
}

/// What a new rule says of where it comes from.
pub open spec fn new_rule_description() -> Seq<char> {
    "Created from the timeline's advanced tagging dialog"@
}

/// The document that the file of a new rule is.
pub open spec fn rule_document(
    name: Seq<char>,
    sourcetype: Seq<char>,
    condition: RuleCondition,
    tag: Seq<char>,
) -> PlainDocument {
    PlainDocument {
        name: "rule"@,
        entries: Seq::empty().push(("name"@, TomlView::Text(name))).push(
            ("description"@, TomlView::Text(new_rule_description())),
        ),
        tables: Seq::empty().push(("match"@, condition_entries(sourcetype, condition))).push(
            ("tag"@, Seq::empty().push(("value"@, TomlView::Text(tag)))),
        ),
    }
}

/// Whether a new rule can be written so that it is read back: its name and its tag,
/// which are written as they are, need no backslashes, and nothing else holds
/// control characters.
pub open spec fn is_writable_rule(
    name: Seq<char>,
    sourcetype: Seq<char>,
    condition: RuleCondition,
    tag: Seq<char>,
) -> bool {
    &&& is_verbatim(name)
    &&& is_verbatim(tag)
    &&& match condition {
        RuleCondition::MessageContains(pattern) => is_plain_text(pattern@),
        RuleCondition::FieldEquals { field, value } => {
            &&& is_plain_text(sourcetype)
            &&& is_bare_key(field@)
            &&& field@ != "sourcetype"@
            &&& is_plain_value(condition_value(value@))
        },
    }
}

proof fn lemma_description_is_verbatim()
    ensures
        is_verbatim(new_rule_description()),
{
    reveal_strlit("Created from the timeline's advanced tagging dialog");
}

proof fn lemma_condition_lines(sourcetype: Seq<char>, condition: RuleCondition)
    ensures
        lines_text(condition_entries(sourcetype, condition)) == condition_in_toml(
            sourcetype,
            condition,
        ) + "\n"@,
{
    let none = Seq::<(Seq<char>, TomlView)>::empty();
    reveal_strlit("\"");
    reveal_strlit("\n");
    reveal_strlit(" = ");
    reveal_strlit("\"\n");
    match condition {
        RuleCondition::MessageContains(pattern) => {
            let e = ("message_contains"@, TomlView::Text(pattern@));
            lemma_lines_push(none, e);
            reveal_strlit("message_contains");
            reveal_strlit("message_contains = \"");
            assert("message_contains = \""@ =~= "message_contains"@ + " = "@ + "\""@);
            assert(lines_text(condition_entries(sourcetype, condition)) =~= condition_in_toml(
                sourcetype,
                condition,
            ) + "\n"@);
        },
        RuleCondition::FieldEquals { field, value } => {
            let first = ("sourcetype"@, TomlView::Text(sourcetype));
            let second = (field@, condition_value(value@));
            lemma_lines_push(none, first);
            lemma_lines_push(none.push(first), second);
            reveal_strlit("sourcetype");
            reveal_strlit("sourcetype = \"");
            assert("sourcetype = \""@ =~= "sourcetype"@ + " = "@ + "\""@);
            assert("\"\n"@ =~= "\""@ + "\n"@);
            assert(value_text(condition_value(value@)) == value_in_toml(value@));
            assert(lines_text(condition_entries(sourcetype, condition)) =~= condition_in_toml(
                sourcetype,
                condition,
            ) + "\n"@);
        },
    }
}

/// The file of a new rule is a plain document.
pub proof fn lemma_rule_file_is_plain(
    name: Seq<char>,
    sourcetype: Seq<char>,
    condition: RuleCondition,
    tag: Seq<char>,
)
    requires
        is_writable_rule(name, sourcetype, condition, tag),
    ensures
        rule_document(name, sourcetype, condition, tag).is_plain(),
        rule_document(name, sourcetype, condition, tag).text() == rule_file_text(
            name,
            condition_in_toml(sourcetype, condition),
            tag,
        ),
{
    lemma_rule_file_text(name, sourcetype, condition, tag);
    lemma_rule_document_is_plain(name, sourcetype, condition, tag);
}

proof fn lemma_rule_file_text(
    name: Seq<char>,
    sourcetype: Seq<char>,
    condition: RuleCondition,
    tag: Seq<char>,
)
    requires
        is_verbatim(name),
        is_verbatim(tag),
    ensures
        rule_document(name, sourcetype, condition, tag).text() == rule_file_text(
            name,
            condition_in_toml(sourcetype, condition),
            tag,
        ),
{
    let doc = rule_document(name, sourcetype, condition, tag);
    let conditions = condition_in_toml(sourcetype, condition);
    let what = new_rule_description();
    let q = "\""@;
    let eol = "\n"@;
    let h = "["@ + "rule"@ + "]\n"@;
    let n = "name"@ + " = "@ + q;
    let m = "\n["@ + "rule"@ + "."@ + "match"@ + "]\n"@;
    let g = "\n["@ + "rule"@ + "."@ + "tag"@ + "]\n"@;
    let v = "value"@ + " = "@ + q;
    let d = ("description"@ + " = "@ + q) + what + (q + eol);
    assert(lines_text(doc.entries) == (n + name + (q + eol)) + d) by {
        lemma_rule_lines(name);
    }
    assert(tables_text("rule"@, doc.tables) == (m + (conditions + eol)) + (g + (v + tag + (q
        + eol)))) by {
        lemma_rule_tables(name, sourcetype, condition, tag);
    }
    lemma_rule_file_pieces(h, n, name, q + eol, d, m, conditions, eol, g, v, tag);
    lemma_rule_file_literals();
    assert(h + n == "["@ + "rule"@ + "]\n"@ + "name"@ + " = "@ + q) by {
        lemma_three("["@ + "rule"@ + "]\n"@, "name"@, " = "@, q);
    }
    assert(eol + g + v == "\n\n[rule.tag]\nvalue = \""@);
    assert((q + eol) + d + m == "\"\ndescription = \"Created from the timeline's advanced tagging dialog\"\n\n[rule.match]\n"@);
}

proof fn lemma_three(a: Seq<char>, b: Seq<char>, c: Seq<char>, d: Seq<char>)
    ensures
        a + (b + c + d) == a + b + c + d,
{
    assert(a + (b + c + d) =~= a + b + c + d);
}

proof fn lemma_rule_lines(name: Seq<char>)
    requires
        is_verbatim(name),
    ensures
        ({
            let q = "\""@;
            let end = q + "\n"@;
            let first = ("name"@, TomlView::Text(name));
            let second = ("description"@, TomlView::Text(new_rule_description()));
            lines_text(Seq::<(Seq<char>, TomlView)>::empty().push(first).push(second)) == ((
            "name"@ + " = "@ + q) + name + end) + (("description"@ + " = "@ + q)
                + new_rule_description() + end)
        }),
{
    let none = Seq::<(Seq<char>, TomlView)>::empty();
    let first = ("name"@, TomlView::Text(name));
    let second = ("description"@, TomlView::Text(new_rule_description()));
    lemma_verbatim(name);
    lemma_description_is_verbatim();
    lemma_verbatim(new_rule_description());
    lemma_text_line("name"@, name);
    lemma_text_line("description"@, new_rule_description());
    lemma_lines_push(none, first);
    lemma_lines_push(none.push(first), second);
    assert(lines_text(none) + line_text(first) =~= line_text(first));
}

proof fn lemma_rule_tables(
    name: Seq<char>,
    sourcetype: Seq<char>,
    condition: RuleCondition,
    tag: Seq<char>,
)
    requires
        is_verbatim(tag),
    ensures
        ({
            let q = "\""@;
            let m = "\n["@ + "rule"@ + "."@ + "match"@ + "]\n"@;
            let g = "\n["@ + "rule"@ + "."@ + "tag"@ + "]\n"@;
            tables_text("rule"@, rule_document(name, sourcetype, condition, tag).tables) == (m + (
            condition_in_toml(sourcetype, condition) + "\n"@)) + (g + (("value"@ + " = "@ + q) + tag
                + (q + "\n"@)))
        }),
{
    let none = Seq::<(Seq<char>, TomlView)>::empty();
    let value = ("value"@, TomlView::Text(tag));
    let no_tables = Seq::<(Seq<char>, Seq<(Seq<char>, TomlView)>)>::empty();
    let matching = ("match"@, condition_entries(sourcetype, condition));
    let tagging = ("tag"@, none.push(value));
    let m = "\n["@ + "rule"@ + "."@ + "match"@ + "]\n"@;
    lemma_verbatim(tag);
    lemma_text_line("value"@, tag);
    lemma_lines_push(none, value);
    assert(lines_text(none) + line_text(value) =~= line_text(value));
    lemma_condition_lines(sourcetype, condition);
    lemma_tables_push("rule"@, no_tables, matching);
    lemma_tables_push("rule"@, no_tables.push(matching), tagging);
    assert(tables_text("rule"@, no_tables) + (m + lines_text(matching.1)) =~= m + lines_text(
        matching.1,
    ));
}

proof fn lemma_rule_file_pieces(
    h: Seq<char>,
    n: Seq<char>,
    name: Seq<char>,
    b: Seq<char>,
    d: Seq<char>,
    m: Seq<char>,
    conditions: Seq<char>,
    eol: Seq<char>,
    g: Seq<char>,
    v: Seq<char>,
    tag: Seq<char>,
)
    ensures
        h + ((n + name + b) + d) + ((m + (conditions + eol)) + (g + (v + tag + b))) == (h + n)
            + name + (b + d + m) + conditions + (eol + g + v) + tag + b,
{
    assert(h + ((n + name + b) + d) + ((m + (conditions + eol)) + (g + (v + tag + b))) =~= (h + n)
        + name + (b + d + m) + conditions + (eol + g + v) + tag + b);
}

proof fn lemma_rule_file_literals()
    ensures
        ({
            let q = "\""@;
            let eol = "\n"@;
            let m = "\n["@ + "rule"@ + "."@ + "match"@ + "]\n"@;
            let g = "\n["@ + "rule"@ + "."@ + "tag"@ + "]\n"@;
            let v = "value"@ + " = "@ + q;
            let d = ("description"@ + " = "@ + q) + new_rule_description() + (q + eol);
            &&& "[rule]\nname = \""@ == "["@ + "rule"@ + "]\n"@ + "name"@ + " = "@ + q
            &&& "\"\ndescription = \"Created from the timeline's advanced tagging dialog\"\n\n[rule.match]\n"@
                == (q + eol) + d + m
            &&& "\n\n[rule.tag]\nvalue = \""@ == eol + g + v
            &&& "\"\n"@ == q + eol
        }),
{
    reveal_strlit("\"");
    reveal_strlit("\n");
    reveal_strlit("[");
    reveal_strlit("]\n");
    reveal_strlit("\n[");
    reveal_strlit(".");
    reveal_strlit(" = ");
    reveal_strlit("rule");
    reveal_strlit("name");
    reveal_strlit("description");
    reveal_strlit("match");
    reveal_strlit("tag");
    reveal_strlit("value");
    reveal_strlit("Created from the timeline's advanced tagging dialog");
    reveal_strlit("[rule]\nname = \"");
    reveal_strlit(
        "\"\ndescription = \"Created from the timeline's advanced tagging dialog\"\n\n[rule.match]\n",
    );
    reveal_strlit("\n\n[rule.tag]\nvalue = \"");
    reveal_strlit("\"\n");
    let q = "\""@;
    let eol = "\n"@;
    let m = "\n["@ + "rule"@ + "."@ + "match"@ + "]\n"@;
    let g = "\n["@ + "rule"@ + "."@ + "tag"@ + "]\n"@;
    let v = "value"@ + " = "@ + q;
    let d = ("description"@ + " = "@ + q) + new_rule_description() + (q + eol);
    assert("[rule]\nname = \""@ =~= "["@ + "rule"@ + "]\n"@ + "name"@ + " = "@ + q);
    assert("\n\n[rule.tag]\nvalue = \""@ =~= eol + g + v);
    assert("\"\n"@ =~= q + eol);
    assert("\"\ndescription = \"Created from the timeline's advanced tagging dialog\"\n\n[rule.match]\n"@
        =~= (q + eol) + d + m);
}

proof fn lemma_rule_document_is_plain(
    name: Seq<char>,
    sourcetype: Seq<char>,
    condition: RuleCondition,
    tag: Seq<char>,
)
    requires
        is_writable_rule(name, sourcetype, condition, tag),
    ensures
        rule_document(name, sourcetype, condition, tag).is_plain(),
{
    let doc = rule_document(name, sourcetype, condition, tag);
    let none = Seq::<(Seq<char>, TomlView)>::empty();
    let first = ("name"@, TomlView::Text(name));
    let second = ("description"@, TomlView::Text(new_rule_description()));
    let value = ("value"@, TomlView::Text(tag));
    reveal_strlit("rule");
    reveal_strlit("name");
    reveal_strlit("description");
    reveal_strlit("match");
    reveal_strlit("tag");
    reveal_strlit("value");
    reveal_strlit("message_contains");
    reveal_strlit("sourcetype");
    lemma_description_is_verbatim();
    assert("name"@.len() == 4);
    assert("description"@.len() == 11);
    assert("match"@.len() == 5);
    assert("tag"@.len() == 3);
    assert(entry(none, "name"@) is None);
    assert(are_plain_entries(none));
    lemma_plain_push(none, first);
    lemma_entry_push(none, first, "description"@);
    lemma_plain_push(none.push(first), second);
    lemma_plain_push(none, value);
    lemma_entry_push(none, first, "match"@);
    lemma_entry_push(none.push(first), second, "match"@);
    lemma_entry_push(none, first, "tag"@);
    lemma_entry_push(none.push(first), second, "tag"@);
    match condition {
        RuleCondition::MessageContains(pattern) => {
            lemma_plain_push(none, ("message_contains"@, TomlView::Text(pattern@)));
        },
        RuleCondition::FieldEquals { field, value } => {
            let kind = ("sourcetype"@, TomlView::Text(sourcetype));
            lemma_plain_push(none, kind);
            lemma_entry_push(none, kind, field@);
            lemma_plain_push(none.push(kind), (field@, condition_value(value@)));
        },
    }
    assert(doc.tables.len() == 2);
    assert(doc.tables[0].0 == "match"@ && doc.tables[1].0 == "tag"@);
    assert("match"@ != "tag"@);
}

fn rule_file(name: &str, conditions: &str, tag: &str) -> (r: String)
    ensures
        r@ == rule_file_text(name@, conditions@, tag@),
{
    let mut s = "[rule]\nname = \"".to_owned();
    s.append(name);
    s.append(
        "\"\ndescription = \"Created from the timeline's advanced tagging dialog\"\n\n[rule.match]\n",
    );
    s.append(conditions);
    s.append("\n\n[rule.tag]\nvalue = \"");
    s.append(tag);
    s.append("\"\n");
    s
}

fn number_of(value: &str) -> (r: Option<i64>)
    ensures
        r == plain_number(value@),
{
    match parse_i64(value) {
        Some(n) => if same(dec_i64(n).as_str(), value) {
            Some(n)
        } else {
            None
        },
        None => None,
    }
}

/// The text of a new rule file with one condition.
pub fn create_rule(
    rule_name: &str,
    sourcetype: &str,
    condition: &RuleCondition,
    tag_value: &str,
) -> (r: String)
    ensures
        r@ == rule_file_text(
            rule_name@,
            condition_in_toml(sourcetype@, *condition),
            tag_value@,
        ),
{
    match condition {
        RuleCondition::MessageContains(pattern) => create_message_contains_rule(
            rule_name,
            pattern.as_str(),
            tag_value,
        ),
        RuleCondition::FieldEquals { field, value } => {
            let value_toml = match number_of(value.as_str()) {
                Some(n) => dec_i64(n),
                None => {
                    let mut s = "\"".to_owned();
                    s.append(escape_toml_string(value.as_str()).as_str());
                    s.append("\"");
                    s
                },
            };
            let mut conditions = "sourcetype = \"".to_owned();
            conditions.append(escape_toml_string(sourcetype).as_str());
            conditions.append("\"\n");
            conditions.append(field);
            conditions.append(" = ");
            conditions.append(value_toml.as_str());
            rule_file(rule_name, conditions.as_str(), tag_value)
        },
    }
}

/// The text of a new rule file that looks for one text in messages.
pub fn create_message_contains_rule(rule_name: &str, pattern: &str, tag_value: &str) -> (r: String)
    ensures
        r@ == rule_file_text(
            rule_name@,
            "message_contains = \""@ + escaped(pattern@) + "\""@,
            tag_value@,
        ),
{
    let mut conditions = "message_contains = \"".to_owned();
    conditions.append(escape_toml_string(pattern).as_str());
    conditions.append("\"");
    rule_file(rule_name, conditions.as_str(), tag_value)
}

/// One entry of a directory.
#[derive(Debug)]
pub struct DirEntryInfo {
    pub name: String,
    pub is_file: bool,
}

/// The names of the files with the extension `toml`, in the order of the
/// listing.
pub open spec fn toml_file_names(entries: Seq<DirEntryInfo>) -> Seq<Seq<char>>
    decreases entries.len(),
{
    if entries.len() == 0 {
        seq![]
    } else {
        let before = toml_file_names(entries.drop_last());
        if entries.last().is_file && extension_of(entries.last().name@) == Some("toml"@) {
            before.push(entries.last().name@)
        } else {
            before
        }
    }
}

/// The rule files of a directory, in the order of their names.
pub fn scan_rules_dir(entries: &Vec<DirEntryInfo>) -> (r: Vec<String>)
    ensures
        texts(r@) == sorted_texts(toml_file_names(entries@)),
{
    let mut found: Vec<String> = Vec::new();
    let mut i: usize = 0;
    assert(texts(found@) =~= seq![]);
    while i < entries.len()
        invariant
            i <= entries.len(),
            texts(found@) == toml_file_names(entries@.take(i as int)),
        decreases entries.len() - i,
    {
        let ghost before = found@;
        proof {
            let next = entries@.take(i + 1);
            assert(next.drop_last() == entries@.take(i as int));
            assert(next.last() == entries@[i as int]);
        }
        if entries[i].is_file && has_extension(entries[i].name.as_str(), "toml") {
            let name = entries[i].name.clone();
            found.push(name);
            assert(texts(found@) =~= texts(before).push(name@));
        }
        i += 1;
    }
    assert(entries@.take(i as int) == entries@);
    sort_texts(&found)
}

/// The types of values that hold no patterns.
#[derive(Clone, Copy, Debug, PartialEq, Eq, Structural)]
pub enum ValueKind {
    Integer,
    Float,
    Boolean,
    Datetime,
    InlineTable,
}

/// The name of a type.
pub open spec fn kind_name(kind: ValueKind) -> Seq<char> {
    match kind {
        ValueKind::Integer => "integer"@,
        ValueKind::Float => "float"@,
        ValueKind::Boolean => "boolean"@,
        ValueKind::Datetime => "datetime"@,
        ValueKind::InlineTable => "inline table"@,
    }
}

fn name_of_kind(kind: ValueKind) -> (r: &'static str)
    ensures
        r@ == kind_name(kind),
{
    match kind {
        ValueKind::Integer => "integer",
        ValueKind::Float => "float",
        ValueKind::Boolean => "boolean",
        ValueKind::Datetime => "datetime",
        ValueKind::InlineTable => "inline table",
    }
}

/// What a document holds in a place of one of its tables.
#[derive(Debug)]
pub enum Slot {
    /// There is no such table.
    NoTable,
    /// The table has no such key.
    Absent,
    /// The key names a table or an array of tables.
    NotAValue,
    Text(String),
    /// An array; an item that is no string has no text.
    Array(Vec<Option<String>>),
    /// A value of another type.
    Other(ValueKind),
}

/// The view of a [`Slot`].
#[verifier::ext_equal]
pub enum SlotView {
    NoTable,
    Absent,
    NotAValue,
    Text(Seq<char>),
    Array(Seq<Option<Seq<char>>>),
    Other(ValueKind),
}

impl View for Slot {
    type V = SlotView;

    open spec fn view(&self) -> SlotView {
        match self {
            Slot::NoTable => SlotView::NoTable,
            Slot::Absent => SlotView::Absent,
            Slot::NotAValue => SlotView::NotAValue,
            Slot::Text(s) => SlotView::Text(s@),
            Slot::Array(items) => SlotView::Array(
                items@.map_values(|i: Option<String>| opt_text(i)),
            ),
            Slot::Other(kind) => SlotView::Other(*kind),
        }
    }
}

/// What `toml_edit` finds under `key` in the table `outer.table` of a text, or
/// the words of its error.
pub uninterp spec fn slot_in(
    text: Seq<char>,
    outer: Seq<char>,
    table: Seq<char>,
    key: Seq<char>,
) -> Result<SlotView, Seq<char>>;

/// The text after `toml_edit` appended a string to the array under `key`.
pub uninterp spec fn pushed_in(
    text: Seq<char>,
    outer: Seq<char>,
    table: Seq<char>,
    key: Seq<char>,
    value: Seq<char>,
) -> Seq<char>;

/// The text after `toml_edit` put an array of two strings in place of the value
/// under `key`.
pub uninterp spec fn paired_in(
    text: Seq<char>,
    outer: Seq<char>,
    table: Seq<char>,
    key: Seq<char>,
    first: Seq<char>,
    second: Seq<char>,
) -> Seq<char>;

/// The text after `toml_edit` inserted an array of one string under a new `key`.
pub uninterp spec fn inserted_in(
    text: Seq<char>,
    outer: Seq<char>,
    table: Seq<char>,
    key: Seq<char>,
    value: Seq<char>,
) -> Seq<char>;

/// The text of a document that `toml_edit` read and wrote unchanged.
pub uninterp spec fn reprinted(text: Seq<char>) -> Seq<char>;

/// The patterns that a rule file holds; an item that is no string has no text.
pub open spec fn patterns_in(slot: Result<SlotView, Seq<char>>) -> Seq<Option<Seq<char>>> {
    match slot {
        Ok(SlotView::Text(s)) => seq![Some(s)],
        Ok(SlotView::Array(items)) => items,
        _ => seq![],
    }
}

/// The value under `key` in the table `outer.table` of a document.
pub open spec fn place(
    doc: TomlView,
    outer: Seq<char>,
    table: Seq<char>,
    key: Seq<char>,
) -> Option<TomlView> {
    match doc.get(outer) {
        Some(o) => match o.get(table) {
            Some(t) => t.get(key),
            None => None,
        },
        None => None,
    }
}

/// Whether a document has the table `outer.table`.
pub open spec fn has_table(doc: TomlView, outer: Seq<char>, table: Seq<char>) -> bool {
    match doc.get(outer) {
        Some(o) => o.get(table) matches Some(TomlView::Table(_)),
        None => false,
    }
}

/// The text of an item, if it is a text.
pub open spec fn item_text(item: TomlView) -> Option<Seq<char>> {
    match item {
        TomlView::Text(s) => Some(s),
        _ => None,
    }
}

/// Whether two readings of a place agree, where it holds texts or nothing.
pub open spec fn readings_agree(slot: SlotView, value: Option<TomlView>) -> bool {
    match slot {
        SlotView::Text(s) => value == Some(TomlView::Text(s)),
        SlotView::Array(items) => {
            &&& value matches Some(TomlView::Array(values))
            &&& items == values.map_values(|v: TomlView| item_text(v))
        },
        SlotView::Absent => value is None,
        _ => true,
    }
}

/// Whether a document is another one with a value put under `key` in the table
/// `outer.table`, and everything else as it was.
pub open spec fn is_edited(
    before: TomlView,
    after: TomlView,
    outer: Seq<char>,
    table: Seq<char>,
    key: Seq<char>,
    value: TomlView,
) -> bool {
    &&& forall|k: Seq<char>| k != outer ==> #[trigger] after.get(k) == before.get(k)
    &&& before.get(outer) matches Some(TomlView::Table(b)) && {
        &&& after.get(outer) matches Some(TomlView::Table(a))
        &&& forall|k: Seq<char>| k != table ==> #[trigger] entry(a, k) == entry(b, k)
        &&& entry(b, table) matches Some(TomlView::Table(old_entries)) && {
            &&& entry(a, table) matches Some(TomlView::Table(new_entries))
            &&& entries_differ(old_entries)
            &&& entries_differ(new_entries)
            &&& forall|k: Seq<char>|
                k != key ==> #[trigger] entry(new_entries, k) == entry(old_entries, k)
            &&& entry(new_entries, key) == Some(value)
        }
    }
}

/// Whether a text reads as another one does, which has the table `outer.table`, but
/// for the value under `key` in that table.
pub open spec fn reads_edited(
    before: Result<TomlView, Seq<char>>,
    after: Result<TomlView, Seq<char>>,
    outer: Seq<char>,
    table: Seq<char>,
    key: Seq<char>,
    value: TomlView,
) -> bool {
    before matches Ok(b) ==> has_table(b, outer, table) ==> (after matches Ok(a) && is_edited(
        b,
        a,
        outer,
        table,
        key,
        value,
    ))
}

/// Whether a text is of plain lines, of which line `k` is the entry of `key` in the
/// table `outer.table`.
pub open spec fn is_line_of(
    lines: Seq<PlainLine>,
    k: int,
    text: Seq<char>,
    outer: Seq<char>,
    table: Seq<char>,
    key: Seq<char>,
) -> bool {
    &&& text == whole_text(lines)
    &&& are_plain_lines(lines)
    &&& 0 <= k < lines.len()
    &&& is_in_table(lines, k, outer, table)
    &&& match lines[k] {
        PlainLine::Text { key: name, .. } => name == key,
        PlainLine::List { key: name, .. } => name == key,
        PlainLine::Integer { key: name, .. } => name == key,
        _ => false,
    }
}

/// Whether what was found in a place is what its line says.
pub open spec fn agrees_with_line(slot: SlotView, line: PlainLine) -> bool {
    match line {
        PlainLine::Text { value, .. } => slot == SlotView::Text(value),
        PlainLine::List { values, .. } => slot == SlotView::Array(
            values.map_values(|v: Seq<char>| Some(v)),
        ),
        _ => slot == SlotView::Other(ValueKind::Integer),
    }
}

/// Whether the entries of the table `outer.table` end before line `k`.
pub open spec fn is_table_end(
    lines: Seq<PlainLine>,
    k: int,
    outer: Seq<char>,
    table: Seq<char>,
) -> bool {
    &&& 0 < k <= lines.len()
    &&& is_in_table(lines, k, outer, table)
    &&& !(lines[k - 1] is Blank) && !(lines[k - 1] is Note)
    &&& exists|e: int|
        k <= e <= lines.len() && (e < lines.len() ==> #[trigger] lines[e] is Header) && forall|j: int|
            k <= j < e ==> (#[trigger] lines[j] is Blank || lines[j] is Note)
}

/// The line with one more item in its list.
pub open spec fn with_item(line: PlainLine, value: Seq<char>) -> PlainLine {
    match line {
        PlainLine::List { key, values, tail } => PlainLine::List {
            key,
            values: values.push(value),
            tail,
        },
        _ => line,
    }
}

/// The line with a list of two texts for its value.
pub open spec fn as_pair(line: PlainLine, first: Seq<char>, second: Seq<char>) -> PlainLine {
    match line {
        PlainLine::Text { key, tail, .. } => PlainLine::List {
            key,
            values: seq![first, second],
            tail,
        },
        _ => line,
    }
}

/// The line of a list of one text.
pub open spec fn new_list(key: Seq<char>, value: Seq<char>) -> PlainLine {
    PlainLine::List { key, values: seq![value], tail: seq![] }
}

/// A text without its carriage returns.
pub open spec fn without_returns(s: Seq<char>) -> Seq<char> {
    s.filter(|c: char| c != '\r')
}

/// Whether a text has no quotation mark.
pub open spec fn is_unquoted(s: Seq<char>) -> bool {
    !s.contains('"') && !s.contains('\'')
}

/// Whether a text has no three quotation marks of a kind in a row, as those of a string
/// over several lines are.
pub open spec fn has_no_fence(s: Seq<char>) -> bool {
    forall|i: int|
        0 <= i < s.len() - 2 ==> !((#[trigger] s[i] == '"' || s[i] == '\'') && s[i + 1] == s[i]
            && s[i + 2] == s[i])
}

/// Whether only blanks stand before a place in its line.
pub open spec fn begins_line(text: Seq<char>, i: int) -> bool {
    exists|b: int|
        0 <= b <= i && (b == 0 || #[trigger] text[b - 1] == '\n') && forall|k: int|
            b <= k < i ==> (#[trigger] text[k] == ' ' || text[k] == '\t')
}

/// Whether the rest of a line from a place on is a comment that can be told without a
/// look at what stands before the line: it has the line for itself, or no quotation
/// mark in it.
pub open spec fn is_comment_at(text: Seq<char>, i: int, end: int) -> bool {
    &&& 0 <= i < end <= text.len()
    &&& text[i] == '#'
    &&& forall|k: int| i <= k < end ==> #[trigger] text[k] != '\n'
    &&& end < text.len() ==> text[end] == '\n'
    &&& is_unquoted(text.subrange(i, end)) || begins_line(text, i) && has_no_fence(
        text.subrange(i, end),
    )
}

/// Whether a text has a comment.
pub open spec fn has_comment(text: Seq<char>, comment: Seq<char>) -> bool {
    exists|i: int, end: int| #[trigger]
        is_comment_at(text, i, end) && comment == without_returns(text.subrange(i, end))
}

/// Whether the comments of a text are in another one too.
pub open spec fn comments_kept(before: Seq<char>, after: Seq<char>) -> bool {
    forall|comment: Seq<char>| #[trigger]
        has_comment(before, comment) ==> has_comment(after, comment)
}

/// Whether a text is another one with something put in at one place.
pub open spec fn is_extended(before: Seq<char>, after: Seq<char>) -> bool {
    exists|k: int, more: Seq<char>|
        0 <= k <= before.len() && after == #[trigger] (before.take(k) + more) + before.skip(k)
}

/// Whether a text is another one with something in place of one string in quotation
/// marks.
pub open spec fn is_string_replaced(before: Seq<char>, after: Seq<char>) -> bool {
    exists|k: int, end: int, new: Seq<char>|
        0 <= k < end - 1 < before.len() && (before[k] == '"' || before[k] == '\'') && before[end
            - 1] == before[k] && after == #[trigger] (before.take(k) + new) + #[trigger] before.skip(
            end,
        )
}

/// `toml_edit::Value`, a value as it stands in a document.
#[verifier::external_type_specification]
#[verifier::external_body]
pub struct ExEditValue(toml_edit::Value);

/// What a `toml_edit::Value` holds.
pub uninterp spec fn edit_value_view(v: toml_edit::Value) -> SlotView;

/// What is found in a place of a document.
enum Found {
    NoTable,
    Absent,
    NotAValue,
    Value(toml_edit::Value),
}

spec fn found_view(found: Found) -> SlotView {
    match found {
        Found::NoTable => SlotView::NoTable,
        Found::Absent => SlotView::Absent,
        Found::NotAValue => SlotView::NotAValue,
        Found::Value(v) => edit_value_view(v),
    }
}

/// `toml_edit::DocumentMut` as read from a text, looked up by two table names
/// and a key. What counts as a document is left to the name. Texts that are found
/// are those that the `toml` crate, which has the same parser, reads there, where it
/// reads a table there: one that begins with the key it keeps for dates it does not.
/// There is no table in an array.
/// In plain lines what is found is what the line of the key says.
#[verifier::external_body]
fn find_value(text: &str, outer: &str, table: &str, key: &str) -> (r: Result<Found, String>)
    ensures
        match r {
            Ok(found) => slot_in(text@, outer@, table@, key@) == Ok::<SlotView, Seq<char>>(
                found_view(found),
            ),
            Err(e) => slot_in(text@, outer@, table@, key@) == Err::<SlotView, Seq<char>>(e@),
        },
        match (r, parsed_toml(text@)) {
            (Ok(found), Ok(doc)) => {
                &&& has_table(doc, outer@, table@) ==> readings_agree(
                    found_view(found),
                    place(doc, outer@, table@, key@),
                )
                &&& doc.get(outer@) matches Some(TomlView::Array(_)) ==> found is NoTable
            },
            _ => true,
        },
        forall|lines: Seq<PlainLine>, k: int|
            #![trigger whole_text(lines), lines[k]]
            is_line_of(lines, k, text@, outer@, table@, key@) ==> match r {
                Ok(found) => agrees_with_line(found_view(found), lines[k]),
                Err(_) => true,
            },
{
    let doc = text.parse::<toml_edit::DocumentMut>().map_err(|e| e.to_string())?;
    let inner = doc.get(outer).and_then(|t| t.get(table)).and_then(toml_edit::Item::as_table_like);
    Ok(match inner.map(|t| t.get(key).map(toml_edit::Item::as_value)) {
        None => Found::NoTable,
        Some(None) => Found::Absent,
        Some(Some(None)) => Found::NotAValue,
        Some(Some(Some(v))) => Found::Value(v.clone()),
    })
}

/// The variant of a `toml_edit::Value`, with the texts of a string and of the
/// strings of an array.
#[verifier::external_body]
fn open_edit_value(v: &toml_edit::Value) -> (r: Slot)
    ensures
        r@ == edit_value_view(*v),
{
    match v {
        toml_edit::Value::String(s) => Slot::Text(s.value().clone()),
        toml_edit::Value::Array(items) =>
            Slot::Array(items.iter().map(|v| v.as_str().map(str::to_string)).collect()),
        toml_edit::Value::Integer(_) => Slot::Other(ValueKind::Integer),
        toml_edit::Value::Float(_) => Slot::Other(ValueKind::Float),
        toml_edit::Value::Boolean(_) => Slot::Other(ValueKind::Boolean),
        toml_edit::Value::Datetime(_) => Slot::Other(ValueKind::Datetime),
        toml_edit::Value::InlineTable(_) => Slot::Other(ValueKind::InlineTable),
    }
}

fn read_slot(text: &str, outer: &str, table: &str, key: &str) -> (r: Result<Slot, String>)
    ensures
        match r {
            Ok(slot) => slot_in(text@, outer@, table@, key@) == Ok::<SlotView, Seq<char>>(slot@),
            Err(e) => slot_in(text@, outer@, table@, key@) == Err::<SlotView, Seq<char>>(e@),
        },
        match (r, parsed_toml(text@)) {
            (Ok(slot), Ok(doc)) => {
                &&& has_table(doc, outer@, table@) ==> readings_agree(
                    slot@,
                    place(doc, outer@, table@, key@),
                )
                &&& doc.get(outer@) matches Some(TomlView::Array(_)) ==> slot@ is NoTable
            },
            _ => true,
        },
        forall|lines: Seq<PlainLine>, k: int|
            #![trigger whole_text(lines), lines[k]]
            is_line_of(lines, k, text@, outer@, table@, key@) ==> match r {
                Ok(slot) => agrees_with_line(slot@, lines[k]),
                Err(_) => true,
            },
{
    match find_value(text, outer, table, key) {
        Ok(Found::NoTable) => Ok(Slot::NoTable),
        Ok(Found::Absent) => Ok(Slot::Absent),
        Ok(Found::NotAValue) => Ok(Slot::NotAValue),
        Ok(Found::Value(v)) => Ok(open_edit_value(&v)),
        Err(e) => Err(e),
    }
}

/// `toml_edit::Array::push` on the array under `key`, and the text of the
/// document after it. There must be such an array, and the text one that is written as
/// it stands. To it something is added at one place, outside of its comments. Read
/// again, the text has the array with the string behind its items, and everything else
/// as it was, and is written as it stands. Of plain lines only the one of the array
/// changes.
#[verifier::external_body]
fn push_string(text: &str, outer: &str, table: &str, key: &str, value: &str) -> (r: String)
    requires
        slot_in(text@, outer@, table@, key@) matches Ok(SlotView::Array(_)),
        reprinted(text@) == text@,
    ensures
        r@ == pushed_in(text@, outer@, table@, key@, value@),
        reprinted(r@) == r@,
        is_extended(text@, r@),
        comments_kept(text@, r@),
        patterns_in(slot_in(r@, outer@, table@, key@)) == patterns_in(
            slot_in(text@, outer@, table@, key@),
        ).push(Some(value@)),
        match parsed_toml(text@) {
            Ok(before) => match place(before, outer@, table@, key@) {
                Some(TomlView::Array(items)) => reads_edited(
                    parsed_toml(text@),
                    parsed_toml(r@),
                    outer@,
                    table@,
                    key@,
                    TomlView::Array(items.push(TomlView::Text(value@))),
                ),
                _ => true,
            },
            Err(_) => true,
        },
        forall|lines: Seq<PlainLine>, k: int|
            #![trigger whole_text(lines), lines[k]]
            is_line_of(lines, k, text@, outer@, table@, key@) && lines[k] is List
                && is_simple_text(value@) ==> r@ == whole_text(
                lines.update(k, with_item(lines[k], value@)),
            ),
{
    let mut doc = text.parse::<toml_edit::DocumentMut>().unwrap();
    let item = doc.get_mut(outer).and_then(|t| t.get_mut(table)).and_then(|t| t.get_mut(key));
    item.and_then(toml_edit::Item::as_array_mut).unwrap().push(value);
    doc.to_string()
}

/// An array of two strings put in place of the value under `key`, with what stands
/// around that, and the text of the document after it. There must be such a value, and
/// the text one that is written as it stands. In it the one string changes; what looks
/// like a comment inside of it does not stay. Read again, the text has the array of the
/// two strings, and everything else as it was, and is written as it stands. Of plain
/// lines only the one of the value changes.
#[verifier::external_body]
fn replace_by_pair(
    text: &str,
    outer: &str,
    table: &str,
    key: &str,
    first: &str,
    second: &str,
) -> (r: String)
    requires
        slot_in(text@, outer@, table@, key@) matches Ok(SlotView::Text(_)),
        reprinted(text@) == text@,
    ensures
        r@ == paired_in(text@, outer@, table@, key@, first@, second@),
        reprinted(r@) == r@,
        is_string_replaced(text@, r@),
        match slot_in(text@, outer@, table@, key@) {
            Ok(SlotView::Text(s)) => !s.contains('#') ==> comments_kept(text@, r@),
            _ => true,
        },
        patterns_in(slot_in(r@, outer@, table@, key@)) == seq![Some(first@), Some(second@)],
        reads_edited(
            parsed_toml(text@),
            parsed_toml(r@),
            outer@,
            table@,
            key@,
            TomlView::Array(seq![TomlView::Text(first@), TomlView::Text(second@)]),
        ),
        forall|lines: Seq<PlainLine>, k: int|
            #![trigger whole_text(lines), lines[k]]
            is_line_of(lines, k, text@, outer@, table@, key@) && lines[k] is Text
                && is_simple_text(first@) && is_simple_text(second@) ==> r@ == whole_text(
                lines.update(k, as_pair(lines[k], first@, second@)),
            ),
{
    let mut doc = text.parse::<toml_edit::DocumentMut>().unwrap();
    let item = doc.get_mut(outer).and_then(|t| t.get_mut(table)).and_then(|t| t.get_mut(key));
    let value = item.and_then(toml_edit::Item::as_value_mut).unwrap();
    let mut array = toml_edit::Array::new();
    array.push(first);
    array.push(second);
    *array.decor_mut() = value.decor().clone();
    *value = toml_edit::Value::Array(array);
    doc.to_string()
}

/// An array of one string inserted under a new `key`, and the text of the
/// document after it. There must be such a table, without the key, and the text must be
/// one that is written as it stands. To it something is added at one place, outside of
/// its comments. Read again, the text has the array of the one string, and everything
/// else as it was, and is written as it stands; to the `toml` crate this is said of a
/// bare key. Of plain lines none changes, and one is added.
#[verifier::external_body]
fn insert_single(text: &str, outer: &str, table: &str, key: &str, value: &str) -> (r: String)
    requires
        slot_in(text@, outer@, table@, key@) == Ok::<SlotView, Seq<char>>(SlotView::Absent),
        reprinted(text@) == text@,
    ensures
        r@ == inserted_in(text@, outer@, table@, key@, value@),
        reprinted(r@) == r@,
        is_extended(text@, r@),
        comments_kept(text@, r@),
        patterns_in(slot_in(r@, outer@, table@, key@)) == seq![Some(value@)],
        is_bare_key(key@) ==> reads_edited(
            parsed_toml(text@),
            parsed_toml(r@),
            outer@,
            table@,
            key@,
            TomlView::Array(seq![TomlView::Text(value@)]),
        ),
        forall|lines: Seq<PlainLine>, k: int|
            #![trigger whole_text(lines), is_table_end(lines, k, outer@, table@)]
            text@ == whole_text(lines) && are_plain_lines(lines) && is_table_end(
                lines,
                k,
                outer@,
                table@,
            ) && is_bare_key(key@) && is_simple_text(value@) ==> r@ == whole_text(
                lines.insert(k, new_list(key@, value@)),
            ),
{
    let mut doc = text.parse::<toml_edit::DocumentMut>().unwrap();
    let item = doc.get_mut(outer).and_then(|t| t.get_mut(table));
    let mut array = toml_edit::Array::new();
    array.push(value);
    let array = toml_edit::Item::Value(toml_edit::Value::Array(array));
    item.and_then(toml_edit::Item::as_table_like_mut).unwrap().insert(key, array);
    doc.to_string()
}

/// The text of a document as `toml_edit` writes it after reading it. The text must be a
/// document. Read again, it holds the same, and it is written as it stands. Strings and
/// comments are written as they were, but for the carriage returns at the ends of lines
/// outside of strings; the entries of dotted keys move together, and the keys of a path
/// can be quoted in another way. Plain lines are written as they are.
#[verifier::external_body]
fn reprint(text: &str, outer: &str, table: &str, key: &str) -> (r: String)
    requires
        slot_in(text@, outer@, table@, key@) is Ok,
    ensures
        r@ == reprinted(text@),
        reprinted(r@) == r@,
        slot_in(r@, outer@, table@, key@) == slot_in(text@, outer@, table@, key@),
        parsed_toml(text@) is Ok ==> parsed_toml(r@) == parsed_toml(text@),
        comments_kept(text@, r@),
        forall|lines: Seq<PlainLine>|
            text@ == #[trigger] whole_text(lines) && are_plain_lines(lines) ==> r@ == text@,
{
    text.parse::<toml_edit::DocumentMut>().unwrap().to_string()
}

/// What has to be done to add a pattern.
#[derive(Debug)]
pub enum PatternEdit {
    /// The pattern is there already.
    Keep,
    /// It is appended to the array.
    Push,
    /// The one pattern that is there and the new one become an array.
    PairWith(String),
    /// It becomes the only item of a new array.
    Insert,
}

/// The view of a [`PatternEdit`].
#[verifier::ext_equal]
pub enum PatternEditView {
    Keep,
    Push,
    PairWith(Seq<char>),
    Insert,
}

impl View for PatternEdit {
    type V = PatternEditView;

    open spec fn view(&self) -> PatternEditView {
        match self {
            PatternEdit::Keep => PatternEditView::Keep,
            PatternEdit::Push => PatternEditView::Push,
            PatternEdit::PairWith(s) => PatternEditView::PairWith(s@),
            PatternEdit::Insert => PatternEditView::Insert,
        }
    }
}

/// What has to be done to add a pattern to what a rule file holds, or why it
/// cannot be added.
pub open spec fn edit_for(slot: SlotView, pattern: Seq<char>) -> Result<PatternEditView, Seq<char>> {
    match slot {
        SlotView::NoTable => Err("there is no [rule.match] table"@),
        SlotView::NotAValue => Err("message_contains is not a value"@),
        SlotView::Other(kind) => Err(
            "message_contains is a "@ + kind_name(kind) + ", expected a string or array"@,
        ),
        SlotView::Absent => Ok(PatternEditView::Insert),
        SlotView::Text(existing) => if existing == pattern {
            Ok(PatternEditView::Keep)
        } else {
            Ok(PatternEditView::PairWith(existing))
        },
        SlotView::Array(items) => if items.contains(Some(pattern)) {
            Ok(PatternEditView::Keep)
        } else {
            Ok(PatternEditView::Push)
        },
    }
}

/// What has to be done to add a pattern to what a rule file holds, or why it
/// cannot be added.
pub fn plan_pattern_edit(slot: &Slot, pattern: &str) -> (r: Result<PatternEdit, String>)
    ensures
        match r {
            Ok(edit) => edit_for(slot@, pattern@) == Ok::<PatternEditView, Seq<char>>(edit@),
            Err(e) => edit_for(slot@, pattern@) == Err::<PatternEditView, Seq<char>>(e@),
        },
{
    match slot {
        Slot::NoTable => Err("there is no [rule.match] table".to_owned()),
        Slot::NotAValue => Err("message_contains is not a value".to_owned()),
        Slot::Other(kind) => {
            let mut e = "message_contains is a ".to_owned();
            e.append(name_of_kind(*kind));
            e.append(", expected a string or array");
            Err(e)
        },
        Slot::Absent => Ok(PatternEdit::Insert),
        Slot::Text(existing) => if same(existing.as_str(), pattern) {
            Ok(PatternEdit::Keep)
        } else {
            Ok(PatternEdit::PairWith(existing.clone()))
        },
        Slot::Array(items) => {
            let ghost views = items@.map_values(|i: Option<String>| opt_text(i));
            let mut i: usize = 0;
            while i < items.len()
                invariant
                    i <= items.len(),
                    views == items@.map_values(|i: Option<String>| opt_text(i)),
                    slot@ == SlotView::Array(views),
                    forall|j: int| 0 <= j < i ==> #[trigger] views[j] != Some(pattern@),
                decreases items.len() - i,
            {
                assert(views[i as int] == opt_text(items@[i as int]));
                if let Some(item) = &items[i] {
                    if same(item.as_str(), pattern) {
                        assert(views.contains(Some(pattern@)));
                        return Ok(PatternEdit::Keep);
                    }
                }
                i += 1;
            }
            Ok(PatternEdit::Push)
        },
    }
}

/// The text of a rule file with one more pattern, or why it cannot be added.
pub open spec fn appended(text: Seq<char>, pattern: Seq<char>) -> Result<Seq<char>, Seq<char>> {
    match slot_in(text, "rule"@, "match"@, "message_contains"@) {
        Err(e) => Err(e),
        Ok(slot) => match edit_for(slot, pattern) {
            Err(e) => Err(e),
            Ok(PatternEditView::Keep) => Ok(reprinted(text)),
            Ok(PatternEditView::Push) => Ok(
                pushed_in(reprinted(text), "rule"@, "match"@, "message_contains"@, pattern),
            ),
            Ok(PatternEditView::PairWith(existing)) => Ok(
                paired_in(
                    reprinted(text),
                    "rule"@,
                    "match"@,
                    "message_contains"@,
                    existing,
                    pattern,
                ),
            ),
            Ok(PatternEditView::Insert) => Ok(
                inserted_in(reprinted(text), "rule"@, "match"@, "message_contains"@, pattern),
            ),
        },
    }
}

/// The place of the patterns in a rule file.
pub open spec fn pattern_slot(text: Seq<char>) -> Result<SlotView, Seq<char>> {
    slot_in(text, "rule"@, "match"@, "message_contains"@)
}

/// Whether a rule is another one with one more text to look for in messages, unless
/// that looked for it already.
pub open spec fn has_pattern_more(before: RuleView, after: RuleView, pattern: Seq<char>) -> bool {
    if before.needles.contains(pattern) {
        after == before
    } else {
        &&& after.name == before.name
        &&& after.description == before.description
        &&& after.version == before.version
        &&& after.tag == before.tag
        &&& after.needles == before.needles.push(pattern)
        &&& entries_differ(before.match_fields)
        &&& entries_differ(after.match_fields)
        &&& entry(after.match_fields, "message_contains"@) is Some
        &&& forall|key: Seq<char>|
            key != "message_contains"@ ==> #[trigger] entry(after.match_fields, key) == entry(
                before.match_fields,
                key,
            )
    }
}

proof fn lemma_text_items(items: Seq<TomlView>, text: Seq<char>)
    ensures
        text_items(items).contains(text) == items.contains(TomlView::Text(text)),
    decreases items.len(),
{
    if items.len() > 0 {
        let before = items.drop_last();
        lemma_text_items(before, text);
        let found = text_items(before);
        assert(items =~= before.push(items.last()));
        if before.contains(TomlView::Text(text)) {
            let i = choose|i: int| 0 <= i < before.len() && before[i] == TomlView::Text(text);
            assert(items[i] == TomlView::Text(text));
        }
        if items.contains(TomlView::Text(text)) {
            let i = choose|i: int| 0 <= i < items.len() && items[i] == TomlView::Text(text);
            if i < before.len() {
                assert(before[i] == items[i]);
            }
        }
        if let TomlView::Text(s) = items.last() {
            let more = found.push(s);
            assert(more[found.len() as int] == s);
            if found.contains(text) {
                let i = choose|i: int| 0 <= i < found.len() && found[i] == text;
                assert(more[i] == text);
            }
            if more.contains(text) {
                let i = choose|i: int| 0 <= i < more.len() && more[i] == text;
                if i < found.len() {
                    assert(found[i] == text);
                }
            }
            assert(items[items.len() - 1] == items.last());
        }
    }
}

/// The pattern is there already if and only if the rule looks for it.
proof fn lemma_patterns_are_needles(slot: SlotView, value: Option<TomlView>, pattern: Seq<char>)
    requires
        readings_agree(slot, value),
        slot is Text || slot is Array || slot is Absent,
    ensures
        ({
            let needles = match value {
                Some(v) => substrings(v),
                None => seq![],
            };
            needles.contains(pattern) == (edit_for(slot, pattern) == Ok::<
                PatternEditView,
                Seq<char>,
            >(PatternEditView::Keep))
        }),
{
    match slot {
        SlotView::Text(s) => {
            assert(seq![s][0] == s);
        },
        SlotView::Array(items) => {
            let values = value->0->Array_0;
            lemma_text_items(values, pattern);
            if items.contains(Some(pattern)) {
                let i = choose|i: int| 0 <= i < items.len() && items[i] == Some(pattern);
                assert(item_text(values[i]) == Some(pattern));
                assert(values[i] == TomlView::Text(pattern));
            }
            if values.contains(TomlView::Text(pattern)) {
                let i = choose|i: int|
                    0 <= i < values.len() && values[i] == TomlView::Text(pattern);
                assert(items[i] == Some(pattern));
            }
        },
        _ => {},
    }
}

/// An edit of the patterns of a rule leaves the rest of it as it was.
proof fn lemma_edited_rule(before: TomlView, after: TomlView, value: TomlView, pattern: Seq<char>)
    requires
        is_edited(before, after, "rule"@, "match"@, "message_contains"@, value),
        rule_of(before) matches Ok(rule) && !rule.needles.contains(pattern) && substrings(value)
            == rule.needles.push(pattern),
    ensures
        rule_of(after) matches Ok(rule) && has_pattern_more(rule_of(before)->Ok_0, rule, pattern),
{
    reveal_strlit("name");
    reveal_strlit("description");
    reveal_strlit("version");
    reveal_strlit("match");
    reveal_strlit("tag");
    assert("match"@.len() == 5);
    assert("name"@.len() == 4);
    assert("description"@.len() == 11);
    assert("version"@.len() == 7);
    assert("tag"@.len() == 3);
    let b = before.get("rule"@)->0->Table_0;
    let a = after.get("rule"@)->0->Table_0;
    assert(entry(a, "name"@) == entry(b, "name"@));
    assert(entry(a, "description"@) == entry(b, "description"@));
    assert(entry(a, "version"@) == entry(b, "version"@));
    assert(entry(a, "tag"@) == entry(b, "tag"@));
}

/// A rule that looks for texts in messages matches with one more of them whatever it
/// matched before.
pub proof fn lemma_pattern_more_widens(
    before: RuleView,
    after: RuleView,
    pattern: Seq<char>,
    s: Subject,
)
    requires
        has_pattern_more(before, after, pattern),
        entry(before.match_fields, "message_contains"@) is Some,
        rule_matches(before, s),
    ensures
        rule_matches(after, s),
{
    if !before.needles.contains(pattern) {
        let old_fields = before.match_fields;
        let new_fields = after.match_fields;
        assert forall|i: int| 0 <= i < new_fields.len() implies condition_holds(
            (#[trigger] new_fields[i]).0,
            new_fields[i].1,
            after.needles,
            s,
        ) by {
            let key = new_fields[i].0;
            lemma_entry_at(new_fields, i);
            let j = lemma_entry_found(old_fields, key);
            assert(condition_holds(old_fields[j].0, old_fields[j].1, before.needles, s));
            if key == "message_contains"@ {
                lemma_more_needles(old_fields[j].1, new_fields[i].1, before.needles, pattern, s);
            }
        }
    }
}

proof fn lemma_more_needles(
    old_value: TomlView,
    new_value: TomlView,
    needles: Seq<Seq<char>>,
    pattern: Seq<char>,
    s: Subject,
)
    requires
        condition_holds("message_contains"@, old_value, needles, s),
    ensures
        condition_holds("message_contains"@, new_value, needles.push(pattern), s),
{
    reveal_strlit("message_contains");
    reveal_strlit("sourcetype");
    reveal_strlit("level");
    reveal_strlit("message");
    assert("message_contains"@.len() == 16);
    assert("sourcetype"@.len() == 10);
    assert("level"@.len() == 5);
    assert("message"@.len() == 7);
    let i = choose|i: int|
        0 <= i < needles.len() && occurs_in(s.message->0, #[trigger] needles[i]);
    assert(needles.push(pattern)[i] == needles[i]);
}

/// What an edit that adds a pattern puts in the place of a value.
pub open spec fn edited_value(value: Option<TomlView>, pattern: Seq<char>) -> TomlView {
    match value {
        Some(TomlView::Text(s)) => TomlView::Array(
            seq![TomlView::Text(s), TomlView::Text(pattern)],
        ),
        Some(TomlView::Array(items)) => TomlView::Array(items.push(TomlView::Text(pattern))),
        _ => TomlView::Array(seq![TomlView::Text(pattern)]),
    }
}

/// Each edit that adds a pattern makes a rule with that pattern more.
proof fn lemma_edit_adds(before: TomlView, after: TomlView, pattern: Seq<char>)
    requires
        ({
            let value = place(before, "rule"@, "match"@, "message_contains"@);
            &&& value matches Some(v) ==> v is Text || v is Array
            &&& is_edited(
                before,
                after,
                "rule"@,
                "match"@,
                "message_contains"@,
                edited_value(value, pattern),
            )
        }),
        rule_of(before) matches Ok(rule) && !rule.needles.contains(pattern),
    ensures
        rule_of(after) matches Ok(rule) && has_pattern_more(rule_of(before)->Ok_0, rule, pattern),
{
    let value = place(before, "rule"@, "match"@, "message_contains"@);
    let rule = rule_of(before)->Ok_0;
    match value {
        Some(TomlView::Text(s)) => {
            let items = seq![TomlView::Text(s), TomlView::Text(pattern)];
            reveal_with_fuel(text_items, 3);
            assert(items.drop_last() =~= seq![TomlView::Text(s)]);
            assert(items.drop_last().drop_last() =~= seq![]);
            assert(text_items(items) =~= rule.needles.push(pattern));
        },
        Some(TomlView::Array(items)) => {
            assert(items.push(TomlView::Text(pattern)).drop_last() =~= items);
        },
        _ => {
            let items = seq![TomlView::Text(pattern)];
            reveal_with_fuel(text_items, 2);
            assert(items.drop_last() =~= seq![]);
            assert(text_items(items) =~= rule.needles.push(pattern));
        },
    }
    lemma_edited_rule(before, after, edited_value(value, pattern), pattern);
}

/// Whether a document is another one with one more pattern, unless that is there, and
/// everything else as it was.
pub open spec fn only_patterns_change(
    before: TomlView,
    after: TomlView,
    pattern: Seq<char>,
) -> bool {
    let value = place(before, "rule"@, "match"@, "message_contains"@);
    let there = match value {
        Some(v) => substrings(v),
        None => seq![],
    };
    if there.contains(pattern) {
        after == before
    } else {
        is_edited(
            before,
            after,
            "rule"@,
            "match"@,
            "message_contains"@,
            edited_value(value, pattern),
        )
    }
}

/// A pattern that is there is not added again.
proof fn lemma_present_is_kept(slot: Result<SlotView, Seq<char>>, pattern: Seq<char>)
    requires
        patterns_in(slot).contains(Some(pattern)),
    ensures
        slot matches Ok(s) && edit_for(s, pattern) == Ok::<PatternEditView, Seq<char>>(
            PatternEditView::Keep,
        ),
{
    let patterns = patterns_in(slot);
    let i = choose|i: int| 0 <= i < patterns.len() && patterns[i] == Some(pattern);
    assert(patterns[i] == Some(pattern));
}

/// An edit of one of plain lines keeps the comments of all of them.
proof fn lemma_edit_keeps_notes(lines: Seq<PlainLine>, k: int, line: PlainLine)
    requires
        0 <= k < lines.len(),
        line.note() == lines[k].note(),
    ensures
        notes(lines.update(k, line)) == notes(lines),
{
    assert(notes(lines.update(k, line)) =~= notes(lines));
}

/// Adds a pattern to the patterns of a rule file, unless it is there already.
/// A single string becomes an array first. All patterns that were there are
/// kept, in their order, and none is added twice. The rule that the file holds
/// stays as it was but for the pattern, and so does everything else in the file; to
/// add the pattern again changes nothing. Every comment is kept that has a line for
/// itself or no quotation mark in it, unless a single string with a `#` in it becomes an
/// array. The text of the file as it is written again changes at one place.
pub fn append_message_contains_pattern(text: &str, pattern: &str) -> (r: Result<String, String>)
    ensures
        match r {
            Ok(s) => appended(text@, pattern@) == Ok::<Seq<char>, Seq<char>>(s@),
            Err(e) => appended(text@, pattern@) == Err::<Seq<char>, Seq<char>>(e@),
        },
        match r {
            Ok(s) => {
                let before = patterns_in(pattern_slot(text@));
                &&& patterns_in(pattern_slot(s@)) == (if before.contains(Some(pattern@)) {
                    before
                } else {
                    before.push(Some(pattern@))
                })
                &&& appended(s@, pattern@) == Ok::<Seq<char>, Seq<char>>(s@)
                &&& match pattern_slot(text@) {
                    Ok(SlotView::Text(existing)) => existing == pattern@ && s@ == reprinted(text@)
                        || is_string_replaced(reprinted(text@), s@),
                    _ => is_extended(reprinted(text@), s@),
                }
                &&& match pattern_slot(text@) {
                    Ok(SlotView::Text(existing)) => !existing.contains('#'),
                    _ => true,
                } ==> comments_kept(text@, s@)
            },
            Err(_) => true,
        },
        match (r, rule_of_text(text@)) {
            (Ok(s), Ok(before)) => {
                &&& rule_of_text(s@) matches Ok(after)
                &&& has_pattern_more(before, after, pattern@)
            },
            _ => true,
        },
        match (r, parsed_toml(text@)) {
            (Ok(s), Ok(before)) => has_table(before, "rule"@, "match"@) ==> {
                &&& parsed_toml(s@) matches Ok(after)
                &&& only_patterns_change(before, after, pattern@)
            },
            _ => true,
        },
        forall|lines: Seq<PlainLine>, k: int|
            #![trigger whole_text(lines), lines[k]]
            is_line_of(lines, k, text@, "rule"@, "match"@, "message_contains"@) && !(
            lines[k] is Integer) && is_simple_text(pattern@) ==> match r {
                Ok(s) => exists|more: Seq<PlainLine>|
                    s@ == #[trigger] whole_text(more) && notes(more) == notes(lines),
                Err(_) => pattern_slot(text@) is Err,
            },
        forall|lines: Seq<PlainLine>, k: int|
            #![trigger whole_text(lines), is_table_end(lines, k, "rule"@, "match"@)]
            text@ == whole_text(lines) && are_plain_lines(lines) && is_table_end(
                lines,
                k,
                "rule"@,
                "match"@,
            ) && pattern_slot(text@) == Ok::<SlotView, Seq<char>>(SlotView::Absent)
                && is_simple_text(pattern@) ==> match r {
                Ok(s) => s@ == whole_text(
                    lines.insert(k, new_list("message_contains"@, pattern@)),
                ),
                Err(_) => false,
            },
{
    let (outer, table, key) = ("rule", "match", "message_contains");
    let slot = match read_slot(text, outer, table, key) {
        Ok(slot) => slot,
        Err(e) => {
            return Err(e);
        },
    };
    proof {
        let before = patterns_in(pattern_slot(text@));
        match slot@ {
            SlotView::Text(existing) => {
                assert(before[0] == Some(existing));
                assert(seq![Some(existing), Some(pattern@)] =~= before.push(Some(pattern@)));
            },
            SlotView::Absent => {
                assert(seq![Some(pattern@)] =~= before.push(Some(pattern@)));
            },
            _ => {},
        }
        if let Ok(doc) = parsed_toml(text@) {
            if has_table(doc, outer@, table@) && (slot@ is Text || slot@ is Array
                || slot@ is Absent) {
                let value = place(doc, outer@, table@, key@);
                lemma_patterns_are_needles(slot@, value, pattern@);
            }
        }
    }
    let edit = match plan_pattern_edit(&slot, pattern) {
        Ok(edit) => edit,
        Err(e) => {
            return Err(e);
        },
    };
    let written = reprint(text, outer, table, key);
    let plain = written.as_str();
    let s = match edit {
        PatternEdit::Keep => written.clone(),
        PatternEdit::Push => push_string(plain, outer, table, key, pattern),
        PatternEdit::PairWith(existing) => replace_by_pair(
            plain,
            outer,
            table,
            key,
            existing.as_str(),
            pattern,
        ),
        PatternEdit::Insert => insert_single(plain, outer, table, key, pattern),
    };
    proof {
        let after = patterns_in(pattern_slot(s@));
        let before = patterns_in(pattern_slot(text@));
        reveal_strlit("message_contains");
        assert(is_bare_key("message_contains"@));
        if !before.contains(Some(pattern@)) {
            assert(after[before.len() as int] == Some(pattern@));
        }
        lemma_present_is_kept(pattern_slot(s@), pattern@);
        if let Ok(before) = rule_of_text(text@) {
            if !before.needles.contains(pattern@) {
                let doc = parsed_toml(text@)->Ok_0;
                lemma_edit_adds(doc, parsed_toml(s@)->Ok_0, pattern@);
            }
        }
        assert(written@ == (written@.take(0) + seq![]) + written@.skip(0));
        assert forall|lines: Seq<PlainLine>, k: int|
            #![trigger whole_text(lines), lines[k]]
            is_line_of(lines, k, text@, "rule"@, "match"@, "message_contains"@) && !(
            lines[k] is Integer) && is_simple_text(pattern@) implies exists|
            more: Seq<PlainLine>,
        | s@ == #[trigger] whole_text(more) && notes(more) == notes(lines) by {
            assert(lines[k].is_plain());
            if edit_for(slot@, pattern@) == Ok::<PatternEditView, Seq<char>>(
                PatternEditView::Keep,
            ) {
                assert(s@ == whole_text(lines));
            } else if lines[k] is Text {
                let line = as_pair(lines[k], lines[k]->Text_value, pattern@);
                lemma_edit_keeps_notes(lines, k, line);
                assert(s@ == whole_text(lines.update(k, line)));
            } else {
                let line = with_item(lines[k], pattern@);
                lemma_edit_keeps_notes(lines, k, line);
                assert(s@ == whole_text(lines.update(k, line)));
            }
        }
    }
    Ok(s)
}

} // verus!
