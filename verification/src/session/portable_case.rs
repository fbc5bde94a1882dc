//! Cases that are passed on: a session, or a part of one, packed into one file that
//! another can import as a session of its own.

use vstd::prelude::*;

use crate::digest::{sha256, FileHash};
use crate::model::opt_text;
use crate::paths::{file_name_of_path, path_file_name};
use crate::plain_toml::is_bare_key;
use crate::session::persist::{
    ActivityView, ImportedFrom, ImportedFromView, NewActivityLogEntry, SessionPaths,
};
use crate::stored::all_said;
use crate::tagging::pack_bundle::PEACH_VERSION;
use crate::text::{chars_of, dec, dec_u64, hex, same, str_views, texts};
use crate::time::{has_four_digit_year, iso_instant, iso_text, print_iso, read_iso, Timestamp};
use crate::toml_doc::{
    as_table, entries_differ, lemma_entry_at, lemma_no_entry, lemma_toml_entries,
    lemma_toml_items, list_as_table, may_text, missing_field, need_record, need_text,
    optional_text, parse_toml, parsed_toml, required_record, required_text, say_missing,
    say_wrong_type, toml_entries, toml_items, wrong_type, Toml, TomlView,
};
use crate::toml_write::{
    document_text, is_flat, is_low, is_scalar_table, lemma_document_is_itself, same_document,
    same_entry, same_table,
};

verus! {

/// The newest form of a case that is understood.
pub const PORTABLE_CASE_FORMAT_VERSION: u32 = 1;

/// What a case says of itself.
#[derive(Debug, PartialEq, Eq)]
pub struct PortableCaseManifest {
    pub format_version: u32,
    pub peach_version: String,
    pub exported_at: Timestamp,
    pub original_session_id: String,
    pub display_name: Option<String>,
    /// The search that the export was limited to; empty for all.
    pub filter_query: String,
    pub hashes: PortableCaseHashes,
    pub sources: Vec<PortableCaseSourceEntry>,
}

/// The digests of the two databases of a case.
#[derive(Debug, PartialEq, Eq)]
pub struct PortableCaseHashes {
    pub duckdb_sha256: String,
    pub sqlite_sha256: String,
}

/// What a case says of one of its sources.
#[derive(Debug, PartialEq, Eq)]
pub struct PortableCaseSourceEntry {
    pub source_file_id: String,
    pub original_path: String,
    pub sourcetype: String,
    /// Where in the case its configuration lies, if it has one that could be read.
    pub parser_config: Option<String>,
    /// Whether it has a configuration that could not be read.
    pub parser_config_missing: bool,
}

/// The view of [`PortableCaseManifest`].
#[verifier::ext_equal]
pub struct CaseView {
    pub format_version: u32,
    pub peach_version: Seq<char>,
    pub exported_at: Timestamp,
    pub original_session_id: Seq<char>,
    pub display_name: Option<Seq<char>>,
    pub filter_query: Seq<char>,
    pub duckdb_sha256: Seq<char>,
    pub sqlite_sha256: Seq<char>,
    pub sources: Seq<SourceView>,
}

/// The view of [`PortableCaseSourceEntry`].
#[verifier::ext_equal]
pub struct SourceView {
    pub source_file_id: Seq<char>,
    pub original_path: Seq<char>,
    pub sourcetype: Seq<char>,
    pub parser_config: Option<Seq<char>>,
    pub parser_config_missing: bool,
}

impl View for PortableCaseSourceEntry {
    type V = SourceView;

    open spec fn view(&self) -> SourceView {
        SourceView {
            source_file_id: self.source_file_id@,
            original_path: self.original_path@,
            sourcetype: self.sourcetype@,
            parser_config: opt_text(self.parser_config),
            parser_config_missing: self.parser_config_missing,
        }
    }
}

/// The views of a list of sources.
pub open spec fn sources_view(v: Seq<PortableCaseSourceEntry>) -> Seq<SourceView> {
    v.map_values(|s: PortableCaseSourceEntry| s@)
}

impl View for PortableCaseManifest {
    type V = CaseView;

    open spec fn view(&self) -> CaseView {
        CaseView {
            format_version: self.format_version,
            peach_version: self.peach_version@,
            exported_at: self.exported_at,
            original_session_id: self.original_session_id@,
            display_name: opt_text(self.display_name),
            filter_query: self.filter_query@,
            duckdb_sha256: self.hashes.duckdb_sha256@,
            sqlite_sha256: self.hashes.sqlite_sha256@,
            sources: sources_view(self.sources@),
        }
    }
}

/// The steps of an export.
#[derive(Clone, Copy, Debug, PartialEq, Eq, Structural)]
pub enum PortableCaseExportStage {
    CopyingTimeline,
    CopyingSessionData,
    CollectingParserConfigs,
    Hashing,
    Packaging,
}

/// What an export tells while it runs, and at its end.
#[derive(Debug)]
pub enum PortableCaseExportOutcome {
    Progress(PortableCaseExportStage),
    Done(Result<PortableCaseExportSummary, String>),
}

/// How much an export has written.
#[derive(Clone, Copy, Debug, PartialEq, Eq, Structural)]
pub struct PortableCaseExportSummary {
    pub entries_written: usize,
    pub tags_written: usize,
}

/// The steps of an import.
#[derive(Clone, Copy, Debug, PartialEq, Eq, Structural)]
pub enum PortableCaseImportStage {
    Extracting,
    VerifyingFormat,
    VerifyingIntegrity,
    RegisteringSession,
}

/// What an import tells while it runs, and at its end.
#[derive(Debug)]
pub enum PortableCaseImportOutcome {
    Progress(PortableCaseImportStage),
    Done(Result<SessionPaths, String>),
}

/// A text between the quotes of an SQL string: each quote stands twice.
pub open spec fn sql_quoted(s: Seq<char>) -> Seq<char>
    decreases s.len(),
{
    if s.len() == 0 {
        seq![]
    } else if s.last() == '\'' {
        sql_quoted(s.drop_last()) + seq!['\'', '\'']
    } else {
        sql_quoted(s.drop_last()).push(s.last())
    }
}

/// The text that stands between the quotes of an SQL string: of two quotes one
/// stays.
pub open spec fn sql_unquoted(s: Seq<char>) -> Seq<char>
    decreases s.len(),
{
    if s.len() == 0 {
        seq![]
    } else if s.last() == '\'' && s.len() >= 2 {
        sql_unquoted(s.take(s.len() - 2)).push('\'')
    } else {
        sql_unquoted(s.drop_last()).push(s.last())
    }
}

/// A quoted text stands for the text.
pub proof fn lemma_quoting_is_invertible(s: Seq<char>)
    ensures
        sql_unquoted(sql_quoted(s)) == s,
    decreases s.len(),
{
    if s.len() > 0 {
        lemma_quoting_is_invertible(s.drop_last());
        let q = sql_quoted(s);
        assert(s.drop_last().push(s.last()) =~= s);
        if s.last() == '\'' {
            assert(q.take(q.len() - 2) =~= sql_quoted(s.drop_last()));
        } else {
            assert(q.drop_last() =~= sql_quoted(s.drop_last()));
        }
    }
}

/// A path between the quotes of an SQL string.
pub fn sql_quote_path(path: &str) -> (r: String)
    ensures
        r@ == sql_quoted(path@),
{
    let v = chars_of(path);
    let mut r = String::new();
    let mut i: usize = 0;
    while i < v.len()
        invariant
            i <= v.len(),
            v@ == path@,
            r@ == sql_quoted(path@.take(i as int)),
        decreases v.len() - i,
    {
        let ghost before = r@;
        proof {
            assert(path@.take(i + 1).drop_last() == path@.take(i as int));
            assert(path@.take(i + 1).last() == path@[i as int]);
        }
        r.push(v[i]);
        if v[i] == '\'' {
            r.push('\'');
            assert(r@ =~= before + seq!['\'', '\'']);
        }
        i += 1;
    }
    assert(path@.take(i as int) == path@);
    r
}

/// The number of a field that is an unsigned 32-bit integer.
pub open spec fn version_in(v: TomlView, key: Seq<char>) -> Result<u32, Seq<char>> {
    match v.get(key) {
        Some(TomlView::Integer(n)) => if 0 <= n <= u32::MAX {
            Ok(n as u32)
        } else {
            Err(wrong_type(key, "an unsigned 32-bit integer"@))
        },
        Some(_) => Err(wrong_type(key, "an unsigned 32-bit integer"@)),
        None => Err(missing_field(key)),
    }
}

/// The truth of a field.
pub open spec fn flag_in(v: TomlView, key: Seq<char>) -> Result<bool, Seq<char>> {
    match v.get(key) {
        Some(TomlView::Bool(b)) => Ok(b),
        Some(_) => Err(wrong_type(key, "a boolean"@)),
        None => Err(missing_field(key)),
    }
}

/// The instant of a field.
pub open spec fn instant_in(v: TomlView, key: Seq<char>) -> Result<Timestamp, Seq<char>> {
    match required_text(v, key) {
        Ok(text) => iso_instant(text),
        Err(e) => Err(e),
    }
}

/// The fields of a source, in their order.
pub open spec fn source_fields() -> Seq<Seq<char>> {
    seq![
        "source_file_id"@,
        "original_path"@,
        "sourcetype"@,
        "parser_config"@,
        "parser_config_missing"@,
    ]
}

/// The source that a record holds, or why it holds none.
pub open spec fn source_of(item: TomlView) -> Result<SourceView, Seq<char>> {
    let v = as_table(item, source_fields(), 5, true);
    match (
        required_text(v, "source_file_id"@),
        required_text(v, "original_path"@),
        required_text(v, "sourcetype"@),
        optional_text(v, "parser_config"@),
        flag_in(v, "parser_config_missing"@),
    ) {
        (
            Ok(source_file_id),
            Ok(original_path),
            Ok(sourcetype),
            Ok(parser_config),
            Ok(parser_config_missing),
        ) => Ok(
            SourceView {
                source_file_id,
                original_path,
                sourcetype,
                parser_config,
                parser_config_missing,
            },
        ),
        (Err(e), _, _, _, _) => Err(e),
        (_, Err(e), _, _, _) => Err(e),
        (_, _, Err(e), _, _) => Err(e),
        (_, _, _, Err(e), _) => Err(e),
        (_, _, _, _, Err(e)) => Err(e),
    }
}

/// The sources of a list, or why one of them is none.
pub open spec fn sources_in(items: Seq<TomlView>) -> Result<Seq<SourceView>, Seq<char>>
    decreases items.len(),
{
    if items.len() == 0 {
        Ok(seq![])
    } else {
        match sources_in(items.drop_last()) {
            Err(e) => Err(e),
            Ok(before) => match source_of(items.last()) {
                Err(e) => Err(e),
                Ok(s) => Ok(before.push(s)),
            },
        }
    }
}

/// The sources of a document, or why it holds none.
pub open spec fn sources_of(v: TomlView) -> Result<Seq<SourceView>, Seq<char>> {
    match v.get("sources"@) {
        Some(TomlView::Array(items)) => sources_in(items),
        Some(_) => Err(wrong_type("sources"@, "an array"@)),
        None => Err(missing_field("sources"@)),
    }
}

/// The two digests of a document, or why it holds none.
pub open spec fn hashes_of(v: TomlView) -> Result<(Seq<char>, Seq<char>), Seq<char>> {
    match required_record(v, "hashes"@, seq!["duckdb_sha256"@, "sqlite_sha256"@], 2, true) {
        Err(e) => Err(e),
        Ok(entries) => {
            let hashes = TomlView::Table(entries);
            match (required_text(hashes, "duckdb_sha256"@), required_text(hashes, "sqlite_sha256"@)) {
                (Ok(duckdb), Ok(sqlite)) => Ok((duckdb, sqlite)),
                (Err(e), _) => Err(e),
                (_, Err(e)) => Err(e),
            }
        },
    }
}

/// What a document says of a case, or why it says nothing.
pub open spec fn case_of(v: TomlView) -> Result<CaseView, Seq<char>> {
    match (
        version_in(v, "format_version"@),
        required_text(v, "peach_version"@),
        instant_in(v, "exported_at"@),
        required_text(v, "original_session_id"@),
        optional_text(v, "display_name"@),
        required_text(v, "filter_query"@),
        hashes_of(v),
        sources_of(v),
    ) {
        (
            Ok(format_version),
            Ok(peach_version),
            Ok(exported_at),
            Ok(original_session_id),
            Ok(display_name),
            Ok(filter_query),
            Ok((duckdb_sha256, sqlite_sha256)),
            Ok(sources),
        ) => Ok(
            CaseView {
                format_version,
                peach_version,
                exported_at,
                original_session_id,
                display_name,
                filter_query,
                duckdb_sha256,
                sqlite_sha256,
                sources,
            },
        ),
        (Err(e), _, _, _, _, _, _, _) => Err(e),
        (_, Err(e), _, _, _, _, _, _) => Err(e),
        (_, _, Err(e), _, _, _, _, _) => Err(e),
        (_, _, _, Err(e), _, _, _, _) => Err(e),
        (_, _, _, _, Err(e), _, _, _) => Err(e),
        (_, _, _, _, _, Err(e), _, _) => Err(e),
        (_, _, _, _, _, _, Err(e), _) => Err(e),
        (_, _, _, _, _, _, _, Err(e)) => Err(e),
    }
}

/// What a text says of a case, or why it says nothing.
pub open spec fn case_of_text(text: Seq<char>) -> Result<CaseView, Seq<char>> {
    match parsed_toml(text) {
        Err(e) => Err(e),
        Ok(doc) => case_of(doc),
    }
}

/// The table that a source is written as.
pub open spec fn source_tree(s: SourceView) -> TomlView {
    let config = match s.parser_config {
        Some(name) => seq![("parser_config"@, TomlView::Text(name))],
        None => seq![],
    };
    TomlView::Table(
        seq![
            ("source_file_id"@, TomlView::Text(s.source_file_id)),
            ("original_path"@, TomlView::Text(s.original_path)),
            ("sourcetype"@, TomlView::Text(s.sourcetype)),
        ] + config + seq![("parser_config_missing"@, TomlView::Bool(s.parser_config_missing))],
    )
}

/// The tables that sources are written as.
pub open spec fn source_trees(all: Seq<SourceView>) -> Seq<TomlView> {
    all.map_values(|s: SourceView| source_tree(s))
}

/// The document that a case is written as, if its instant has a text.
pub open spec fn case_tree(c: CaseView) -> Option<TomlView> {
    match iso_text(c.exported_at.seconds, c.exported_at.nanos) {
        Some(time) => Some(timed_tree(c, time)),
        None => None,
    }
}

/// The document that a case is written as, with the text of its instant.
pub open spec fn timed_tree(c: CaseView, time: Seq<char>) -> TomlView {
    let name = match c.display_name {
        Some(name) => seq![("display_name"@, TomlView::Text(name))],
        None => seq![],
    };
    let hashes = seq![
        ("duckdb_sha256"@, TomlView::Text(c.duckdb_sha256)),
        ("sqlite_sha256"@, TomlView::Text(c.sqlite_sha256)),
    ];
    TomlView::Table(
        seq![
            ("format_version"@, TomlView::Integer(c.format_version as i64)),
            ("peach_version"@, TomlView::Text(c.peach_version)),
            ("exported_at"@, TomlView::Text(time)),
            ("original_session_id"@, TomlView::Text(c.original_session_id)),
        ] + name + seq![
            ("filter_query"@, TomlView::Text(c.filter_query)),
            ("hashes"@, TomlView::Table(hashes)),
            ("sources"@, TomlView::Array(source_trees(c.sources))),
        ],
    )
}

/// Whether a document is that of a case, but for the order of entries.
pub open spec fn is_case_document(doc: TomlView, c: CaseView) -> bool {
    case_tree(c) matches Some(tree) && same_document(doc, tree)
}

/// Whether a text is one that a case is written as.
pub open spec fn is_case_text(text: Seq<char>, c: CaseView) -> bool {
    parsed_toml(text) matches Ok(doc) && is_case_document(doc, c)
}

proof fn lemma_source_reads_back(s: SourceView)
    ensures
        source_of(source_tree(s)) == Ok::<SourceView, Seq<char>>(s),
{
    reveal_strlit("source_file_id");
    reveal_strlit("original_path");
    reveal_strlit("sourcetype");
    reveal_strlit("parser_config");
    reveal_strlit("parser_config_missing");
    assert("source_file_id"@.len() == 14);
    assert("original_path"@.len() == 13 && "original_path"@[0] == 'o');
    assert("sourcetype"@.len() == 10);
    assert("parser_config"@.len() == 13 && "parser_config"@[0] == 'p');
    assert("parser_config_missing"@.len() == 21);
    let entries = source_tree(s)->Table_0;
    assert(entries_differ(entries));
    lemma_entry_at(entries, 0);
    lemma_entry_at(entries, 1);
    lemma_entry_at(entries, 2);
    lemma_entry_at(entries, entries.len() - 1);
    match s.parser_config {
        Some(_) => {
            lemma_entry_at(entries, 3);
        },
        None => {
            lemma_no_entry(entries, "parser_config"@);
        },
    }
}

proof fn lemma_sources_read_back(all: Seq<SourceView>)
    ensures
        sources_in(source_trees(all)) == Ok::<Seq<SourceView>, Seq<char>>(all),
    decreases all.len(),
{
    if all.len() > 0 {
        lemma_sources_read_back(all.drop_last());
        lemma_source_reads_back(all.last());
        assert(source_trees(all).drop_last() =~= source_trees(all.drop_last()));
        assert(all.drop_last().push(all.last()) =~= all);
    } else {
        assert(source_trees(all) =~= seq![]);
        assert(all =~= seq![]);
    }
}

/// Whether a document has what a case is written as, but for the instant.
spec fn has_case_entries(v: TomlView, c: CaseView, time: Seq<char>) -> bool {
    &&& version_in(v, "format_version"@) == Ok::<u32, Seq<char>>(c.format_version)
    &&& required_text(v, "peach_version"@) == Ok::<Seq<char>, Seq<char>>(c.peach_version)
    &&& required_text(v, "exported_at"@) == Ok::<Seq<char>, Seq<char>>(time)
    &&& required_text(v, "original_session_id"@) == Ok::<Seq<char>, Seq<char>>(
        c.original_session_id,
    )
    &&& optional_text(v, "display_name"@) == Ok::<Option<Seq<char>>, Seq<char>>(c.display_name)
    &&& required_text(v, "filter_query"@) == Ok::<Seq<char>, Seq<char>>(c.filter_query)
    &&& hashes_of(v) == Ok::<(Seq<char>, Seq<char>), Seq<char>>((c.duckdb_sha256, c.sqlite_sha256))
    &&& sources_of(v) == Ok::<Seq<SourceView>, Seq<char>>(c.sources)
}

proof fn lemma_case_entries(c: CaseView, time: Seq<char>)
    ensures
        has_case_entries(timed_tree(c, time), c, time),
{
    reveal_strlit("format_version");
    reveal_strlit("peach_version");
    reveal_strlit("exported_at");
    reveal_strlit("original_session_id");
    reveal_strlit("display_name");
    reveal_strlit("filter_query");
    reveal_strlit("hashes");
    reveal_strlit("sources");
    reveal_strlit("duckdb_sha256");
    reveal_strlit("sqlite_sha256");
    assert("format_version"@.len() == 14);
    assert("peach_version"@.len() == 13);
    assert("exported_at"@.len() == 11);
    assert("original_session_id"@.len() == 19);
    assert("display_name"@.len() == 12 && "display_name"@[0] == 'd');
    assert("filter_query"@.len() == 12 && "filter_query"@[0] == 'f');
    assert("hashes"@.len() == 6);
    assert("sources"@.len() == 7);
    assert("duckdb_sha256"@[0] == 'd');
    assert("sqlite_sha256"@[0] == 's');
    let entries = timed_tree(c, time)->Table_0;
    let n = entries.len() as int;
    assert(entries_differ(entries));
    lemma_entry_at(entries, 0);
    lemma_entry_at(entries, 1);
    lemma_entry_at(entries, 2);
    lemma_entry_at(entries, 3);
    match c.display_name {
        Some(_) => {
            lemma_entry_at(entries, 4);
        },
        None => {
            lemma_no_entry(entries, "display_name"@);
        },
    }
    lemma_entry_at(entries, n - 3);
    lemma_entry_at(entries, n - 2);
    lemma_entry_at(entries, n - 1);
    let hashes = entries[n - 2].1->Table_0;
    assert(entries_differ(hashes));
    lemma_entry_at(hashes, 0);
    lemma_entry_at(hashes, 1);
    lemma_sources_read_back(c.sources);
}

proof fn lemma_same_sources(a: Seq<TomlView>, b: Seq<TomlView>)
    requires
        a.len() == b.len(),
        forall|i: int| 0 <= i < a.len() ==> same_table(#[trigger] a[i], b[i]),
    ensures
        sources_in(a) == sources_in(b),
    decreases a.len(),
{
    if a.len() > 0 {
        let x = a.last();
        let y = b.last();
        assert(same_table(a[a.len() - 1], b[b.len() - 1]));
        assert(x.get("source_file_id"@) == y.get("source_file_id"@));
        assert(x.get("original_path"@) == y.get("original_path"@));
        assert(x.get("sourcetype"@) == y.get("sourcetype"@));
        assert(x.get("parser_config"@) == y.get("parser_config"@));
        assert(x.get("parser_config_missing"@) == y.get("parser_config_missing"@));
        assert(source_of(x) == source_of(y));
        assert forall|i: int| 0 <= i < a.len() - 1 implies same_table(
            #[trigger] a.drop_last()[i],
            b.drop_last()[i],
        ) by {
            assert(same_table(a[i], b[i]));
        }
        lemma_same_sources(a.drop_last(), b.drop_last());
    }
}

/// The order of entries does not matter to a case.
proof fn lemma_case_document(v: TomlView, c: CaseView)
    requires
        is_case_document(v, c),
    ensures
        has_case_entries(v, c, iso_text(c.exported_at.seconds, c.exported_at.nanos)->0),
{
    let time = iso_text(c.exported_at.seconds, c.exported_at.nanos)->0;
    let tree = timed_tree(c, time);
    lemma_case_entries(c, time);
    assert(same_entry(v.get("format_version"@), tree.get("format_version"@)));
    assert(same_entry(v.get("peach_version"@), tree.get("peach_version"@)));
    assert(same_entry(v.get("exported_at"@), tree.get("exported_at"@)));
    assert(same_entry(v.get("original_session_id"@), tree.get("original_session_id"@)));
    assert(same_entry(v.get("display_name"@), tree.get("display_name"@)));
    assert(same_entry(v.get("filter_query"@), tree.get("filter_query"@)));
    assert(same_entry(v.get("hashes"@), tree.get("hashes"@)));
    assert(same_entry(v.get("sources"@), tree.get("sources"@)));
    let ours = v.get("hashes"@)->0;
    let theirs = tree.get("hashes"@)->0;
    assert(ours.get("duckdb_sha256"@) == theirs.get("duckdb_sha256"@));
    assert(ours.get("sqlite_sha256"@) == theirs.get("sqlite_sha256"@));
    assert(hashes_of(v) == hashes_of(tree));
    if v.get("sources"@) != tree.get("sources"@) {
        lemma_same_sources(v.get("sources"@)->0->Array_0, tree.get("sources"@)->0->Array_0);
    }
}

proof fn lemma_case_names_are_bare()
    ensures
        is_bare_key("format_version"@),
        is_bare_key("peach_version"@),
        is_bare_key("exported_at"@),
        is_bare_key("original_session_id"@),
        is_bare_key("display_name"@),
        is_bare_key("filter_query"@),
        is_bare_key("hashes"@),
        is_bare_key("sources"@),
        is_bare_key("duckdb_sha256"@),
        is_bare_key("sqlite_sha256"@),
        is_bare_key("source_file_id"@),
        is_bare_key("original_path"@),
        is_bare_key("sourcetype"@),
        is_bare_key("parser_config"@),
        is_bare_key("parser_config_missing"@),
{
    reveal_strlit("format_version");
    reveal_strlit("peach_version");
    reveal_strlit("exported_at");
    reveal_strlit("original_session_id");
    reveal_strlit("display_name");
    reveal_strlit("filter_query");
    reveal_strlit("hashes");
    reveal_strlit("sources");
    reveal_strlit("duckdb_sha256");
    reveal_strlit("sqlite_sha256");
    reveal_strlit("source_file_id");
    reveal_strlit("original_path");
    reveal_strlit("sourcetype");
    reveal_strlit("parser_config");
    reveal_strlit("parser_config_missing");
}

proof fn lemma_source_is_scalar_table(s: SourceView)
    ensures
        is_scalar_table(source_tree(s)),
{
    lemma_case_names_are_bare();
    lemma_source_reads_back(s);
    reveal_strlit("source_file_id");
    reveal_strlit("original_path");
    reveal_strlit("sourcetype");
    reveal_strlit("parser_config");
    reveal_strlit("parser_config_missing");
    assert("source_file_id"@.len() == 14);
    assert("original_path"@.len() == 13 && "original_path"@[0] == 'o');
    assert("sourcetype"@.len() == 10);
    assert("parser_config"@.len() == 13 && "parser_config"@[0] == 'p');
    assert("parser_config_missing"@.len() == 21);
    assert(entries_differ(source_tree(s)->Table_0));
}

/// A case is written as a document of two levels.
proof fn lemma_case_is_flat(c: CaseView, time: Seq<char>)
    ensures
        is_flat(timed_tree(c, time)),
{
    lemma_case_names_are_bare();
    reveal_strlit("format_version");
    reveal_strlit("peach_version");
    reveal_strlit("exported_at");
    reveal_strlit("original_session_id");
    reveal_strlit("display_name");
    reveal_strlit("filter_query");
    reveal_strlit("hashes");
    reveal_strlit("sources");
    reveal_strlit("duckdb_sha256");
    reveal_strlit("sqlite_sha256");
    assert("format_version"@.len() == 14);
    assert("peach_version"@.len() == 13);
    assert("exported_at"@.len() == 11);
    assert("original_session_id"@.len() == 19);
    assert("display_name"@.len() == 12 && "display_name"@[0] == 'd');
    assert("filter_query"@.len() == 12 && "filter_query"@[0] == 'f');
    assert("hashes"@.len() == 6);
    assert("sources"@.len() == 7);
    assert("duckdb_sha256"@[0] == 'd');
    assert("sqlite_sha256"@[0] == 's');
    let entries = timed_tree(c, time)->Table_0;
    let n = entries.len() as int;
    assert(entries_differ(entries));
    assert(entries_differ(entries[n - 2].1->Table_0));
    assert(is_low(entries[n - 2].1));
    let items = source_trees(c.sources);
    assert forall|i: int| 0 <= i < items.len() implies is_scalar_table(#[trigger] items[i]) by {
        lemma_source_is_scalar_table(c.sources[i]);
    }
    assert(is_low(entries[n - 1].1));
    assert forall|i: int| 0 <= i < n implies is_bare_key((#[trigger] entries[i]).0) && is_low(
        entries[i].1,
    ) by {}
}

fn need_version(v: &Toml, key: &str) -> (r: Result<u32, String>)
    ensures
        match r {
            Ok(n) => version_in(v@, key@) == Ok::<u32, Seq<char>>(n),
            Err(e) => version_in(v@, key@) == Err::<u32, Seq<char>>(e@),
        },
{
    match v.get(key) {
        Some(Toml::Integer(n)) => if 0 <= *n && *n <= u32::MAX as i64 {
            Ok(*n as u32)
        } else {
            Err(say_wrong_type(key, "an unsigned 32-bit integer"))
        },
        Some(_) => Err(say_wrong_type(key, "an unsigned 32-bit integer")),
        None => Err(say_missing(key)),
    }
}

fn need_flag(v: &Toml, key: &str) -> (r: Result<bool, String>)
    ensures
        match r {
            Ok(b) => flag_in(v@, key@) == Ok::<bool, Seq<char>>(b),
            Err(e) => flag_in(v@, key@) == Err::<bool, Seq<char>>(e@),
        },
{
    match v.get(key) {
        Some(Toml::Bool(b)) => Ok(*b),
        Some(_) => Err(say_wrong_type(key, "a boolean")),
        None => Err(say_missing(key)),
    }
}

fn need_instant(v: &Toml, key: &str) -> (r: Result<Timestamp, String>)
    ensures
        match r {
            Ok(t) => instant_in(v@, key@) == Ok::<Timestamp, Seq<char>>(t),
            Err(e) => instant_in(v@, key@) == Err::<Timestamp, Seq<char>>(e@),
        },
        forall|t: Timestamp|
            (required_text(v@, key@) matches Ok(text) && #[trigger] iso_text(t.seconds, t.nanos)
                == Some(text) && has_four_digit_year(t)) ==> (r matches Ok(got) && got == t),
{
    match need_text(v, key) {
        Ok(text) => read_iso(text.as_str()),
        Err(e) => Err(e),
    }
}

fn read_source(v: &Toml) -> (r: Result<PortableCaseSourceEntry, String>)
    ensures
        match r {
            Ok(s) => source_of(v@) == Ok::<SourceView, Seq<char>>(s@),
            Err(e) => source_of(v@) == Err::<SourceView, Seq<char>>(e@),
        },
{
    let fields: [&'static str; 5] = [
        "source_file_id",
        "original_path",
        "sourcetype",
        "parser_config",
        "parser_config_missing",
    ];
    assert(str_views(fields@) =~= source_fields());
    let listed = list_as_table(v, &fields, 5, true);
    let v = match &listed {
        Some(table) => table,
        None => v,
    };
    let source_file_id = match need_text(v, "source_file_id") {
        Ok(x) => x,
        Err(e) => {
            return Err(e);
        },
    };
    let original_path = match need_text(v, "original_path") {
        Ok(x) => x,
        Err(e) => {
            return Err(e);
        },
    };
    let sourcetype = match need_text(v, "sourcetype") {
        Ok(x) => x,
        Err(e) => {
            return Err(e);
        },
    };
    let parser_config = match may_text(v, "parser_config") {
        Ok(x) => x,
        Err(e) => {
            return Err(e);
        },
    };
    match need_flag(v, "parser_config_missing") {
        Ok(parser_config_missing) => Ok(
            PortableCaseSourceEntry {
                source_file_id,
                original_path,
                sourcetype,
                parser_config,
                parser_config_missing,
            },
        ),
        Err(e) => Err(e),
    }
}

proof fn lemma_sources_fail(items: Seq<TomlView>, n: int)
    requires
        0 <= n <= items.len(),
        sources_in(items.take(n)) is Err,
    ensures
        sources_in(items) == sources_in(items.take(n)),
    decreases items.len(),
{
    if n < items.len() {
        assert(items.drop_last().take(n) == items.take(n));
        lemma_sources_fail(items.drop_last(), n);
    } else {
        assert(items.take(n) == items);
    }
}

fn read_sources(v: &Toml) -> (r: Result<Vec<PortableCaseSourceEntry>, String>)
    ensures
        match r {
            Ok(s) => sources_of(v@) == Ok::<Seq<SourceView>, Seq<char>>(sources_view(s@)),
            Err(e) => sources_of(v@) == Err::<Seq<SourceView>, Seq<char>>(e@),
        },
{
    let items = match v.get("sources") {
        Some(Toml::Array(items)) => items,
        Some(_) => {
            return Err(say_wrong_type("sources", "an array"));
        },
        None => {
            return Err(say_missing("sources"));
        },
    };
    let ghost all = toml_items(items@);
    let mut r: Vec<PortableCaseSourceEntry> = Vec::new();
    let mut i: usize = 0;
    assert(sources_view(r@) =~= seq![]);
    while i < items.len()
        invariant
            i <= items.len(),
            all == toml_items(items@),
            sources_of(v@) == sources_in(all),
            sources_in(all.take(i as int)) == Ok::<Seq<SourceView>, Seq<char>>(sources_view(r@)),
        decreases items.len() - i,
    {
        let ghost before = r@;
        proof {
            lemma_toml_items(items@);
            let next = all.take(i + 1);
            assert(next.drop_last() == all.take(i as int));
            assert(next.last() == items@[i as int]@);
        }
        match read_source(&items[i]) {
            Ok(s) => {
                let ghost sv = s@;
                r.push(s);
                assert(sources_view(r@) =~= sources_view(before).push(sv));
            },
            Err(e) => {
                proof {
                    lemma_sources_fail(all, i + 1);
                }
                return Err(e);
            },
        }
        i += 1;
    }
    assert(all.take(i as int) == all);
    Ok(r)
}

fn read_hashes(v: &Toml) -> (r: Result<PortableCaseHashes, String>)
    ensures
        match r {
            Ok(h) => hashes_of(v@) == Ok::<(Seq<char>, Seq<char>), Seq<char>>(
                (h.duckdb_sha256@, h.sqlite_sha256@),
            ),
            Err(e) => hashes_of(v@) == Err::<(Seq<char>, Seq<char>), Seq<char>>(e@),
        },
{
    let fields: [&'static str; 2] = ["duckdb_sha256", "sqlite_sha256"];
    assert(str_views(fields@) =~= seq!["duckdb_sha256"@, "sqlite_sha256"@]);
    let hashes = match need_record(v, "hashes", &fields, 2, true) {
        Ok(x) => x,
        Err(e) => {
            return Err(e);
        },
    };
    let hashes = &hashes;
    let duckdb_sha256 = match need_text(hashes, "duckdb_sha256") {
        Ok(x) => x,
        Err(e) => {
            return Err(e);
        },
    };
    match need_text(hashes, "sqlite_sha256") {
        Ok(sqlite_sha256) => Ok(PortableCaseHashes { duckdb_sha256, sqlite_sha256 }),
        Err(e) => Err(e),
    }
}

/// What a document says of a case, or why it says nothing. What was written is read
/// back, in whatever order its entries are, for instants of the years 0 to 9999.
pub fn case_from_document(v: &Toml) -> (r: Result<PortableCaseManifest, String>)
    ensures
        match r {
            Ok(m) => case_of(v@) == Ok::<CaseView, Seq<char>>(m@),
            Err(e) => case_of(v@) == Err::<CaseView, Seq<char>>(e@),
        },
        forall|c: CaseView|
            (#[trigger] is_case_document(v@, c) && has_four_digit_year(c.exported_at)) ==> (
            r matches Ok(m) && m@ == c),
{
    proof {
        assert forall|c: CaseView| #[trigger] is_case_document(v@, c) implies has_case_entries(
            v@,
            c,
            iso_text(c.exported_at.seconds, c.exported_at.nanos)->0,
        ) by {
            lemma_case_document(v@, c);
        }
    }
    let format_version: u32 = match need_version(v, "format_version") {
        Ok(x) => x,
        Err(e) => {
            return Err(e);
        },
    };
    let peach_version = match need_text(v, "peach_version") {
        Ok(x) => x,
        Err(e) => {
            return Err(e);
        },
    };
    let exported_at = match need_instant(v, "exported_at") {
        Ok(x) => x,
        Err(e) => {
            return Err(e);
        },
    };
    let original_session_id = match need_text(v, "original_session_id") {
        Ok(x) => x,
        Err(e) => {
            return Err(e);
        },
    };
    let display_name = match may_text(v, "display_name") {
        Ok(x) => x,
        Err(e) => {
            return Err(e);
        },
    };
    let filter_query = match need_text(v, "filter_query") {
        Ok(x) => x,
        Err(e) => {
            return Err(e);
        },
    };
    let hashes = match read_hashes(v) {
        Ok(x) => x,
        Err(e) => {
            return Err(e);
        },
    };
    match read_sources(v) {
        Ok(sources) => Ok(
            PortableCaseManifest {
                format_version,
                peach_version,
                exported_at,
                original_session_id,
                display_name,
                filter_query,
                hashes,
                sources,
            },
        ),
        Err(e) => Err(e),
    }
}

/// What a text says of a case, or why it says nothing. The text that a case was written
/// as says that case, for instants of the years 0 to 9999.
pub fn parse_case_manifest(text: &str) -> (r: Result<PortableCaseManifest, String>)
    ensures
        match r {
            Ok(m) => case_of_text(text@) == Ok::<CaseView, Seq<char>>(m@),
            Err(e) => case_of_text(text@) == Err::<CaseView, Seq<char>>(e@),
        },
        forall|c: CaseView|
            (#[trigger] is_case_text(text@, c) && has_four_digit_year(c.exported_at)) ==> (
            r matches Ok(m) && m@ == c),
{
    match parse_toml(text) {
        Ok(doc) => {
            let case = case_from_document(&doc);
            assert forall|c: CaseView| #[trigger] is_case_text(text@, c) implies is_case_document(
                doc@,
                c,
            ) by {}
            case
        },
        Err(e) => Err(e),
    }
}

/// A database of a case as it was found.
#[derive(Debug)]
pub enum CaseFile {
    Missing,
    /// It cannot be read, for this reason.
    Unreadable(String),
    /// It can be read, and this has been read of it.
    Present(FileHash),
}

/// Whether a case of this form is understood, or why not.
pub open spec fn format_problem(format_version: u32) -> Option<Seq<char>> {
    if format_version <= PORTABLE_CASE_FORMAT_VERSION {
        None
    } else {
        Some(
            "this portable case was exported by a newer version of Peach (format version "@ + dec(
                format_version as nat,
            ) + ", this Peach understands up to "@ + dec(PORTABLE_CASE_FORMAT_VERSION as nat)
                + ") — update Peach to import it"@,
        )
    }
}

/// What is wrong with the databases of a case, if anything is: the first thing
/// in the order in which they are looked at.
pub open spec fn files_problem(case: CaseView, duckdb: CaseFile, sqlite: CaseFile) -> Option<
    Seq<char>,
> {
    if duckdb is Missing {
        Some("not a valid Peach portable case: case.duckdb is missing from the bundle"@)
    } else if sqlite is Missing {
        Some("not a valid Peach portable case: case.sqlite is missing from the bundle"@)
    } else {
        match hash_problem("case.duckdb"@, case.duckdb_sha256, duckdb) {
            Some(e) => Some(e),
            None => hash_problem("case.sqlite"@, case.sqlite_sha256, sqlite),
        }
    }
}

/// What is wrong with a database that is there.
pub open spec fn hash_problem(name: Seq<char>, want: Seq<char>, file: CaseFile) -> Option<Seq<char>> {
    match file {
        CaseFile::Missing => None,
        CaseFile::Unreadable(e) => Some(e@),
        CaseFile::Present(hash) => if hex(sha256(hash@)) == want {
            None
        } else {
            Some(
                "portable case failed integrity verification: "@ + name
                    + "'s hash doesn't match the manifest (the bundle may be corrupted or was modified after export)"@,
            )
        },
    }
}

/// What a case says of itself, or why it is not understood. Its databases are not
/// looked at.
pub open spec fn understood_case(manifest: Result<Seq<char>, Seq<char>>) -> Result<
    CaseView,
    Seq<char>,
> {
    match manifest {
        Err(e) => Err(
            "not a valid Peach portable case: no manifest.toml found in the bundle: "@ + e,
        ),
        Ok(text) => match case_of_text(text) {
            Err(e) => Err(
                "not a valid Peach portable case: manifest.toml could not be parsed: "@ + e,
            ),
            Ok(case) => match format_problem(case.format_version) {
                Some(e) => Err(e),
                None => Ok(case),
            },
        },
    }
}

/// What a case that may be imported says of itself, or why it may not be.
pub open spec fn importable_case(
    manifest: Result<Seq<char>, Seq<char>>,
    duckdb: CaseFile,
    sqlite: CaseFile,
) -> Result<CaseView, Seq<char>> {
    match understood_case(manifest) {
        Err(e) => Err(e),
        Ok(case) => match files_problem(case, duckdb, sqlite) {
            Some(e) => Err(e),
            None => Ok(case),
        },
    }
}

/// The view of a text or of the reason why it cannot be read.
pub open spec fn read_view(r: Result<String, String>) -> Result<Seq<char>, Seq<char>> {
    match r {
        Ok(s) => Ok(s@),
        Err(e) => Err(e@),
    }
}

fn check_hash(name: &str, want: &str, file: CaseFile) -> (r: Option<String>)
    ensures
        opt_text(r) == hash_problem(name@, want@, file),
{
    match file {
        CaseFile::Missing => None,
        CaseFile::Unreadable(e) => Some(e),
        CaseFile::Present(hash) => if same(hash.finish().as_str(), want) {
            None
        } else {
            let mut e = "portable case failed integrity verification: ".to_owned();
            e.append(name);
            e.append(
                "'s hash doesn't match the manifest (the bundle may be corrupted or was modified after export)",
            );
            Some(e)
        },
    }
}

/// Whether a case of this form is understood, or why not.
pub fn check_format(format_version: u32) -> (r: Option<String>)
    ensures
        opt_text(r) == format_problem(format_version),
{
    if format_version <= PORTABLE_CASE_FORMAT_VERSION {
        None
    } else {
        let mut e = "this portable case was exported by a newer version of Peach (format version ".to_owned();
        e.append(dec_u64(format_version as u64).as_str());
        e.append(", this Peach understands up to ");
        e.append(dec_u64(PORTABLE_CASE_FORMAT_VERSION as u64).as_str());
        e.append(") — update Peach to import it");
        Some(e)
    }
}

/// What is wrong with the databases of a case, if anything is.
pub fn check_files(manifest: &PortableCaseManifest, duckdb: CaseFile, sqlite: CaseFile) -> (r:
    Option<String>)
    ensures
        opt_text(r) == files_problem(manifest@, duckdb, sqlite),
{
    if matches!(duckdb, CaseFile::Missing) {
        return Some(
            "not a valid Peach portable case: case.duckdb is missing from the bundle".to_owned(),
        );
    }
    if matches!(sqlite, CaseFile::Missing) {
        return Some(
            "not a valid Peach portable case: case.sqlite is missing from the bundle".to_owned(),
        );
    }
    match check_hash("case.duckdb", manifest.hashes.duckdb_sha256.as_str(), duckdb) {
        Some(e) => Some(e),
        None => check_hash("case.sqlite", manifest.hashes.sqlite_sha256.as_str(), sqlite),
    }
}

/// Whether what is found as the text of a case is one that a case of a form that is
/// understood was written as, at an instant of the years 0 to 9999.
pub open spec fn is_own_case(manifest: Result<Seq<char>, Seq<char>>, c: CaseView) -> bool {
    &&& manifest matches Ok(text) && is_case_text(text, c)
    &&& c.format_version <= PORTABLE_CASE_FORMAT_VERSION
    &&& has_four_digit_year(c.exported_at)
}

/// What a case says of itself, or why it is not understood. A case that was written is.
pub fn open_case(manifest: Result<String, String>) -> (r: Result<PortableCaseManifest, String>)
    ensures
        match r {
            Ok(m) => understood_case(read_view(manifest)) == Ok::<CaseView, Seq<char>>(m@),
            Err(e) => understood_case(read_view(manifest)) == Err::<CaseView, Seq<char>>(e@),
        },
        forall|c: CaseView| #[trigger]
            is_own_case(read_view(manifest), c) ==> (r matches Ok(m) && m@ == c),
{
    let text = match manifest {
        Ok(text) => text,
        Err(reason) => {
            let mut e = "not a valid Peach portable case: no manifest.toml found in the bundle: ".to_owned();
            e.append(reason.as_str());
            return Err(e);
        },
    };
    let case = match parse_case_manifest(text.as_str()) {
        Ok(case) => case,
        Err(reason) => {
            let mut e = "not a valid Peach portable case: manifest.toml could not be parsed: ".to_owned();
            e.append(reason.as_str());
            return Err(e);
        },
    };
    match check_format(case.format_version) {
        Some(e) => Err(e),
        None => Ok(case),
    }
}

/// What a case that may be imported says of itself, or why it may not be. A case that
/// was written may be, where its databases are as they were then.
pub fn import_portable_case(
    manifest: Result<String, String>,
    duckdb: CaseFile,
    sqlite: CaseFile,
) -> (r: Result<PortableCaseManifest, String>)
    ensures
        match r {
            Ok(m) => importable_case(read_view(manifest), duckdb, sqlite) == Ok::<
                CaseView,
                Seq<char>,
            >(m@),
            Err(e) => importable_case(read_view(manifest), duckdb, sqlite) == Err::<
                CaseView,
                Seq<char>,
            >(e@),
        },
        forall|c: CaseView| #[trigger]
            is_own_case(read_view(manifest), c) && (duckdb matches CaseFile::Present(hash) && hex(
                sha256(hash@),
            ) == c.duckdb_sha256) && (sqlite matches CaseFile::Present(hash) && hex(sha256(hash@))
                == c.sqlite_sha256) ==> (r matches Ok(m) && m@ == c),
{
    match open_case(manifest) {
        Ok(case) => match check_files(&case, duckdb, sqlite) {
            Some(e) => Err(e),
            None => Ok(case),
        },
        Err(e) => Err(e),
    }
}

/// A case that is imported is of a form that is understood, and both databases are
/// there with the digests that it says.
pub proof fn lemma_imported_case_is_intact(
    manifest: Result<Seq<char>, Seq<char>>,
    duckdb: CaseFile,
    sqlite: CaseFile,
)
    requires
        importable_case(manifest, duckdb, sqlite) is Ok,
    ensures
        ({
            let case = importable_case(manifest, duckdb, sqlite)->Ok_0;
            &&& case.format_version <= PORTABLE_CASE_FORMAT_VERSION
            &&& duckdb matches CaseFile::Present(hash) && hex(sha256(hash@)) == case.duckdb_sha256
            &&& sqlite matches CaseFile::Present(hash) && hex(sha256(hash@)) == case.sqlite_sha256
        }),
{
}

/// A source of a session.
#[derive(Debug)]
pub struct SourceRow {
    pub source_file_id: String,
    pub path: String,
    pub sourcetype: String,
    pub parser_config: Option<String>,
}

/// The name under which the configuration of a source is put into a case, if it
/// has one that can be read.
pub open spec fn bundled_name(row: SourceRow, readable: bool) -> Option<Seq<char>> {
    match row.parser_config {
        None => None,
        Some(path) => match path_file_name(path@) {
            Some(name) => if readable {
                Some(row.source_file_id@ + "-"@ + name)
            } else {
                None
            },
            None => None,
        },
    }
}

/// What a case says of a source.
pub open spec fn source_entry(row: SourceRow, readable: bool) -> SourceView {
    SourceView {
        source_file_id: row.source_file_id@,
        original_path: row.path@,
        sourcetype: row.sourcetype@,
        parser_config: match bundled_name(row, readable) {
            Some(name) => Some("parser_configs/"@ + name),
            None => None,
        },
        parser_config_missing: row.parser_config is Some && bundled_name(row, readable) is None,
    }
}

/// A configuration is never dropped without a word: of a source that has one, the
/// case either holds it or says that it is missing.
pub proof fn lemma_config_is_kept_or_missed(row: SourceRow, readable: bool)
    ensures
        ({
            let entry = source_entry(row, readable);
            &&& row.parser_config is Some ==> (entry.parser_config is Some
                <==> !entry.parser_config_missing)
            &&& row.parser_config is None ==> entry.parser_config is None
                && !entry.parser_config_missing
        }),
{
}

/// The name under which the configuration of a source is put into a case.
pub fn bundled_config_name(row: &SourceRow, readable: bool) -> (r: Option<String>)
    ensures
        opt_text(r) == bundled_name(*row, readable),
{
    match &row.parser_config {
        None => None,
        Some(path) => match file_name_of_path(path.as_str()) {
            Some(name) => if readable {
                let mut s = row.source_file_id.clone();
                s.append("-");
                s.append(name.as_str());
                Some(s)
            } else {
                None
            },
            None => None,
        },
    }
}

/// What a case says of its sources. For each source is given whether its
/// configuration is a file that can be read.
pub fn collect_parser_configs(sources: &Vec<SourceRow>, readable: &Vec<bool>) -> (r: Vec<
    PortableCaseSourceEntry,
>)
    requires
        sources.len() == readable.len(),
    ensures
        r.len() == sources.len(),
        forall|i: int|
            0 <= i < r.len() ==> (#[trigger] r@[i])@ == source_entry(sources@[i], readable@[i]),
{
    let mut r: Vec<PortableCaseSourceEntry> = Vec::new();
    let mut i: usize = 0;
    while i < sources.len()
        invariant
            i <= sources.len(),
            sources.len() == readable.len(),
            r.len() == i,
            forall|j: int|
                0 <= j < i ==> (#[trigger] r@[j])@ == source_entry(sources@[j], readable@[j]),
        decreases sources.len() - i,
    {
        let row = &sources[i];
        let (parser_config, parser_config_missing) = match bundled_config_name(row, readable[i]) {
            Some(name) => {
                let mut s = "parser_configs/".to_owned();
                s.append(name.as_str());
                (Some(s), false)
            },
            None => (None, row.parser_config.is_some()),
        };
        r.push(
            PortableCaseSourceEntry {
                source_file_id: row.source_file_id.clone(),
                original_path: row.path.clone(),
                sourcetype: row.sourcetype.clone(),
                parser_config,
                parser_config_missing,
            },
        );
        i += 1;
    }
    r
}

/// What a case that is exported says of itself: among others, the digests of its
/// databases.
pub fn export_manifest(
    exported_at: Timestamp,
    original_session_id: &str,
    display_name: Option<String>,
    filter_query: &str,
    duckdb: FileHash,
    sqlite: FileHash,
    sources: Vec<PortableCaseSourceEntry>,
) -> (r: PortableCaseManifest)
    ensures
        r@ == (CaseView {
            format_version: PORTABLE_CASE_FORMAT_VERSION,
            peach_version: PEACH_VERSION@,
            exported_at,
            original_session_id: original_session_id@,
            display_name: opt_text(display_name),
            filter_query: filter_query@,
            duckdb_sha256: hex(sha256(duckdb@)),
            sqlite_sha256: hex(sha256(sqlite@)),
            sources: sources_view(sources@),
        }),
{
    PortableCaseManifest {
        format_version: PORTABLE_CASE_FORMAT_VERSION,
        peach_version: PEACH_VERSION.to_owned(),
        exported_at,
        original_session_id: original_session_id.to_owned(),
        display_name,
        filter_query: filter_query.to_owned(),
        hashes: PortableCaseHashes {
            duckdb_sha256: duckdb.finish(),
            sqlite_sha256: sqlite.finish(),
        },
        sources,
    }
}

fn text_entry(key: &str, value: &str) -> (r: (String, Toml))
    ensures
        r.0@ == key@,
        r.1@ == TomlView::Text(value@),
{
    (key.to_owned(), Toml::Text(value.to_owned()))
}

fn source_table(s: &PortableCaseSourceEntry) -> (r: Toml)
    ensures
        r@ == source_tree(s@),
{
    let mut entries: Vec<(String, Toml)> = Vec::new();
    entries.push(text_entry("source_file_id", s.source_file_id.as_str()));
    entries.push(text_entry("original_path", s.original_path.as_str()));
    entries.push(text_entry("sourcetype", s.sourcetype.as_str()));
    match &s.parser_config {
        Some(name) => {
            entries.push(text_entry("parser_config", name.as_str()));
        },
        None => {},
    }
    entries.push(("parser_config_missing".to_owned(), Toml::Bool(s.parser_config_missing)));
    proof {
        lemma_toml_entries(entries@);
        assert(toml_entries(entries@) =~= source_tree(s@)->Table_0);
    }
    Toml::Table(entries)
}

fn source_tables(all: &Vec<PortableCaseSourceEntry>) -> (r: Vec<Toml>)
    ensures
        toml_items(r@) == source_trees(sources_view(all@)),
{
    let mut r: Vec<Toml> = Vec::new();
    let mut i: usize = 0;
    while i < all.len()
        invariant
            i <= all.len(),
            r.len() == i,
            forall|j: int| 0 <= j < i ==> (#[trigger] r@[j])@ == source_tree(all@[j]@),
        decreases all.len() - i,
    {
        r.push(source_table(&all[i]));
        i += 1;
    }
    proof {
        lemma_toml_items(r@);
        assert(toml_items(r@) =~= source_trees(sources_view(all@)));
    }
    r
}

/// The document that a case is written as, if its instant has a text.
pub fn case_document(case: &PortableCaseManifest) -> (r: Option<Toml>)
    ensures
        match r {
            Some(doc) => case_tree(case@) == Some(doc@) && is_case_document(doc@, case@),
            None => case_tree(case@) is None,
        },
{
    let time = match print_iso(case.exported_at.seconds, case.exported_at.nanos) {
        Some(time) => time,
        None => {
            return None;
        },
    };
    let mut hashes: Vec<(String, Toml)> = Vec::new();
    hashes.push(text_entry("duckdb_sha256", case.hashes.duckdb_sha256.as_str()));
    hashes.push(text_entry("sqlite_sha256", case.hashes.sqlite_sha256.as_str()));
    let mut entries: Vec<(String, Toml)> = Vec::new();
    entries.push(("format_version".to_owned(), Toml::Integer(case.format_version as i64)));
    entries.push(text_entry("peach_version", case.peach_version.as_str()));
    entries.push(text_entry("exported_at", time.as_str()));
    entries.push(text_entry("original_session_id", case.original_session_id.as_str()));
    match &case.display_name {
        Some(name) => {
            entries.push(text_entry("display_name", name.as_str()));
        },
        None => {},
    }
    entries.push(text_entry("filter_query", case.filter_query.as_str()));
    let ghost written = hashes@;
    entries.push(("hashes".to_owned(), Toml::Table(hashes)));
    entries.push(("sources".to_owned(), Toml::Array(source_tables(&case.sources))));
    proof {
        let tree = timed_tree(case@, time@);
        let n = tree->Table_0.len() as int;
        lemma_toml_entries(written);
        lemma_toml_entries(entries@);
        assert(toml_entries(written) =~= tree->Table_0[n - 2].1->Table_0);
        assert(toml_entries(entries@) =~= tree->Table_0);
        lemma_document_is_itself(tree);
    }
    Some(Toml::Table(entries))
}

/// The text that a case is written as, if its instant has a text. Read again, it says
/// the case.
pub fn case_text(case: &PortableCaseManifest) -> (r: Option<String>)
    ensures
        match r {
            Some(text) => is_case_text(text@, case@),
            None => case_tree(case@) is None,
        },
{
    match case_document(case) {
        Some(doc) => {
            proof {
                lemma_case_is_flat(
                    case@,
                    iso_text(case@.exported_at.seconds, case@.exported_at.nanos)->0,
                );
            }
            Some(document_text(&doc))
        },
        None => None,
    }
}

/// A case of a form that is understood is imported where its databases are as they
/// were when it was written.
pub proof fn lemma_intact_case_is_imported(
    text: Seq<char>,
    case: CaseView,
    duckdb: CaseFile,
    sqlite: CaseFile,
)
    requires
        case_of_text(text) == Ok::<CaseView, Seq<char>>(case),
        case.format_version <= PORTABLE_CASE_FORMAT_VERSION,
        duckdb matches CaseFile::Present(hash) && hex(sha256(hash@)) == case.duckdb_sha256,
        sqlite matches CaseFile::Present(hash) && hex(sha256(hash@)) == case.sqlite_sha256,
    ensures
        importable_case(Ok(text), duckdb, sqlite) == Ok::<CaseView, Seq<char>>(case),
{
}

/// A file of a case, by its name in it.
#[derive(Debug, PartialEq, Eq)]
pub struct BundleFile {
    pub name: String,
    /// Whether it is stored as it is: the databases are dense, and compressing them
    /// would cost much time for little.
    pub stored: bool,
}

/// The view of [`BundleFile`].
pub open spec fn bundle_view(v: Seq<BundleFile>) -> Seq<(Seq<char>, bool)> {
    v.map_values(|f: BundleFile| (f.name@, f.stored))
}

/// The files of a case with these configurations, in their order.
pub open spec fn bundle_of(configs: Seq<Seq<char>>) -> Seq<(Seq<char>, bool)> {
    seq![("manifest.toml"@, false), ("case.duckdb"@, true), ("case.sqlite"@, true)]
        + configs.map_values(|c: Seq<char>| ("parser_configs/"@ + c, false))
}

/// The files of a case with these configurations, in their order.
pub fn bundle_files(configs: &Vec<String>) -> (r: Vec<BundleFile>)
    ensures
        bundle_view(r@) == bundle_of(texts(configs@)),
{
    let mut r: Vec<BundleFile> = Vec::new();
    r.push(BundleFile { name: "manifest.toml".to_owned(), stored: false });
    r.push(BundleFile { name: "case.duckdb".to_owned(), stored: true });
    r.push(BundleFile { name: "case.sqlite".to_owned(), stored: true });
    let ghost cv = texts(configs@);
    let ghost want = bundle_of(cv);
    let mut i: usize = 0;
    while i < configs.len()
        invariant
            i <= configs.len(),
            r.len() == 3 + i,
            cv == texts(configs@),
            want == bundle_of(cv),
            forall|j: int|
                0 <= j < r.len() ==> ((#[trigger] r@[j]).name@, r@[j].stored) == want[j],
        decreases configs.len() - i,
    {
        let mut name = "parser_configs/".to_owned();
        name.append(configs[i].as_str());
        r.push(BundleFile { name, stored: false });
        i += 1;
    }
    assert(bundle_view(r@) =~= want);
    r
}

/// Where an imported session came from.
pub open spec fn came_from(case: CaseView) -> ImportedFromView {
    ImportedFromView {
        original_session_id: case.original_session_id,
        exported_at: case.exported_at,
        exporting_peach_version: case.peach_version,
        filter_query: case.filter_query,
    }
}

/// Where an imported session came from.
pub fn imported_from(case: &PortableCaseManifest) -> (r: ImportedFrom)
    ensures
        r@ == came_from(case@),
{
    ImportedFrom {
        original_session_id: case.original_session_id.clone(),
        exported_at: case.exported_at,
        exporting_peach_version: case.peach_version.clone(),
        filter_query: case.filter_query.clone(),
    }
}

/// What is stored of an import.
pub open spec fn import_activity_of(case: CaseView, now: i64) -> ActivityView {
    ActivityView {
        operation: "import"@,
        started_at: now,
        finished_at: now,
        source_path: Some(case.original_session_id),
        sourcetype: None,
        status: "ok"@,
        error: None,
        entries_inserted: None,
        tags_applied: None,
        skipped: seq![],
        per_file: seq![],
        tags_by_rule: seq![],
        skip_bad_records_enabled: false,
    }
}

/// What is stored of an import, at a second since the epoch.
pub fn import_activity(case: &PortableCaseManifest, now: i64) -> (r: NewActivityLogEntry)
    ensures
        r@ == import_activity_of(case@, now),
{
    let r = NewActivityLogEntry {
        operation: "import".to_owned(),
        started_at: now,
        finished_at: now,
        source_path: Some(case.original_session_id.clone()),
        sourcetype: None,
        status: "ok".to_owned(),
        error: None,
        entries_inserted: None,
        tags_applied: None,
        skipped: Vec::new(),
        per_file: Vec::new(),
        tags_by_rule: Vec::new(),
        skip_bad_records_enabled: false,
    };
    assert(all_said(r.skipped@) =~= seq![]);
    assert(all_said(r.per_file@) =~= seq![]);
    assert(all_said(r.tags_by_rule@) =~= seq![]);
    r
}

} // verus!
