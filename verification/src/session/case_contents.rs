//! What a portable case says of itself and of its sources, name by name.

use vstd::prelude::*;

use crate::digest::sha256;
use crate::paths::{is_step, joined_path, lemma_joined_steps};
use crate::session::portable_case::{
    bundle_of, came_from, case_of, files_problem, format_problem, import_activity_of,
    importable_case, source_entry, source_of, source_tree, source_trees, sources_in, sql_quoted,
    timed_tree, understood_case, CaseFile, CaseView, SourceRow, SourceView,
};
use crate::text::hex;
use crate::time::iso_instant;
use crate::toml_doc::{entries_differ, entry, lemma_entry_at, lemma_no_entry, TomlView};

verus! {

/// Whether a table says a source: each thing under its name.
pub open spec fn says_source(body: Seq<(Seq<char>, TomlView)>, s: SourceView) -> bool {
    &&& entry(body, "source_file_id"@) == Some(TomlView::Text(s.source_file_id))
    &&& entry(body, "original_path"@) == Some(TomlView::Text(s.original_path))
    &&& entry(body, "sourcetype"@) == Some(TomlView::Text(s.sourcetype))
    &&& entry(body, "parser_config"@) == match s.parser_config {
        Some(path) => Some(TomlView::Text(path)),
        None => None,
    }
    &&& entry(body, "parser_config_missing"@) == Some(TomlView::Bool(s.parser_config_missing))
}

/// Whether a document says a case: each thing under its name, with the instant of the export
/// as a text.
pub open spec fn says_case(doc: TomlView, c: CaseView, time: Seq<char>) -> bool {
    &&& doc.get("format_version"@) matches Some(TomlView::Integer(n)) && n == c.format_version
    &&& doc.get("peach_version"@) == Some(TomlView::Text(c.peach_version))
    &&& doc.get("exported_at"@) == Some(TomlView::Text(time))
    &&& doc.get("original_session_id"@) == Some(TomlView::Text(c.original_session_id))
    &&& doc.get("display_name"@) == match c.display_name {
        Some(name) => Some(TomlView::Text(name)),
        None => None,
    }
    &&& doc.get("filter_query"@) == Some(TomlView::Text(c.filter_query))
    &&& doc.get("hashes"@) matches Some(TomlView::Table(hashes)) ==> entry(
        hashes,
        "duckdb_sha256"@,
    ) == Some(TomlView::Text(c.duckdb_sha256)) && entry(hashes, "sqlite_sha256"@) == Some(
        TomlView::Text(c.sqlite_sha256),
    )
    &&& doc.get("sources"@) matches Some(TomlView::Array(items)) && items.len() == c.sources.len()
        && forall|i: int|
        0 <= i < items.len() && (#[trigger] items[i]) is Table ==> says_source(
            items[i]->Table_0,
            c.sources[i],
        )
}

proof fn lemma_sources(items: Seq<TomlView>)
    ensures
        sources_in(items) matches Ok(all) ==> all.len() == items.len() && forall|i: int|
            0 <= i < items.len() && (#[trigger] items[i]) is Table ==> says_source(
                items[i]->Table_0,
                all[i],
            ),
    decreases items.len(),
{
    if items.len() > 0 {
        let front = items.drop_last();
        lemma_sources(front);
        if let Ok(all) = sources_in(items) {
            assert forall|i: int|
                0 <= i < items.len() && (#[trigger] items[i]) is Table implies says_source(
                items[i]->Table_0,
                all[i],
            ) by {
                if i < items.len() - 1 {
                    assert(front[i] == items[i]);
                    assert(all[i] == sources_in(front)->Ok_0[i]);
                } else {
                    assert(items[i] == items.last());
                    assert(source_of(items.last()) == Ok::<_, Seq<char>>(all[i]));
                }
            }
        }
    }
}

/// A case that is read is what its document says.
pub proof fn lemma_case_is_its_document(doc: TomlView)
    ensures
        case_of(doc) matches Ok(c) ==> exists|time: Seq<char>| #[trigger]
            says_case(doc, c, time) && iso_instant(time) == Ok::<_, Seq<char>>(c.exported_at),
{
    if let Ok(c) = case_of(doc) {
        let time = doc.get("exported_at"@)->0->Text_0;
        if let Some(TomlView::Array(items)) = doc.get("sources"@) {
            lemma_sources(items);
        }
        assert(says_case(doc, c, time));
    }
}

proof fn lemma_source_names()
    ensures
        "source_file_id"@.len() == 14,
        "original_path"@.len() == 13 && "original_path"@[0] == 'o',
        "sourcetype"@.len() == 10,
        "parser_config"@.len() == 13 && "parser_config"@[0] == 'p',
        "parser_config_missing"@.len() == 21,
{
    reveal_strlit("source_file_id");
    reveal_strlit("original_path");
    reveal_strlit("sourcetype");
    reveal_strlit("parser_config");
    reveal_strlit("parser_config_missing");
}

proof fn lemma_source_tree(s: SourceView)
    ensures
        source_tree(s) matches TomlView::Table(body) && says_source(body, s),
{
    lemma_source_names();
    let body = source_tree(s)->Table_0;
    let n: int = if s.parser_config is Some {
        4
    } else {
        3
    };
    assert(body[0].0 == "source_file_id"@);
    assert(body[1].0 == "original_path"@);
    assert(body[2].0 == "sourcetype"@);
    if s.parser_config is Some {
        assert(body[3].0 == "parser_config"@);
    }
    assert(body[n].0 == "parser_config_missing"@);
    assert(entries_differ(body));
    lemma_entry_at(body, 0);
    lemma_entry_at(body, 1);
    lemma_entry_at(body, 2);
    lemma_entry_at(body, n);
    if s.parser_config is Some {
        lemma_entry_at(body, 3);
    } else {
        lemma_no_entry(body, "parser_config"@);
    }
}

proof fn lemma_case_names()
    ensures
        "format_version"@.len() == 14,
        "peach_version"@.len() == 13,
        "exported_at"@.len() == 11,
        "original_session_id"@.len() == 19,
        "display_name"@.len() == 12 && "display_name"@[0] == 'd',
        "filter_query"@.len() == 12 && "filter_query"@[0] == 'f',
        "hashes"@.len() == 6,
        "sources"@.len() == 7,
        "duckdb_sha256"@.len() == 13 && "duckdb_sha256"@[0] == 'd',
        "sqlite_sha256"@.len() == 13 && "sqlite_sha256"@[0] == 's',
{
    reveal_strlit("format_version");
    reveal_strlit("peach_version");
    reveal_strlit("exported_at");
    reveal_strlit("original_session_id");
    reveal_strlit("display_name");
    reveal_strlit("filter_query");
    reveal_strlit("hashes");
    reveal_strlit("sources");
    reveal_strlit("duckdb_sha256");
    reveal_strlit("sqlite_sha256");
}

/// A case that is written says what it is.
pub proof fn lemma_case_is_written(c: CaseView, time: Seq<char>)
    ensures
        says_case(timed_tree(c, time), c, time),
{
    lemma_case_names();
    let body = timed_tree(c, time)->Table_0;
    let n: int = if c.display_name is Some {
        5
    } else {
        4
    };
    assert(body[0].0 == "format_version"@);
    assert(body[1].0 == "peach_version"@);
    assert(body[2].0 == "exported_at"@);
    assert(body[3].0 == "original_session_id"@);
    if c.display_name is Some {
        assert(body[4].0 == "display_name"@);
    }
    assert(body[n].0 == "filter_query"@);
    assert(body[n + 1].0 == "hashes"@);
    assert(body[n + 2].0 == "sources"@);
    assert(entries_differ(body));
    lemma_entry_at(body, 0);
    lemma_entry_at(body, 1);
    lemma_entry_at(body, 2);
    lemma_entry_at(body, 3);
    lemma_entry_at(body, n);
    lemma_entry_at(body, n + 1);
    lemma_entry_at(body, n + 2);
    if c.display_name is Some {
        lemma_entry_at(body, 4);
    } else {
        lemma_no_entry(body, "display_name"@);
    }
    let hashes = body[n + 1].1->Table_0;
    assert(hashes[0].0 == "duckdb_sha256"@ && hashes[1].0 == "sqlite_sha256"@);
    assert(entries_differ(hashes));
    lemma_entry_at(hashes, 0);
    lemma_entry_at(hashes, 1);
    let items = source_trees(c.sources);
    assert forall|i: int| 0 <= i < items.len() && (#[trigger] items[i]) is Table implies
        says_source(items[i]->Table_0, c.sources[i]) by {
        lemma_source_tree(c.sources[i]);
    }
}

/// Whether a database of a case is the one that was exported.
pub open spec fn is_intact(file: CaseFile, digest: Seq<char>) -> bool {
    file matches CaseFile::Present(hash) && hex(sha256(hash@)) == digest
}

/// A case is imported if and only if it says what it is in the one form that is understood
/// and its two databases are the ones that were exported.
pub proof fn lemma_cases_that_are_imported(
    manifest: Result<Seq<char>, Seq<char>>,
    duckdb: CaseFile,
    sqlite: CaseFile,
)
    ensures
        understood_case(manifest) matches Ok(c) ==> c.format_version <= 1,
        importable_case(manifest, duckdb, sqlite) is Ok <==> (understood_case(manifest) matches Ok(
            c,
        ) && is_intact(duckdb, c.duckdb_sha256) && is_intact(sqlite, c.sqlite_sha256)),
        importable_case(manifest, duckdb, sqlite) matches Ok(c) ==> understood_case(manifest)
            == Ok::<_, Seq<char>>(c),
{
}

/// Why a case is refused: its form is too new, one of its databases is missing or cannot be
/// read, or its digest is another one.
pub proof fn lemma_reasons_of_refusal(c: CaseView, duckdb: CaseFile, sqlite: CaseFile)
    ensures
        format_problem(c.format_version) is Some <==> c.format_version > 1,
        duckdb is Missing ==> files_problem(c, duckdb, sqlite) == Some(
            "not a valid Peach portable case: case.duckdb is missing from the bundle"@,
        ),
        sqlite is Missing && !(duckdb is Missing) ==> files_problem(c, duckdb, sqlite) == Some(
            "not a valid Peach portable case: case.sqlite is missing from the bundle"@,
        ),
        is_intact(duckdb, c.duckdb_sha256) && sqlite is Present && !is_intact(
            sqlite,
            c.sqlite_sha256,
        ) ==> files_problem(c, duckdb, sqlite) == Some(
            "portable case failed integrity verification: "@ + "case.sqlite"@
                + "'s hash doesn't match the manifest (the bundle may be corrupted or was modified after export)"@,
        ),
        duckdb is Present && !is_intact(duckdb, c.duckdb_sha256) && !(sqlite is Missing)
            ==> files_problem(c, duckdb, sqlite) == Some(
            "portable case failed integrity verification: "@ + "case.duckdb"@
                + "'s hash doesn't match the manifest (the bundle may be corrupted or was modified after export)"@,
        ),
        duckdb matches CaseFile::Unreadable(e) ==> !(sqlite is Missing) ==> files_problem(
            c,
            duckdb,
            sqlite,
        ) == Some(e@),
{
}

/// An imported session remembers the session, the instant, the program and the filter of the
/// export.
pub proof fn lemma_origin_is_remembered(c: CaseView, now: i64)
    ensures
        came_from(c).original_session_id == c.original_session_id,
        came_from(c).exported_at == c.exported_at,
        came_from(c).exporting_peach_version == c.peach_version,
        came_from(c).filter_query == c.filter_query,
        import_activity_of(c, now).operation == "import"@,
        import_activity_of(c, now).status == "ok"@,
        import_activity_of(c, now).error is None,
        import_activity_of(c, now).source_path == Some(c.original_session_id),
        import_activity_of(c, now).started_at == now,
        import_activity_of(c, now).finished_at == now,
        import_activity_of(c, now).sourcetype is None,
        import_activity_of(c, now).entries_inserted is None,
        import_activity_of(c, now).tags_applied is None,
        import_activity_of(c, now).skipped.len() == 0,
        import_activity_of(c, now).per_file.len() == 0,
        import_activity_of(c, now).tags_by_rule.len() == 0,
{
}

/// A case says of a source what its row does. Its configuration lies in the case under the
/// name of the file, with the identity of the source before it; one that cannot be read is
/// said to be missing.
pub proof fn lemma_source_is_its_row(row: SourceRow, readable: bool, dir: Seq<char>, name: Seq<char>)
    requires
        is_step(name),
        name != ".."@,
        row.parser_config matches Some(path) && path@ == joined_path(dir, name),
    ensures
        ({
            let s = source_entry(row, readable);
            &&& s.source_file_id == row.source_file_id@
            &&& s.original_path == row.path@
            &&& s.sourcetype == row.sourcetype@
            &&& readable ==> s.parser_config == Some(
                "parser_configs/"@ + (row.source_file_id@ + "-"@ + name),
            ) && !s.parser_config_missing
            &&& !readable ==> s.parser_config is None && s.parser_config_missing
        }),
{
    lemma_joined_steps(dir, name);
    assert(crate::paths::path_steps(joined_path(dir, name)).last() == name);
}

/// A case says of a source without a configuration what its row does.
pub proof fn lemma_source_without_config(row: SourceRow, readable: bool)
    requires
        row.parser_config is None,
    ensures
        ({
            let s = source_entry(row, readable);
            &&& s.source_file_id == row.source_file_id@
            &&& s.original_path == row.path@
            &&& s.sourcetype == row.sourcetype@
            &&& s.parser_config is None
            &&& !s.parser_config_missing
        }),
{
}

/// The files of a case: the manifest, the two databases, which are stored as they are, and
/// the configurations in a directory of their own.
pub proof fn lemma_files_of_case(configs: Seq<Seq<char>>)
    ensures
        bundle_of(configs).len() == 3 + configs.len(),
        bundle_of(configs)[0] == ("manifest.toml"@, false),
        bundle_of(configs)[1] == ("case.duckdb"@, true),
        bundle_of(configs)[2] == ("case.sqlite"@, true),
        forall|i: int|
            0 <= i < configs.len() ==> bundle_of(configs)[3 + i] == (
                "parser_configs/"@ + #[trigger] configs[i],
                false,
            ),
{
}

/// In an SQL string a quote stands twice and any other character once, each in its place.
pub proof fn lemma_quotes_stand_twice(a: Seq<char>, b: Seq<char>)
    ensures
        sql_quoted(seq!['\'']) == seq!['\'', '\''],
        !a.contains('\'') ==> sql_quoted(a) == a,
        sql_quoted(a + b) == sql_quoted(a) + sql_quoted(b),
    decreases a.len() + b.len(),
{
    let one = seq!['\''];
    assert(one.drop_last() =~= Seq::<char>::empty());
    assert(one.last() == '\'');
    assert(sql_quoted(one.drop_last()) =~= Seq::<char>::empty());
    assert(sql_quoted(one) =~= seq!['\'', '\'']);
    lemma_unquoted(a);
    lemma_quoted_parts(a, b);
}

proof fn lemma_unquoted(a: Seq<char>)
    ensures
        !a.contains('\'') ==> sql_quoted(a) == a,
    decreases a.len(),
{
    if a.len() > 0 && !a.contains('\'') {
        assert(a.last() == a[a.len() - 1]);
        assert(!a.drop_last().contains('\''));
        lemma_unquoted(a.drop_last());
        assert(a.drop_last().push(a.last()) =~= a);
    }
}

proof fn lemma_quoted_parts(a: Seq<char>, b: Seq<char>)
    ensures
        sql_quoted(a + b) == sql_quoted(a) + sql_quoted(b),
    decreases b.len(),
{
    if b.len() == 0 {
        assert(a + b =~= a);
        assert(sql_quoted(b) =~= Seq::<char>::empty());
        assert(sql_quoted(a) + sql_quoted(b) =~= sql_quoted(a));
    } else {
        let all = a + b;
        assert(all.drop_last() =~= a + b.drop_last());
        assert(all.last() == b.last());
        lemma_quoted_parts(a, b.drop_last());
        assert(sql_quoted(all) =~= sql_quoted(a) + sql_quoted(b));
    }
}

} // verus!
