//! Under which names a session stores what it knows, and how its rows belong to events.

use vstd::prelude::*;

use crate::json::JsonView;
use crate::model::{stored_event_id, uuid_text, EventIdView};
use crate::paths::{is_step, joined_path, lemma_joined_steps, path_steps, rooted};
use crate::selection::{is_selection, lemma_selection_grows};
use crate::session::persist::{
    events_of, groups_rows, import_dir_step, row_event, rows_problem, session_files, texts_on,
    ActivityFileCount, ActivityRuleCount, ActivitySkippedFile, EventRow, EventTexts, FileCountView,
    ImportDirView, LoadedSource, LoadedSourceView, MakeDirOutcome, RuleCountView, SkippedFileView,
};
use crate::stored::Stored;
use crate::text::texts;

verus! {

/// Whether a member is a text, or missing or null where there is none.
pub open spec fn is_optional_text(member: Option<JsonView>, text: Option<Seq<char>>) -> bool {
    match text {
        Some(s) => member == Some(JsonView::Text(s)),
        None => member is None || member == Some(JsonView::Null),
    }
}

/// Whether a member is a number, or missing where that is zero.
pub open spec fn is_size(member: Option<JsonView>, n: usize, may_be_missing: bool) -> bool {
    ||| member matches Some(JsonView::Unsigned(u)) && u == n
    ||| may_be_missing && member is None && n == 0
}

/// Whether an object says a source: each thing under its name.
pub open spec fn says_source(tree: JsonView, v: LoadedSourceView) -> bool {
    &&& tree.get("path"@) == Some(JsonView::Text(v.path))
    &&& tree.get("sourcetype"@) == Some(JsonView::Text(v.sourcetype))
    &&& is_optional_text(tree.get("parser_config_path"@), v.parser_config_path)
    &&& tree.get("source_file_id"@) == Some(JsonView::Text(v.source_file_id)) || (tree.get(
        "source_file_id"@,
    ) is None && v.source_file_id.len() == 0)
}

/// Whether an object says a file that was skipped.
pub open spec fn says_skipped(tree: JsonView, v: SkippedFileView) -> bool {
    &&& tree.get("path"@) == Some(JsonView::Text(v.path))
    &&& tree.get("reason"@) == Some(JsonView::Text(v.reason))
}

/// Whether an object says what was read of a file.
pub open spec fn says_file_count(tree: JsonView, v: FileCountView) -> bool {
    &&& tree.get("path"@) == Some(JsonView::Text(v.path))
    &&& is_size(tree.get("inserted"@), v.inserted, false)
    &&& is_size(tree.get("records_skipped"@), v.records_skipped, true)
}

/// Whether an object says how often a rule matched.
pub open spec fn says_rule_count(tree: JsonView, v: RuleCountView) -> bool {
    &&& tree.get("rule_name"@) == Some(JsonView::Text(v.rule_name))
    &&& is_size(tree.get("count"@), v.count, false)
    &&& is_optional_text(tree.get("version"@), v.version)
}

/// What is read from an object is what it says, and what is written says it.
pub proof fn lemma_sources_by_name(tree: JsonView, v: LoadedSourceView)
    ensures
        tree is Object && LoadedSource::value_in(tree) == Ok::<LoadedSourceView, Seq<char>>(v)
            ==> says_source(tree, v),
        says_source(LoadedSource::tree_of(v), v),
{
    LoadedSource::lemma_read_back(v);
}

/// What is read from an object is what it says, and what is written says it.
pub proof fn lemma_skipped_by_name(tree: JsonView, v: SkippedFileView)
    ensures
        tree is Object && ActivitySkippedFile::value_in(tree) == Ok::<SkippedFileView, Seq<char>>(v)
            ==> says_skipped(tree, v),
        says_skipped(ActivitySkippedFile::tree_of(v), v),
{
    ActivitySkippedFile::lemma_read_back(v);
}

/// What is read from an object is what it says, and what is written says it.
pub proof fn lemma_file_counts_by_name(tree: JsonView, v: FileCountView)
    ensures
        tree is Object && ActivityFileCount::value_in(tree) == Ok::<FileCountView, Seq<char>>(v)
            ==> says_file_count(tree, v),
        says_file_count(ActivityFileCount::tree_of(v), v),
{
    ActivityFileCount::lemma_read_back(v);
}

/// What is read from an object is what it says, and what is written says it.
pub proof fn lemma_rule_counts_by_name(tree: JsonView, v: RuleCountView)
    ensures
        tree is Object && ActivityRuleCount::value_in(tree) == Ok::<RuleCountView, Seq<char>>(v)
            ==> says_rule_count(tree, v),
        says_rule_count(ActivityRuleCount::tree_of(v), v),
{
    ActivityRuleCount::lemma_read_back(v);
}

/// Whether a row belongs to an event: it has the source and the number of the event.
pub open spec fn belongs_to(row: EventRow, event: EventIdView) -> bool {
    &&& row.source_file_id@ == event.source_file_id
    &&& row.sequence_number as u64 == event.sequence_number
}

proof fn lemma_texts_on(rows: Seq<EventRow>, event: EventIdView) -> (from: Seq<int>)
    ensures
        is_selection(rows, |r: EventRow| belongs_to(r, event), from),
        from.len() == texts_on(rows, event).len(),
        forall|k: int|
            0 <= k < from.len() ==> texts_on(rows, event)[k] == rows[#[trigger] from[k]].text@,
    decreases rows.len(),
{
    if rows.len() == 0 {
        Seq::empty()
    } else {
        let front = rows.drop_last();
        let before = lemma_texts_on(front, event);
        let from = lemma_selection_grows(rows, |r: EventRow| belongs_to(r, event), before);
        assert(belongs_to(rows.last(), event) == (row_event(rows.last()) == event));
        assert forall|k: int| 0 <= k < from.len() implies texts_on(rows, event)[k]
            == rows[#[trigger] from[k]].text@ by {
            if k < before.len() {
                assert(from[k] == before[k]);
                assert(front[before[k]] == rows[before[k]]);
                assert(texts_on(rows, event)[k] == texts_on(front, event)[k]);
            }
        }
        from
    }
}

proof fn lemma_events_of(rows: Seq<EventRow>) -> (firsts: Seq<int>)
    ensures
        firsts.len() == events_of(rows).len(),
        forall|k: int|
            0 <= k < firsts.len() ==> 0 <= #[trigger] firsts[k] < rows.len() && belongs_to(
                rows[firsts[k]],
                events_of(rows)[k],
            ) && forall|i: int|
                0 <= i < firsts[k] ==> !belongs_to(#[trigger] rows[i], events_of(rows)[k]),
        forall|j: int, k: int|
            0 <= j < k < firsts.len() ==> #[trigger] firsts[j] < #[trigger] firsts[k],
        forall|i: int|
            0 <= i < rows.len() ==> events_of(rows).contains(row_event(#[trigger] rows[i])),
    decreases rows.len(),
{
    if rows.len() == 0 {
        Seq::empty()
    } else {
        let n = rows.len() - 1;
        let front = rows.drop_last();
        let before = lemma_events_of(front);
        let old_events = events_of(front);
        let events = events_of(rows);
        let event = row_event(rows.last());
        let firsts = if old_events.contains(event) {
            before
        } else {
            before.push(n)
        };
        assert forall|k: int| 0 <= k < firsts.len() implies 0 <= #[trigger] firsts[k] < rows.len()
            && belongs_to(rows[firsts[k]], events[k]) && forall|i: int|
            0 <= i < firsts[k] ==> !belongs_to(#[trigger] rows[i], events[k]) by {
            if k < before.len() {
                assert(firsts[k] == before[k]);
                assert(events[k] == old_events[k]);
                assert(front[before[k]] == rows[before[k]]);
                assert forall|i: int| 0 <= i < firsts[k] implies !belongs_to(
                    #[trigger] rows[i],
                    events[k],
                ) by {
                    assert(front[i] == rows[i]);
                }
            } else {
                assert forall|i: int| 0 <= i < n implies !belongs_to(#[trigger] rows[i], event) by {
                    assert(front[i] == rows[i]);
                    assert(old_events.contains(row_event(front[i])));
                    if belongs_to(rows[i], event) {
                        assert(row_event(rows[i]) == event);
                    }
                }
            }
        }
        assert forall|j: int, k: int| 0 <= j < k < firsts.len() implies #[trigger] firsts[j]
            < #[trigger] firsts[k] by {
            assert(firsts[j] == before[j]);
            if k < before.len() {
                assert(firsts[k] == before[k]);
            }
        }
        assert forall|i: int| 0 <= i < rows.len() implies events.contains(
            row_event(#[trigger] rows[i]),
        ) by {
            if i < n {
                assert(front[i] == rows[i]);
                let k = choose|k: int|
                    0 <= k < old_events.len() && old_events[k] == row_event(front[i]);
                assert(events[k] == row_event(rows[i]));
            } else if !old_events.contains(event) {
                assert(events[events.len() - 1] == event);
            }
        }
        firsts
    }
}

/// Whether a group has the texts of the rows that belong to its event, in their order.
pub open spec fn has_texts_of(group: EventTexts, rows: Seq<EventRow>, from: Seq<int>) -> bool {
    &&& is_selection(rows, |r: EventRow| belongs_to(r, group.event_id@), from)
    &&& group.texts@.len() == from.len()
    &&& forall|k: int|
        0 <= k < from.len() ==> texts(group.texts@)[k] == rows[#[trigger] from[k]].text@
}

/// Whether a group has all the texts on its event.
pub open spec fn is_complete(group: EventTexts, rows: Seq<EventRow>) -> bool {
    exists|from: Seq<int>| #[trigger] has_texts_of(group, rows, from)
}

/// The groups of rows: every row is in the group of its event, each event has one group with
/// the texts of its rows in their order, and the groups come in the order in which their
/// events first occur.
pub proof fn lemma_rows_are_grouped(groups: Seq<EventTexts>, rows: Seq<EventRow>) -> (firsts: Seq<int>)
    requires
        groups_rows(groups, rows),
    ensures
        firsts.len() == groups.len(),
        forall|k: int|
            0 <= k < groups.len() ==> is_complete(#[trigger] groups[k], rows),
        forall|k: int|
            0 <= k < firsts.len() ==> 0 <= #[trigger] firsts[k] < rows.len() && belongs_to(
                rows[firsts[k]],
                groups[k].event_id@,
            ) && forall|i: int|
                0 <= i < firsts[k] ==> !belongs_to(#[trigger] rows[i], groups[k].event_id@),
        forall|j: int, k: int|
            0 <= j < k < firsts.len() ==> #[trigger] firsts[j] < #[trigger] firsts[k],
        forall|i: int|
            0 <= i < rows.len() ==> exists|k: int|
                0 <= k < groups.len() && belongs_to(
                    #[trigger] rows[i],
                    (#[trigger] groups[k]).event_id@,
                ),
{
    let firsts = lemma_events_of(rows);
    assert forall|k: int| 0 <= k < groups.len() implies is_complete(
        #[trigger] groups[k],
        rows,
    ) by {
        let event = events_of(rows)[k];
        assert(groups[k].event_id@ == event);
        let from = lemma_texts_on(rows, event);
        assert(has_texts_of(groups[k], rows, from));
    }
    assert forall|k: int| 0 <= k < firsts.len() implies 0 <= #[trigger] firsts[k] < rows.len()
        && belongs_to(rows[firsts[k]], groups[k].event_id@) && forall|i: int|
        0 <= i < firsts[k] ==> !belongs_to(#[trigger] rows[i], groups[k].event_id@) by {
        assert(groups[k].event_id@ == events_of(rows)[k]);
    }
    assert forall|i: int| 0 <= i < rows.len() implies exists|k: int|
        0 <= k < groups.len() && belongs_to(#[trigger] rows[i], (#[trigger] groups[k]).event_id@) by {
        let e = row_event(rows[i]);
        assert(events_of(rows).contains(e));
        let k = choose|k: int| 0 <= k < events_of(rows).len() && events_of(rows)[k] == e;
        assert(groups[k].event_id@ == e);
        assert(belongs_to(rows[i], groups[k].event_id@));
    }
    firsts
}

/// The identity of an event is stored as its source and its number.
pub proof fn lemma_identity_in_two_columns(source: Seq<char>, number: i64)
    ensures
        match (stored_event_id(source, number), uuid_text(source)) {
            (Ok(id), Ok(s)) => id.source_file_id == s && (number >= 0 ==> id.sequence_number
                == number),
            (Err(e), Err(why)) => e == "invalid source_file_id in database: "@ + why,
            _ => false,
        },
{
}

/// Rows cannot be read if and only if the source of one of them is none, and the first of
/// these says why.
pub proof fn lemma_first_bad_row(rows: Seq<EventRow>)
    ensures
        match rows_problem(rows) {
            Some(e) => exists|i: int|
                0 <= i < rows.len() && (uuid_text((#[trigger] rows[i]).source_file_id@) matches Err(
                    why,
                ) && e == "invalid source_file_id in database: "@ + why) && forall|j: int|
                    0 <= j < i ==> uuid_text((#[trigger] rows[j]).source_file_id@) is Ok,
            None => forall|i: int|
                0 <= i < rows.len() ==> uuid_text((#[trigger] rows[i]).source_file_id@) is Ok,
        },
    decreases rows.len(),
{
    if rows.len() > 0 {
        let n = rows.len() - 1;
        let front = rows.drop_last();
        lemma_first_bad_row(front);
        assert forall|i: int| 0 <= i < n implies front[i] == #[trigger] rows[i] by {}
        match rows_problem(front) {
            Some(e) => {
                let i = choose|i: int|
                    0 <= i < front.len() && (uuid_text(
                        (#[trigger] front[i]).source_file_id@,
                    ) matches Err(why) && e == "invalid source_file_id in database: "@ + why)
                        && forall|j: int|
                        0 <= j < i ==> uuid_text((#[trigger] front[j]).source_file_id@) is Ok;
                assert(rows[i] == front[i]);
                assert forall|j: int| 0 <= j < i implies uuid_text(
                    (#[trigger] rows[j]).source_file_id@,
                ) is Ok by {
                    assert(front[j] == rows[j]);
                }
            },
            None => {
                assert(rows[n] == rows.last());
                assert forall|j: int| 0 <= j < n implies uuid_text(
                    (#[trigger] rows[j]).source_file_id@,
                ) is Ok by {
                    assert(front[j] == rows[j]);
                }
            },
        }
    }
}

/// The files of a session lie in a directory of its name, under its name with an extension.
pub proof fn lemma_files_of_session(dir: Seq<char>, id: Seq<char>)
    requires
        is_step(id),
    ensures
        session_files(dir, id).id == id,
        path_steps(session_files(dir, id).duckdb_path) == path_steps(dir).push(id).push(
            id + ".duckdb"@,
        ),
        path_steps(session_files(dir, id).sqlite_path) == path_steps(dir).push(id).push(
            id + ".sqlite"@,
        ),
        rooted(session_files(dir, id).sqlite_path) == rooted(dir),
{
    let session_dir = joined_path(dir, id);
    lemma_joined_steps(dir, id);
    lemma_file_is_step(id);
    lemma_joined_steps(session_dir, id + ".duckdb"@);
    lemma_joined_steps(session_dir, id + ".sqlite"@);
}

proof fn lemma_file_is_step(id: Seq<char>)
    requires
        is_step(id),
    ensures
        is_step(id + ".duckdb"@),
        is_step(id + ".sqlite"@),
{
    reveal_strlit(".duckdb");
    reveal_strlit(".sqlite");
    reveal_strlit(".");
    assert(".duckdb"@.len() == 7 && ".sqlite"@.len() == 7 && "."@.len() == 1);
    let a = id + ".duckdb"@;
    let b = id + ".sqlite"@;
    assert(!a.contains('/')) by {
        if a.contains('/') {
            let i = choose|i: int| 0 <= i < a.len() && a[i] == '/';
            if i < id.len() {
                assert(id[i] == '/');
            } else {
                let k = i - id.len();
                assert(".duckdb"@[k] == '/');
                assert(k == 0 || k == 1 || k == 2 || k == 3 || k == 4 || k == 5 || k == 6);
            }
        }
    }
    assert(!b.contains('/')) by {
        if b.contains('/') {
            let i = choose|i: int| 0 <= i < b.len() && b[i] == '/';
            if i < id.len() {
                assert(id[i] == '/');
            } else {
                let k = i - id.len();
                assert(".sqlite"@[k] == '/');
                assert(k == 0 || k == 1 || k == 2 || k == 3 || k == 4 || k == 5 || k == 6);
            }
        }
    }
}

/// A directory that was made is used; one that was there is tried again under another name,
/// twenty times in all; anything else ends the search.
pub proof fn lemma_directories_for_imports(
    sessions_dir: Seq<char>,
    attempt: u32,
    id: Seq<char>,
    outcome: MakeDirOutcome,
)
    ensures
        match import_dir_step(sessions_dir, attempt, id, outcome) {
            ImportDirView::Found(paths) => outcome is Created && paths == session_files(
                sessions_dir,
                id,
            ),
            ImportDirView::Retry => outcome is AlreadyExists && attempt < 19,
            ImportDirView::GiveUp(_) => (outcome is AlreadyExists && attempt >= 19)
                || outcome is Failed,
        },
        outcome matches MakeDirOutcome::Failed(why) ==> import_dir_step(
            sessions_dir,
            attempt,
            id,
            outcome,
        ) == ImportDirView::GiveUp(
            "failed to create session directory "@ + joined_path(sessions_dir, id) + ": "@ + why@,
        ),
{
}

} // verus!
