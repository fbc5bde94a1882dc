//! Sessions: where their files lie, and what is stored in them.

use vstd::prelude::*;

use crate::json::{
    is_plain, json_text, key_index, members_view, names_differ, parse_json, parsed_json,
    Json, JsonView,
};
use crate::model::{opt_text, read_event_id, stored_event_id, EventId, EventIdView};
use crate::paths::{
    file_name_of_path, is_step, join_path, joined_path, lemma_joined_steps, lemma_path_of_steps,
    lemma_steps_are_proper, parent_of_path, parent_path, path_file_name, path_steps,
    path_of_steps, plain_path, rooted, stem_of, stem_of_name,
};
use crate::stored::{
    all_said, as_object, list_as_object, load_list, may_text_member, need_size_member, need_text_member, optional_json,
    optional_text_member, optional_tree, size_member, size_member_else_zero, size_member_or_zero,
    store_list, stored_list, list_tree, text_member, text_member_else_empty, text_member_or_empty,
    Stored,
};
use crate::text::{chars_of, dec, dec_u64, digit, last_index, same, str_views, string_of, texts};
use crate::time::{
    day_number, format_utc, has_four_digit_year, in_calendar, is_day, iso_instant, iso_text, names_session_at,
    print_iso, read_iso, session_name, year_text, zero_padded, Timestamp,
};

verus! {

/// The entry of a session that lists its sources.
pub const LOADED_SOURCES_KEY: &'static str = "loaded_sources";

/// The entry of a session that holds the last search.
pub const SEARCH_QUERY_KEY: &'static str = "search_query";

/// The entry of a session that holds the name it is shown by.
pub const DISPLAY_NAME_KEY: &'static str = "display_name";

/// The entry of a session that says where it came from.
pub const IMPORTED_FROM_KEY: &'static str = "imported_from";

/// The name of a session that begins at a second since the epoch, if that lies in
/// the range of dates.
pub fn new_session_id(now: i64) -> (r: Option<String>)
    ensures
        match r {
            Some(s) => in_calendar(now as int) && names_session_at(s@, now as int),
            None => !in_calendar(now as int),
        },
{
    format_utc(now, "session-%Y%m%d-%H%M%S")
}

/// Whether a text is of hexadecimal digits.
pub open spec fn is_hex_text(s: Seq<char>) -> bool {
    forall|i: int| 0 <= i < s.len() ==> '0' <= #[trigger] s[i] <= '9' || 'a' <= s[i] <= 'f'
}

/// Whether a text is the name of a session that is imported: that of a session that
/// begins at some second, and eight random digits.
pub open spec fn is_import_id(id: Seq<char>) -> bool {
    exists|stem: Seq<char>, now: int, random: Seq<char>|
        #[trigger] names_session_at(stem, now) && random.len() == 8 && is_hex_text(random) && id
            == #[trigger] (stem + "-"@ + random)
}

/// The name of a session that is imported: a name that may be taken, and the
/// first digits of a random identifier.
pub fn new_import_session_id(session_id: &str, random: &str) -> (r: String)
    requires
        random@.len() >= 8,
    ensures
        r@ == session_id@ + "-"@ + random@.take(8),
        forall|now: int| #[trigger]
            names_session_at(session_id@, now) && is_hex_text(random@) ==> is_import_id(r@),
{
    let v = chars_of(random);
    let mut r = session_id.to_owned();
    r.append("-");
    let head = string_of(&v, 0, 8);
    assert(head@ =~= random@.take(8));
    r.append(head.as_str());
    assert forall|now: int| #[trigger]
        names_session_at(session_id@, now) && is_hex_text(random@) implies is_import_id(r@) by {
        assert(is_hex_text(random@.take(8)));
        assert(r@ == session_id@ + "-"@ + random@.take(8));
    }
    r
}

proof fn lemma_no_slash_in_number(n: nat, width: nat)
    ensures
        !zero_padded(n, width).contains('/'),
        !dec(n).contains('/'),
    decreases n, width,
{
    assert(digit(n % 10) != '/');
    if n >= 10 {
        lemma_no_slash_in_number(n / 10, 0);
    }
    assert(!dec(n).contains('/'));
    if width > 1 {
        lemma_no_slash_in_number(n / 10, (width - 1) as nat);
    }
}

proof fn lemma_no_slash_in_both(a: Seq<char>, b: Seq<char>)
    requires
        !a.contains('/'),
        !b.contains('/'),
    ensures
        !(a + b).contains('/'),
{
    if (a + b).contains('/') {
        let i = choose|i: int| 0 <= i < (a + b).len() && (a + b)[i] == '/';
        if i < a.len() {
            assert(a[i] == '/');
        } else {
            assert(b[i - a.len()] == '/');
        }
    }
}

proof fn lemma_no_slash_in_session_name(year: int, month: int, day: int, second: int)
    ensures
        !session_name(year, month, day, second).contains('/'),
        session_name(year, month, day, second).len() >= 8,
{
    reveal_strlit("session-");
    let width: nat = 2;
    lemma_no_slash_in_number(year as nat, 4);
    lemma_no_slash_in_number((-year) as nat, 4);
    lemma_no_slash_in_both(seq!['-'], zero_padded((-year) as nat, 4));
    lemma_no_slash_in_both(seq!['+'], zero_padded(year as nat, 4));
    let parts: Seq<Seq<char>> = seq![
        year_text(year),
        zero_padded(month as nat, width),
        zero_padded(day as nat, width),
        seq!['-'],
        zero_padded((second / 3600) as nat, width),
        zero_padded((second / 60 % 60) as nat, width),
        zero_padded((second % 60) as nat, width),
    ];
    lemma_no_slash_in_number(month as nat, width);
    lemma_no_slash_in_number(day as nat, width);
    lemma_no_slash_in_number((second / 3600) as nat, width);
    lemma_no_slash_in_number((second / 60 % 60) as nat, width);
    lemma_no_slash_in_number((second % 60) as nat, width);
    let s0 = "session-"@;
    let s1 = s0 + parts[0];
    let s2 = s1 + parts[1];
    let s3 = s2 + parts[2];
    let s4 = s3 + parts[3];
    let s5 = s4 + parts[4];
    let s6 = s5 + parts[5];
    lemma_no_slash_in_both(s0, parts[0]);
    lemma_no_slash_in_both(s1, parts[1]);
    lemma_no_slash_in_both(s2, parts[2]);
    lemma_no_slash_in_both(s3, parts[3]);
    lemma_no_slash_in_both(s4, parts[4]);
    lemma_no_slash_in_both(s5, parts[5]);
    lemma_no_slash_in_both(s6, parts[6]);
}

/// The name of a session that is imported can be that of a directory.
pub proof fn lemma_import_id_is_step(id: Seq<char>)
    requires
        is_import_id(id),
    ensures
        is_step(id),
{
    let (stem, now, random) = choose|stem: Seq<char>, now: int, random: Seq<char>|
        #[trigger] names_session_at(stem, now) && random.len() == 8 && is_hex_text(random) && id
            == #[trigger] (stem + "-"@ + random);
    let (year, month, day) = choose|year: int, month: int, day: int|
        is_day(year, month, day) && #[trigger] day_number(year, month, day) == now / 86400 && stem
            == session_name(year, month, day, now % 86400);
    lemma_no_slash_in_session_name(year, month, day, now % 86400);
    reveal_strlit("-");
    reveal_strlit(".");
    assert(id.len() > "."@.len());
    if random.contains('/') {
        let i = choose|i: int| 0 <= i < random.len() && random[i] == '/';
        assert('0' <= random[i] <= '9' || 'a' <= random[i] <= 'f');
    }
    lemma_no_slash_in_both(stem, "-"@);
    lemma_no_slash_in_both(stem + "-"@, random);
}

/// The files of a session. Each session has a directory of its own, and its files
/// bear its name.
#[derive(Debug, PartialEq, Eq)]
pub struct SessionPaths {
    pub id: String,
    pub duckdb_path: String,
    pub sqlite_path: String,
}

/// The view of [`SessionPaths`].
#[verifier::ext_equal]
pub struct SessionPathsView {
    pub id: Seq<char>,
    pub duckdb_path: Seq<char>,
    pub sqlite_path: Seq<char>,
}

impl View for SessionPaths {
    type V = SessionPathsView;

    open spec fn view(&self) -> SessionPathsView {
        SessionPathsView {
            id: self.id@,
            duckdb_path: self.duckdb_path@,
            sqlite_path: self.sqlite_path@,
        }
    }
}

impl Clone for SessionPaths {
    fn clone(&self) -> (r: Self)
        ensures
            r@ == self@,
    {
        SessionPaths {
            id: self.id.clone(),
            duckdb_path: self.duckdb_path.clone(),
            sqlite_path: self.sqlite_path.clone(),
        }
    }
}

/// The files of the session of a name under a directory.
pub open spec fn session_files(dir: Seq<char>, id: Seq<char>) -> SessionPathsView {
    let session_dir = joined_path(dir, id);
    SessionPathsView {
        id,
        duckdb_path: joined_path(session_dir, id + ".duckdb"@),
        sqlite_path: joined_path(session_dir, id + ".sqlite"@),
    }
}

/// The files of the session that a chosen file belongs to, or why it belongs to
/// none: the other file is the one of the same name beside it.
pub open spec fn session_files_by(sqlite_path: Seq<char>) -> Result<SessionPathsView, Seq<char>> {
    match path_file_name(sqlite_path) {
        None => Err("invalid session file name: "@ + sqlite_path),
        Some(name) => match parent_path(sqlite_path) {
            None => Err("session file has no parent directory"@),
            Some(session_dir) => match parent_path(session_dir) {
                None => Err("session directory has no parent directory"@),
                Some(_) => Ok(
                    SessionPathsView {
                        id: stem_of(name),
                        duckdb_path: joined_path(session_dir, stem_of(name) + ".duckdb"@),
                        sqlite_path,
                    },
                ),
            },
        },
    }
}

impl SessionPaths {
    /// The files of the session of a name under a directory.
    pub fn new_in(dir: &str, id: &str) -> (r: Self)
        ensures
            r@ == session_files(dir@, id@),
    {
        let session_dir = join_path(dir, id);
        let mut duckdb = id.to_owned();
        duckdb.append(".duckdb");
        let mut sqlite = id.to_owned();
        sqlite.append(".sqlite");
        SessionPaths {
            id: id.to_owned(),
            duckdb_path: join_path(session_dir.as_str(), duckdb.as_str()),
            sqlite_path: join_path(session_dir.as_str(), sqlite.as_str()),
        }
    }

    /// The files of the session that a chosen file belongs to, or why it belongs to
    /// none: the other file is the one of the same name beside it.
    pub fn from_sqlite_path(sqlite_path: &str) -> (r: Result<Self, String>)
        ensures
            match r {
                Ok(p) => session_files_by(sqlite_path@) == Ok::<SessionPathsView, Seq<char>>(p@),
                Err(e) => session_files_by(sqlite_path@) == Err::<SessionPathsView, Seq<char>>(e@),
            },
    {
        let name = match file_name_of_path(sqlite_path) {
            Some(name) => name,
            None => {
                let mut e = "invalid session file name: ".to_owned();
                e.append(sqlite_path);
                return Err(e);
            },
        };
        let session_dir = match parent_of_path(sqlite_path) {
            Some(dir) => dir,
            None => {
                return Err("session file has no parent directory".to_owned());
            },
        };
        match parent_of_path(session_dir.as_str()) {
            Some(_) => {
                let id = stem_of_name(name.as_str());
                let mut duckdb = id.clone();
                duckdb.append(".duckdb");
                Ok(
                    SessionPaths {
                        id,
                        duckdb_path: join_path(session_dir.as_str(), duckdb.as_str()),
                        sqlite_path: sqlite_path.to_owned(),
                    },
                )
            },
            None => Err("session directory has no parent directory".to_owned()),
        }
    }

    /// The directory of the session: the one that its files lie in.
    pub fn session_dir(&self) -> (r: Option<String>)
        ensures
            opt_text(r) == parent_path(self@.sqlite_path),
    {
        parent_of_path(self.sqlite_path.as_str())
    }
}

proof fn lemma_last_dot(id: Seq<char>)
    ensures
        last_index(id + ".sqlite"@, '.') == id.len(),
{
    reveal_strlit(".sqlite");
    let all = id + ".sqlite"@;
    assert(all.drop_last().drop_last().drop_last().drop_last().drop_last().drop_last()
        =~= id.push('.'));
    reveal_with_fuel(last_index, 8);
    assert(all.last() == 'e');
    assert(all.drop_last().last() == 't');
    assert(all.drop_last().drop_last().last() == 'i');
    assert(all.drop_last().drop_last().drop_last().last() == 'l');
    assert(all.drop_last().drop_last().drop_last().drop_last().last() == 'q');
    assert(all.drop_last().drop_last().drop_last().drop_last().drop_last().last() == 's');
}

/// A step with more behind it is a step too.
proof fn lemma_longer_step(step: Seq<char>, more: Seq<char>)
    requires
        step.len() > 0,
        !step.contains('/'),
        more.len() > 1,
        !more.contains('/'),
    ensures
        is_step(step + more),
{
    reveal_strlit(".");
    let name = step + more;
    assert(name.len() > 1);
    if name.contains('/') {
        let i = choose|i: int| 0 <= i < name.len() && name[i] == '/';
        if i < step.len() {
            assert(step[i] == '/');
        } else {
            assert(more[i - step.len()] == '/');
        }
    }
}

proof fn lemma_index_inside(s: Seq<char>, c: char)
    ensures
        last_index(s, c) < s.len(),
    decreases s.len(),
{
    if s.len() > 0 {
        lemma_index_inside(s.drop_last(), c);
    }
}

proof fn lemma_extensions()
    ensures
        ".sqlite"@.len() == 7,
        !".sqlite"@.contains('/'),
        ".duckdb"@.len() == 7,
        !".duckdb"@.contains('/'),
{
    reveal_strlit(".sqlite");
    reveal_strlit(".duckdb");
}

/// The file of a session leads back to the session: to its name, to that file, and
/// to the same other file.
pub proof fn lemma_session_file_leads_back(dir: Seq<char>, id: Seq<char>)
    requires
        is_step(id),
    ensures
        match session_files_by(session_files(dir, id).sqlite_path) {
            Ok(found) => {
                &&& found.id == id
                &&& found.sqlite_path == session_files(dir, id).sqlite_path
                &&& plain_path(found.duckdb_path) == plain_path(session_files(dir, id).duckdb_path)
            },
            Err(_) => false,
        },
{
    let session_dir = joined_path(dir, id);
    let name = id + ".sqlite"@;
    let other = id + ".duckdb"@;
    let path = joined_path(session_dir, name);
    reveal_strlit(".");
    reveal_strlit("..");
    lemma_extensions();
    lemma_longer_step(id, ".sqlite"@);
    lemma_longer_step(id, ".duckdb"@);
    lemma_joined_steps(dir, id);
    lemma_joined_steps(session_dir, name);
    lemma_joined_steps(session_dir, other);
    let steps = path_steps(dir);
    assert(path_steps(path) == steps.push(id).push(name));
    assert(name.len() > 2);
    assert(path_file_name(path) == Some(name));
    lemma_last_dot(id);
    assert(stem_of(name) =~= id);
    assert(steps.push(id).push(name).drop_last() =~= steps.push(id));
    lemma_steps_are_proper(dir);
    lemma_steps_are_proper(session_dir);
    lemma_path_of_steps(rooted(dir), steps.push(id));
    lemma_joined_steps(path_of_steps(rooted(dir), steps.push(id)), other);
}

/// The two files of a session that a chosen file belongs to lie in one directory.
pub proof fn lemma_files_lie_together(sqlite_path: Seq<char>)
    ensures
        session_files_by(sqlite_path) matches Ok(found) ==> {
            &&& found.sqlite_path == sqlite_path
            &&& parent_path(found.duckdb_path) == parent_path(sqlite_path)
        },
{
    if let Ok(found) = session_files_by(sqlite_path) {
        let steps = path_steps(sqlite_path);
        let name = steps.last();
        let dir = path_of_steps(rooted(sqlite_path), steps.drop_last());
        lemma_steps_are_proper(sqlite_path);
        assert(steps[steps.len() - 1].len() > 0);
        assert forall|i: int| 0 <= i < steps.drop_last().len() implies steps.drop_last()[i]
            == steps[i] by {}
        lemma_path_of_steps(rooted(sqlite_path), steps.drop_last());
        lemma_extensions();
        lemma_index_inside(name, '.');
        assert(!stem_of(name).contains('/')) by {
            if stem_of(name).contains('/') {
                let i = choose|i: int| 0 <= i < stem_of(name).len() && stem_of(name)[i] == '/';
                assert(name[i] == '/');
            }
        }
        lemma_longer_step(stem_of(name), ".duckdb"@);
        lemma_joined_steps(dir, stem_of(name) + ".duckdb"@);
        assert(steps.drop_last().push(stem_of(name) + ".duckdb"@).drop_last()
            =~= steps.drop_last());
    }
}

/// What came of making a directory.
#[derive(Debug)]
pub enum MakeDirOutcome {
    Created,
    AlreadyExists,
    Failed(String),
}

/// What to do after an attempt to make the directory of an imported session.
#[derive(Debug)]
pub enum ImportDirStep {
    /// Try again, with another name.
    Retry,
    /// The directory is there, and is new.
    Found(SessionPaths),
    /// Give up.
    GiveUp(String),
}

/// How often a name is tried.
pub const MAX_ATTEMPTS: u32 = 20;

/// The view of an [`ImportDirStep`].
pub enum ImportDirView {
    Retry,
    Found(SessionPathsView),
    GiveUp(Seq<char>),
}

impl View for ImportDirStep {
    type V = ImportDirView;

    open spec fn view(&self) -> ImportDirView {
        match self {
            ImportDirStep::Retry => ImportDirView::Retry,
            ImportDirStep::Found(p) => ImportDirView::Found(p@),
            ImportDirStep::GiveUp(e) => ImportDirView::GiveUp(e@),
        }
    }
}

/// What to do after the given attempt, counted from 0, to make the directory of an
/// imported session: only a directory that is new is ever used.
pub open spec fn import_dir_step(
    sessions_dir: Seq<char>,
    attempt: u32,
    id: Seq<char>,
    outcome: MakeDirOutcome,
) -> ImportDirView {
    match outcome {
        MakeDirOutcome::Created => ImportDirView::Found(session_files(sessions_dir, id)),
        MakeDirOutcome::AlreadyExists => if attempt + 1 < MAX_ATTEMPTS {
            ImportDirView::Retry
        } else {
            ImportDirView::GiveUp(
                "could not allocate a unique session id after "@ + dec(MAX_ATTEMPTS as nat)
                    + " attempts"@,
            )
        },
        MakeDirOutcome::Failed(e) => ImportDirView::GiveUp(
            "failed to create session directory "@ + joined_path(sessions_dir, id) + ": "@ + e@,
        ),
    }
}

/// What to do after the given attempt to make the directory of an imported
/// session.
pub fn new_session_dir_for_import(
    sessions_dir: &str,
    attempt: u32,
    id: &str,
    outcome: MakeDirOutcome,
) -> (r: ImportDirStep)
    ensures
        r@ == import_dir_step(sessions_dir@, attempt, id@, outcome),
{
    match outcome {
        MakeDirOutcome::Created => ImportDirStep::Found(SessionPaths::new_in(sessions_dir, id)),
        MakeDirOutcome::AlreadyExists => if attempt < MAX_ATTEMPTS - 1 {
            ImportDirStep::Retry
        } else {
            let mut e = "could not allocate a unique session id after ".to_owned();
            e.append(dec_u64(MAX_ATTEMPTS as u64).as_str());
            e.append(" attempts");
            ImportDirStep::GiveUp(e)
        },
        MakeDirOutcome::Failed(reason) => {
            let mut e = "failed to create session directory ".to_owned();
            e.append(join_path(sessions_dir, id).as_str());
            e.append(": ");
            e.append(reason.as_str());
            ImportDirStep::GiveUp(e)
        },
    }
}

/// The search for a directory ends: from the last attempt on there is no other.
pub proof fn lemma_search_ends(
    sessions_dir: Seq<char>,
    attempt: u32,
    id: Seq<char>,
    outcome: MakeDirOutcome,
)
    requires
        attempt >= MAX_ATTEMPTS - 1,
    ensures
        !(import_dir_step(sessions_dir, attempt, id, outcome) is Retry),
{
}

/// A directory that was there before is never used.
pub proof fn lemma_no_session_is_overwritten(
    sessions_dir: Seq<char>,
    attempt: u32,
    id: Seq<char>,
    outcome: MakeDirOutcome,
)
    requires
        import_dir_step(sessions_dir, attempt, id, outcome) is Found,
    ensures
        outcome is Created,
{
}

/// What comes of making a directory of a name where some are taken.
pub open spec fn made_among(taken: Set<Seq<char>>, id: Seq<char>) -> MakeDirOutcome {
    if taken.contains(id) {
        MakeDirOutcome::AlreadyExists
    } else {
        MakeDirOutcome::Created
    }
}

/// The session that a search over names finds, from an attempt on.
pub open spec fn import_search(
    sessions_dir: Seq<char>,
    taken: Set<Seq<char>>,
    ids: Seq<Seq<char>>,
    attempt: nat,
) -> Option<SessionPathsView>
    decreases ids.len() - attempt,
{
    if attempt >= ids.len() || attempt >= MAX_ATTEMPTS {
        None
    } else {
        let id = ids[attempt as int];
        match import_dir_step(sessions_dir, attempt as u32, id, made_among(taken, id)) {
            ImportDirView::Retry => import_search(sessions_dir, taken, ids, attempt + 1),
            ImportDirView::Found(paths) => Some(paths),
            ImportDirView::GiveUp(_) => None,
        }
    }
}

proof fn lemma_found_is_new(
    sessions_dir: Seq<char>,
    taken: Set<Seq<char>>,
    ids: Seq<Seq<char>>,
    attempt: nat,
)
    ensures
        import_search(sessions_dir, taken, ids, attempt) matches Some(paths) ==> {
            &&& !taken.contains(paths.id)
            &&& ids.contains(paths.id)
            &&& paths == session_files(sessions_dir, paths.id)
        },
    decreases ids.len() - attempt,
{
    if attempt < ids.len() && attempt < MAX_ATTEMPTS {
        lemma_found_is_new(sessions_dir, taken, ids, attempt + 1);
    }
}

/// Two imports in turn get different directories, neither of which was there
/// before: whatever new names the two searches try, the second finds neither what was
/// taken nor what the first found.
pub proof fn lemma_imports_in_turn_differ(
    sessions_dir: Seq<char>,
    taken: Set<Seq<char>>,
    ids: Seq<Seq<char>>,
    more_ids: Seq<Seq<char>>,
    a: SessionPathsView,
    b: SessionPathsView,
)
    requires
        import_search(sessions_dir, taken, ids, 0) == Some(a),
        import_search(sessions_dir, taken.insert(a.id), more_ids, 0) == Some(b),
        forall|i: int| 0 <= i < ids.len() ==> is_import_id(#[trigger] ids[i]),
        forall|i: int| 0 <= i < more_ids.len() ==> is_import_id(#[trigger] more_ids[i]),
    ensures
        !taken.contains(a.id),
        !taken.contains(b.id),
        a.id != b.id,
        joined_path(sessions_dir, a.id) != joined_path(sessions_dir, b.id),
        a.sqlite_path != b.sqlite_path,
        a.duckdb_path != b.duckdb_path,
{
    lemma_found_is_new(sessions_dir, taken, ids, 0);
    lemma_found_is_new(sessions_dir, taken.insert(a.id), more_ids, 0);
    lemma_import_id_is_step(a.id);
    lemma_import_id_is_step(b.id);
    lemma_joined_steps(sessions_dir, a.id);
    lemma_joined_steps(sessions_dir, b.id);
    let steps = path_steps(sessions_dir);
    assert(steps.push(a.id).last() != steps.push(b.id).last());
    lemma_session_file_leads_back(sessions_dir, a.id);
    lemma_session_file_leads_back(sessions_dir, b.id);
    lemma_extensions();
    lemma_longer_step(a.id, ".duckdb"@);
    lemma_longer_step(b.id, ".duckdb"@);
    lemma_joined_steps(joined_path(sessions_dir, a.id), a.id + ".duckdb"@);
    lemma_joined_steps(joined_path(sessions_dir, b.id), b.id + ".duckdb"@);
    assert(path_steps(a.duckdb_path).drop_last() =~= steps.push(a.id));
    assert(path_steps(b.duckdb_path).drop_last() =~= steps.push(b.id));
}

/// The member at a place is the one that its name leads to.
proof fn lemma_member_at(members: Seq<(Seq<char>, JsonView)>, i: int)
    requires
        names_differ(members),
        0 <= i < members.len(),
    ensures
        key_index(members, members[i].0) == i,
        JsonView::Object(members).get(members[i].0) == Some(members[i].1),
    decreases i,
{
    if i > 0 {
        let rest = members.drop_first();
        assert(rest[i - 1] == members[i]);
        assert forall|a: int, b: int| 0 <= a < b < rest.len() implies (#[trigger] rest[a]).0 != (
        #[trigger] rest[b]).0 by {
            assert(rest[a] == members[a + 1] && rest[b] == members[b + 1]);
        }
        lemma_member_at(rest, i - 1);
        assert(members[0].0 != members[i].0);
    }
}

/// A source that was loaded into a session.
#[derive(Debug, PartialEq, Eq)]
pub struct LoadedSource {
    pub path: String,
    pub sourcetype: String,
    pub parser_config_path: Option<String>,
    /// The identity of its entries; empty in sessions that were saved without it.
    pub source_file_id: String,
}

/// The view of a [`LoadedSource`].
#[verifier::ext_equal]
pub struct LoadedSourceView {
    pub path: Seq<char>,
    pub sourcetype: Seq<char>,
    pub parser_config_path: Option<Seq<char>>,
    pub source_file_id: Seq<char>,
}

impl View for LoadedSource {
    type V = LoadedSourceView;

    open spec fn view(&self) -> LoadedSourceView {
        LoadedSourceView {
            path: self.path@,
            sourcetype: self.sourcetype@,
            parser_config_path: opt_text(self.parser_config_path),
            source_file_id: self.source_file_id@,
        }
    }
}

impl Clone for LoadedSource {
    fn clone(&self) -> (r: Self)
        ensures
            r@ == self@,
    {
        LoadedSource {
            path: self.path.clone(),
            sourcetype: self.sourcetype.clone(),
            parser_config_path: self.parser_config_path.clone(),
            source_file_id: self.source_file_id.clone(),
        }
    }
}

impl Stored for LoadedSource {
    type Said = LoadedSourceView;

    open spec fn said(&self) -> LoadedSourceView {
        self@
    }

    open spec fn tree_of(v: LoadedSourceView) -> JsonView {
        JsonView::Object(
            seq![
                ("path"@, JsonView::Text(v.path)),
                ("sourcetype"@, JsonView::Text(v.sourcetype)),
                ("parser_config_path"@, optional_tree(v.parser_config_path)),
                ("source_file_id"@, JsonView::Text(v.source_file_id)),
            ],
        )
    }

    open spec fn value_in(item: JsonView) -> Result<LoadedSourceView, Seq<char>> {
        let v = as_object(item, seq!["path"@, "sourcetype"@, "parser_config_path"@, "source_file_id"@], 3);
        match (
            text_member(v, "path"@),
            text_member(v, "sourcetype"@),
            optional_text_member(v, "parser_config_path"@),
            text_member_or_empty(v, "source_file_id"@),
        ) {
            (Ok(path), Ok(sourcetype), Ok(parser_config_path), Ok(source_file_id)) => Ok(LoadedSourceView { path, sourcetype, parser_config_path, source_file_id }),
            (Err(e), _, _, _) => Err(e),
            (_, Err(e), _, _) => Err(e),
            (_, _, Err(e), _) => Err(e),
            (_, _, _, Err(e)) => Err(e),
        }
    }

    proof fn lemma_read_back(v: LoadedSourceView) {
        reveal_strlit("path");
        reveal_strlit("sourcetype");
        reveal_strlit("parser_config_path");
        reveal_strlit("source_file_id");
        reveal_with_fuel(is_plain, 2);
        assert("path"@.len() == 4);
        assert("sourcetype"@.len() == 10);
        assert("parser_config_path"@.len() == 18);
        assert("source_file_id"@.len() == 14);
        assert("path"@ != "sourcetype"@);
        assert("path"@ != "parser_config_path"@);
        assert("path"@ != "source_file_id"@);
        assert("sourcetype"@ != "parser_config_path"@);
        assert("sourcetype"@ != "source_file_id"@);
        assert("parser_config_path"@ != "source_file_id"@);
        let tree = Self::tree_of(v);
        let members = tree->Object_0;
        assert(names_differ(members));
        lemma_member_at(members, 0);
        lemma_member_at(members, 1);
        lemma_member_at(members, 2);
        lemma_member_at(members, 3);
    }

    fn to_tree(&self) -> (r: Json) {
        let mut members: Vec<(String, Json)> = Vec::new();
        members.push(("path".to_owned(), Json::Text(self.path.clone())));
        members.push(("sourcetype".to_owned(), Json::Text(self.sourcetype.clone())));
        members.push(("parser_config_path".to_owned(), optional_json(&self.parser_config_path)));
        members.push(("source_file_id".to_owned(), Json::Text(self.source_file_id.clone())));
        assert(members_view(members@) =~= Self::tree_of(self@)->Object_0);
        Json::Object(members)
    }

    fn from_tree(v: &Json) -> (r: Result<Self, String>) {
        let fields: [&'static str; 4] = ["path", "sourcetype", "parser_config_path", "source_file_id"];
        assert(str_views(fields@) =~= seq!["path"@, "sourcetype"@, "parser_config_path"@, "source_file_id"@]);
        let listed = list_as_object(v, &fields, 3);
        let v = match &listed {
            Some(object) => object,
            None => v,
        };
        let path = match need_text_member(v, "path") {
            Ok(x) => x,
            Err(e) => {
                return Err(e);
            },
        };
        let sourcetype = match need_text_member(v, "sourcetype") {
            Ok(x) => x,
            Err(e) => {
                return Err(e);
            },
        };
        let parser_config_path = match may_text_member(v, "parser_config_path") {
            Ok(x) => x,
            Err(e) => {
                return Err(e);
            },
        };
        let source_file_id = match text_member_else_empty(v, "source_file_id") {
            Ok(x) => x,
            Err(e) => {
                return Err(e);
            },
        };
        Ok(LoadedSource { path, sourcetype, parser_config_path, source_file_id })
    }
}

/// A file that a load passed over.
#[derive(Debug, PartialEq, Eq)]
pub struct ActivitySkippedFile {
    pub path: String,
    pub reason: String,
}

/// The view of a [`ActivitySkippedFile`].
#[verifier::ext_equal]
pub struct SkippedFileView {
    pub path: Seq<char>,
    pub reason: Seq<char>,
}

impl View for ActivitySkippedFile {
    type V = SkippedFileView;

    open spec fn view(&self) -> SkippedFileView {
        SkippedFileView {
            path: self.path@,
            reason: self.reason@,
        }
    }
}

impl Clone for ActivitySkippedFile {
    fn clone(&self) -> (r: Self)
        ensures
            r@ == self@,
    {
        ActivitySkippedFile {
            path: self.path.clone(),
            reason: self.reason.clone(),
        }
    }
}

impl Stored for ActivitySkippedFile {
    type Said = SkippedFileView;

    open spec fn said(&self) -> SkippedFileView {
        self@
    }

    open spec fn tree_of(v: SkippedFileView) -> JsonView {
        JsonView::Object(
            seq![
                ("path"@, JsonView::Text(v.path)),
                ("reason"@, JsonView::Text(v.reason)),
            ],
        )
    }

    open spec fn value_in(item: JsonView) -> Result<SkippedFileView, Seq<char>> {
        let v = as_object(item, seq!["path"@, "reason"@], 2);
        match (
            text_member(v, "path"@),
            text_member(v, "reason"@),
        ) {
            (Ok(path), Ok(reason)) => Ok(SkippedFileView { path, reason }),
            (Err(e), _) => Err(e),
            (_, Err(e)) => Err(e),
        }
    }

    proof fn lemma_read_back(v: SkippedFileView) {
        reveal_strlit("path");
        reveal_strlit("reason");
        reveal_with_fuel(is_plain, 2);
        assert("path"@.len() == 4);
        assert("reason"@.len() == 6);
        assert("path"@ != "reason"@);
        let tree = Self::tree_of(v);
        let members = tree->Object_0;
        assert(names_differ(members));
        lemma_member_at(members, 0);
        lemma_member_at(members, 1);
    }

    fn to_tree(&self) -> (r: Json) {
        let mut members: Vec<(String, Json)> = Vec::new();
        members.push(("path".to_owned(), Json::Text(self.path.clone())));
        members.push(("reason".to_owned(), Json::Text(self.reason.clone())));
        assert(members_view(members@) =~= Self::tree_of(self@)->Object_0);
        Json::Object(members)
    }

    fn from_tree(v: &Json) -> (r: Result<Self, String>) {
        let fields: [&'static str; 2] = ["path", "reason"];
        assert(str_views(fields@) =~= seq!["path"@, "reason"@]);
        let listed = list_as_object(v, &fields, 2);
        let v = match &listed {
            Some(object) => object,
            None => v,
        };
        let path = match need_text_member(v, "path") {
            Ok(x) => x,
            Err(e) => {
                return Err(e);
            },
        };
        let reason = match need_text_member(v, "reason") {
            Ok(x) => x,
            Err(e) => {
                return Err(e);
            },
        };
        Ok(ActivitySkippedFile { path, reason })
    }
}

/// What a file gave to a load.
#[derive(Debug, PartialEq, Eq)]
pub struct ActivityFileCount {
    pub path: String,
    pub inserted: usize,
    /// How many records were skipped; 0 in entries that were saved without it.
    pub records_skipped: usize,
}

/// The view of a [`ActivityFileCount`].
#[verifier::ext_equal]
pub struct FileCountView {
    pub path: Seq<char>,
    pub inserted: usize,
    pub records_skipped: usize,
}

impl View for ActivityFileCount {
    type V = FileCountView;

    open spec fn view(&self) -> FileCountView {
        FileCountView {
            path: self.path@,
            inserted: self.inserted,
            records_skipped: self.records_skipped,
        }
    }
}

impl Clone for ActivityFileCount {
    fn clone(&self) -> (r: Self)
        ensures
            r@ == self@,
    {
        ActivityFileCount {
            path: self.path.clone(),
            inserted: self.inserted,
            records_skipped: self.records_skipped,
        }
    }
}

impl Stored for ActivityFileCount {
    type Said = FileCountView;

    open spec fn said(&self) -> FileCountView {
        self@
    }

    open spec fn tree_of(v: FileCountView) -> JsonView {
        JsonView::Object(
            seq![
                ("path"@, JsonView::Text(v.path)),
                ("inserted"@, JsonView::Unsigned(v.inserted as u64)),
                ("records_skipped"@, JsonView::Unsigned(v.records_skipped as u64)),
            ],
        )
    }

    open spec fn value_in(item: JsonView) -> Result<FileCountView, Seq<char>> {
        let v = as_object(item, seq!["path"@, "inserted"@, "records_skipped"@], 2);
        match (
            text_member(v, "path"@),
            size_member(v, "inserted"@),
            size_member_or_zero(v, "records_skipped"@),
        ) {
            (Ok(path), Ok(inserted), Ok(records_skipped)) => Ok(FileCountView { path, inserted, records_skipped }),
            (Err(e), _, _) => Err(e),
            (_, Err(e), _) => Err(e),
            (_, _, Err(e)) => Err(e),
        }
    }

    proof fn lemma_read_back(v: FileCountView) {
        reveal_strlit("path");
        reveal_strlit("inserted");
        reveal_strlit("records_skipped");
        reveal_with_fuel(is_plain, 2);
        assert("path"@.len() == 4);
        assert("inserted"@.len() == 8);
        assert("records_skipped"@.len() == 15);
        assert("path"@ != "inserted"@);
        assert("path"@ != "records_skipped"@);
        assert("inserted"@ != "records_skipped"@);
        let tree = Self::tree_of(v);
        let members = tree->Object_0;
        assert(names_differ(members));
        lemma_member_at(members, 0);
        lemma_member_at(members, 1);
        lemma_member_at(members, 2);
    }

    fn to_tree(&self) -> (r: Json) {
        let mut members: Vec<(String, Json)> = Vec::new();
        members.push(("path".to_owned(), Json::Text(self.path.clone())));
        members.push(("inserted".to_owned(), Json::Unsigned(self.inserted as u64)));
        members.push(("records_skipped".to_owned(), Json::Unsigned(self.records_skipped as u64)));
        assert(members_view(members@) =~= Self::tree_of(self@)->Object_0);
        Json::Object(members)
    }

    fn from_tree(v: &Json) -> (r: Result<Self, String>) {
        let fields: [&'static str; 3] = ["path", "inserted", "records_skipped"];
        assert(str_views(fields@) =~= seq!["path"@, "inserted"@, "records_skipped"@]);
        let listed = list_as_object(v, &fields, 2);
        let v = match &listed {
            Some(object) => object,
            None => v,
        };
        let path = match need_text_member(v, "path") {
            Ok(x) => x,
            Err(e) => {
                return Err(e);
            },
        };
        let inserted: usize = match need_size_member(v, "inserted") {
            Ok(x) => x,
            Err(e) => {
                return Err(e);
            },
        };
        let records_skipped: usize = match size_member_else_zero(v, "records_skipped") {
            Ok(x) => x,
            Err(e) => {
                return Err(e);
            },
        };
        Ok(ActivityFileCount { path, inserted, records_skipped })
    }
}

/// How many entries a rule tagged.
#[derive(Debug, PartialEq, Eq)]
pub struct ActivityRuleCount {
    pub rule_name: String,
    pub count: usize,
    /// The version of the rule, if it says one.
    pub version: Option<String>,
}

/// The view of a [`ActivityRuleCount`].
#[verifier::ext_equal]
pub struct RuleCountView {
    pub rule_name: Seq<char>,
    pub count: usize,
    pub version: Option<Seq<char>>,
}

impl View for ActivityRuleCount {
    type V = RuleCountView;

    open spec fn view(&self) -> RuleCountView {
        RuleCountView {
            rule_name: self.rule_name@,
            count: self.count,
            version: opt_text(self.version),
        }
    }
}

impl Clone for ActivityRuleCount {
    fn clone(&self) -> (r: Self)
        ensures
            r@ == self@,
    {
        ActivityRuleCount {
            rule_name: self.rule_name.clone(),
            count: self.count,
            version: self.version.clone(),
        }
    }
}

impl Stored for ActivityRuleCount {
    type Said = RuleCountView;

    open spec fn said(&self) -> RuleCountView {
        self@
    }

    open spec fn tree_of(v: RuleCountView) -> JsonView {
        JsonView::Object(
            seq![
                ("rule_name"@, JsonView::Text(v.rule_name)),
                ("count"@, JsonView::Unsigned(v.count as u64)),
                ("version"@, optional_tree(v.version)),
            ],
        )
    }

    open spec fn value_in(item: JsonView) -> Result<RuleCountView, Seq<char>> {
        let v = as_object(item, seq!["rule_name"@, "count"@, "version"@], 2);
        match (
            text_member(v, "rule_name"@),
            size_member(v, "count"@),
            optional_text_member(v, "version"@),
        ) {
            (Ok(rule_name), Ok(count), Ok(version)) => Ok(RuleCountView { rule_name, count, version }),
            (Err(e), _, _) => Err(e),
            (_, Err(e), _) => Err(e),
            (_, _, Err(e)) => Err(e),
        }
    }

    proof fn lemma_read_back(v: RuleCountView) {
        reveal_strlit("rule_name");
        reveal_strlit("count");
        reveal_strlit("version");
        reveal_with_fuel(is_plain, 2);
        assert("rule_name"@.len() == 9);
        assert("count"@.len() == 5);
        assert("version"@.len() == 7);
        assert("rule_name"@ != "count"@);
        assert("rule_name"@ != "version"@);
        assert("count"@ != "version"@);
        let tree = Self::tree_of(v);
        let members = tree->Object_0;
        assert(names_differ(members));
        lemma_member_at(members, 0);
        lemma_member_at(members, 1);
        lemma_member_at(members, 2);
    }

    fn to_tree(&self) -> (r: Json) {
        let mut members: Vec<(String, Json)> = Vec::new();
        members.push(("rule_name".to_owned(), Json::Text(self.rule_name.clone())));
        members.push(("count".to_owned(), Json::Unsigned(self.count as u64)));
        members.push(("version".to_owned(), optional_json(&self.version)));
        assert(members_view(members@) =~= Self::tree_of(self@)->Object_0);
        Json::Object(members)
    }

    fn from_tree(v: &Json) -> (r: Result<Self, String>) {
        let fields: [&'static str; 3] = ["rule_name", "count", "version"];
        assert(str_views(fields@) =~= seq!["rule_name"@, "count"@, "version"@]);
        let listed = list_as_object(v, &fields, 2);
        let v = match &listed {
            Some(object) => object,
            None => v,
        };
        let rule_name = match need_text_member(v, "rule_name") {
            Ok(x) => x,
            Err(e) => {
                return Err(e);
            },
        };
        let count: usize = match need_size_member(v, "count") {
            Ok(x) => x,
            Err(e) => {
                return Err(e);
            },
        };
        let version = match may_text_member(v, "version") {
            Ok(x) => x,
            Err(e) => {
                return Err(e);
            },
        };
        Ok(ActivityRuleCount { rule_name, count, version })
    }
}

/// The text that the sources of a session are stored as.
pub fn loaded_sources_text(sources: &Vec<LoadedSource>) -> (r: String)
    ensures
        r@ == json_text(list_tree::<LoadedSource>(all_said(sources@))),
{
    store_list(sources)
}

/// The sources of a session by what is stored of them, if anything is, or why that
/// cannot be read. What was stored is read back.
pub fn read_loaded_sources(stored: Option<&str>) -> (r: Result<Vec<LoadedSource>, String>)
    ensures
        match stored {
            None => r matches Ok(v) && v@.len() == 0,
            Some(text) => match r {
                Ok(v) => stored_list::<LoadedSource>(text@) == Ok::<
                    Seq<LoadedSourceView>,
                    Seq<char>,
                >(all_said(v@)),
                Err(e) => stored_list::<LoadedSource>(text@) == Err::<
                    Seq<LoadedSourceView>,
                    Seq<char>,
                >(e@),
            },
        },
        forall|l: Seq<LoadedSourceView>|
            (stored matches Some(text) && text@ == json_text(
                #[trigger] list_tree::<LoadedSource>(l),
            )) ==> (r matches Ok(v) && all_said(v@) == l),
{
    match stored {
        None => Ok(Vec::new()),
        Some(text) => load_list(text),
    }
}

/// Where a session that was imported came from.
#[derive(Debug, PartialEq, Eq)]
pub struct ImportedFrom {
    pub original_session_id: String,
    pub exported_at: Timestamp,
    pub exporting_peach_version: String,
    /// The search that the export was limited to; empty for all.
    pub filter_query: String,
}

/// The view of [`ImportedFrom`].
#[verifier::ext_equal]
pub struct ImportedFromView {
    pub original_session_id: Seq<char>,
    pub exported_at: Timestamp,
    pub exporting_peach_version: Seq<char>,
    pub filter_query: Seq<char>,
}

impl View for ImportedFrom {
    type V = ImportedFromView;

    open spec fn view(&self) -> ImportedFromView {
        ImportedFromView {
            original_session_id: self.original_session_id@,
            exported_at: self.exported_at,
            exporting_peach_version: self.exporting_peach_version@,
            filter_query: self.filter_query@,
        }
    }
}

/// The JSON that stands for where a session came from, if the instant has a text.
pub open spec fn imported_tree(v: ImportedFromView) -> Option<JsonView> {
    match iso_text(v.exported_at.seconds, v.exported_at.nanos) {
        None => None,
        Some(time) => Some(
            JsonView::Object(
                seq![
                    ("original_session_id"@, JsonView::Text(v.original_session_id)),
                    ("exported_at"@, JsonView::Text(time)),
                    ("exporting_peach_version"@, JsonView::Text(v.exporting_peach_version)),
                    ("filter_query"@, JsonView::Text(v.filter_query)),
                ],
            ),
        ),
    }
}

/// The fields of where a session came from, in their order.
pub open spec fn imported_fields() -> Seq<Seq<char>> {
    seq![
        "original_session_id"@,
        "exported_at"@,
        "exporting_peach_version"@,
        "filter_query"@,
    ]
}

/// Where a session came from by JSON, or why that says nothing.
pub open spec fn imported_in(item: JsonView) -> Result<ImportedFromView, Seq<char>> {
    let v = as_object(item, imported_fields(), 4);
    match (
        text_member(v, "original_session_id"@),
        text_member(v, "exported_at"@),
        text_member(v, "exporting_peach_version"@),
        text_member(v, "filter_query"@),
    ) {
        (
            Ok(original_session_id),
            Ok(time),
            Ok(exporting_peach_version),
            Ok(filter_query),
        ) => match iso_instant(time) {
            Ok(exported_at) => Ok(
                ImportedFromView {
                    original_session_id,
                    exported_at,
                    exporting_peach_version,
                    filter_query,
                },
            ),
            Err(e) => Err(e),
        },
        (Err(e), _, _, _) => Err(e),
        (_, Err(e), _, _) => Err(e),
        (_, _, Err(e), _) => Err(e),
        (_, _, _, Err(e)) => Err(e),
    }
}

/// The text that is stored of where a session came from, if the instant has one.
pub fn imported_from_text(info: &ImportedFrom) -> (r: Option<String>)
    ensures
        opt_text(r) == (match imported_tree(info@) {
            Some(tree) => Some(json_text(tree)),
            None => None,
        }),
{
    let time = match print_iso(info.exported_at.seconds, info.exported_at.nanos) {
        Some(time) => time,
        None => {
            return None;
        },
    };
    let mut members: Vec<(String, Json)> = Vec::new();
    members.push(
        ("original_session_id".to_owned(), Json::Text(info.original_session_id.clone())),
    );
    members.push(("exported_at".to_owned(), Json::Text(time)));
    members.push(
        ("exporting_peach_version".to_owned(), Json::Text(info.exporting_peach_version.clone())),
    );
    members.push(("filter_query".to_owned(), Json::Text(info.filter_query.clone())));
    let tree = Json::Object(members);
    assert(members_view(members@) =~= imported_tree(info@)->0->Object_0);
    Some(tree.to_text())
}

/// Whether JSON has the members of where a session came from.
spec fn has_imported_members(tree: JsonView, v: ImportedFromView, time: Seq<char>) -> bool {
    &&& text_member(tree, "original_session_id"@) == Ok::<Seq<char>, Seq<char>>(
        v.original_session_id,
    )
    &&& text_member(tree, "exported_at"@) == Ok::<Seq<char>, Seq<char>>(time)
    &&& text_member(tree, "exporting_peach_version"@) == Ok::<Seq<char>, Seq<char>>(
        v.exporting_peach_version,
    )
    &&& text_member(tree, "filter_query"@) == Ok::<Seq<char>, Seq<char>>(v.filter_query)
}

proof fn lemma_imported_read_back(v: ImportedFromView)
    requires
        imported_tree(v) is Some,
    ensures
        is_plain(imported_tree(v)->0, 100),
        has_imported_members(
            imported_tree(v)->0,
            v,
            iso_text(v.exported_at.seconds, v.exported_at.nanos)->0,
        ),
{
    reveal_strlit("original_session_id");
    reveal_strlit("exported_at");
    reveal_strlit("exporting_peach_version");
    reveal_strlit("filter_query");
    reveal_with_fuel(is_plain, 2);
    assert("original_session_id"@.len() == 19);
    assert("exported_at"@.len() == 11);
    assert("exporting_peach_version"@.len() == 23);
    assert("filter_query"@.len() == 12);
    assert("original_session_id"@ != "exported_at"@);
    assert("original_session_id"@ != "exporting_peach_version"@);
    assert("original_session_id"@ != "filter_query"@);
    assert("exported_at"@ != "exporting_peach_version"@);
    assert("exported_at"@ != "filter_query"@);
    assert("exporting_peach_version"@ != "filter_query"@);
    let members = imported_tree(v)->0->Object_0;
    assert(names_differ(members));
    lemma_member_at(members, 0);
    lemma_member_at(members, 1);
    lemma_member_at(members, 2);
    lemma_member_at(members, 3);
}

fn imported_from_tree(v: &Json) -> (r: Result<ImportedFrom, String>)
    ensures
        match r {
            Ok(info) => imported_in(v@) == Ok::<ImportedFromView, Seq<char>>(info@),
            Err(e) => imported_in(v@) == Err::<ImportedFromView, Seq<char>>(e@),
        },
        forall|info: ImportedFromView|
            (#[trigger] imported_tree(info) == Some(v@) && has_four_digit_year(info.exported_at))
                ==> (r matches Ok(got) && got@ == info),
{
    proof {
        assert forall|info: ImportedFromView| #[trigger]
            imported_tree(info) == Some(v@) implies has_imported_members(
            v@,
            info,
            iso_text(info.exported_at.seconds, info.exported_at.nanos)->0,
        ) by {
            lemma_imported_read_back(info);
        }
    }
    let fields: [&'static str; 4] = [
        "original_session_id",
        "exported_at",
        "exporting_peach_version",
        "filter_query",
    ];
    assert(str_views(fields@) =~= imported_fields());
    let listed = list_as_object(v, &fields, 4);
    let v = match &listed {
        Some(object) => object,
        None => v,
    };
    let original_session_id = match need_text_member(v, "original_session_id") {
        Ok(x) => x,
        Err(e) => {
            return Err(e);
        },
    };
    let time = match need_text_member(v, "exported_at") {
        Ok(x) => x,
        Err(e) => {
            return Err(e);
        },
    };
    let exporting_peach_version = match need_text_member(v, "exporting_peach_version") {
        Ok(x) => x,
        Err(e) => {
            return Err(e);
        },
    };
    let filter_query = match need_text_member(v, "filter_query") {
        Ok(x) => x,
        Err(e) => {
            return Err(e);
        },
    };
    match read_iso(time.as_str()) {
        Ok(exported_at) => Ok(
            ImportedFrom { original_session_id, exported_at, exporting_peach_version, filter_query },
        ),
        Err(e) => Err(e),
    }
}

/// Where a session came from by what is stored of it, if anything is, or why that
/// cannot be read. What was stored is read back, for instants of the years 0 to
/// 9999.
pub fn read_imported_from(stored: Option<&str>) -> (r: Result<Option<ImportedFrom>, String>)
    ensures
        match stored {
            None => r matches Ok(None),
            Some(text) => match parsed_json(text@) {
                Err(e) => r matches Err(got) && got@ == e,
                Ok(v) => match imported_in(v) {
                    Err(e) => r matches Err(got) && got@ == e,
                    Ok(info) => r matches Ok(Some(got)) && got@ == info,
                },
            },
        },
        forall|info: ImportedFromView|
            (stored matches Some(text) && is_text_of(text@, #[trigger] imported_tree(info))
                && has_four_digit_year(info.exported_at)) ==> (r matches Ok(Some(got)) && got@
                == info),
{
    let text = match stored {
        Some(text) => text,
        None => {
            return Ok(None);
        },
    };
    proof {
        assert forall|info: ImportedFromView|
            is_text_of(text@, #[trigger] imported_tree(info)) implies is_plain(
            imported_tree(info)->0,
            100,
        ) by {
            lemma_imported_read_back(info);
        }
    }
    match parse_json(text) {
        Ok(v) => match imported_from_tree(&v) {
            Ok(info) => Ok(Some(info)),
            Err(e) => Err(e),
        },
        Err(e) => Err(e),
    }
}

/// Whether a text is the compact text of a value, if there is one.
pub open spec fn is_text_of(text: Seq<char>, tree: Option<JsonView>) -> bool {
    match tree {
        Some(tree) => text == json_text(tree),
        None => false,
    }
}

/// What a load, a new tagging or an import did, to be stored.
#[derive(Debug)]
pub struct NewActivityLogEntry {
    pub operation: String,
    pub started_at: i64,
    pub finished_at: i64,
    pub source_path: Option<String>,
    pub sourcetype: Option<String>,
    pub status: String,
    pub error: Option<String>,
    pub entries_inserted: Option<i64>,
    pub tags_applied: Option<i64>,
    pub skipped: Vec<ActivitySkippedFile>,
    pub per_file: Vec<ActivityFileCount>,
    pub tags_by_rule: Vec<ActivityRuleCount>,
    pub skip_bad_records_enabled: bool,
}

/// What was stored of a load, a new tagging or an import.
#[derive(Debug, PartialEq, Eq)]
pub struct ActivityLogEntry {
    pub id: i64,
    pub operation: String,
    pub started_at: i64,
    pub finished_at: i64,
    pub source_path: Option<String>,
    pub sourcetype: Option<String>,
    pub status: String,
    pub error: Option<String>,
    pub entries_inserted: Option<i64>,
    pub tags_applied: Option<i64>,
    pub skipped: Vec<ActivitySkippedFile>,
    pub per_file: Vec<ActivityFileCount>,
    pub tags_by_rule: Vec<ActivityRuleCount>,
    pub skip_bad_records_enabled: bool,
}

/// The view of a [`NewActivityLogEntry`], and of an [`ActivityLogEntry`] but for its
/// number.
#[verifier::ext_equal]
pub struct ActivityView {
    pub operation: Seq<char>,
    pub started_at: i64,
    pub finished_at: i64,
    pub source_path: Option<Seq<char>>,
    pub sourcetype: Option<Seq<char>>,
    pub status: Seq<char>,
    pub error: Option<Seq<char>>,
    pub entries_inserted: Option<i64>,
    pub tags_applied: Option<i64>,
    pub skipped: Seq<SkippedFileView>,
    pub per_file: Seq<FileCountView>,
    pub tags_by_rule: Seq<RuleCountView>,
    pub skip_bad_records_enabled: bool,
}

impl View for NewActivityLogEntry {
    type V = ActivityView;

    open spec fn view(&self) -> ActivityView {
        ActivityView {
            operation: self.operation@,
            started_at: self.started_at,
            finished_at: self.finished_at,
            source_path: opt_text(self.source_path),
            sourcetype: opt_text(self.sourcetype),
            status: self.status@,
            error: opt_text(self.error),
            entries_inserted: self.entries_inserted,
            tags_applied: self.tags_applied,
            skipped: all_said(self.skipped@),
            per_file: all_said(self.per_file@),
            tags_by_rule: all_said(self.tags_by_rule@),
            skip_bad_records_enabled: self.skip_bad_records_enabled,
        }
    }
}

impl View for ActivityLogEntry {
    type V = ActivityView;

    open spec fn view(&self) -> ActivityView {
        ActivityView {
            operation: self.operation@,
            started_at: self.started_at,
            finished_at: self.finished_at,
            source_path: opt_text(self.source_path),
            sourcetype: opt_text(self.sourcetype),
            status: self.status@,
            error: opt_text(self.error),
            entries_inserted: self.entries_inserted,
            tags_applied: self.tags_applied,
            skipped: all_said(self.skipped@),
            per_file: all_said(self.per_file@),
            tags_by_rule: all_said(self.tags_by_rule@),
            skip_bad_records_enabled: self.skip_bad_records_enabled,
        }
    }
}

/// A row of the table that activities are stored in: the lists are texts.
#[derive(Debug)]
pub struct ActivityRow {
    pub id: i64,
    pub operation: String,
    pub started_at: i64,
    pub finished_at: i64,
    pub source_path: Option<String>,
    pub sourcetype: Option<String>,
    pub status: String,
    pub error: Option<String>,
    pub entries_inserted: Option<i64>,
    pub tags_applied: Option<i64>,
    pub skipped: String,
    pub per_file: String,
    pub tags_by_rule: String,
    pub skip_bad_records_enabled: bool,
}

/// Whether a row holds an activity, with these texts for its lists.
pub open spec fn row_holds(
    row: ActivityRow,
    entry: ActivityView,
    skipped: Seq<char>,
    per_file: Seq<char>,
    tags_by_rule: Seq<char>,
) -> bool {
    &&& row.operation@ == entry.operation
    &&& row.started_at == entry.started_at
    &&& row.finished_at == entry.finished_at
    &&& opt_text(row.source_path) == entry.source_path
    &&& opt_text(row.sourcetype) == entry.sourcetype
    &&& row.status@ == entry.status
    &&& opt_text(row.error) == entry.error
    &&& row.entries_inserted == entry.entries_inserted
    &&& row.tags_applied == entry.tags_applied
    &&& row.skipped@ == skipped
    &&& row.per_file@ == per_file
    &&& row.tags_by_rule@ == tags_by_rule
    &&& row.skip_bad_records_enabled == entry.skip_bad_records_enabled
}

/// The row that an activity is stored as, under a number.
pub fn activity_row(id: i64, entry: NewActivityLogEntry) -> (r: ActivityRow)
    ensures
        r.id == id,
        row_holds(
            r,
            entry@,
            json_text(list_tree::<ActivitySkippedFile>(entry@.skipped)),
            json_text(list_tree::<ActivityFileCount>(entry@.per_file)),
            json_text(list_tree::<ActivityRuleCount>(entry@.tags_by_rule)),
        ),
{
    let skipped = store_list(&entry.skipped);
    let per_file = store_list(&entry.per_file);
    let tags_by_rule = store_list(&entry.tags_by_rule);
    ActivityRow {
        id,
        operation: entry.operation,
        started_at: entry.started_at,
        finished_at: entry.finished_at,
        source_path: entry.source_path,
        sourcetype: entry.sourcetype,
        status: entry.status,
        error: entry.error,
        entries_inserted: entry.entries_inserted,
        tags_applied: entry.tags_applied,
        skipped,
        per_file,
        tags_by_rule,
        skip_bad_records_enabled: entry.skip_bad_records_enabled,
    }
}

/// What a row says, or why it cannot be read.
pub open spec fn activity_in(row: ActivityRow) -> Result<ActivityView, Seq<char>> {
    match (
        stored_list::<ActivitySkippedFile>(row.skipped@),
        stored_list::<ActivityFileCount>(row.per_file@),
        stored_list::<ActivityRuleCount>(row.tags_by_rule@),
    ) {
        (Ok(skipped), Ok(per_file), Ok(tags_by_rule)) => Ok(
            ActivityView {
                operation: row.operation@,
                started_at: row.started_at,
                finished_at: row.finished_at,
                source_path: opt_text(row.source_path),
                sourcetype: opt_text(row.sourcetype),
                status: row.status@,
                error: opt_text(row.error),
                entries_inserted: row.entries_inserted,
                tags_applied: row.tags_applied,
                skipped,
                per_file,
                tags_by_rule,
                skip_bad_records_enabled: row.skip_bad_records_enabled,
            },
        ),
        (Err(e), _, _) => Err(
            "failed to deserialize activity_log skipped-files list: "@ + e,
        ),
        (_, Err(e), _) => Err("failed to deserialize activity_log per-file breakdown: "@ + e),
        (_, _, Err(e)) => Err("failed to deserialize activity_log per-rule breakdown: "@ + e),
    }
}

fn say_after(head: &str, reason: &str) -> (r: String)
    ensures
        r@ == head@ + reason@,
{
    let mut e = head.to_owned();
    e.append(reason);
    e
}

/// What a row says, or why it cannot be read. A row that an activity was stored as
/// gives the activity back.
pub fn read_activity_row(row: ActivityRow) -> (r: Result<ActivityLogEntry, String>)
    ensures
        match r {
            Ok(entry) => activity_in(row) == Ok::<ActivityView, Seq<char>>(entry@) && entry.id
                == row.id,
            Err(e) => activity_in(row) == Err::<ActivityView, Seq<char>>(e@),
        },
        forall|entry: ActivityView|
            #[trigger] row_holds(
                row,
                entry,
                json_text(list_tree::<ActivitySkippedFile>(entry.skipped)),
                json_text(list_tree::<ActivityFileCount>(entry.per_file)),
                json_text(list_tree::<ActivityRuleCount>(entry.tags_by_rule)),
            ) ==> (r matches Ok(got) && got@ == entry),
{
    let skipped = match load_list::<ActivitySkippedFile>(row.skipped.as_str()) {
        Ok(v) => v,
        Err(e) => {
            return Err(
                say_after(
                    "failed to deserialize activity_log skipped-files list: ",
                    e.as_str(),
                ),
            );
        },
    };
    let per_file = match load_list::<ActivityFileCount>(row.per_file.as_str()) {
        Ok(v) => v,
        Err(e) => {
            return Err(
                say_after("failed to deserialize activity_log per-file breakdown: ", e.as_str()),
            );
        },
    };
    let tags_by_rule = match load_list::<ActivityRuleCount>(row.tags_by_rule.as_str()) {
        Ok(v) => v,
        Err(e) => {
            return Err(
                say_after("failed to deserialize activity_log per-rule breakdown: ", e.as_str()),
            );
        },
    };
    Ok(
        ActivityLogEntry {
            id: row.id,
            operation: row.operation,
            started_at: row.started_at,
            finished_at: row.finished_at,
            source_path: row.source_path,
            sourcetype: row.sourcetype,
            status: row.status,
            error: row.error,
            entries_inserted: row.entries_inserted,
            tags_applied: row.tags_applied,
            skipped,
            per_file,
            tags_by_rule,
            skip_bad_records_enabled: row.skip_bad_records_enabled,
        },
    )
}

/// A text on an event, as a row of a table.
#[derive(Debug)]
pub struct EventRow {
    pub source_file_id: String,
    pub sequence_number: i64,
    pub text: String,
}

/// The texts on an event.
#[derive(Debug)]
pub struct EventTexts {
    pub event_id: EventId,
    pub texts: Vec<String>,
}

/// The event that a row belongs to.
pub open spec fn row_event(row: EventRow) -> EventIdView {
    EventIdView {
        source_file_id: row.source_file_id@,
        sequence_number: row.sequence_number as u64,
    }
}

/// The events of rows, each once, in the order in which they first occur.
pub open spec fn events_of(rows: Seq<EventRow>) -> Seq<EventIdView>
    decreases rows.len(),
{
    if rows.len() == 0 {
        seq![]
    } else {
        let before = events_of(rows.drop_last());
        if before.contains(row_event(rows.last())) {
            before
        } else {
            before.push(row_event(rows.last()))
        }
    }
}

/// The texts of the rows that belong to an event, in their order.
pub open spec fn texts_on(rows: Seq<EventRow>, event: EventIdView) -> Seq<Seq<char>>
    decreases rows.len(),
{
    if rows.len() == 0 {
        seq![]
    } else {
        let before = texts_on(rows.drop_last(), event);
        if row_event(rows.last()) == event {
            before.push(rows.last().text@)
        } else {
            before
        }
    }
}

/// Whether groups are the events of rows, each with its texts.
pub open spec fn groups_rows(groups: Seq<EventTexts>, rows: Seq<EventRow>) -> bool {
    &&& groups.len() == events_of(rows).len()
    &&& forall|i: int|
        0 <= i < groups.len() ==> {
            &&& (#[trigger] groups[i]).event_id@ == events_of(rows)[i]
            &&& texts(groups[i].texts@) == texts_on(rows, events_of(rows)[i])
        }
}

proof fn lemma_texts_on_absent(rows: Seq<EventRow>, event: EventIdView)
    requires
        !events_of(rows).contains(event),
    ensures
        texts_on(rows, event) == Seq::<Seq<char>>::empty(),
    decreases rows.len(),
{
    if rows.len() > 0 {
        let before = events_of(rows.drop_last());
        let all = events_of(rows);
        if before.contains(event) {
            let i = choose|i: int| 0 <= i < before.len() && before[i] == event;
            assert(all[i] == event);
        }
        lemma_texts_on_absent(rows.drop_last(), event);
        if row_event(rows.last()) == event {
            assert(all[all.len() - 1] == event);
        }
    }
}

proof fn lemma_events_differ(rows: Seq<EventRow>)
    ensures
        forall|i: int, j: int|
            0 <= i < j < events_of(rows).len() ==> events_of(rows)[i] != events_of(rows)[j],
    decreases rows.len(),
{
    if rows.len() > 0 {
        lemma_events_differ(rows.drop_last());
        let before = events_of(rows.drop_last());
        let all = events_of(rows);
        assert forall|i: int, j: int| 0 <= i < j < all.len() implies all[i] != all[j] by {
            assert(all[i] == before[i]);
            if j < before.len() {
                assert(all[j] == before[j]);
            } else {
                assert(before.contains(before[i]));
            }
        }
    }
}

/// The texts of rows by the events that they belong to: the tags, or the notes, of
/// a session.
pub fn group_by_event(rows: &Vec<EventRow>) -> (r: Vec<EventTexts>)
    ensures
        groups_rows(r@, rows@),
{
    let mut r: Vec<EventTexts> = Vec::new();
    let mut i: usize = 0;
    while i < rows.len()
        invariant
            i <= rows.len(),
            groups_rows(r@, rows@.take(i as int)),
        decreases rows.len() - i,
    {
        let ghost done = rows@.take(i as int);
        let ghost next = rows@.take(i + 1);
        let ghost before = r@;
        let ghost event = row_event(rows@[i as int]);
        proof {
            assert(next.drop_last() == done);
            assert(next.last() == rows@[i as int]);
            lemma_events_differ(done);
        }
        let sequence_number: u64 = rows[i].sequence_number as u64;
        let mut k: usize = 0;
        while k < r.len() && !(r[k].event_id.sequence_number == sequence_number && same(
            r[k].event_id.source_file_id.as_str(),
            rows[i].source_file_id.as_str(),
        ))
            invariant
                i < rows.len(),
                k <= r.len(),
                r@ == before,
                event == row_event(rows@[i as int]),
                sequence_number == event.sequence_number,
                forall|j: int| 0 <= j < k ==> (#[trigger] r@[j]).event_id@ != event,
            decreases r.len() - k,
        {
            k += 1;
        }
        let text = rows[i].text.clone();
        if k < r.len() {
            assert(r@[k as int].event_id@ == event);
            assert(events_of(done)[k as int] == event);
            assert(events_of(next) == events_of(done));
            let mut group = r.remove(k);
            let ghost old_texts = group.texts@;
            group.texts.push(text);
            proof {
                assert(texts(group.texts@) =~= texts(old_texts).push(text@));
            }
            r.insert(k, group);
            proof {
                assert forall|j: int| 0 <= j < r@.len() implies {
                    &&& (#[trigger] r@[j]).event_id@ == events_of(next)[j]
                    &&& texts(r@[j].texts@) == texts_on(next, events_of(next)[j])
                } by {
                    if j == k {
                        assert(r@[j] == group);
                        assert(before[k as int].event_id@ == event);
                    } else {
                        assert(r@[j] == before[j]);
                        assert(events_of(next)[j] != event);
                    }
                }
            }
        } else {
            proof {
                assert(!events_of(done).contains(event)) by {
                    if events_of(done).contains(event) {
                        let j = choose|j: int|
                            0 <= j < events_of(done).len() && events_of(done)[j] == event;
                        assert(before[j].event_id@ == event);
                    }
                }
                lemma_texts_on_absent(done, event);
            }
            let mut list: Vec<String> = Vec::new();
            list.push(text);
            let group = EventTexts {
                event_id: EventId {
                    source_file_id: rows[i].source_file_id.clone(),
                    sequence_number,
                },
                texts: list,
            };
            assert(texts(group.texts@) =~= seq![text@]);
            r.push(group);
            proof {
                assert(events_of(next) == events_of(done).push(event));
                assert forall|j: int| 0 <= j < r@.len() implies {
                    &&& (#[trigger] r@[j]).event_id@ == events_of(next)[j]
                    &&& texts(r@[j].texts@) == texts_on(next, events_of(next)[j])
                } by {
                    if j < before.len() {
                        assert(r@[j] == before[j]);
                        assert(events_of(next)[j] == events_of(done)[j]);
                        assert(events_of(done)[j] != event) by {
                            assert(before[j].event_id@ != event);
                        }
                    }
                }
            }
        }
        i += 1;
    }
    assert(rows@.take(i as int) == rows@);
    r
}

/// Why rows cannot be read, if they cannot: the first that belongs to no event.
pub open spec fn rows_problem(rows: Seq<EventRow>) -> Option<Seq<char>>
    decreases rows.len(),
{
    if rows.len() == 0 {
        None
    } else {
        match rows_problem(rows.drop_last()) {
            Some(e) => Some(e),
            None => match stored_event_id(
                rows.last().source_file_id@,
                rows.last().sequence_number,
            ) {
                Ok(_) => None,
                Err(e) => Some(e),
            },
        }
    }
}

/// Whether a row is another one with its source by the text that it is written as.
pub open spec fn is_row_read(stored: EventRow, row: EventRow) -> bool {
    &&& stored_event_id(stored.source_file_id@, stored.sequence_number) == Ok::<
        EventIdView,
        Seq<char>,
    >(row_event(row))
    &&& row.text@ == stored.text@
}

/// Whether rows are others with their sources by the texts that they are written as.
pub open spec fn are_rows_read(stored: Seq<EventRow>, rows: Seq<EventRow>) -> bool {
    &&& rows.len() == stored.len()
    &&& forall|i: int| 0 <= i < rows.len() ==> is_row_read(stored[i], #[trigger] rows[i])
}

proof fn lemma_problem_stays(rows: Seq<EventRow>, n: int)
    requires
        0 <= n <= rows.len(),
        rows_problem(rows.take(n)) is Some,
    ensures
        rows_problem(rows) == rows_problem(rows.take(n)),
    decreases rows.len() - n,
{
    if n < rows.len() {
        assert(rows.take(n + 1).drop_last() == rows.take(n));
        lemma_problem_stays(rows, n + 1);
    } else {
        assert(rows.take(n) == rows);
    }
}

/// The texts of stored rows by the events that they belong to, or why one belongs to
/// none.
pub fn read_event_texts(stored: &Vec<EventRow>) -> (r: Result<Vec<EventTexts>, String>)
    ensures
        match r {
            Ok(groups) => {
                &&& rows_problem(stored@) is None
                &&& exists|rows: Seq<EventRow>| #[trigger]
                    are_rows_read(stored@, rows) && groups_rows(groups@, rows)
            },
            Err(e) => rows_problem(stored@) == Some(e@),
        },
{
    let mut rows: Vec<EventRow> = Vec::new();
    let mut i: usize = 0;
    while i < stored.len()
        invariant
            i <= stored.len(),
            are_rows_read(stored@.take(i as int), rows@),
            rows_problem(stored@.take(i as int)) is None,
        decreases stored.len() - i,
    {
        proof {
            assert(stored@.take(i + 1).drop_last() == stored@.take(i as int));
            assert(stored@.take(i + 1).last() == stored@[i as int]);
        }
        match read_event_id(stored[i].source_file_id.as_str(), stored[i].sequence_number) {
            Ok(id) => {
                let ghost before = rows@;
                rows.push(
                    EventRow {
                        source_file_id: id.source_file_id,
                        sequence_number: stored[i].sequence_number,
                        text: stored[i].text.clone(),
                    },
                );
                assert forall|j: int| 0 <= j < rows.len() implies is_row_read(
                    stored@.take(i + 1)[j],
                    #[trigger] rows@[j],
                ) by {
                    if j < before.len() {
                        assert(is_row_read(stored@.take(i as int)[j], before[j]));
                    }
                }
            },
            Err(e) => {
                proof {
                    lemma_problem_stays(stored@, i + 1);
                }
                return Err(e);
            },
        }
        i += 1;
    }
    assert(stored@.take(i as int) == stored@);
    Ok(group_by_event(&rows))
}

} // verus!
