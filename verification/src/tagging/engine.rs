//! Applying rules to entries.

use vstd::prelude::*;

use crate::json::Json;
use crate::model::{
    event_ids_view, log_entries_view, opt_text, EventId, EventIdView, LogEntry, LogEntryView,
};
use crate::tagging::rule::{rule_matches, rules_view, subject_of, Rule, RuleView, Subject};

verus! {

/// A tag on an entry, and the rule that gave it.
#[derive(Debug)]
pub struct TagRow {
    pub event_id: EventId,
    pub rule_name: String,
    pub tag_value: String,
}

/// The view of a [`TagRow`].
#[verifier::ext_equal]
pub struct TagRowView {
    pub event_id: EventIdView,
    pub rule_name: Seq<char>,
    pub tag_value: Seq<char>,
}

impl View for TagRow {
    type V = TagRowView;

    open spec fn view(&self) -> TagRowView {
        TagRowView {
            event_id: self.event_id@,
            rule_name: self.rule_name@,
            tag_value: self.tag_value@,
        }
    }
}

/// The views of a list of tags.
pub open spec fn tag_rows_view(v: Seq<TagRow>) -> Seq<TagRowView> {
    v.map_values(|t: TagRow| t@)
}

/// What tagging needs of an entry of a timeline.
#[derive(Debug)]
pub struct TaggableRow {
    pub event_id: EventId,
    pub sourcetype: String,
    pub level: Option<String>,
    pub message: Option<String>,
    pub fields: Json,
}

/// The view of a [`TaggableRow`].
#[verifier::ext_equal]
pub struct TaggableView {
    pub event_id: EventIdView,
    pub subject: Subject,
}

impl View for TaggableRow {
    type V = TaggableView;

    open spec fn view(&self) -> TaggableView {
        TaggableView {
            event_id: self.event_id@,
            subject: Subject {
                sourcetype: self.sourcetype@,
                level: opt_text(self.level),
                message: opt_text(self.message),
                fields: self.fields@,
            },
        }
    }
}

/// The views of a list of rows.
pub open spec fn taggable_view(v: Seq<TaggableRow>) -> Seq<TaggableView> {
    v.map_values(|r: TaggableRow| r@)
}

/// What tagging needs of an entry that was just parsed.
pub open spec fn taggable_entry(entry: LogEntryView, sourcetype: Seq<char>) -> TaggableView {
    TaggableView {
        event_id: entry.event_id,
        subject: Subject {
            sourcetype,
            level: entry.record.level,
            message: entry.record.message,
            fields: entry.record.fields,
        },
    }
}

/// What tagging needs of the entries of one source.
pub open spec fn taggable_entries(entries: Seq<LogEntryView>, sourcetype: Seq<char>) -> Seq<
    TaggableView,
> {
    entries.map_values(|e: LogEntryView| taggable_entry(e, sourcetype))
}

/// The tag that a rule gives an entry.
pub open spec fn tag_by(row: TaggableView, rule: RuleView) -> TagRowView {
    TagRowView { event_id: row.event_id, rule_name: rule.name, tag_value: rule.tag }
}

/// The tags that rules give one entry, in the order of the rules.
pub open spec fn tags_of(row: TaggableView, rules: Seq<RuleView>) -> Seq<TagRowView>
    decreases rules.len(),
{
    if rules.len() == 0 {
        seq![]
    } else {
        let before = tags_of(row, rules.drop_last());
        if rule_matches(rules.last(), row.subject) {
            before.push(tag_by(row, rules.last()))
        } else {
            before
        }
    }
}

/// The tags that rules give entries, in the order of the entries.
pub open spec fn all_tags(rows: Seq<TaggableView>, rules: Seq<RuleView>) -> Seq<TagRowView>
    decreases rows.len(),
{
    if rows.len() == 0 {
        seq![]
    } else {
        all_tags(rows.drop_last(), rules) + tags_of(rows.last(), rules)
    }
}

/// Whether any rule matches an entry.
pub open spec fn any_matches(row: TaggableView, rules: Seq<RuleView>) -> bool {
    exists|i: int| 0 <= i < rules.len() && rule_matches(#[trigger] rules[i], row.subject)
}

/// The entries that any rule matches, in order, each once.
pub open spec fn matched_ids(rows: Seq<TaggableView>, rules: Seq<RuleView>) -> Seq<EventIdView>
    decreases rows.len(),
{
    if rows.len() == 0 {
        seq![]
    } else {
        let before = matched_ids(rows.drop_last(), rules);
        if any_matches(rows.last(), rules) {
            before.push(rows.last().event_id)
        } else {
            before
        }
    }
}

fn text_ref(s: &Option<String>) -> (r: Option<&str>)
    ensures
        match r {
            Some(t) => opt_text(*s) == Some(t@),
            None => *s is None,
        },
{
    match s {
        Some(s) => Some(s.as_str()),
        None => None,
    }
}

/// Appends the tags that rules give one entry.
fn add_tags(
    rules: &Vec<Rule>,
    event_id: &EventId,
    sourcetype: &str,
    level: Option<&str>,
    message: Option<&str>,
    fields: &Json,
    out: &mut Vec<TagRow>,
)
    ensures
        tag_rows_view(final(out)@) == tag_rows_view(old(out)@) + tags_of(
            TaggableView {
                event_id: event_id@,
                subject: subject_of(sourcetype, level, message, fields),
            },
            rules_view(rules@),
        ),
{
    let ghost row = TaggableView {
        event_id: event_id@,
        subject: subject_of(sourcetype, level, message, fields),
    };
    let ghost rv = rules_view(rules@);
    let ghost first = tag_rows_view(out@);
    let mut i: usize = 0;
    assert(first + tags_of(row, rv.take(0)) =~= first);
    while i < rules.len()
        invariant
            i <= rules.len(),
            rv == rules_view(rules@),
            row == (TaggableView {
                event_id: event_id@,
                subject: subject_of(sourcetype, level, message, fields),
            }),
            tag_rows_view(out@) == first + tags_of(row, rv.take(i as int)),
        decreases rules.len() - i,
    {
        let ghost before = out@;
        let rule = &rules[i];
        proof {
            let next = rv.take(i + 1);
            assert(next.drop_last() == rv.take(i as int));
            assert(next.last() == rule@);
        }
        if rule.matches(sourcetype, level, message, fields) {
            let tag = TagRow {
                event_id: event_id.clone(),
                rule_name: rule.rule.name.clone(),
                tag_value: rule.rule.tag.value.clone(),
            };
            out.push(tag);
            proof {
                assert(tag_rows_view(out@) =~= tag_rows_view(before).push(tag@));
                assert(tag@ == tag_by(row, rule@));
                assert(first + tags_of(row, rv.take(i as int)).push(tag@) =~= (first + tags_of(
                    row,
                    rv.take(i as int),
                )).push(tag@));
            }
        }
        i += 1;
    }
    assert(rv.take(i as int) == rv);
}

/// The tags that rules give the entries of one source when it is loaded.
pub fn apply_import_time(rules: &Vec<Rule>, entries: &Vec<LogEntry>, sourcetype: &str) -> (r: Vec<
    TagRow,
>)
    ensures
        tag_rows_view(r@) == all_tags(
            taggable_entries(log_entries_view(entries@), sourcetype@),
            rules_view(rules@),
        ),
{
    let ghost rows = taggable_entries(log_entries_view(entries@), sourcetype@);
    let ghost rv = rules_view(rules@);
    let mut out: Vec<TagRow> = Vec::new();
    let mut i: usize = 0;
    assert(tag_rows_view(out@) =~= seq![]);
    while i < entries.len()
        invariant
            i <= entries.len(),
            rows == taggable_entries(log_entries_view(entries@), sourcetype@),
            rv == rules_view(rules@),
            tag_rows_view(out@) == all_tags(rows.take(i as int), rv),
        decreases entries.len() - i,
    {
        let entry = &entries[i];
        proof {
            let next = rows.take(i + 1);
            assert(next.drop_last() == rows.take(i as int));
            assert(next.last() == taggable_entry(entry@, sourcetype@));
        }
        let level = text_ref(&entry.level);
        let message = text_ref(&entry.message);
        assert(subject_of(sourcetype, level, message, &entry.fields) == taggable_entry(
            entry@,
            sourcetype@,
        ).subject);
        add_tags(rules, &entry.event_id, sourcetype, level, message, &entry.fields, &mut out);
        i += 1;
    }
    assert(rows.take(i as int) == rows);
    out
}

/// The tags that rules give all entries of a timeline. They replace all tags
/// that were there.
pub fn re_tag(rules: &Vec<Rule>, rows: &Vec<TaggableRow>) -> (r: Vec<TagRow>)
    ensures
        tag_rows_view(r@) == all_tags(taggable_view(rows@), rules_view(rules@)),
{
    let ghost rows_v = taggable_view(rows@);
    let ghost rv = rules_view(rules@);
    let mut out: Vec<TagRow> = Vec::new();
    let mut i: usize = 0;
    assert(tag_rows_view(out@) =~= seq![]);
    while i < rows.len()
        invariant
            i <= rows.len(),
            rows_v == taggable_view(rows@),
            rv == rules_view(rules@),
            tag_rows_view(out@) == all_tags(rows_v.take(i as int), rv),
        decreases rows.len() - i,
    {
        let row = &rows[i];
        proof {
            let next = rows_v.take(i + 1);
            assert(next.drop_last() == rows_v.take(i as int));
            assert(next.last() == row@);
        }
        let sourcetype = row.sourcetype.as_str();
        let level = text_ref(&row.level);
        let message = text_ref(&row.message);
        assert(subject_of(sourcetype, level, message, &row.fields) == row@.subject);
        add_tags(rules, &row.event_id, sourcetype, level, message, &row.fields, &mut out);
        i += 1;
    }
    assert(rows_v.take(i as int) == rows_v);
    out
}

fn matches_any(rules: &Vec<Rule>, row: &TaggableRow) -> (r: bool)
    ensures
        r == any_matches(row@, rules_view(rules@)),
{
    let ghost rv = rules_view(rules@);
    let sourcetype = row.sourcetype.as_str();
    let level = text_ref(&row.level);
    let message = text_ref(&row.message);
    let mut i: usize = 0;
    while i < rules.len()
        invariant
            i <= rules.len(),
            rv == rules_view(rules@),
            subject_of(sourcetype, level, message, &row.fields) == row@.subject,
            forall|j: int| 0 <= j < i ==> !rule_matches(#[trigger] rv[j], row@.subject),
        decreases rules.len() - i,
    {
        assert(rv[i as int] == rules@[i as int]@);
        if rules[i].matches(sourcetype, level, message, &row.fields) {
            return true;
        }
        i += 1;
    }
    false
}

/// The entries of a timeline that any of the rules matches. Nothing is kept.
pub fn evaluate_ad_hoc(rules: &Vec<Rule>, rows: &Vec<TaggableRow>) -> (r: Vec<EventId>)
    ensures
        event_ids_view(r@) == matched_ids(taggable_view(rows@), rules_view(rules@)),
{
    let ghost rows_v = taggable_view(rows@);
    let ghost rv = rules_view(rules@);
    let mut out: Vec<EventId> = Vec::new();
    let mut i: usize = 0;
    assert(event_ids_view(out@) =~= seq![]);
    while i < rows.len()
        invariant
            i <= rows.len(),
            rows_v == taggable_view(rows@),
            rv == rules_view(rules@),
            event_ids_view(out@) == matched_ids(rows_v.take(i as int), rv),
        decreases rows.len() - i,
    {
        let ghost before = out@;
        let row = &rows[i];
        proof {
            let next = rows_v.take(i + 1);
            assert(next.drop_last() == rows_v.take(i as int));
            assert(next.last() == row@);
        }
        if matches_any(rules, row) {
            let id = row.event_id.clone();
            out.push(id);
            assert(event_ids_view(out@) =~= event_ids_view(before).push(id@));
        }
        i += 1;
    }
    assert(rows_v.take(i as int) == rows_v);
    out
}

/// Without rules no entry gets a tag, and none is found.
pub proof fn lemma_no_rules_no_tags(rows: Seq<TaggableView>)
    ensures
        all_tags(rows, seq![]) == Seq::<TagRowView>::empty(),
        matched_ids(rows, seq![]) == Seq::<EventIdView>::empty(),
    decreases rows.len(),
{
    if rows.len() > 0 {
        lemma_no_rules_no_tags(rows.drop_last());
        assert(tags_of(rows.last(), seq![]) =~= seq![]);
        assert(!any_matches(rows.last(), seq![]));
    }
}

/// Whether a tag of an entry comes from a rule that matches it.
pub open spec fn comes_from_match(tag: TagRowView, row: TaggableView, rules: Seq<RuleView>) -> bool {
    exists|i: int|
        0 <= i < rules.len() && rule_matches(#[trigger] rules[i], row.subject) && tag == tag_by(
            row,
            rules[i],
        )
}

/// A rule that matches an entry gives it its tag, and every tag of the entry
/// comes from a rule that matches it.
pub proof fn lemma_tags_are_matches(row: TaggableView, rules: Seq<RuleView>)
    ensures
        forall|i: int|
            0 <= i < rules.len() && rule_matches(#[trigger] rules[i], row.subject) ==> tags_of(
                row,
                rules,
            ).contains(tag_by(row, rules[i])),
        forall|k: int|
            0 <= k < tags_of(row, rules).len() ==> comes_from_match(
                #[trigger] tags_of(row, rules)[k],
                row,
                rules,
            ),
    decreases rules.len(),
{
    if rules.len() > 0 {
        let fewer = rules.drop_last();
        lemma_tags_are_matches(row, fewer);
        let tags = tags_of(row, rules);
        let before = tags_of(row, fewer);
        let n = rules.len() - 1;
        assert(rules[n] == rules.last());
        assert forall|i: int|
            0 <= i < rules.len() && rule_matches(#[trigger] rules[i], row.subject) implies tags.contains(
            tag_by(row, rules[i]),
        ) by {
            let t = tag_by(row, rules[i]);
            if i < n {
                assert(fewer[i] == rules[i]);
                assert(before.contains(t));
                let k = choose|k: int| 0 <= k < before.len() && before[k] == t;
                assert(tags[k] == t);
            } else {
                assert(tags[tags.len() - 1] == t);
            }
        }
        assert forall|k: int| 0 <= k < tags.len() implies comes_from_match(
            #[trigger] tags[k],
            row,
            rules,
        ) by {
            if k < before.len() {
                assert(before[k] == tags[k]);
                assert(comes_from_match(before[k], row, fewer));
                let i = choose|i: int|
                    0 <= i < fewer.len() && rule_matches(#[trigger] fewer[i], row.subject)
                        && before[k] == tag_by(row, fewer[i]);
                assert(rules[i] == fewer[i]);
            } else {
                assert(rule_matches(rules[n], row.subject));
            }
        }
    }
}

/// An entry is found without keeping anything exactly where it would get a tag.
pub proof fn lemma_found_where_tagged(row: TaggableView, rules: Seq<RuleView>)
    ensures
        any_matches(row, rules) <==> tags_of(row, rules).len() > 0,
{
    lemma_tags_are_matches(row, rules);
    if any_matches(row, rules) {
        let i = choose|i: int|
            0 <= i < rules.len() && rule_matches(#[trigger] rules[i], row.subject);
        assert(tags_of(row, rules).contains(tag_by(row, rules[i])));
    }
    if tags_of(row, rules).len() > 0 {
        assert(comes_from_match(tags_of(row, rules)[0], row, rules));
    }
}

/// Whether no two entries have the same identity.
pub open spec fn identities_differ(rows: Seq<TaggableView>) -> bool {
    forall|i: int, j: int|
        0 <= i < j < rows.len() ==> (#[trigger] rows[i]).event_id != (#[trigger] rows[j]).event_id
}

/// Whether no two rules have the same name.
pub open spec fn names_differ(rules: Seq<RuleView>) -> bool {
    forall|i: int, j: int|
        0 <= i < j < rules.len() ==> (#[trigger] rules[i]).name != (#[trigger] rules[j]).name
}

proof fn lemma_tags_of_differ(row: TaggableView, rules: Seq<RuleView>)
    requires
        names_differ(rules),
    ensures
        tags_of(row, rules).no_duplicates(),
    decreases rules.len(),
{
    if rules.len() > 0 {
        let fewer = rules.drop_last();
        assert forall|i: int, j: int| 0 <= i < j < fewer.len() implies (#[trigger] fewer[i]).name
            != (#[trigger] fewer[j]).name by {
            assert(fewer[i] == rules[i] && fewer[j] == rules[j]);
        }
        lemma_tags_of_differ(row, fewer);
        lemma_tags_are_matches(row, fewer);
        let before = tags_of(row, fewer);
        let n = rules.len() - 1;
        assert(rules[n] == rules.last());
        assert forall|k: int| 0 <= k < before.len() implies #[trigger] before[k] != tag_by(
            row,
            rules.last(),
        ) by {
            assert(comes_from_match(before[k], row, fewer));
            let i = choose|i: int|
                0 <= i < fewer.len() && rule_matches(#[trigger] fewer[i], row.subject) && before[k]
                    == tag_by(row, fewer[i]);
            assert(fewer[i] == rules[i]);
            assert(rules[i].name != rules[n].name);
        }
    }
}

proof fn lemma_tags_name_entries(rows: Seq<TaggableView>, rules: Seq<RuleView>, k: int) -> (i: int)
    requires
        0 <= k < all_tags(rows, rules).len(),
    ensures
        0 <= i < rows.len(),
        all_tags(rows, rules)[k].event_id == rows[i].event_id,
    decreases rows.len(),
{
    let before = all_tags(rows.drop_last(), rules);
    if k < before.len() {
        lemma_tags_name_entries(rows.drop_last(), rules, k)
    } else {
        lemma_tags_are_matches(rows.last(), rules);
        assert(comes_from_match(
            tags_of(rows.last(), rules)[k - before.len()],
            rows.last(),
            rules,
        ));
        rows.len() - 1
    }
}

/// No entry gets the tag of a rule twice, and none is found twice; nothing but entries
/// is found.
pub proof fn lemma_no_tag_twice(rows: Seq<TaggableView>, rules: Seq<RuleView>)
    requires
        identities_differ(rows),
        names_differ(rules),
    ensures
        all_tags(rows, rules).no_duplicates(),
        matched_ids(rows, rules).no_duplicates(),
        forall|k: int|
            0 <= k < matched_ids(rows, rules).len() ==> exists|i: int|
                0 <= i < rows.len() && #[trigger] rows[i].event_id == #[trigger] matched_ids(
                    rows,
                    rules,
                )[k],
    decreases rows.len(),
{
    if rows.len() > 0 {
        let fewer = rows.drop_last();
        let last = rows.last();
        let n = rows.len() - 1;
        assert(rows[n] == last);
        assert forall|i: int, j: int| 0 <= i < j < fewer.len() implies (
        #[trigger] fewer[i]).event_id != (#[trigger] fewer[j]).event_id by {
            assert(fewer[i] == rows[i] && fewer[j] == rows[j]);
        }
        lemma_no_tag_twice(fewer, rules);
        lemma_tags_of_differ(last, rules);
        lemma_tags_are_matches(last, rules);
        let before = all_tags(fewer, rules);
        let new = tags_of(last, rules);
        let all = all_tags(rows, rules);
        assert forall|i: int, j: int| 0 <= i < all.len() && 0 <= j < all.len() && i != j implies
            all[i] != all[j] by {
            if i < before.len() && j >= before.len() {
                let a = lemma_tags_name_entries(fewer, rules, i);
                assert(comes_from_match(new[j - before.len()], last, rules));
                assert(rows[a] == fewer[a]);
                assert(rows[a].event_id != rows[n].event_id);
            } else if j < before.len() && i >= before.len() {
                let a = lemma_tags_name_entries(fewer, rules, j);
                assert(comes_from_match(new[i - before.len()], last, rules));
                assert(rows[a] == fewer[a]);
                assert(rows[a].event_id != rows[n].event_id);
            }
        }
        let ids = matched_ids(fewer, rules);
        assert forall|k: int| 0 <= k < ids.len() implies #[trigger] ids[k] != last.event_id by {
            let i = choose|i: int|
                0 <= i < fewer.len() && #[trigger] fewer[i].event_id == ids[k];
            assert(rows[i] == fewer[i]);
            assert(rows[i].event_id != rows[n].event_id);
        }
        let found = matched_ids(rows, rules);
        assert forall|k: int| 0 <= k < found.len() implies exists|i: int|
            0 <= i < rows.len() && #[trigger] rows[i].event_id == #[trigger] found[k] by {
            if k < ids.len() {
                assert(found[k] == ids[k]);
                let i = choose|i: int|
                    0 <= i < fewer.len() && #[trigger] fewer[i].event_id == ids[k];
                assert(rows[i] == fewer[i]);
            } else {
                assert(rows[n].event_id == found[k]);
            }
        }
    }
}

} // verus!
