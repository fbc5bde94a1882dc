//! What the records of a text log have to do with its lines.

use vstd::prelude::*;

use crate::json::{lemma_stored_member, JsonView};
use crate::model::RecordView;
use crate::parsers::text_config::{
    capture_fields, captured_record, block_record, group_records, group_value, grouped,
    instant_of_text, local_time, mapped_group, mapped_value, position, resolved, source_records,
    usable_fields, year_fields, zoned_instant, FieldsView, LocalTime, ZoneView,
};
use crate::parsers::ConfigView;
use crate::pattern::{regex_captures, regex_groups, regex_matches};
use crate::text::{joined, lines_of};
use crate::time::Timestamp;

verus! {

/// Whether a group is of the lines of a source from its line on, which is counted from 1.
pub open spec fn is_group_of(all: Seq<Seq<char>>, group: (nat, Seq<Seq<char>>)) -> bool {
    &&& 1 <= group.0
    &&& 0 < group.1.len()
    &&& group.0 - 1 + group.1.len() <= all.len()
    &&& group.1 == all.subrange(group.0 - 1, group.0 - 1 + group.1.len())
}

/// Whether the group at place `i` begins and ends where it has to: behind the one before
/// it, with a first line of a record, and it has no other such line.
pub open spec fn is_bounded(
    groups: Seq<(nat, Seq<Seq<char>>)>,
    start: Option<Seq<char>>,
    i: int,
) -> bool {
    let lines = groups[i].1;
    &&& i == 0 ==> groups[i].0 == 1
    &&& i > 0 ==> groups[i].0 == groups[i - 1].0 + groups[i - 1].1.len()
    &&& match start {
        Some(pattern) => {
            &&& i > 0 ==> regex_matches(pattern, lines[0])
            &&& forall|k: int| 0 < k < lines.len() ==> !regex_matches(pattern, #[trigger] lines[k])
        },
        None => lines.len() == 1,
    }
}

/// Whether groups are those of the lines of a source. A line other than the very first
/// begins one if and only if it looks like the first line of a record.
pub open spec fn are_groups_of(
    all: Seq<Seq<char>>,
    start: Option<Seq<char>>,
    groups: Seq<(nat, Seq<Seq<char>>)>,
) -> bool {
    &&& groups.len() == 0 <==> all.len() == 0
    &&& groups.len() > 0 ==> groups.last().0 - 1 + groups.last().1.len() == all.len()
    &&& forall|i: int|
        0 <= i < groups.len() ==> is_group_of(all, #[trigger] groups[i]) && is_bounded(
            groups,
            start,
            i,
        )
}

/// The lines of a source are grouped by the lines that look like the first ones of
/// records, and by nothing else.
pub proof fn lemma_groups_begin_at_first_lines(all: Seq<Seq<char>>, start: Option<Seq<char>>)
    ensures
        are_groups_of(all, start, grouped(all, start)),
    decreases all.len(),
{
    if all.len() > 0 {
        let front = all.drop_last();
        let line = all.last();
        lemma_groups_begin_at_first_lines(front, start);
        let before = grouped(front, start);
        let groups = grouped(all, start);
        let n = before.len() as int;
        assert forall|i: int| 0 <= i < groups.len() implies is_group_of(all, #[trigger] groups[i])
            && is_bounded(groups, start, i) by {
            if i < n {
                assert(is_group_of(front, before[i]) && is_bounded(before, start, i));
                if i > 0 {
                    assert(is_group_of(front, before[i - 1]));
                    assert(groups[i - 1] == before[i - 1]);
                }
                if groups.len() > n || i < n - 1 {
                    assert(groups[i] == before[i]);
                    assert(groups[i].1 =~= all.subrange(
                        groups[i].0 - 1,
                        groups[i].0 - 1 + groups[i].1.len(),
                    ));
                } else {
                    let lines = groups[i].1;
                    assert(lines == before[i].1.push(line));
                    assert(lines =~= all.subrange(groups[i].0 - 1, groups[i].0 - 1 + lines.len()));
                    if let Some(pattern) = start {
                        assert(lines[0] == before[i].1[0]);
                        assert forall|k: int| 0 < k < lines.len() implies !regex_matches(
                            pattern,
                            #[trigger] lines[k],
                        ) by {
                            if k < before[i].1.len() {
                                assert(lines[k] == before[i].1[k]);
                            }
                        }
                    }
                }
            } else {
                assert(groups[i] == (all.len(), seq![line]));
                assert(groups[i].1 =~= all.subrange(all.len() - 1, all.len() as int));
                if i > 0 {
                    assert(groups[i - 1] == before.last());
                    assert(is_group_of(front, before[i - 1]));
                }
            }
        }
    }
}

/// How many of the lines behind the first look like the first line of a record.
pub open spec fn first_lines_behind(all: Seq<Seq<char>>, pattern: Seq<char>) -> nat {
    if all.len() == 0 {
        0
    } else {
        all.drop_first().filter(|line: Seq<char>| regex_matches(pattern, line)).len()
    }
}

/// There is one group for the first line, and one for each other line that looks like
/// the first of a record.
pub proof fn lemma_group_count(all: Seq<Seq<char>>, pattern: Seq<char>)
    requires
        all.len() > 0,
    ensures
        grouped(all, Some(pattern)).len() == 1 + first_lines_behind(all, pattern),
    decreases all.len(),
{
    reveal(Seq::filter);
    let p = |line: Seq<char>| regex_matches(pattern, line);
    if all.len() > 1 {
        let front = all.drop_last();
        lemma_group_count(front, pattern);
        assert(all.drop_first().drop_last() =~= front.drop_first());
        assert(all.drop_first().last() == all.last());
    } else {
        assert(all.drop_first() =~= seq![]);
        assert(grouped(all.drop_last(), Some(pattern)).len() == 0);
    }
}

/// Whether a value is what the group of a name captured: the first of that name did.
pub open spec fn is_captured(
    names: Seq<Seq<char>>,
    captures: Seq<Option<Seq<char>>>,
    name: Seq<char>,
    value: Option<Seq<char>>,
) -> bool {
    ||| !names.contains(name) && value is None
    ||| exists|i: int|
        0 <= i < names.len() && #[trigger] names[i] == name && captures[i] == value && !names.take(
            i,
        ).contains(name)
}

proof fn lemma_position(names: Seq<Seq<char>>, name: Seq<char>)
    ensures
        0 <= position(names, name) <= names.len(),
        position(names, name) < names.len() ==> names[position(names, name)] == name,
        !names.take(position(names, name)).contains(name),
    decreases names.len(),
{
    if names.len() > 0 && names[0] != name {
        let rest = names.drop_first();
        lemma_position(rest, name);
        let p = position(rest, name);
        if names.take(p + 1).contains(name) {
            let front = names.take(p + 1);
            let i = choose|i: int| 0 <= i < front.len() && front[i] == name;
            assert(rest.take(p)[i - 1] == name);
        }
    }
}

proof fn lemma_captured(
    names: Seq<Seq<char>>,
    captures: Seq<Option<Seq<char>>>,
    name: Seq<char>,
)
    requires
        captures.len() == names.len(),
    ensures
        is_captured(names, captures, name, group_value(names, captures, name)),
{
    lemma_position(names, name);
    let p = position(names, name);
    if p < names.len() {
        assert(names[p] == name);
    } else {
        assert(names.take(p) =~= names);
    }
}

/// Whether a value is what a target is mapped to: the capture of the group that the
/// configuration names for it, and nothing where it names none.
pub open spec fn is_mapped(
    names: Seq<Seq<char>>,
    captures: Seq<Option<Seq<char>>>,
    mapping: Seq<(Seq<char>, Seq<char>)>,
    target: Seq<char>,
    value: Option<Seq<char>>,
) -> bool {
    ||| (forall|i: int| 0 <= i < mapping.len() ==> (#[trigger] mapping[i]).0 != target)
        && value is None
    ||| exists|i: int|
        0 <= i < mapping.len() && (#[trigger] mapping[i]).0 == target && is_captured(
            names,
            captures,
            mapping[i].1,
            value,
        )
}

proof fn lemma_mapped_group(mapping: Seq<(Seq<char>, Seq<char>)>, target: Seq<char>) -> (i: int)
    ensures
        match mapped_group(mapping, target) {
            Some(group) => 0 <= i < mapping.len() && mapping[i] == (target, group),
            None => forall|k: int| 0 <= k < mapping.len() ==> (#[trigger] mapping[k]).0 != target,
        },
    decreases mapping.len(),
{
    if mapping.len() == 0 || mapping[0].0 == target {
        0
    } else {
        let rest = mapping.drop_first();
        let i = lemma_mapped_group(rest, target);
        assert forall|k: int|
            0 <= k < mapping.len() && mapped_group(mapping, target) is None implies (
        #[trigger] mapping[k]).0 != target by {
            if k > 0 {
                assert(rest[k - 1] == mapping[k]);
            }
        }
        i + 1
    }
}

proof fn lemma_mapped(
    names: Seq<Seq<char>>,
    captures: Seq<Option<Seq<char>>>,
    mapping: Seq<(Seq<char>, Seq<char>)>,
    target: Seq<char>,
)
    requires
        captures.len() == names.len(),
    ensures
        is_mapped(
            names,
            captures,
            mapping,
            target,
            mapped_value(names, captures, mapping, target),
        ),
{
    let i = lemma_mapped_group(mapping, target);
    if let Some(group) = mapped_group(mapping, target) {
        lemma_captured(names, captures, group);
        assert(mapping[i].0 == target);
    }
}

/// Whether the members of an object are what the groups captured: the capture of each
/// group under its name, unless a later one has that name, and nothing else.
pub open spec fn are_captures(
    names: Seq<Seq<char>>,
    captures: Seq<Option<Seq<char>>>,
    fields: JsonView,
) -> bool {
    &&& forall|i: int|
        0 <= i < names.len() && !names.skip(i + 1).contains(#[trigger] names[i]) ==> fields.get(
            names[i],
        ) == Some(
            match captures[i] {
                Some(s) => JsonView::Text(s),
                None => JsonView::Null,
            },
        )
    &&& forall|name: Seq<char>| #[trigger] fields.get(name) is Some ==> names.contains(name)
}

proof fn lemma_captures(
    names: Seq<Seq<char>>,
    captures: Seq<Option<Seq<char>>>,
    n: int,
)
    requires
        0 <= n <= names.len(),
    ensures
        are_captures(names.take(n), captures, JsonView::Object(capture_fields(names, captures, n))),
    decreases n,
{
    let fields = JsonView::Object(capture_fields(names, captures, n));
    if n > 0 {
        lemma_captures(names, captures, n - 1);
        let before = capture_fields(names, captures, n - 1);
        let value = match captures[n - 1] {
            Some(s) => JsonView::Text(s),
            None => JsonView::Null,
        };
        let now = names.take(n);
        let old = names.take(n - 1);
        assert forall|i: int|
            0 <= i < now.len() && !now.skip(i + 1).contains(#[trigger] now[i]) implies fields.get(
            now[i],
        ) == Some(
            match captures[i] {
                Some(s) => JsonView::Text(s),
                None => JsonView::Null,
            },
        ) by {
            lemma_stored_member(before, names[n - 1], value, now[i]);
            if i < n - 1 {
                assert(now.skip(i + 1)[n - 2 - i] == names[n - 1]);
                assert(now[i] != names[n - 1]);
                assert(old[i] == now[i]);
                if old.skip(i + 1).contains(old[i]) {
                    let behind = old.skip(i + 1);
                    let k = choose|k: int| 0 <= k < behind.len() && behind[k] == old[i];
                    assert(now.skip(i + 1)[k] == now[i]);
                }
            }
        }
        assert forall|name: Seq<char>| #[trigger] fields.get(name) is Some implies now.contains(
            name,
        ) by {
            lemma_stored_member(before, names[n - 1], value, name);
            if name == names[n - 1] {
                assert(now[n - 1] == name);
            } else {
                assert(old.contains(name));
                let k = choose|k: int| 0 <= k < old.len() && old[k] == name;
                assert(now[k] == name);
            }
        }
    }
}

/// Whether an instant is that of a time: of the zone that the time names, or else of the
/// one to assume, in which the local time is the instant and the offset of the zone; and
/// of the year that it names, or else of the one to assume.
pub open spec fn is_instant_of(
    text: Seq<char>,
    format: Seq<char>,
    zone: Option<ZoneView>,
    assume_year: Option<i32>,
    t: Timestamp,
) -> bool {
    exists|year: Option<i32>|
        {
            &&& year_fields(text, format) matches Ok(found) && {
                &&& found.year || found.short_year || found.instant ==> year is None
                &&& !found.year && !found.short_year && !found.instant && !(found.week
                    && found.weekday) ==> year is Some
                &&& year is Some ==> year == assume_year
            }
            &&& match #[trigger] zoned_instant(text, format, year) {
                Some(instant) => t == instant,
                None => {
                    &&& local_time(text, format, year) matches Ok(local)
                    &&& zone matches Some(zone)
                    &&& is_resolved(zone, local, t)
                },
            }
        }
}

/// Whether an instant is that of a local time in a zone.
pub open spec fn is_resolved(zone: ZoneView, local: LocalTime, t: Timestamp) -> bool {
    match zone {
        ZoneView::Fixed { offset_seconds, .. } => t.seconds + offset_seconds == local.seconds
            && t.nanos == local.nanos,
        ZoneView::Named { instants, .. } => instants.contains((local, t)),
    }
}

proof fn lemma_resolved(zone: ZoneView, local: LocalTime)
    ensures
        resolved(zone, local) matches Some(t) ==> is_resolved(zone, local, t),
{
    if let ZoneView::Named { instants, .. } = zone {
        lemma_instant_in(instants, local);
    }
}

proof fn lemma_instant_in(instants: Seq<(LocalTime, Timestamp)>, local: LocalTime)
    ensures
        crate::parsers::text_config::instant_in(instants, local) matches Some(t)
            ==> instants.contains((local, t)),
    decreases instants.len(),
{
    if instants.len() > 0 {
        let rest = instants.drop_first();
        lemma_instant_in(rest, local);
        if instants[0].0 != local {
            if let Some(t) = crate::parsers::text_config::instant_in(instants, local) {
                let i = choose|i: int| 0 <= i < rest.len() && rest[i] == (local, t);
                assert(instants[i + 1] == (local, t));
            }
        } else {
            assert(instants[0] == (local, instants[0].1));
        }
    }
}

/// The instant of a time is that of its own zone and year, and those to assume are used
/// for what it does not name.
pub proof fn lemma_instant_is_of_its_time(
    text: Seq<char>,
    format: Seq<char>,
    zone: Option<ZoneView>,
    assume_year: Option<i32>,
)
    ensures
        instant_of_text(text, format, zone, assume_year) matches Ok(t) ==> is_instant_of(
            text,
            format,
            zone,
            assume_year,
            t,
        ),
{
    if let Ok(t) = instant_of_text(text, format, zone, assume_year) {
        let found = year_fields(text, format)->Ok_0;
        let year = if found.name_one() {
            None
        } else {
            assume_year
        };
        if zoned_instant(text, format, year) is None {
            lemma_resolved(zone->0, local_time(text, format, year)->Ok_0);
        }
    }
}

/// Whether a record is that of lines: they are its raw text, its fields are what the
/// groups of the pattern captured in them, its level and message are the captures that
/// they are mapped to, and its time is that of the group `timestamp`.
pub open spec fn is_record_of_lines(
    lines: Seq<Seq<char>>,
    fields: FieldsView,
    zone: Option<ZoneView>,
    r: RecordView,
) -> bool {
    let names = regex_groups(fields.regex);
    &&& r.raw == joined(lines, seq!['\n'])
    &&& regex_captures(fields.regex, r.raw) matches Some(captures) && {
        &&& are_captures(names, captures, r.fields)
        &&& is_mapped(names, captures, fields.field_mapping, "level"@, r.level)
        &&& is_mapped(names, captures, fields.field_mapping, "message"@, r.message)
        &&& exists|text: Seq<char>|
            is_captured(names, captures, "timestamp"@, Some(text)) && #[trigger] is_instant_of(
                text,
                fields.timestamp_format,
                zone,
                fields.assume_year,
                r.timestamp_utc,
            )
    }
}

/// The record of captures is what they say.
pub proof fn lemma_record_is_its_captures(
    line: nat,
    raw: Seq<char>,
    names: Seq<Seq<char>>,
    captures: Seq<Option<Seq<char>>>,
    fields: FieldsView,
    zone: Option<ZoneView>,
)
    requires
        captures.len() == names.len(),
    ensures
        captured_record(line, raw, names, Some(captures), fields, zone) matches Ok(r) ==> {
            &&& r.raw == raw
            &&& are_captures(names, captures, r.fields)
            &&& is_mapped(names, captures, fields.field_mapping, "level"@, r.level)
            &&& is_mapped(names, captures, fields.field_mapping, "message"@, r.message)
            &&& exists|text: Seq<char>|
                is_captured(names, captures, "timestamp"@, Some(text)) && #[trigger] is_instant_of(
                    text,
                    fields.timestamp_format,
                    zone,
                    fields.assume_year,
                    r.timestamp_utc,
                )
        },
{
    if let Ok(r) = captured_record(line, raw, names, Some(captures), fields, zone) {
        lemma_captures(names, captures, names.len() as int);
        assert(names.take(names.len() as int) =~= names);
        lemma_mapped(names, captures, fields.field_mapping, "level"@);
        lemma_mapped(names, captures, fields.field_mapping, "message"@);
        lemma_captured(names, captures, "timestamp"@);
        let text = group_value(names, captures, "timestamp"@)->0;
        lemma_instant_is_of_its_time(text, fields.timestamp_format, zone, fields.assume_year);
        assert(is_instant_of(
            text,
            fields.timestamp_format,
            zone,
            fields.assume_year,
            r.timestamp_utc,
        ));
    }
}

/// The record of a group of lines is what they say.
pub proof fn lemma_record_is_its_lines(
    line: nat,
    lines: Seq<Seq<char>>,
    fields: FieldsView,
    zone: Option<ZoneView>,
)
    requires
        regex_captures(fields.regex, joined(lines, seq!['\n'])) matches Some(captures)
            ==> captures.len() == regex_groups(fields.regex).len(),
    ensures
        block_record(line, lines, fields, zone) matches Ok(r) ==> is_record_of_lines(
            lines,
            fields,
            zone,
            r,
        ),
{
    reveal(block_record);
    reveal_strlit("\n");
    assert("\n"@ =~= seq!['\n']);
    let raw = joined(lines, "\n"@);
    if let Some(captures) = regex_captures(fields.regex, raw) {
        lemma_record_is_its_captures(
            line,
            raw,
            regex_groups(fields.regex),
            captures,
            fields,
            zone,
        );
    }
}

/// Whether a regular expression captures as many groups as it names, in every text.
pub open spec fn captures_all_groups(pattern: Seq<char>) -> bool {
    forall|text: Seq<char>|
        (#[trigger] regex_captures(pattern, text)) matches Some(captures) ==> captures.len()
            == regex_groups(pattern).len()
}

/// Each group of lines has one record, at its place.
proof fn lemma_records_are_groups(
    groups: Seq<(nat, Seq<Seq<char>>)>,
    fields: FieldsView,
    zone: Option<ZoneView>,
)
    requires
        captures_all_groups(fields.regex),
    ensures
        group_records(groups, fields, zone) matches Ok(records) ==> {
            &&& records.len() == groups.len()
            &&& forall|i: int|
                0 <= i < groups.len() ==> is_record_of_lines(
                    groups[i].1,
                    fields,
                    zone,
                    #[trigger] records[i],
                )
        },
        group_records(groups, fields, zone) matches Err(e) ==> exists|i: int|
            0 <= i < groups.len() && #[trigger] block_record(
                groups[i].0,
                groups[i].1,
                fields,
                zone,
            ) == Err::<RecordView, Seq<char>>(e),
    decreases groups.len(),
{
    if groups.len() > 0 {
        let front = groups.drop_last();
        lemma_records_are_groups(front, fields, zone);
        let last = groups.last();
        let _ = regex_captures(fields.regex, joined(last.1, seq!['\n']));
        lemma_record_is_its_lines(last.0, last.1, fields, zone);
        match group_records(front, fields, zone) {
            Err(e) => {
                let i = choose|i: int|
                    0 <= i < front.len() && #[trigger] block_record(
                        front[i].0,
                        front[i].1,
                        fields,
                        zone,
                    ) == Err::<RecordView, Seq<char>>(e);
                assert(groups[i] == front[i]);
            },
            Ok(before) => {
                if let Ok(records) = group_records(groups, fields, zone) {
                    assert forall|i: int| 0 <= i < groups.len() implies is_record_of_lines(
                        groups[i].1,
                        fields,
                        zone,
                        #[trigger] records[i],
                    ) by {
                        if i < front.len() {
                            assert(records[i] == before[i]);
                            assert(groups[i] == front[i]);
                        }
                    }
                } else {
                    assert(groups[groups.len() - 1] == last);
                }
            },
        }
    }
}

/// A text log that can be read has one record for each group of its lines, which begin
/// at the lines that look like the first of a record; each record is what its lines say.
pub proof fn lemma_source_is_read(config: ConfigView, content: Seq<char>, zone: Option<ZoneView>)
    requires
        usable_fields(config) matches Ok(fields) && captures_all_groups(fields.regex),
        source_records(config, content, zone) is Ok,
    ensures
        ({
            let fields = usable_fields(config)->Ok_0;
            let records = source_records(config, content, zone)->Ok_0;
            exists|groups: Seq<(nat, Seq<Seq<char>>)>|
                {
                    &&& #[trigger] are_groups_of(
                        lines_of(content),
                        fields.multiline_start_pattern,
                        groups,
                    )
                    &&& records.len() == groups.len()
                    &&& forall|i: int|
                        0 <= i < groups.len() ==> is_record_of_lines(
                            groups[i].1,
                            fields,
                            zone,
                            #[trigger] records[i],
                        )
                }
        }),
{
    let fields = usable_fields(config)->Ok_0;
    let groups = grouped(lines_of(content), fields.multiline_start_pattern);
    lemma_groups_begin_at_first_lines(lines_of(content), fields.multiline_start_pattern);
    lemma_records_are_groups(groups, fields, zone);
}

} // verus!
