//! Which text formats can be used, which lines have no record, and why.

use vstd::prelude::*;

use crate::model::RecordView;
use crate::parsers::text_config::{
    bad_group, bad_target, block_record, fields_of, fields_problem, group_records, group_value,
    instant_of_text, local_time, position, usable_fields, year_fields, zoned_instant, FieldsView,
    ZoneView,
};
use crate::parsers::ConfigView;
use crate::pattern::{named_among, names_among, regex_captures, regex_groups, regex_problem};
use crate::selection::{is_selection, lemma_selection_grows};
use crate::text::{debug_quoted, dec, joined};
use crate::time::{in_calendar, Timestamp};

verus! {

proof fn lemma_position(names: Seq<Seq<char>>, name: Seq<char>)
    ensures
        0 <= position(names, name) <= names.len(),
        position(names, name) < names.len() <==> names.contains(name),
        position(names, name) < names.len() ==> names[position(names, name)] == name,
    decreases names.len(),
{
    if names.len() > 0 {
        if names[0] == name {
            assert(names.contains(name));
        } else {
            let rest = names.drop_first();
            lemma_position(rest, name);
            if names.contains(name) {
                let i = choose|i: int| 0 <= i < names.len() && names[i] == name;
                assert(rest[i - 1] == name);
                assert(rest.contains(name));
            }
            if rest.contains(name) {
                let i = choose|i: int| 0 <= i < rest.len() && rest[i] == name;
                assert(names[i + 1] == name);
            }
        }
    }
}

/// Whether a target of a mapping is one that there is.
pub open spec fn is_target(target: Seq<char>) -> bool {
    target == "level"@ || target == "message"@
}

proof fn lemma_targets(mapping: Seq<(Seq<char>, Seq<char>)>) -> (at: int)
    ensures
        match bad_target(mapping) {
            Some(target) => 0 <= at < mapping.len() && mapping[at].0 == target && !is_target(target)
                && forall|i: int| 0 <= i < at ==> is_target((#[trigger] mapping[i]).0),
            None => forall|i: int| 0 <= i < mapping.len() ==> is_target((#[trigger] mapping[i]).0),
        },
    decreases mapping.len(),
{
    if mapping.len() == 0 {
        0
    } else if !is_target(mapping[0].0) {
        0
    } else {
        let rest = mapping.drop_first();
        let at = lemma_targets(rest);
        assert forall|i: int|
            0 <= i < mapping.len() && (bad_target(mapping) is Some ==> i < at + 1) implies is_target(
            (#[trigger] mapping[i]).0,
        ) by {
            if i > 0 {
                assert(rest[i - 1] == mapping[i]);
            }
        }
        at + 1
    }
}

proof fn lemma_groups_of_mapping(
    mapping: Seq<(Seq<char>, Seq<char>)>,
    names: Seq<Seq<char>>,
) -> (at: int)
    ensures
        match bad_group(mapping, names) {
            Some(pair) => 0 <= at < mapping.len() && mapping[at] == pair && !names.contains(pair.1)
                && forall|i: int| 0 <= i < at ==> names.contains((#[trigger] mapping[i]).1),
            None => forall|i: int|
                0 <= i < mapping.len() ==> names.contains((#[trigger] mapping[i]).1),
        },
    decreases mapping.len(),
{
    if mapping.len() == 0 {
        0
    } else {
        lemma_position(names, mapping[0].1);
        if !names.contains(mapping[0].1) {
            0
        } else {
            let rest = mapping.drop_first();
            let at = lemma_groups_of_mapping(rest, names);
            assert forall|i: int|
                0 <= i < mapping.len() && (bad_group(mapping, names) is Some ==> i < at
                    + 1) implies names.contains((#[trigger] mapping[i]).1) by {
                if i > 0 {
                    assert(rest[i - 1] == mapping[i]);
                }
            }
            at + 1
        }
    }
}

/// Whether the mapping of a format has only the level and the message for targets.
pub open spec fn has_known_targets(fields: FieldsView) -> bool {
    forall|i: int|
        0 <= i < fields.field_mapping.len() ==> is_target((#[trigger] fields.field_mapping[i]).0)
}

/// Whether the mapping of a format has only groups that its regular expression names.
pub open spec fn has_known_groups(fields: FieldsView) -> bool {
    forall|i: int|
        0 <= i < fields.field_mapping.len() ==> regex_groups(fields.regex).contains(
            (#[trigger] fields.field_mapping[i]).1,
        )
}

/// Whether a format can be used: its regular expressions are such, one of the groups is the
/// time, and its mapping leads from known groups to the level and the message.
pub open spec fn is_usable(fields: FieldsView) -> bool {
    &&& has_known_targets(fields)
    &&& regex_problem(fields.regex) is None
    &&& regex_groups(fields.regex).contains("timestamp"@)
    &&& has_known_groups(fields)
    &&& fields.multiline_start_pattern matches Some(pattern) ==> regex_problem(pattern) is None
}

/// Whether a format cannot be used for a reason, with all that is looked at before in order.
pub open spec fn is_unusable_for(fields: FieldsView, reason: Seq<char>) -> bool {
    let names = regex_groups(fields.regex);
    if !has_known_targets(fields) {
        exists|i: int|
            0 <= i < fields.field_mapping.len() && !is_target(
                (#[trigger] fields.field_mapping[i]).0,
            ) && reason == "unsupported field_mapping target '"@ + fields.field_mapping[i].0
                + "': only 'level' and 'message' are supported"@
    } else if regex_problem(fields.regex) is Some {
        reason == "invalid pattern.regex '"@ + fields.regex + "': "@ + regex_problem(
            fields.regex,
        )->0
    } else if !names.contains("timestamp"@) {
        reason == "pattern.regex must contain a named capture group 'timestamp'"@
    } else if !has_known_groups(fields) {
        exists|i: int|
            0 <= i < fields.field_mapping.len() && !names.contains(
                (#[trigger] fields.field_mapping[i]).1,
            ) && reason == "field_mapping."@ + fields.field_mapping[i].0
                + " refers to unknown capture group '"@ + fields.field_mapping[i].1 + "'"@
    } else {
        fields.multiline_start_pattern matches Some(pattern) && regex_problem(pattern) matches Some(
            e,
        ) && reason == "invalid pattern.multiline_start_pattern: "@ + e
    }
}

/// A format is refused if and only if it cannot be used, and the reason is the first.
pub proof fn lemma_usable_formats(fields: FieldsView)
    ensures
        fields_problem(fields) is None <==> is_usable(fields),
        fields_problem(fields) matches Some(e) ==> is_unusable_for(fields, e),
{
    let at = lemma_targets(fields.field_mapping);
    let names = regex_groups(fields.regex);
    let bad = lemma_groups_of_mapping(fields.field_mapping, names);
    lemma_position(names, "timestamp"@);
    if bad_target(fields.field_mapping) is Some {
        assert(!is_target(fields.field_mapping[at].0));
    }
    if bad_group(fields.field_mapping, names) is Some {
        assert(!names.contains(fields.field_mapping[bad].1));
    }
}

/// A source is read by a configuration if and only if that says a format that can be used.
pub proof fn lemma_usable_configs(config: ConfigView)
    ensures
        usable_fields(config) matches Ok(f) ==> fields_of(config.extra) == Ok::<_, Seq<char>>(f)
            && is_usable(f),
        (fields_of(config.extra) matches Ok(f) && is_usable(f)) ==> usable_fields(config) is Ok,
{
    if let Ok(f) = fields_of(config.extra) {
        lemma_usable_formats(f);
    }
}

/// Whether a text stands before a line number: `line`, the number and a colon.
pub open spec fn is_at_line(e: Seq<char>, line: nat, reason: Seq<char>) -> bool {
    e == "line "@ + dec(line) + ": "@ + reason
}

/// Why lines have no record: the regular expression does not match them, or captures no time
/// in them, or the time cannot be read.
pub open spec fn is_failure_of(
    line: nat,
    raw: Seq<char>,
    names: Seq<Seq<char>>,
    captures: Option<Seq<Option<Seq<char>>>>,
    fields: FieldsView,
    zone: Option<ZoneView>,
    e: Seq<char>,
) -> bool {
    match captures {
        None => is_at_line(e, line, "does not match pattern.regex: "@ + debug_quoted(raw)),
        Some(captured) => match group_value(names, captured, "timestamp"@) {
            None => is_at_line(e, line, "'timestamp' capture group did not match"@),
            Some(text) => instant_of_text(
                text,
                fields.timestamp_format,
                zone,
                fields.assume_year,
            ) matches Err(why) && is_at_line(
                e,
                line,
                "failed to parse timestamp '"@ + text + "': "@ + why,
            ),
        },
    }
}

/// Lines have no record if and only if there is a failure, which bears the number of the
/// first of them.
pub proof fn lemma_failing_lines(
    line: nat,
    block: Seq<Seq<char>>,
    fields: FieldsView,
    zone: Option<ZoneView>,
)
    ensures
        block_record(line, block, fields, zone) matches Err(e) ==> is_failure_of(
            line,
            joined(block, "\n"@),
            regex_groups(fields.regex),
            regex_captures(fields.regex, joined(block, "\n"@)),
            fields,
            zone,
            e,
        ),
        regex_captures(fields.regex, joined(block, "\n"@)) is None ==> block_record(
            line,
            block,
            fields,
            zone,
        ) is Err,
{
    reveal(block_record);
}

/// A source without records fails with the first group of lines that has none.
pub proof fn lemma_first_failing_group(
    groups: Seq<(nat, Seq<Seq<char>>)>,
    fields: FieldsView,
    zone: Option<ZoneView>,
)
    ensures
        match group_records(groups, fields, zone) {
            Err(e) => exists|i: int|
                0 <= i < groups.len() && block_record(
                    (#[trigger] groups[i]).0,
                    groups[i].1,
                    fields,
                    zone,
                ) == Err::<RecordView, Seq<char>>(e) && forall|j: int|
                    0 <= j < i ==> block_record(
                        (#[trigger] groups[j]).0,
                        groups[j].1,
                        fields,
                        zone,
                    ) is Ok,
            Ok(records) => records.len() == groups.len() && forall|i: int|
                0 <= i < groups.len() ==> block_record(
                    (#[trigger] groups[i]).0,
                    groups[i].1,
                    fields,
                    zone,
                ) == Ok::<_, Seq<char>>(records[i]),
        },
    decreases groups.len(),
{
    if groups.len() > 0 {
        let n = groups.len() - 1;
        let front = groups.drop_last();
        lemma_first_failing_group(front, fields, zone);
        assert(groups[n] == groups.last());
        assert forall|i: int| 0 <= i < n implies front[i] == #[trigger] groups[i] by {}
        match group_records(front, fields, zone) {
            Err(e) => {
                let i = choose|i: int|
                    0 <= i < front.len() && block_record(
                        (#[trigger] front[i]).0,
                        front[i].1,
                        fields,
                        zone,
                    ) == Err::<RecordView, Seq<char>>(e) && forall|j: int|
                        0 <= j < i ==> block_record(
                            (#[trigger] front[j]).0,
                            front[j].1,
                            fields,
                            zone,
                        ) is Ok;
                assert(groups[i] == front[i]);
                assert forall|j: int| 0 <= j < i implies block_record(
                    (#[trigger] groups[j]).0,
                    groups[j].1,
                    fields,
                    zone,
                ) is Ok by {
                    assert(front[j] == groups[j]);
                }
            },
            Ok(before) => {
                assert forall|j: int| 0 <= j < n implies block_record(
                    (#[trigger] groups[j]).0,
                    groups[j].1,
                    fields,
                    zone,
                ) == Ok::<_, Seq<char>>(before[j]) by {
                    assert(front[j] == groups[j]);
                }
            },
        }
    }
}

/// Why a time stands for no instant: it is not of the format, it names no year and none is to
/// be assumed, it names no zone and none is to be assumed, or the zone knows no such time.
pub proof fn lemma_times_without_instant(
    text: Seq<char>,
    format: Seq<char>,
    zone: Option<ZoneView>,
    assume_year: Option<i32>,
)
    ensures
        year_fields(text, format) is Err ==> instant_of_text(text, format, zone, assume_year) is Err,
        (year_fields(text, format) matches Ok(found) && !found.name_one() && assume_year is None)
            ==> instant_of_text(text, format, zone, assume_year) == Err::<Timestamp, Seq<char>>(
            "timestamp has no year and no pattern.assume_year is configured for this source"@,
        ),
        (year_fields(text, format) matches Ok(found) && found.name_one() && zoned_instant(
            text,
            format,
            None,
        ) is None && local_time(text, format, None) is Ok && zone is None) ==> instant_of_text(
            text,
            format,
            zone,
            assume_year,
        ) == Err::<Timestamp, Seq<char>>(
            "timestamp has no timezone and no pattern.assume_offset is configured for this source"@,
        ),
        (year_fields(text, format) matches Ok(found) && !found.name_one() && assume_year is Some
            && zoned_instant(text, format, assume_year) is None && (local_time(
            text,
            format,
            assume_year,
        ) matches Ok(local) && (zone matches Some(ZoneView::Fixed { offset_seconds, .. })
            && in_calendar(local.seconds - offset_seconds)))) ==> instant_of_text(
            text,
            format,
            zone,
            assume_year,
        ) is Ok,
{
}

/// The named groups of a regular expression are those among its groups that have a name, in
/// order, and what they capture is what they do among all groups.
pub proof fn lemma_named_groups(
    groups: Seq<Option<Seq<char>>>,
    captures: Seq<Option<Seq<char>>>,
) -> (from: Seq<int>)
    requires
        captures.len() == groups.len(),
    ensures
        is_selection(groups, |g: Option<Seq<char>>| g is Some, from),
        names_among(groups).len() == from.len(),
        named_among(groups, captures).len() == from.len(),
        forall|k: int|
            0 <= k < from.len() ==> groups[#[trigger] from[k]] == Some(names_among(groups)[k])
                && named_among(groups, captures)[k] == captures[from[k]],
    decreases groups.len(),
{
    if groups.len() == 0 {
        Seq::empty()
    } else {
        let (g, c) = (groups.drop_last(), captures.drop_last());
        let before = lemma_named_groups(g, c);
        let from = lemma_selection_grows(groups, |g: Option<Seq<char>>| g is Some, before);
        assert forall|k: int| 0 <= k < from.len() implies groups[#[trigger] from[k]] == Some(
            names_among(groups)[k],
        ) && named_among(groups, captures)[k] == captures[from[k]] by {
            if k < before.len() {
                assert(from[k] == before[k]);
                assert(g[before[k]] == groups[before[k]]);
                assert(c[before[k]] == captures[before[k]]);
            }
        }
        from
    }
}

} // verus!
