//! Text logs of any form, described by a configuration: a regular expression
//! with named groups, a format for the time, and which groups are the level and
//! the message.

use vstd::prelude::*;

use crate::json::{insert, members_view, with_member, Json, JsonView};
use crate::model::{opt_text, records_view, ParsedRecord, RecordView};
use crate::parsers::text_records::{
    are_groups_of, is_record_of_lines, lemma_groups_begin_at_first_lines,
    lemma_record_is_its_lines,
};
use crate::parsers::{ConfigView, ParserConfig};
use crate::pattern::{
    capture, captures_view, compile, group_names, is_match, regex_captures, regex_groups,
    regex_matches, regex_problem, regex_text,
};
use crate::text::{
    debug_quoted, dec, dec_u64, join, joined, lines, lines_of, quote_debug, same,
    str_views, texts,
};
use crate::time::{in_calendar, Timestamp};
use crate::toml_doc::{
    lemma_toml_entries, may_text, need_record, need_text, optional_text, required_record,
    required_text, say_wrong_type, toml_entries, wrong_type, Toml, TomlView,
};

verus! {

/// How the lines of a source are read.
#[derive(Debug)]
pub struct PatternConfig {
    pub regex: String,
    pub timestamp_format: String,
    /// What the first line of a record that spans several lines looks like.
    pub multiline_start_pattern: Option<String>,
    /// The zone of times that name none.
    pub assume_offset: Option<String>,
    /// The year of times that name none.
    pub assume_year: Option<i32>,
}

/// What a text parser reads of its configuration.
#[derive(Debug)]
pub struct TextParserFields {
    pub pattern: PatternConfig,
    /// Which group is the level, and which the message.
    pub field_mapping: Vec<(String, String)>,
}

/// The view of [`TextParserFields`].
#[verifier::ext_equal]
pub struct FieldsView {
    pub regex: Seq<char>,
    pub timestamp_format: Seq<char>,
    pub multiline_start_pattern: Option<Seq<char>>,
    pub assume_offset: Option<Seq<char>>,
    pub assume_year: Option<i32>,
    pub field_mapping: Seq<(Seq<char>, Seq<char>)>,
}

/// The views of a list of pairs of texts.
pub open spec fn mapping_view(v: Seq<(String, String)>) -> Seq<(Seq<char>, Seq<char>)> {
    v.map_values(|e: (String, String)| (e.0@, e.1@))
}

impl View for TextParserFields {
    type V = FieldsView;

    open spec fn view(&self) -> FieldsView {
        FieldsView {
            regex: self.pattern.regex@,
            timestamp_format: self.pattern.timestamp_format@,
            multiline_start_pattern: opt_text(self.pattern.multiline_start_pattern),
            assume_offset: opt_text(self.pattern.assume_offset),
            assume_year: self.pattern.assume_year,
            field_mapping: mapping_view(self.field_mapping@),
        }
    }
}

/// The number of a field that may be missing, else a 32-bit integer.
pub open spec fn optional_i32(v: TomlView, key: Seq<char>) -> Result<Option<i32>, Seq<char>> {
    match v.get(key) {
        Some(TomlView::Integer(n)) => if i32::MIN <= n <= i32::MAX {
            Ok(Some(n as i32))
        } else {
            Err(wrong_type(key, "a 32-bit integer"@))
        },
        Some(_) => Err(wrong_type(key, "a 32-bit integer"@)),
        None => Ok(None),
    }
}

/// The entries of a table of texts.
pub open spec fn text_entries(entries: Seq<(Seq<char>, TomlView)>) -> Result<
    Seq<(Seq<char>, Seq<char>)>,
    Seq<char>,
>
    decreases entries.len(),
{
    if entries.len() == 0 {
        Ok(seq![])
    } else {
        match text_entries(entries.drop_last()) {
            Err(e) => Err(e),
            Ok(before) => match entries.last().1 {
                TomlView::Text(s) => Ok(before.push((entries.last().0, s))),
                _ => Err(wrong_type(entries.last().0, "a string"@)),
            },
        }
    }
}

/// Which groups are the level and the message; none where nothing is said.
pub open spec fn mapping_of(v: TomlView) -> Result<Seq<(Seq<char>, Seq<char>)>, Seq<char>> {
    match v.get("field_mapping"@) {
        Some(TomlView::Table(entries)) => text_entries(entries),
        Some(_) => Err(wrong_type("field_mapping"@, "a table"@)),
        None => Ok(seq![]),
    }
}

/// The fields of a pattern, in their order.
pub open spec fn pattern_fields() -> Seq<Seq<char>> {
    seq![
        "regex"@,
        "timestamp_format"@,
        "multiline_start_pattern"@,
        "assume_offset"@,
        "assume_year"@,
    ]
}

/// What a text parser reads of its configuration, or why it cannot.
pub open spec fn fields_of(extra: Seq<(Seq<char>, TomlView)>) -> Result<FieldsView, Seq<char>> {
    let v = TomlView::Table(extra);
    match required_record(v, "pattern"@, pattern_fields(), 5, false) {
        Err(e) => Err(e),
        Ok(entries) => {
            let pattern = TomlView::Table(entries);
            match (
                required_text(pattern, "regex"@),
                required_text(pattern, "timestamp_format"@),
                optional_text(pattern, "multiline_start_pattern"@),
                optional_text(pattern, "assume_offset"@),
                optional_i32(pattern, "assume_year"@),
                mapping_of(v),
            ) {
                (
                    Ok(regex),
                    Ok(timestamp_format),
                    Ok(multiline_start_pattern),
                    Ok(assume_offset),
                    Ok(assume_year),
                    Ok(field_mapping),
                ) => Ok(
                    FieldsView {
                        regex,
                        timestamp_format,
                        multiline_start_pattern,
                        assume_offset,
                        assume_year,
                        field_mapping,
                    },
                ),
                (Err(e), _, _, _, _, _) => Err(e),
                (_, Err(e), _, _, _, _) => Err(e),
                (_, _, Err(e), _, _, _) => Err(e),
                (_, _, _, Err(e), _, _) => Err(e),
                (_, _, _, _, Err(e), _) => Err(e),
                (_, _, _, _, _, Err(e)) => Err(e),
            }
        },
    }
}

fn may_i32(v: &Toml, key: &str) -> (r: Result<Option<i32>, String>)
    ensures
        match r {
            Ok(n) => optional_i32(v@, key@) == Ok::<Option<i32>, Seq<char>>(n),
            Err(e) => optional_i32(v@, key@) == Err::<Option<i32>, Seq<char>>(e@),
        },
{
    match v.get(key) {
        Some(Toml::Integer(n)) => if i32::MIN as i64 <= *n && *n <= i32::MAX as i64 {
            Ok(Some(*n as i32))
        } else {
            Err(say_wrong_type(key, "a 32-bit integer"))
        },
        Some(_) => Err(say_wrong_type(key, "a 32-bit integer")),
        None => Ok(None),
    }
}

proof fn lemma_text_entries_fail(entries: Seq<(Seq<char>, TomlView)>, n: int)
    requires
        0 <= n <= entries.len(),
        text_entries(entries.take(n)) is Err,
    ensures
        text_entries(entries) == text_entries(entries.take(n)),
    decreases entries.len(),
{
    if n < entries.len() {
        assert(entries.drop_last().take(n) == entries.take(n));
        lemma_text_entries_fail(entries.drop_last(), n);
    } else {
        assert(entries.take(n) == entries);
    }
}

fn read_text_entries(entries: &Vec<(String, Toml)>) -> (r: Result<Vec<(String, String)>, String>)
    ensures
        match r {
            Ok(m) => text_entries(toml_entries(entries@)) == Ok::<
                Seq<(Seq<char>, Seq<char>)>,
                Seq<char>,
            >(mapping_view(m@)),
            Err(e) => text_entries(toml_entries(entries@)) == Err::<
                Seq<(Seq<char>, Seq<char>)>,
                Seq<char>,
            >(e@),
        },
{
    let ghost all = toml_entries(entries@);
    let mut m: Vec<(String, String)> = Vec::new();
    let mut i: usize = 0;
    assert(mapping_view(m@) =~= seq![]);
    while i < entries.len()
        invariant
            i <= entries.len(),
            all == toml_entries(entries@),
            text_entries(all.take(i as int)) == Ok::<Seq<(Seq<char>, Seq<char>)>, Seq<char>>(
                mapping_view(m@),
            ),
        decreases entries.len() - i,
    {
        let ghost before = m@;
        proof {
            lemma_toml_entries(entries@);
            let next = all.take(i + 1);
            assert(next.drop_last() == all.take(i as int));
            assert(next.last() == (entries@[i as int].0@, entries@[i as int].1@));
        }
        match &entries[i].1 {
            Toml::Text(s) => {
                m.push((entries[i].0.clone(), s.clone()));
                assert(mapping_view(m@) =~= mapping_view(before).push(
                    (entries@[i as int].0@, s@),
                ));
            },
            _ => {
                proof {
                    lemma_text_entries_fail(all, i + 1);
                }
                return Err(say_wrong_type(entries[i].0.as_str(), "a string"));
            },
        }
        i += 1;
    }
    assert(all.take(i as int) == all);
    Ok(m)
}

/// What a text parser reads of its configuration, or why it cannot.
pub fn text_parser_fields(config: &ParserConfig) -> (r: Result<TextParserFields, String>)
    ensures
        match r {
            Ok(f) => fields_of(config@.extra) == Ok::<FieldsView, Seq<char>>(f@),
            Err(e) => fields_of(config@.extra) == Err::<FieldsView, Seq<char>>(e@),
        },
{
    let extra = Toml::Table(copy_entries(&config.parser.extra));
    let fields: [&'static str; 5] = [
        "regex",
        "timestamp_format",
        "multiline_start_pattern",
        "assume_offset",
        "assume_year",
    ];
    assert(str_views(fields@) =~= pattern_fields());
    let pattern = match need_record(&extra, "pattern", &fields, 5, false) {
        Ok(t) => t,
        Err(e) => {
            return Err(e);
        },
    };
    let pattern = &pattern;
    let regex = match need_text(pattern, "regex") {
        Ok(s) => s,
        Err(e) => {
            return Err(e);
        },
    };
    let timestamp_format = match need_text(pattern, "timestamp_format") {
        Ok(s) => s,
        Err(e) => {
            return Err(e);
        },
    };
    let multiline_start_pattern = match may_text(pattern, "multiline_start_pattern") {
        Ok(s) => s,
        Err(e) => {
            return Err(e);
        },
    };
    let assume_offset = match may_text(pattern, "assume_offset") {
        Ok(s) => s,
        Err(e) => {
            return Err(e);
        },
    };
    let assume_year = match may_i32(pattern, "assume_year") {
        Ok(n) => n,
        Err(e) => {
            return Err(e);
        },
    };
    let field_mapping = match extra.get("field_mapping") {
        Some(Toml::Table(entries)) => match read_text_entries(entries) {
            Ok(m) => m,
            Err(e) => {
                return Err(e);
            },
        },
        Some(_) => {
            return Err(say_wrong_type("field_mapping", "a table"));
        },
        None => {
            let none: Vec<(String, String)> = Vec::new();
            assert(mapping_view(none@) =~= seq![]);
            none
        },
    };
    Ok(
        TextParserFields {
            pattern: PatternConfig {
                regex,
                timestamp_format,
                multiline_start_pattern,
                assume_offset,
                assume_year,
            },
            field_mapping,
        },
    )
}

fn copy_entries(entries: &Vec<(String, Toml)>) -> (r: Vec<(String, Toml)>)
    ensures
        toml_entries(r@) == toml_entries(entries@),
{
    let mut r: Vec<(String, Toml)> = Vec::new();
    let mut i: usize = 0;
    while i < entries.len()
        invariant
            i <= entries.len(),
            r.len() == i,
            forall|j: int|
                0 <= j < i ==> (#[trigger] r@[j]).0@ == entries@[j].0@ && r@[j].1@
                    == entries@[j].1@,
        decreases entries.len() - i,
    {
        let value = entries[i].1.clone();
        r.push((entries[i].0.clone(), value));
        i += 1;
    }
    proof {
        lemma_toml_entries(r@);
        lemma_toml_entries(entries@);
        assert(toml_entries(r@) =~= toml_entries(entries@));
    }
    r
}

/// A time of day on a date, without a zone: the seconds between midnight of
/// 1970-01-01 and it, and the nanoseconds after them.
#[derive(Clone, Copy, Debug, PartialEq, Eq, Structural)]
pub struct LocalTime {
    pub seconds: i64,
    pub nanos: u32,
}

/// A zone: a fixed offset from UTC, or the instants of the local times that
/// have exactly one.
#[derive(Debug)]
pub enum TimezoneSpec {
    Fixed { label: String, offset_seconds: i32 },
    Named { label: String, instants: Vec<(LocalTime, Timestamp)> },
}

/// The view of a [`TimezoneSpec`].
#[verifier::ext_equal]
pub enum ZoneView {
    Fixed { label: Seq<char>, offset_seconds: i32 },
    Named { label: Seq<char>, instants: Seq<(LocalTime, Timestamp)> },
}

impl View for TimezoneSpec {
    type V = ZoneView;

    open spec fn view(&self) -> ZoneView {
        match self {
            TimezoneSpec::Fixed { label, offset_seconds } => ZoneView::Fixed {
                label: label@,
                offset_seconds: *offset_seconds,
            },
            TimezoneSpec::Named { label, instants } => ZoneView::Named {
                label: label@,
                instants: instants@,
            },
        }
    }
}

/// The instant of the first pair with this local time.
pub open spec fn instant_in(instants: Seq<(LocalTime, Timestamp)>, local: LocalTime) -> Option<
    Timestamp,
>
    decreases instants.len(),
{
    if instants.len() == 0 {
        None
    } else if instants[0].0 == local {
        Some(instants[0].1)
    } else {
        instant_in(instants.drop_first(), local)
    }
}

/// The instant of a local time in a zone; none where it falls out of the range
/// of dates, and none where the zone does not know it.
pub open spec fn resolved(zone: ZoneView, local: LocalTime) -> Option<Timestamp> {
    match zone {
        ZoneView::Fixed { offset_seconds, .. } => if in_calendar(local.seconds - offset_seconds) {
            Some(Timestamp { seconds: (local.seconds - offset_seconds) as i64, nanos: local.nanos })
        } else {
            None
        },
        ZoneView::Named { instants, .. } => instant_in(instants, local),
    }
}

/// The name of a zone.
pub open spec fn zone_label(zone: ZoneView) -> Seq<char> {
    match zone {
        ZoneView::Fixed { label, .. } => label,
        ZoneView::Named { label, .. } => label,
    }
}

impl TimezoneSpec {
    /// The instant of a local time in the zone.
    pub fn resolve_local(&self, local: LocalTime) -> (r: Option<Timestamp>)
        ensures
            r == resolved(self@, local),
    {
        match self {
            TimezoneSpec::Fixed { offset_seconds, .. } => {
                let seconds: i128 = local.seconds as i128 - *offset_seconds as i128;
                if -8334601228800 <= seconds && seconds <= 8210266876799 {
                    Some(Timestamp { seconds: seconds as i64, nanos: local.nanos })
                } else {
                    None
                }
            },
            TimezoneSpec::Named { instants, .. } => {
                let mut i: usize = 0;
                assert(instants@.skip(0) == instants@);
                while i < instants.len()
                    invariant
                        i <= instants.len(),
                        resolved(self@, local) == instant_in(instants@, local),
                        instant_in(instants@, local) == instant_in(
                            instants@.skip(i as int),
                            local,
                        ),
                    decreases instants.len() - i,
                {
                    proof {
                        assert(instants@.skip(i as int)[0] == instants@[i as int]);
                        assert(instants@.skip(i as int).drop_first() == instants@.skip(i + 1));
                    }
                    if instants[i].0 == local {
                        return Some(instants[i].1);
                    }
                    i += 1;
                }
                None
            },
        }
    }

    fn label(&self) -> (r: &String)
        ensures
            r@ == zone_label(self@),
    {
        match self {
            TimezoneSpec::Fixed { label, .. } => label,
            TimezoneSpec::Named { label, .. } => label,
        }
    }
}

/// What a text read by a time format says of the year.
#[derive(Debug, Clone, Copy)]
pub struct YearFields {
    pub year: bool,
    /// The year without its century.
    pub short_year: bool,
    /// The year that a week belongs to.
    pub week_year: bool,
    /// The year that a week belongs to, without its century.
    pub short_week_year: bool,
    /// The week of a year that weeks belong to.
    pub week: bool,
    pub weekday: bool,
    /// The seconds since the epoch.
    pub instant: bool,
}

impl YearFields {
    /// Whether they name a year. The year that a week belongs to does where the day is
    /// named by the week.
    pub open spec fn name_one(self) -> bool {
        ||| self.year
        ||| self.short_year
        ||| (self.week_year || self.short_week_year) && self.week && self.weekday
        ||| self.instant
    }
}

/// What a text read by a time format says of the year, or why it cannot be read
/// (`chrono::format::parse`).
pub uninterp spec fn year_fields(text: Seq<char>, format: Seq<char>) -> Result<
    YearFields,
    Seq<char>,
>;

/// Whether a text read by a time format names a year, or why it cannot be read.
pub open spec fn time_names_year(text: Seq<char>, format: Seq<char>) -> Result<bool, Seq<char>> {
    match year_fields(text, format) {
        Ok(found) => Ok(found.name_one()),
        Err(e) => Err(e),
    }
}

/// The instant of a text read by a time format, in the given year where it
/// names none, if it names a zone (`chrono::format::Parsed::to_datetime`).
pub uninterp spec fn zoned_instant(text: Seq<char>, format: Seq<char>, year: Option<i32>) -> Option<
    Timestamp,
>;

/// The local time of a text read by a time format, in the given year where it
/// names none, or why it has none
/// (`chrono::format::Parsed::to_naive_datetime_with_offset`).
pub uninterp spec fn local_time(text: Seq<char>, format: Seq<char>, year: Option<i32>) -> Result<
    LocalTime,
    Seq<char>,
>;

/// `chrono::format::parse` with `StrftimeItems`, and which of the fields that name
/// a year, and a day by its week, it filled in.
#[verifier::external_body]
fn read_year_fields(text: &str, format: &str) -> (r: Result<YearFields, String>)
    ensures
        match r {
            Ok(found) => year_fields(text@, format@) == Ok::<YearFields, Seq<char>>(found),
            Err(e) => year_fields(text@, format@) == Err::<YearFields, Seq<char>>(e@),
        },
{
    let mut parsed = chrono::format::Parsed::new();
    let items = chrono::format::StrftimeItems::new(format);
    chrono::format::parse(&mut parsed, text, items).map_err(|e| e.to_string())?;
    Ok(YearFields {
        year: parsed.year().is_some(),
        short_year: parsed.year_mod_100().is_some(),
        week_year: parsed.isoyear().is_some(),
        short_week_year: parsed.isoyear_mod_100().is_some(),
        week: parsed.isoweek().is_some(),
        weekday: parsed.weekday().is_some(),
        instant: parsed.timestamp().is_some(),
    })
}

fn probe_year(text: &str, format: &str) -> (r: Result<bool, String>)
    ensures
        match r {
            Ok(b) => time_names_year(text@, format@) == Ok::<bool, Seq<char>>(b),
            Err(e) => time_names_year(text@, format@) == Err::<bool, Seq<char>>(e@),
        },
{
    match read_year_fields(text, format) {
        Ok(found) => Ok(
            found.year || found.short_year || (found.week_year || found.short_week_year)
                && found.week && found.weekday || found.instant,
        ),
        Err(e) => Err(e),
    }
}

/// `chrono::format::parse` with `StrftimeItems`, the given year, and
/// `Parsed::to_datetime`.
#[verifier::external_body]
fn read_zoned(text: &str, format: &str, year: Option<i32>) -> (r: Option<Timestamp>)
    ensures
        r == zoned_instant(text@, format@, year),
{
    let mut parsed = chrono::format::Parsed::new();
    chrono::format::parse(&mut parsed, text, chrono::format::StrftimeItems::new(format)).ok()?;
    year.map_or(Ok(()), |y| parsed.set_year(y.into())).ok()?;
    let t = parsed.to_datetime().ok()?;
    Some(Timestamp { seconds: t.timestamp(), nanos: t.timestamp_subsec_nanos() })
}

/// `chrono::format::parse` with `StrftimeItems`, the given year, and
/// `Parsed::to_naive_datetime_with_offset` with no offset.
#[verifier::external_body]
fn read_local(text: &str, format: &str, year: Option<i32>) -> (r: Result<LocalTime, String>)
    ensures
        match r {
            Ok(t) => local_time(text@, format@, year) == Ok::<LocalTime, Seq<char>>(t),
            Err(e) => local_time(text@, format@, year) == Err::<LocalTime, Seq<char>>(e@),
        },
{
    let mut parsed = chrono::format::Parsed::new();
    chrono::format::parse(&mut parsed, text, chrono::format::StrftimeItems::new(format))
        .and_then(|()| year.map_or(Ok(()), |y| parsed.set_year(y.into())))
        .and_then(|()| parsed.to_naive_datetime_with_offset(0))
        .map(|t| t.and_utc())
        .map(|t| LocalTime { seconds: t.timestamp(), nanos: t.timestamp_subsec_nanos() })
        .map_err(|e| e.to_string())
}

/// The instant that a time stands for. A year and a zone that the time does not
/// name must be given; those that it names are not overruled.
pub open spec fn instant_of_text(
    text: Seq<char>,
    format: Seq<char>,
    zone: Option<ZoneView>,
    assume_year: Option<i32>,
) -> Result<Timestamp, Seq<char>> {
    match time_names_year(text, format) {
        Err(e) => Err("does not match timestamp_format '"@ + format + "': "@ + e),
        Ok(named) => if !named && assume_year is None {
            Err("timestamp has no year and no pattern.assume_year is configured for this source"@)
        } else {
            let year = if named {
                None
            } else {
                assume_year
            };
            match zoned_instant(text, format, year) {
                Some(t) => Ok(t),
                None => match local_time(text, format, year) {
                    Err(e) => Err(
                        "timestamp '"@ + text + "' does not match timestamp_format '"@ + format
                            + "': "@ + e,
                    ),
                    Ok(local) => match zone {
                        None => Err(
                            "timestamp has no timezone and no pattern.assume_offset is configured for this source"@,
                        ),
                        Some(zone) => match resolved(zone, local) {
                            Some(t) => Ok(t),
                            None => Err(
                                "timestamp '"@ + text + "' is ambiguous or nonexistent under "@
                                    + zone_label(zone),
                            ),
                        },
                    },
                },
            }
        },
    }
}

/// The name of an optional zone.
pub open spec fn opt_label(zone: Option<ZoneView>) -> Option<Seq<char>> {
    match zone {
        Some(zone) => Some(zone_label(zone)),
        None => None,
    }
}

/// The view of an optional zone.
pub open spec fn opt_zone(zone: Option<&TimezoneSpec>) -> Option<ZoneView> {
    match zone {
        Some(z) => Some(z@),
        None => None,
    }
}

/// The instant that a time stands for.
pub fn parse_timestamp(
    text: &str,
    format: &str,
    assume_offset: Option<&TimezoneSpec>,
    assume_year: Option<i32>,
) -> (r: Result<Timestamp, String>)
    ensures
        match r {
            Ok(t) => instant_of_text(text@, format@, opt_zone(assume_offset), assume_year) == Ok::<
                Timestamp,
                Seq<char>,
            >(t),
            Err(e) => instant_of_text(text@, format@, opt_zone(assume_offset), assume_year) == Err::<
                Timestamp,
                Seq<char>,
            >(e@),
        },
{
    let named: bool = match probe_year(text, format) {
        Ok(named) => named,
        Err(reason) => {
            let mut e = "does not match timestamp_format '".to_owned();
            e.append(format);
            e.append("': ");
            e.append(reason.as_str());
            return Err(e);
        },
    };
    let year: Option<i32> = if named {
        None
    } else {
        match assume_year {
            Some(y) => Some(y),
            None => {
                return Err(
                    "timestamp has no year and no pattern.assume_year is configured for this source".to_owned(),
                );
            },
        }
    };
    if let Some(t) = read_zoned(text, format, year) {
        return Ok(t);
    }
    let local = match read_local(text, format, year) {
        Ok(local) => local,
        Err(reason) => {
            let mut e = "timestamp '".to_owned();
            e.append(text);
            e.append("' does not match timestamp_format '");
            e.append(format);
            e.append("': ");
            e.append(reason.as_str());
            return Err(e);
        },
    };
    match assume_offset {
        None => Err(
            "timestamp has no timezone and no pattern.assume_offset is configured for this source".to_owned(),
        ),
        Some(zone) => match zone.resolve_local(local) {
            Some(t) => Ok(t),
            None => {
                let mut e = "timestamp '".to_owned();
                e.append(text);
                e.append("' is ambiguous or nonexistent under ");
                e.append(zone.label().as_str());
                Err(e)
            },
        },
    }
}

/// The lines of a source in groups, each with the number of its first line,
/// counted from 1: every line is a group, or, where the first lines of records
/// are recognizable, a line that is none belongs to the group before it. The
/// very first line always begins a group.
pub open spec fn grouped(all: Seq<Seq<char>>, start: Option<Seq<char>>) -> Seq<
    (nat, Seq<Seq<char>>),
>
    decreases all.len(),
{
    if all.len() == 0 {
        seq![]
    } else {
        let before = grouped(all.drop_last(), start);
        let begins = match start {
            Some(pattern) => before.len() == 0 || regex_matches(pattern, all.last()),
            None => true,
        };
        if begins {
            before.push((all.len(), seq![all.last()]))
        } else {
            before.update(
                before.len() - 1,
                (before.last().0, before.last().1.push(all.last())),
            )
        }
    }
}

/// The text of an optional regular expression.
pub open spec fn opt_regex(r: Option<regex::Regex>) -> Option<Seq<char>> {
    match r {
        Some(re) => Some(regex_text(re)),
        None => None,
    }
}

/// A group of lines with the number of its first line.
pub struct LineGroup {
    pub start_line: usize,
    pub lines: Vec<String>,
}

/// The views of a list of groups.
pub open spec fn groups_view(v: Seq<LineGroup>) -> Seq<(nat, Seq<Seq<char>>)> {
    v.map_values(|g: LineGroup| (g.start_line as nat, texts(g.lines@)))
}

/// The lines of a source in groups.
fn group_lines(all: &Vec<String>, start: &Option<regex::Regex>) -> (r: Vec<LineGroup>)
    ensures
        groups_view(r@) == grouped(texts(all@), opt_regex(*start)),
{
    let ghost lines_v = texts(all@);
    let ghost sv = opt_regex(*start);
    let mut groups: Vec<LineGroup> = Vec::new();
    let mut i: usize = 0;
    assert(groups_view(groups@) =~= seq![]);
    while i < all.len()
        invariant
            i <= all.len(),
            lines_v == texts(all@),
            sv == opt_regex(*start),
            groups_view(groups@) == grouped(lines_v.take(i as int), sv),
        decreases all.len() - i,
    {
        let ghost before = groups@;
        proof {
            let next = lines_v.take(i + 1);
            assert(next.drop_last() == lines_v.take(i as int));
            assert(next.last() == all@[i as int]@);
            assert(groups_view(before).len() == before.len());
        }
        let begins: bool = match start {
            Some(re) => groups.len() == 0 || is_match(re, all[i].as_str()),
            None => true,
        };
        if begins {
            let mut lines: Vec<String> = Vec::new();
            lines.push(all[i].clone());
            assert(texts(lines@) =~= seq![all@[i as int]@]);
            groups.push(LineGroup { start_line: i + 1, lines });
            assert(groups_view(groups@) =~= groups_view(before).push(
                ((i + 1) as nat, seq![all@[i as int]@]),
            ));
        } else {
            let last = groups.pop();
            match last {
                Some(group) => {
                    let ghost old_lines = group.lines@;
                    let mut lines = group.lines;
                    lines.push(all[i].clone());
                    groups.push(LineGroup { start_line: group.start_line, lines });
                    proof {
                        assert(texts(lines@) =~= texts(old_lines).push(all@[i as int]@));
                        let g = groups_view(before);
                        assert(g.last() == (group.start_line as nat, texts(old_lines)));
                        assert(groups_view(groups@) =~= g.update(
                            g.len() - 1,
                            (g.last().0, g.last().1.push(all@[i as int]@)),
                        ));
                    }
                },
                None => {},
            }
        }
        i += 1;
    }
    assert(lines_v.take(i as int) == lines_v);
    groups
}

/// The position of a name in a list, or the length of the list.
pub open spec fn position(names: Seq<Seq<char>>, name: Seq<char>) -> int
    decreases names.len(),
{
    if names.len() == 0 || names[0] == name {
        0
    } else {
        1 + position(names.drop_first(), name)
    }
}

/// What the group `name` captured.
pub open spec fn group_value(
    names: Seq<Seq<char>>,
    captures: Seq<Option<Seq<char>>>,
    name: Seq<char>,
) -> Option<Seq<char>> {
    let i = position(names, name);
    if 0 <= i < names.len() && i < captures.len() {
        captures[i]
    } else {
        None
    }
}

/// The fields of a record: what each of the first `n` groups captured.
pub open spec fn capture_fields(
    names: Seq<Seq<char>>,
    captures: Seq<Option<Seq<char>>>,
    n: int,
) -> Seq<(Seq<char>, JsonView)>
    decreases n,
{
    if n <= 0 {
        seq![]
    } else {
        let value = match captures[n - 1] {
            Some(s) => JsonView::Text(s),
            None => JsonView::Null,
        };
        with_member(capture_fields(names, captures, n - 1), names[n - 1], value)
    }
}

/// The group that a target is mapped to.
pub open spec fn mapped_group(mapping: Seq<(Seq<char>, Seq<char>)>, target: Seq<char>) -> Option<
    Seq<char>,
>
    decreases mapping.len(),
{
    if mapping.len() == 0 {
        None
    } else if mapping[0].0 == target {
        Some(mapping[0].1)
    } else {
        mapped_group(mapping.drop_first(), target)
    }
}

/// What the group that a target is mapped to captured.
pub open spec fn mapped_value(
    names: Seq<Seq<char>>,
    captures: Seq<Option<Seq<char>>>,
    mapping: Seq<(Seq<char>, Seq<char>)>,
    target: Seq<char>,
) -> Option<Seq<char>> {
    match mapped_group(mapping, target) {
        Some(group) => group_value(names, captures, group),
        None => None,
    }
}

/// `line n: ` and a reason.
pub open spec fn at_line(line: nat, reason: Seq<char>) -> Seq<char> {
    "line "@ + dec(line) + ": "@ + reason
}

/// The record of a group of lines with these captures, or why there is none.
pub open spec fn captured_record(
    line: nat,
    raw: Seq<char>,
    names: Seq<Seq<char>>,
    captures: Option<Seq<Option<Seq<char>>>>,
    fields: FieldsView,
    zone: Option<ZoneView>,
) -> Result<RecordView, Seq<char>> {
    match captures {
        None => Err(at_line(line, "does not match pattern.regex: "@ + debug_quoted(raw))),
        Some(captures) => match group_value(names, captures, "timestamp"@) {
            None => Err(at_line(line, "'timestamp' capture group did not match"@)),
            Some(text) => match instant_of_text(
                text,
                fields.timestamp_format,
                zone,
                fields.assume_year,
            ) {
                Err(e) => Err(
                    at_line(line, "failed to parse timestamp '"@ + text + "': "@ + e),
                ),
                Ok(timestamp_utc) => Ok(
                    RecordView {
                        timestamp_utc,
                        level: mapped_value(names, captures, fields.field_mapping, "level"@),
                        message: mapped_value(names, captures, fields.field_mapping, "message"@),
                        raw,
                        fields: JsonView::Object(
                            capture_fields(names, captures, names.len() as int),
                        ),
                    },
                ),
            },
        },
    }
}

/// The record of a group of lines, or why there is none.
#[verifier::opaque]
pub open spec fn block_record(
    line: nat,
    block: Seq<Seq<char>>,
    fields: FieldsView,
    zone: Option<ZoneView>,
) -> Result<RecordView, Seq<char>> {
    let raw = joined(block, "\n"@);
    captured_record(
        line,
        raw,
        regex_groups(fields.regex),
        regex_captures(fields.regex, raw),
        fields,
        zone,
    )
}

fn find_name(names: &Vec<String>, name: &str) -> (i: usize)
    ensures
        i == position(texts(names@), name@),
        i <= names.len(),
{
    let ghost all = texts(names@);
    let mut i: usize = 0;
    assert(all.skip(0) == all);
    while i < names.len()
        invariant
            i <= names.len(),
            all == texts(names@),
            position(all, name@) == i + position(all.skip(i as int), name@),
        decreases names.len() - i,
    {
        proof {
            assert(all.skip(i as int)[0] == names@[i as int]@);
            assert(all.skip(i as int).drop_first() == all.skip(i + 1));
        }
        if same(names[i].as_str(), name) {
            return i;
        }
        i += 1;
    }
    i
}

fn value_of_group(names: &Vec<String>, captures: &Vec<Option<String>>, name: &str) -> (r: Option<
    String,
>)
    ensures
        opt_text(r) == group_value(texts(names@), captures_view(captures@), name@),
{
    let i: usize = find_name(names, name);
    if i < names.len() && i < captures.len() {
        assert(captures_view(captures@)[i as int] == opt_text(captures@[i as int]));
        captures[i].clone()
    } else {
        None
    }
}

/// The group that a target is mapped to.
pub fn mapped_text(mapping: &Vec<(String, String)>, target: &str) -> (r: Option<String>)
    ensures
        opt_text(r) == mapped_group(mapping_view(mapping@), target@),
{
    let ghost all = mapping_view(mapping@);
    let mut i: usize = 0;
    assert(all.skip(0) == all);
    while i < mapping.len()
        invariant
            i <= mapping.len(),
            all == mapping_view(mapping@),
            mapped_group(all, target@) == mapped_group(all.skip(i as int), target@),
        decreases mapping.len() - i,
    {
        proof {
            assert(all.skip(i as int)[0] == (mapping@[i as int].0@, mapping@[i as int].1@));
            assert(all.skip(i as int).drop_first() == all.skip(i + 1));
        }
        if same(mapping[i].0.as_str(), target) {
            return Some(mapping[i].1.clone());
        }
        i += 1;
    }
    None
}

fn value_for(
    names: &Vec<String>,
    captures: &Vec<Option<String>>,
    mapping: &Vec<(String, String)>,
    target: &str,
) -> (r: Option<String>)
    ensures
        opt_text(r) == mapped_value(
            texts(names@),
            captures_view(captures@),
            mapping_view(mapping@),
            target@,
        ),
{
    match mapped_text(mapping, target) {
        Some(group) => value_of_group(names, captures, group.as_str()),
        None => None,
    }
}

fn line_error(line: usize, reason: &str) -> (r: String)
    ensures
        r@ == at_line(line as nat, reason@),
{
    let mut e = "line ".to_owned();
    e.append(dec_u64(line as u64).as_str());
    e.append(": ");
    e.append(reason);
    e
}

/// The record of a group of lines with these captures, or why there is none.
pub fn record_from_captures(
    start_line: usize,
    raw: String,
    names: &Vec<String>,
    captures: Option<Vec<Option<String>>>,
    fields: &TextParserFields,
    assume_offset: Option<&TimezoneSpec>,
) -> (r: Result<ParsedRecord, String>)
    requires
        captures is Some ==> captures->0@.len() == names@.len(),
    ensures
        ({
            let want = captured_record(
                start_line as nat,
                raw@,
                texts(names@),
                match captures {
                    Some(c) => Some(captures_view(c@)),
                    None => None,
                },
                fields@,
                opt_zone(assume_offset),
            );
            match r {
                Ok(record) => want == Ok::<RecordView, Seq<char>>(record@),
                Err(e) => want == Err::<RecordView, Seq<char>>(e@),
            }
        }),
{
    let captures = match captures {
        Some(c) => c,
        None => {
            let mut reason = "does not match pattern.regex: ".to_owned();
            reason.append(quote_debug(raw.as_str()).as_str());
            return Err(line_error(start_line, reason.as_str()));
        },
    };
    let text = match value_of_group(names, &captures, "timestamp") {
        Some(text) => text,
        None => {
            return Err(line_error(start_line, "'timestamp' capture group did not match"));
        },
    };
    let timestamp_utc = match parse_timestamp(
        text.as_str(),
        fields.pattern.timestamp_format.as_str(),
        assume_offset,
        fields.pattern.assume_year,
    ) {
        Ok(t) => t,
        Err(e) => {
            let mut reason = "failed to parse timestamp '".to_owned();
            reason.append(text.as_str());
            reason.append("': ");
            reason.append(e.as_str());
            return Err(line_error(start_line, reason.as_str()));
        },
    };
    let ghost nv = texts(names@);
    let ghost cv = captures_view(captures@);
    let mut members: Vec<(String, Json)> = Vec::new();
    let mut i: usize = 0;
    assert(members_view(members@) =~= seq![]);
    while i < names.len()
        invariant
            i <= names.len(),
            names.len() == captures.len(),
            nv == texts(names@),
            cv == captures_view(captures@),
            members_view(members@) == capture_fields(nv, cv, i as int),
        decreases names.len() - i,
    {
        assert(nv[i as int] == names@[i as int]@);
        assert(cv[i as int] == opt_text(captures@[i as int]));
        let value = match &captures[i] {
            Some(s) => Json::Text(s.clone()),
            None => Json::Null,
        };
        insert(&mut members, names[i].as_str(), value);
        i += 1;
    }
    let level = value_for(names, &captures, &fields.field_mapping, "level");
    let message = value_for(names, &captures, &fields.field_mapping, "message");
    Ok(ParsedRecord { timestamp_utc, level, message, raw, fields: Json::Object(members) })
}

/// A configuration that was found in order, with its regular expressions.
pub struct TextPlan {
    pub fields: TextParserFields,
    pub main: regex::Regex,
    pub start: Option<regex::Regex>,
    pub names: Vec<String>,
}

/// Whether the regular expressions of a plan are those of its configuration.
pub open spec fn plan_is_of(plan: TextPlan, fields: FieldsView) -> bool {
    &&& plan.fields@ == fields
    &&& regex_text(plan.main) == fields.regex
    &&& texts(plan.names@) == regex_groups(fields.regex)
    &&& opt_regex(plan.start) == fields.multiline_start_pattern
}

/// The record of a group of lines, or why there is none.
pub fn parse_block(
    plan: &TextPlan,
    start_line: usize,
    block_lines: &Vec<String>,
    assume_offset: Option<&TimezoneSpec>,
) -> (r: Result<ParsedRecord, String>)
    requires
        plan_is_of(*plan, plan.fields@),
    ensures
        ({
            let want = block_record(
                start_line as nat,
                texts(block_lines@),
                plan.fields@,
                opt_zone(assume_offset),
            );
            match r {
                Ok(record) => want == Ok::<RecordView, Seq<char>>(record@) && is_record_of_lines(
                    texts(block_lines@),
                    plan.fields@,
                    opt_zone(assume_offset),
                    record@,
                ),
                Err(e) => want == Err::<RecordView, Seq<char>>(e@),
            }
        }),
{
    proof {
        reveal(block_record);
    }
    let raw = join(block_lines, "\n");
    let captures = capture(&plan.main, raw.as_str());
    assert(texts(plan.names@).len() == plan.names@.len());
    proof {
        reveal_strlit("\n");
        assert("\n"@ =~= seq!['\n']);
        lemma_record_is_its_lines(
            start_line as nat,
            texts(block_lines@),
            plan.fields@,
            opt_zone(assume_offset),
        );
    }
    record_from_captures(start_line, raw, &plan.names, captures, &plan.fields, assume_offset)
}

/// The first target of a mapping that is neither the level nor the message.
pub open spec fn bad_target(mapping: Seq<(Seq<char>, Seq<char>)>) -> Option<Seq<char>>
    decreases mapping.len(),
{
    if mapping.len() == 0 {
        None
    } else if mapping[0].0 != "level"@ && mapping[0].0 != "message"@ {
        Some(mapping[0].0)
    } else {
        bad_target(mapping.drop_first())
    }
}

/// The first pair of a mapping whose group the regular expression lacks.
pub open spec fn bad_group(mapping: Seq<(Seq<char>, Seq<char>)>, names: Seq<Seq<char>>) -> Option<
    (Seq<char>, Seq<char>),
>
    decreases mapping.len(),
{
    if mapping.len() == 0 {
        None
    } else if position(names, mapping[0].1) >= names.len() {
        Some(mapping[0])
    } else {
        bad_group(mapping.drop_first(), names)
    }
}

/// What is wrong with a configuration, if anything is.
pub open spec fn fields_problem(fields: FieldsView) -> Option<Seq<char>> {
    let names = regex_groups(fields.regex);
    match bad_target(fields.field_mapping) {
        Some(target) => Some(
            "unsupported field_mapping target '"@ + target
                + "': only 'level' and 'message' are supported"@,
        ),
        None => match regex_problem(fields.regex) {
            Some(e) => Some("invalid pattern.regex '"@ + fields.regex + "': "@ + e),
            None => if position(names, "timestamp"@) >= names.len() {
                Some("pattern.regex must contain a named capture group 'timestamp'"@)
            } else {
                match bad_group(fields.field_mapping, names) {
                    Some((target, group)) => Some(
                        "field_mapping."@ + target + " refers to unknown capture group '"@ + group
                            + "'"@,
                    ),
                    None => match fields.multiline_start_pattern {
                        Some(pattern) => match regex_problem(pattern) {
                            Some(e) => Some("invalid pattern.multiline_start_pattern: "@ + e),
                            None => None,
                        },
                        None => None,
                    },
                }
            },
        },
    }
}

/// The configuration that a source is read by, or why it cannot be.
pub open spec fn usable_fields(config: ConfigView) -> Result<FieldsView, Seq<char>> {
    match fields_of(config.extra) {
        Err(e) => Err("invalid text parser config: "@ + e),
        Ok(fields) => match fields_problem(fields) {
            Some(e) => Err(e),
            None => Ok(fields),
        },
    }
}

fn find_bad_target(mapping: &Vec<(String, String)>) -> (r: Option<String>)
    ensures
        opt_text(r) == bad_target(mapping_view(mapping@)),
{
    let ghost all = mapping_view(mapping@);
    let mut i: usize = 0;
    assert(all.skip(0) == all);
    while i < mapping.len()
        invariant
            i <= mapping.len(),
            all == mapping_view(mapping@),
            bad_target(all) == bad_target(all.skip(i as int)),
        decreases mapping.len() - i,
    {
        proof {
            assert(all.skip(i as int)[0] == (mapping@[i as int].0@, mapping@[i as int].1@));
            assert(all.skip(i as int).drop_first() == all.skip(i + 1));
        }
        if !same(mapping[i].0.as_str(), "level") && !same(mapping[i].0.as_str(), "message") {
            return Some(mapping[i].0.clone());
        }
        i += 1;
    }
    None
}

fn find_bad_group(mapping: &Vec<(String, String)>, names: &Vec<String>) -> (r: Option<usize>)
    ensures
        match r {
            Some(i) => i < mapping.len() && bad_group(mapping_view(mapping@), texts(names@)) == Some(
                (mapping@[i as int].0@, mapping@[i as int].1@),
            ),
            None => bad_group(mapping_view(mapping@), texts(names@)) is None,
        },
{
    let ghost all = mapping_view(mapping@);
    let ghost nv = texts(names@);
    let mut i: usize = 0;
    assert(all.skip(0) == all);
    while i < mapping.len()
        invariant
            i <= mapping.len(),
            all == mapping_view(mapping@),
            nv == texts(names@),
            bad_group(all, nv) == bad_group(all.skip(i as int), nv),
        decreases mapping.len() - i,
    {
        proof {
            assert(all.skip(i as int)[0] == (mapping@[i as int].0@, mapping@[i as int].1@));
            assert(all.skip(i as int).drop_first() == all.skip(i + 1));
            assert(nv.len() == names@.len());
        }
        if find_name(names, mapping[i].1.as_str()) >= names.len() {
            return Some(i);
        }
        i += 1;
    }
    None
}

/// Makes a plan of a configuration, or says why it cannot be used.
pub fn plan_text_parser(config: &ParserConfig) -> (r: Result<TextPlan, String>)
    ensures
        match r {
            Ok(plan) => {
                &&& usable_fields(config@) == Ok::<FieldsView, Seq<char>>(plan.fields@)
                &&& plan_is_of(plan, plan.fields@)
            },
            Err(e) => usable_fields(config@) == Err::<FieldsView, Seq<char>>(e@),
        },
{
    let fields = match text_parser_fields(config) {
        Ok(fields) => fields,
        Err(reason) => {
            let mut e = "invalid text parser config: ".to_owned();
            e.append(reason.as_str());
            return Err(e);
        },
    };
    if let Some(target) = find_bad_target(&fields.field_mapping) {
        let mut e = "unsupported field_mapping target '".to_owned();
        e.append(target.as_str());
        e.append("': only 'level' and 'message' are supported");
        return Err(e);
    }
    let main = match compile(fields.pattern.regex.as_str()) {
        Ok(re) => re,
        Err(reason) => {
            let mut e = "invalid pattern.regex '".to_owned();
            e.append(fields.pattern.regex.as_str());
            e.append("': ");
            e.append(reason.as_str());
            return Err(e);
        },
    };
    let names = group_names(&main);
    assert(texts(names@).len() == names@.len());
    if find_name(&names, "timestamp") >= names.len() {
        return Err("pattern.regex must contain a named capture group 'timestamp'".to_owned());
    }
    if let Some(i) = find_bad_group(&fields.field_mapping, &names) {
        let mut e = "field_mapping.".to_owned();
        e.append(fields.field_mapping[i].0.as_str());
        e.append(" refers to unknown capture group '");
        e.append(fields.field_mapping[i].1.as_str());
        e.append("'");
        return Err(e);
    }
    let start = match &fields.pattern.multiline_start_pattern {
        Some(pattern) => match compile(pattern.as_str()) {
            Ok(re) => Some(re),
            Err(reason) => {
                let mut e = "invalid pattern.multiline_start_pattern: ".to_owned();
                e.append(reason.as_str());
                return Err(e);
            },
        },
        None => None,
    };
    Ok(TextPlan { fields, main, start, names })
}

/// The records of groups of lines, or why the first one that has none has none.
pub open spec fn group_records(
    groups: Seq<(nat, Seq<Seq<char>>)>,
    fields: FieldsView,
    zone: Option<ZoneView>,
) -> Result<Seq<RecordView>, Seq<char>>
    decreases groups.len(),
{
    if groups.len() == 0 {
        Ok(seq![])
    } else {
        match group_records(groups.drop_last(), fields, zone) {
            Err(e) => Err(e),
            Ok(before) => match block_record(groups.last().0, groups.last().1, fields, zone) {
                Err(e) => Err(e),
                Ok(record) => Ok(before.push(record)),
            },
        }
    }
}

proof fn lemma_groups_fail(
    groups: Seq<(nat, Seq<Seq<char>>)>,
    fields: FieldsView,
    zone: Option<ZoneView>,
    n: int,
)
    requires
        0 <= n <= groups.len(),
        group_records(groups.take(n), fields, zone) is Err,
    ensures
        group_records(groups, fields, zone) == group_records(groups.take(n), fields, zone),
    decreases groups.len(),
{
    if n < groups.len() {
        assert(groups.drop_last().take(n) == groups.take(n));
        lemma_groups_fail(groups.drop_last(), fields, zone, n);
    } else {
        assert(groups.take(n) == groups);
    }
}

/// The records of a source read by a configuration, or why it cannot be.
pub open spec fn source_records(
    config: ConfigView,
    content: Seq<char>,
    zone: Option<ZoneView>,
) -> Result<Seq<RecordView>, Seq<char>> {
    match usable_fields(config) {
        Err(e) => Err(e),
        Ok(fields) => group_records(
            grouped(lines_of(content), fields.multiline_start_pattern),
            fields,
            zone,
        ),
    }
}

/// The parser for text logs of any form.
#[derive(Debug)]
pub struct TextConfigParser {
    /// The zone of times that name none, for sources that do not say.
    pub default_assume_offset: Option<String>,
}

impl TextConfigParser {
    /// The name of the zone of times that name none: what the source says goes
    /// before what holds for all.
    pub open spec fn assumed_label(self, fields: FieldsView) -> Option<Seq<char>> {
        match fields.assume_offset {
            Some(own) => Some(own),
            None => opt_text(self.default_assume_offset),
        }
    }

    /// The kind of source that the parser is for. The real kind is what a
    /// configuration says.
    pub fn sourcetype(&self) -> (r: &'static str)
        ensures
            r@ == "text_config"@,
    {
        "text_config"
    }

    /// The zone of times that name none: what the source says goes before what
    /// holds for all.
    pub fn assume_offset(&self, fields: &TextParserFields) -> (r: Option<String>)
        ensures
            opt_text(r) == self.assumed_label(fields@),
    {
        match &fields.pattern.assume_offset {
            Some(own) => Some(own.clone()),
            None => self.default_assume_offset.clone(),
        }
    }

    /// Parses the text of a source. `zone` is the zone that
    /// [`TextConfigParser::assume_offset`] names. There is one record for each group of
    /// lines, and it is what they say.
    pub fn parse(&self, config: &ParserConfig, content: &str, zone: Option<&TimezoneSpec>) -> (r:
        Result<Vec<ParsedRecord>, String>)
        requires
            fields_of(config@.extra) matches Ok(fields) ==> opt_label(opt_zone(zone))
                == self.assumed_label(fields),
        ensures
            match r {
                Ok(records) => source_records(config@, content@, opt_zone(zone)) == Ok::<
                    Seq<RecordView>,
                    Seq<char>,
                >(records_view(records@)),
                Err(e) => source_records(config@, content@, opt_zone(zone)) == Err::<
                    Seq<RecordView>,
                    Seq<char>,
                >(e@),
            },
            r matches Ok(records) ==> usable_fields(config@) matches Ok(fields)
                && exists|groups: Seq<(nat, Seq<Seq<char>>)>|
                {
                    &&& #[trigger] are_groups_of(
                        lines_of(content@),
                        fields.multiline_start_pattern,
                        groups,
                    )
                    &&& records@.len() == groups.len()
                    &&& forall|i: int|
                        0 <= i < groups.len() ==> is_record_of_lines(
                            groups[i].1,
                            fields,
                            opt_zone(zone),
                            (#[trigger] records@[i])@,
                        )
                },
    {
        let plan = match plan_text_parser(config) {
            Ok(plan) => plan,
            Err(e) => {
                return Err(e);
            },
        };
        let all = lines(content);
        let groups = group_lines(&all, &plan.start);
        let ghost gv = groups_view(groups@);
        let ghost fv = plan.fields@;
        let ghost zv = opt_zone(zone);
        let mut records: Vec<ParsedRecord> = Vec::new();
        let mut i: usize = 0;
        assert(records_view(records@) =~= seq![]);
        while i < groups.len()
            invariant
                i <= groups.len(),
                gv == groups_view(groups@),
                fv == plan.fields@,
                zv == opt_zone(zone),
                plan_is_of(plan, fv),
                usable_fields(config@) == Ok::<FieldsView, Seq<char>>(fv),
                gv == grouped(lines_of(content@), fv.multiline_start_pattern),
                group_records(gv.take(i as int), fv, zv) == Ok::<Seq<RecordView>, Seq<char>>(
                    records_view(records@),
                ),
                records@.len() == i,
                forall|j: int|
                    0 <= j < i ==> is_record_of_lines(gv[j].1, fv, zv, (#[trigger] records@[j])@),
            decreases groups.len() - i,
        {
            let ghost before = records@;
            proof {
                let next = gv.take(i + 1);
                assert(next.drop_last() == gv.take(i as int));
                assert(next.last() == (
                    groups@[i as int].start_line as nat,
                    texts(groups@[i as int].lines@),
                ));
            }
            match parse_block(&plan, groups[i].start_line, &groups[i].lines, zone) {
                Ok(record) => {
                    records.push(record);
                    assert(records_view(records@) =~= records_view(before).push(record@));
                },
                Err(e) => {
                    proof {
                        lemma_groups_fail(gv, fv, zv, i + 1);
                    }
                    return Err(e);
                },
            }
            i += 1;
        }
        assert(gv.take(i as int) == gv);
        proof {
            lemma_groups_begin_at_first_lines(lines_of(content@), fv.multiline_start_pattern);
        }
        Ok(records)
    }
}

/// A year that a time names is never overruled: the year to assume makes no
/// difference then.
pub proof fn lemma_named_year_wins(
    text: Seq<char>,
    format: Seq<char>,
    zone: Option<ZoneView>,
    a: Option<i32>,
    b: Option<i32>,
)
    requires
        time_names_year(text, format) == Ok::<bool, Seq<char>>(true),
    ensures
        instant_of_text(text, format, zone, a) == instant_of_text(text, format, zone, b),
{
}

/// A zone that a time names is never overruled: the zone to assume makes no
/// difference then.
pub proof fn lemma_named_zone_wins(
    text: Seq<char>,
    format: Seq<char>,
    a: Option<ZoneView>,
    b: Option<ZoneView>,
    year: Option<i32>,
)
    requires
        zoned_instant(
            text,
            format,
            if time_names_year(text, format) == Ok::<bool, Seq<char>>(true) {
                None
            } else {
                year
            },
        ) is Some,
    ensures
        instant_of_text(text, format, a, year) == instant_of_text(text, format, b, year),
{
}

impl Default for TextConfigParser {
    fn default() -> (r: Self)
        ensures
            r.default_assume_offset is None,
    {
        TextConfigParser { default_assume_offset: None }
    }
}

/// The local time of a text that only a zone can make an instant of.
pub open spec fn local_of_text(text: Seq<char>, format: Seq<char>, assume_year: Option<i32>) -> Option<
    LocalTime,
> {
    match time_names_year(text, format) {
        Err(_) => None,
        Ok(named) => if !named && assume_year is None {
            None
        } else {
            let year = if named {
                None
            } else {
                assume_year
            };
            match (zoned_instant(text, format, year), local_time(text, format, year)) {
                (None, Ok(local)) => Some(local),
                _ => None,
            }
        },
    }
}

/// The local time of a group of lines that only a zone can make an instant of.
#[verifier::opaque]
pub open spec fn block_local(block: Seq<Seq<char>>, fields: FieldsView) -> Option<LocalTime> {
    match regex_captures(fields.regex, joined(block, "\n"@)) {
        None => None,
        Some(captures) => match group_value(
            regex_groups(fields.regex),
            captures,
            "timestamp"@,
        ) {
            None => None,
            Some(text) => local_of_text(text, fields.timestamp_format, fields.assume_year),
        },
    }
}

/// The local times of groups of lines that only a zone can make instants of.
pub open spec fn group_locals(groups: Seq<(nat, Seq<Seq<char>>)>, fields: FieldsView) -> Seq<
    LocalTime,
>
    decreases groups.len(),
{
    if groups.len() == 0 {
        seq![]
    } else {
        match block_local(groups.last().1, fields) {
            Some(local) => group_locals(groups.drop_last(), fields).push(local),
            None => group_locals(groups.drop_last(), fields),
        }
    }
}

/// The local times of a source that only a zone can make instants of; none where
/// the configuration cannot be used.
pub open spec fn source_locals(config: ConfigView, content: Seq<char>) -> Seq<LocalTime> {
    match usable_fields(config) {
        Err(_) => seq![],
        Ok(fields) => group_locals(
            grouped(lines_of(content), fields.multiline_start_pattern),
            fields,
        ),
    }
}

fn local_part(text: &str, format: &str, assume_year: Option<i32>) -> (r: Option<LocalTime>)
    ensures
        r == local_of_text(text@, format@, assume_year),
{
    let named: bool = match probe_year(text, format) {
        Ok(named) => named,
        Err(_) => {
            return None;
        },
    };
    if !named && assume_year.is_none() {
        return None;
    }
    let year: Option<i32> = if named {
        None
    } else {
        assume_year
    };
    if read_zoned(text, format, year).is_some() {
        return None;
    }
    match read_local(text, format, year) {
        Ok(local) => Some(local),
        Err(_) => None,
    }
}

fn block_local_part(plan: &TextPlan, block_lines: &Vec<String>) -> (r: Option<LocalTime>)
    requires
        plan_is_of(*plan, plan.fields@),
    ensures
        r == block_local(texts(block_lines@), plan.fields@),
{
    proof {
        reveal(block_local);
    }
    let raw = join(block_lines, "\n");
    match capture(&plan.main, raw.as_str()) {
        None => None,
        Some(captures) => match value_of_group(&plan.names, &captures, "timestamp") {
            None => None,
            Some(text) => local_part(
                text.as_str(),
                plan.fields.pattern.timestamp_format.as_str(),
                plan.fields.pattern.assume_year,
            ),
        },
    }
}

impl TextConfigParser {
    /// The local times of a source that only a zone can make instants of: what a
    /// named zone has to know.
    pub fn local_times(&self, config: &ParserConfig, content: &str) -> (r: Vec<LocalTime>)
        ensures
            r@ == source_locals(config@, content@),
    {
        let plan = match plan_text_parser(config) {
            Ok(plan) => plan,
            Err(_) => {
                return Vec::new();
            },
        };
        let all = lines(content);
        let groups = group_lines(&all, &plan.start);
        let ghost gv = groups_view(groups@);
        let ghost fv = plan.fields@;
        let mut locals: Vec<LocalTime> = Vec::new();
        let mut i: usize = 0;
        while i < groups.len()
            invariant
                i <= groups.len(),
                gv == groups_view(groups@),
                fv == plan.fields@,
                plan_is_of(plan, fv),
                locals@ == group_locals(gv.take(i as int), fv),
            decreases groups.len() - i,
        {
            proof {
                let next = gv.take(i + 1);
                assert(next.drop_last() == gv.take(i as int));
                assert(next.last().1 == texts(groups@[i as int].lines@));
            }
            if let Some(local) = block_local_part(&plan, &groups[i].lines) {
                locals.push(local);
            }
            i += 1;
        }
        assert(gv.take(i as int) == gv);
        locals
    }
}

proof fn lemma_block_zone(
    line: nat,
    block: Seq<Seq<char>>,
    fields: FieldsView,
    a: ZoneView,
    b: ZoneView,
)
    requires
        zone_label(a) == zone_label(b),
        block_local(block, fields) matches Some(local) ==> resolved(a, local) == resolved(b, local),
    ensures
        block_record(line, block, fields, Some(a)) == block_record(line, block, fields, Some(b)),
{
    reveal(block_record);
    reveal(block_local);
}

proof fn lemma_groups_zone(
    groups: Seq<(nat, Seq<Seq<char>>)>,
    fields: FieldsView,
    a: ZoneView,
    b: ZoneView,
)
    requires
        zone_label(a) == zone_label(b),
        forall|i: int|
            0 <= i < group_locals(groups, fields).len() ==> resolved(
                a,
                #[trigger] group_locals(groups, fields)[i],
            ) == resolved(b, group_locals(groups, fields)[i]),
    ensures
        group_records(groups, fields, Some(a)) == group_records(groups, fields, Some(b)),
    decreases groups.len(),
{
    if groups.len() > 0 {
        let all = group_locals(groups, fields);
        let before = group_locals(groups.drop_last(), fields);
        assert forall|i: int| 0 <= i < before.len() implies resolved(a, #[trigger] before[i])
            == resolved(b, before[i]) by {
            assert(all[i] == before[i]);
        }
        lemma_groups_zone(groups.drop_last(), fields, a, b);
        if block_local(groups.last().1, fields) is Some {
            assert(all[all.len() - 1] == block_local(groups.last().1, fields)->0);
        }
        lemma_block_zone(groups.last().0, groups.last().1, fields, a, b);
    }
}

/// Two zones of one name that agree on the local times of a source give the same
/// records: nothing else of a zone matters.
pub proof fn lemma_only_local_times_matter(
    config: ConfigView,
    content: Seq<char>,
    a: ZoneView,
    b: ZoneView,
)
    requires
        zone_label(a) == zone_label(b),
        forall|i: int|
            0 <= i < source_locals(config, content).len() ==> resolved(
                a,
                #[trigger] source_locals(config, content)[i],
            ) == resolved(b, source_locals(config, content)[i]),
    ensures
        source_records(config, content, Some(a)) == source_records(config, content, Some(b)),
{
    if let Ok(fields) = usable_fields(config) {
        let groups = grouped(lines_of(content), fields.multiline_start_pattern);
        assert(source_locals(config, content) == group_locals(groups, fields));
        lemma_groups_zone(groups, fields, a, b);
    }
}

/// The lines of groups, one group after the other.
pub open spec fn ungrouped(groups: Seq<(nat, Seq<Seq<char>>)>) -> Seq<Seq<char>>
    decreases groups.len(),
{
    if groups.len() == 0 {
        seq![]
    } else {
        ungrouped(groups.drop_last()) + groups.last().1
    }
}

/// Grouping loses no line and keeps the order of the lines, and no group is empty.
pub proof fn lemma_grouping_keeps_lines(all: Seq<Seq<char>>, start: Option<Seq<char>>)
    ensures
        ungrouped(grouped(all, start)) == all,
        forall|i: int|
            0 <= i < grouped(all, start).len() ==> (#[trigger] grouped(all, start)[i]).1.len() > 0,
    decreases all.len(),
{
    if all.len() > 0 {
        let front = all.drop_last();
        lemma_grouping_keeps_lines(front, start);
        let before = grouped(front, start);
        let groups = grouped(all, start);
        assert(front.push(all.last()) =~= all);
        if groups.len() > before.len() {
            assert(groups.drop_last() =~= before);
            assert(front + seq![all.last()] =~= all);
        } else {
            assert(groups.drop_last() =~= before.drop_last());
            assert(groups.last().1 == before.last().1.push(all.last()));
            assert(ungrouped(groups) =~= ungrouped(before).push(all.last()));
        }
    }
}

/// Without a pattern for the first lines of records every line is a group of its
/// own.
pub proof fn lemma_each_line_alone(all: Seq<Seq<char>>)
    ensures
        grouped(all, None).len() == all.len(),
        forall|i: int|
            0 <= i < all.len() ==> #[trigger] grouped(all, None)[i] == ((i + 1) as nat, seq![
                all[i],
            ]),
    decreases all.len(),
{
    if all.len() > 0 {
        lemma_each_line_alone(all.drop_last());
    }
}

} // verus!
