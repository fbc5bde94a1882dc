//! Apple Unified Logs: where the parts of a source lie, the order of its entries,
//! and what they say.

use vstd::prelude::*;

use crate::double::{rank_double, round_double, rounded, total_rank};
use crate::json::{json_text, Json, JsonView};
use crate::model::{opt_text, records_view, ParsedRecord, RecordView};
use crate::order::{
    comes_before, is_stable_order, keys_view, lemma_stable_order, reordered, sorted_positions,
    stable_order, SortKey, SortKeyView,
};
use crate::text::{
    chars_of, eq_ignore_ascii_case, lemma_text_order, same_ignoring_ascii_case, texts,
};
use crate::time::{at_nanos, instant_of};

pub mod bounded_cache;
pub mod raw_extraction_provider;
pub mod sources;
pub mod stream;

verus! {

/// Whether a name is among others, up to ASCII case.
pub open spec fn has_name(names: Seq<Seq<char>>, wanted: Seq<char>) -> bool {
    exists|i: int| 0 <= i < names.len() && same_ignoring_ascii_case(#[trigger] names[i], wanted)
}

/// 1 where a name is among others, else 0.
pub open spec fn count_name(names: Seq<Seq<char>>, wanted: Seq<char>) -> nat {
    if has_name(names, wanted) {
        1
    } else {
        0
    }
}

/// Whether the directories of a directory are those of logs: at least two of the
/// five kinds are there.
pub open spec fn has_log_dirs(names: Option<Seq<Seq<char>>>) -> bool {
    match names {
        Some(names) => count_name(names, "Persist"@) + count_name(names, "Special"@) + count_name(
            names,
            "Signpost"@,
        ) + count_name(names, "HighVolume"@) + count_name(names, "timesync"@) >= 2,
        None => false,
    }
}

/// Whether a character is an ASCII hexadecimal digit.
pub open spec fn is_hex_digit(c: char) -> bool {
    ('0' <= c && c <= '9') || ('a' <= c && c <= 'f') || ('A' <= c && c <= 'F')
}

/// Whether a directory holds the texts that logs refer to: shared ones, or those
/// of programs whose identifiers begin with two digits.
pub open spec fn is_text_dir(name: Seq<char>) -> bool {
    ||| same_ignoring_ascii_case(name, "dsc"@)
    ||| name.len() == 2 && is_hex_digit(name[0]) && is_hex_digit(name[1])
}

/// Whether one of some directories holds the texts that logs refer to.
pub open spec fn any_text_dir(names: Seq<Seq<char>>) -> bool {
    exists|i: int| 0 <= i < names.len() && is_text_dir(#[trigger] names[i])
}

/// Whether the texts that logs refer to lie in a directory itself.
pub open spec fn has_text_dirs(names: Option<Seq<Seq<char>>>) -> bool {
    match names {
        Some(names) => any_text_dir(names),
        None => false,
    }
}

/// The first of some names that is the wanted one, up to ASCII case.
pub open spec fn child_named(names: Seq<Seq<char>>, wanted: Seq<char>) -> Option<Seq<char>>
    decreases names.len(),
{
    if names.len() == 0 {
        None
    } else if same_ignoring_ascii_case(names[0], wanted) {
        Some(names[0])
    } else {
        child_named(names.drop_first(), wanted)
    }
}

/// The first of some names, which may not be known, that is the wanted one.
pub open spec fn known_child(names: Option<Seq<Seq<char>>>, wanted: Seq<char>) -> Option<Seq<char>> {
    match names {
        Some(names) => child_named(names, wanted),
        None => None,
    }
}

/// The view of a list of names that may not be known.
pub open spec fn opt_names(names: Option<&Vec<String>>) -> Option<Seq<Seq<char>>> {
    match names {
        Some(v) => Some(texts(v@)),
        None => None,
    }
}

/// How the parts of a source lie.
#[derive(Debug, PartialEq, Eq)]
pub enum AulLayout {
    /// All in the directory itself.
    Bundle,
    /// The logs in the directory itself, the texts in a directory beside it.
    Beside { uuidtext: String },
    /// The logs and the texts in two directories of the directory.
    Children { diagnostics: String, uuidtext: String },
}

/// The view of an [`AulLayout`].
pub enum LayoutView {
    Bundle,
    Beside { uuidtext: Seq<char> },
    Children { diagnostics: Seq<char>, uuidtext: Seq<char> },
}

impl View for AulLayout {
    type V = LayoutView;

    open spec fn view(&self) -> LayoutView {
        match self {
            AulLayout::Bundle => LayoutView::Bundle,
            AulLayout::Beside { uuidtext } => LayoutView::Beside { uuidtext: uuidtext@ },
            AulLayout::Children { diagnostics, uuidtext } => LayoutView::Children {
                diagnostics: diagnostics@,
                uuidtext: uuidtext@,
            },
        }
    }
}

/// What is wrong with a directory of logs without texts beside it.
pub open spec fn no_texts_beside(path: Seq<char>) -> Seq<char> {
    path
        + " looks like a raw AUL 'diagnostics' folder, but no sibling 'uuidtext' folder was found next to it — AUL string resolution needs both. Place the extraction's uuidtext folder next to this one."@
}

/// How the parts of a source lie, by the names of the directories in it and
/// beside it, as far as they are known, or why it cannot be read.
pub open spec fn layout_of(
    path: Seq<char>,
    names: Option<Seq<Seq<char>>>,
    beside: Option<Seq<Seq<char>>>,
) -> Result<LayoutView, Seq<char>> {
    if has_log_dirs(names) && has_text_dirs(names) {
        Ok(LayoutView::Bundle)
    } else if has_log_dirs(names) {
        match known_child(beside, "uuidtext"@) {
            Some(uuidtext) => Ok(LayoutView::Beside { uuidtext }),
            None => Err(no_texts_beside(path)),
        }
    } else {
        match (known_child(names, "diagnostics"@), known_child(names, "uuidtext"@)) {
            (Some(diagnostics), Some(uuidtext)) => Ok(
                LayoutView::Children { diagnostics, uuidtext },
            ),
            _ => Ok(LayoutView::Bundle),
        }
    }
}

fn count(names: &Vec<String>, wanted: &str) -> (r: usize)
    ensures
        r == count_name(texts(names@), wanted@),
        r <= 1,
{
    let ghost nv = texts(names@);
    let mut i: usize = 0;
    while i < names.len()
        invariant
            i <= names.len(),
            nv == texts(names@),
            forall|j: int|
                0 <= j < i ==> !same_ignoring_ascii_case(#[trigger] nv[j], wanted@),
        decreases names.len() - i,
    {
        if eq_ignore_ascii_case(names[i].as_str(), wanted) {
            assert(same_ignoring_ascii_case(nv[i as int], wanted@));
            return 1;
        }
        i += 1;
    }
    0
}

/// Whether the directories of a directory are those of logs.
pub fn is_diagnostics_dir(names: Option<&Vec<String>>) -> (r: bool)
    ensures
        r == has_log_dirs(opt_names(names)),
{
    match names {
        Some(names) => {
            let found: usize = count(names, "Persist") + count(names, "Special") + count(
                names,
                "Signpost",
            ) + count(names, "HighVolume") + count(names, "timesync");
            found >= 2
        },
        None => false,
    }
}

fn hex_digit_char(c: char) -> (r: bool)
    ensures
        r == is_hex_digit(c),
{
    ('0' <= c && c <= '9') || ('a' <= c && c <= 'f') || ('A' <= c && c <= 'F')
}

fn names_texts(name: &str) -> (r: bool)
    ensures
        r == is_text_dir(name@),
{
    if eq_ignore_ascii_case(name, "dsc") {
        return true;
    }
    let v = chars_of(name);
    v.len() == 2 && hex_digit_char(v[0]) && hex_digit_char(v[1])
}

/// Whether the texts that logs refer to lie in a directory itself.
pub fn has_direct_string_resolution_data(names: Option<&Vec<String>>) -> (r: bool)
    ensures
        r == has_text_dirs(opt_names(names)),
{
    match names {
        Some(list) => {
            let ghost nv = texts(list@);
            let mut i: usize = 0;
            while i < list.len()
                invariant
                    i <= list.len(),
                    nv == texts(list@),
                    opt_names(names) == Some(nv),
                    forall|j: int| 0 <= j < i ==> !is_text_dir(#[trigger] nv[j]),
                decreases list.len() - i,
            {
                if names_texts(list[i].as_str()) {
                    assert(is_text_dir(nv[i as int]));
                    assert(any_text_dir(nv));
                    return true;
                }
                i += 1;
            }
            false
        },
        None => false,
    }
}

/// Whether a directory holds all the parts of a source.
pub fn looks_like_flat_bundle(names: Option<&Vec<String>>) -> (r: bool)
    ensures
        r == (has_log_dirs(opt_names(names)) && has_text_dirs(opt_names(names))),
{
    is_diagnostics_dir(names) && has_direct_string_resolution_data(names)
}

/// The first of some names that is the wanted one, up to ASCII case.
pub fn find_child_case_insensitive(names: Option<&Vec<String>>, wanted: &str) -> (r: Option<String>)
    ensures
        opt_text(r) == known_child(opt_names(names), wanted@),
{
    match names {
        Some(list) => {
            let ghost nv = texts(list@);
            let mut i: usize = 0;
            assert(nv.skip(0) == nv);
            while i < list.len()
                invariant
                    i <= list.len(),
                    nv == texts(list@),
                    opt_names(names) == Some(nv),
                    child_named(nv, wanted@) == child_named(nv.skip(i as int), wanted@),
                decreases list.len() - i,
            {
                proof {
                    assert(nv.skip(i as int)[0] == list@[i as int]@);
                    assert(nv.skip(i as int).drop_first() == nv.skip(i + 1));
                }
                if eq_ignore_ascii_case(list[i].as_str(), wanted) {
                    return Some(list[i].clone());
                }
                i += 1;
            }
            None
        },
        None => None,
    }
}

/// How the parts of a source lie, or why it cannot be read.
pub fn select_provider(path: &str, names: Option<&Vec<String>>, beside: Option<&Vec<String>>) -> (r:
    Result<AulLayout, String>)
    ensures
        match r {
            Ok(l) => layout_of(path@, opt_names(names), opt_names(beside)) == Ok::<
                LayoutView,
                Seq<char>,
            >(l@),
            Err(e) => layout_of(path@, opt_names(names), opt_names(beside)) == Err::<
                LayoutView,
                Seq<char>,
            >(e@),
        },
{
    if looks_like_flat_bundle(names) {
        return Ok(AulLayout::Bundle);
    }
    if is_diagnostics_dir(names) {
        return match find_child_case_insensitive(beside, "uuidtext") {
            Some(uuidtext) => Ok(AulLayout::Beside { uuidtext }),
            None => {
                let mut e = path.to_owned();
                e.append(
                    " looks like a raw AUL 'diagnostics' folder, but no sibling 'uuidtext' folder was found next to it — AUL string resolution needs both. Place the extraction's uuidtext folder next to this one.",
                );
                Err(e)
            },
        };
    }
    match (
        find_child_case_insensitive(names, "diagnostics"),
        find_child_case_insensitive(names, "uuidtext"),
    ) {
        (Some(diagnostics), Some(uuidtext)) => Ok(AulLayout::Children { diagnostics, uuidtext }),
        _ => Ok(AulLayout::Bundle),
    }
}

/// An entry of a log, with where it stood.
#[derive(Debug)]
pub struct AulEntry {
    /// Nanoseconds since 1970-01-01T00:00:00Z, as the bits of a double.
    pub time_bits: u64,
    /// The file that it stood in.
    pub source_path: String,
    /// Its place in the file.
    pub index: u64,
    /// The name of its type.
    pub log_type: String,
    pub message: String,
    /// All that is known of it.
    pub fields: Json,
}

/// The view of an [`AulEntry`].
pub struct AulEntryView {
    pub time_bits: u64,
    pub source_path: Seq<char>,
    pub index: u64,
    pub log_type: Seq<char>,
    pub message: Seq<char>,
    pub fields: JsonView,
}

impl View for AulEntry {
    type V = AulEntryView;

    open spec fn view(&self) -> AulEntryView {
        AulEntryView {
            time_bits: self.time_bits,
            source_path: self.source_path@,
            index: self.index,
            log_type: self.log_type@,
            message: self.message@,
            fields: self.fields@,
        }
    }
}

/// The views of a list of entries.
pub open spec fn aul_entries_view(v: Seq<AulEntry>) -> Seq<AulEntryView> {
    v.map_values(|e: AulEntry| e@)
}

/// What entries are sorted by: their time, their file and their place in it.
pub open spec fn entry_keys(entries: Seq<AulEntryView>) -> Seq<SortKeyView> {
    entries.map_values(
        |e: AulEntryView|
            SortKeyView {
                rank: total_rank(e.time_bits),
                text: e.source_path,
                minor: e.index as int,
            },
    )
}

/// The record of an entry.
pub open spec fn aul_record(entry: AulEntryView) -> RecordView {
    RecordView {
        timestamp_utc: instant_of(rounded(entry.time_bits) as int, 1_000_000_000)->0,
        level: Some(entry.log_type),
        message: Some(entry.message),
        raw: json_text(entry.fields),
        fields: entry.fields,
    }
}

/// The records of entries in the order of time.
pub open spec fn ordered_records(entries: Seq<AulEntryView>) -> Seq<RecordView> {
    reordered(entries, stable_order(entry_keys(entries))).map_values(
        |e: AulEntryView| aul_record(e),
    )
}

/// The positions of entries in the order of their times, of their files and of
/// their places.
pub fn order_entries(entries: &Vec<AulEntry>) -> (order: Vec<usize>)
    ensures
        order@.map_values(|i: usize| i as int) == stable_order(
            entry_keys(aul_entries_view(entries@)),
        ),
        is_stable_order(
            entry_keys(aul_entries_view(entries@)),
            order@.map_values(|i: usize| i as int),
        ),
{
    let ghost ev = aul_entries_view(entries@);
    let mut keys: Vec<SortKey> = Vec::new();
    let mut i: usize = 0;
    while i < entries.len()
        invariant
            i <= entries.len(),
            ev == aul_entries_view(entries@),
            keys.len() == i,
            forall|j: int| 0 <= j < i ==> #[trigger] keys@[j]@ == entry_keys(ev)[j],
        decreases entries.len() - i,
    {
        keys.push(
            SortKey {
                rank: rank_double(entries[i].time_bits),
                text: entries[i].source_path.clone(),
                minor: entries[i].index,
            },
        );
        i += 1;
    }
    assert(keys_view(keys@) =~= entry_keys(ev));
    sorted_positions(&keys)
}

/// The record of an entry.
pub fn to_parsed_record(entry: &AulEntry) -> (r: ParsedRecord)
    ensures
        r@ == aul_record(entry@),
{
    ParsedRecord {
        timestamp_utc: at_nanos(round_double(entry.time_bits)),
        level: Some(entry.log_type.clone()),
        message: Some(entry.message.clone()),
        raw: entry.fields.to_text(),
        fields: entry.fields.clone(),
    }
}

/// The parser for unified logs.
#[derive(Debug)]
pub struct AulParser;

impl AulParser {
    /// The kind of source that the parser is for.
    pub fn sourcetype(&self) -> (r: &'static str)
        ensures
            r@ == "aul"@,
    {
        "aul"
    }

    /// The records of the entries of all files of a source, in the order of time.
    pub fn parse(&self, entries: &Vec<AulEntry>) -> (r: Vec<ParsedRecord>)
        ensures
            records_view(r@) == ordered_records(aul_entries_view(entries@)),
    {
        let ghost ev = aul_entries_view(entries@);
        let order = order_entries(entries);
        let ghost o = order@.map_values(|i: usize| i as int);
        let ghost want = ordered_records(ev);
        let mut r: Vec<ParsedRecord> = Vec::new();
        let mut k: usize = 0;
        while k < order.len()
            invariant
                k <= order.len(),
                r.len() == k,
                order.len() == entries.len(),
                o == order@.map_values(|i: usize| i as int),
                ev == aul_entries_view(entries@),
                want == reordered(ev, o).map_values(|e: AulEntryView| aul_record(e)),
                forall|j: int| 0 <= j < o.len() ==> 0 <= #[trigger] o[j] < entries.len(),
                forall|j: int| 0 <= j < k ==> #[trigger] r@[j]@ == want[j],
            decreases order.len() - k,
        {
            assert(o[k as int] == order@[k as int]);
            r.push(to_parsed_record(&entries[order[k]]));
            k += 1;
        }
        assert(records_view(r@) =~= want);
        r
    }
}

/// The records of a source come in the order of time: no record comes before one
/// with an earlier time, whatever file it stood in, and within a file entries of one
/// time keep their order. None is lost, and none is added.
pub proof fn lemma_entries_in_order(entries: Seq<AulEntryView>)
    ensures
        ({
            let order = stable_order(entry_keys(entries));
            &&& ordered_records(entries).len() == entries.len()
            &&& order.no_duplicates()
            &&& forall|i: int| 0 <= i < entries.len() ==> #[trigger] order.contains(i)
            &&& forall|i: int|
                0 <= i < entries.len() ==> #[trigger] ordered_records(entries)[i] == aul_record(
                    entries[order[i]],
                )
            &&& forall|i: int, j: int|
                0 <= i < j < entries.len() ==> {
                    let a = entries[#[trigger] order[i]];
                    let b = entries[#[trigger] order[j]];
                    &&& total_rank(a.time_bits) <= total_rank(b.time_bits)
                    &&& (total_rank(a.time_bits) == total_rank(b.time_bits) && a.source_path
                        == b.source_path) ==> a.index <= b.index
                }
        }),
{
    let keys = entry_keys(entries);
    lemma_stable_order(keys);
    let order = stable_order(keys);
    assert forall|i: int, j: int| 0 <= i < j < entries.len() implies {
        let a = entries[#[trigger] order[i]];
        let b = entries[#[trigger] order[j]];
        &&& total_rank(a.time_bits) <= total_rank(b.time_bits)
        &&& (total_rank(a.time_bits) == total_rank(b.time_bits) && a.source_path == b.source_path)
            ==> a.index <= b.index
    } by {
        assert(comes_before(keys, order[i], order[j]));
        lemma_text_order(
            entries[order[i]].source_path,
            entries[order[j]].source_path,
            entries[order[i]].source_path,
        );
    }
}

} // verus!
