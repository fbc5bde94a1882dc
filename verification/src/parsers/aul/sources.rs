//! Which parts make a source of unified logs, and what its records say of its entries.

use vstd::arithmetic::div_mod::lemma_fundamental_div_mod;
use vstd::arithmetic::power2::{
    lemma_pow2_pos, lemma_pow2_strictly_increases, lemma_pow2_unfold, pow2,
};
use vstd::prelude::*;

use crate::double::{
    double_units, found_text, is_finite_double, is_nan, nearest_whole, rounded, total_rank,
};
use crate::json::json_text;
use crate::parsers::aul::raw_extraction_provider::{full_uuid, text_width};
use crate::parsers::aul::stream::{stream_run, ActionView, EventView, StreamView};
use crate::parsers::aul::{
    aul_record, child_named, count_name, has_log_dirs, has_name, has_text_dirs, is_text_dir,
    layout_of, no_texts_beside, AulEntryView, LayoutView,
};
use crate::text::same_ignoring_ascii_case;

verus! {

/// The five kinds of directories of logs.
pub open spec fn is_log_kind(kind: Seq<char>) -> bool {
    kind == "Persist"@ || kind == "Special"@ || kind == "Signpost"@ || kind == "HighVolume"@ || kind
        == "timesync"@
}

/// Whether a name is among others, up to ASCII case.
pub open spec fn is_among(name: Seq<char>, names: Seq<Seq<char>>) -> bool {
    exists|i: int| 0 <= i < names.len() && same_ignoring_ascii_case(#[trigger] names[i], name)
}

/// Whether two different kinds of directories of logs are among others.
pub open spec fn has_two_log_kinds(names: Seq<Seq<char>>) -> bool {
    exists|a: Seq<char>, b: Seq<char>|
        a != b && is_log_kind(a) && is_log_kind(b) && #[trigger] is_among(a, names)
            && #[trigger] is_among(b, names)
}

proof fn lemma_kinds_differ()
    ensures
        "Persist"@ != "Special"@,
        "Persist"@ != "Signpost"@,
        "Persist"@ != "HighVolume"@,
        "Persist"@ != "timesync"@,
        "Special"@ != "Signpost"@,
        "Special"@ != "HighVolume"@,
        "Special"@ != "timesync"@,
        "Signpost"@ != "HighVolume"@,
        "Signpost"@ != "timesync"@,
        "HighVolume"@ != "timesync"@,
{
    reveal_strlit("Persist");
    reveal_strlit("Special");
    reveal_strlit("Signpost");
    reveal_strlit("HighVolume");
    reveal_strlit("timesync");
    assert("Persist"@.len() == 7 && "Persist"@[0] == 'P');
    assert("Special"@.len() == 7 && "Special"@[0] == 'S');
    assert("Signpost"@.len() == 8 && "Signpost"@[0] == 'S');
    assert("timesync"@.len() == 8 && "timesync"@[0] == 't');
    assert("HighVolume"@.len() == 10);
}

proof fn lemma_log_dirs(names: Seq<Seq<char>>)
    ensures
        has_log_dirs(Some(names)) <==> has_two_log_kinds(names),
{
    lemma_kinds_differ();
    assert forall|kind: Seq<char>| #[trigger] is_among(kind, names) == has_name(names, kind) by {}
    if has_log_dirs(Some(names)) {
        let (p, s, g, h, t) = (
            is_among("Persist"@, names),
            is_among("Special"@, names),
            is_among("Signpost"@, names),
            is_among("HighVolume"@, names),
            is_among("timesync"@, names),
        );
        assert(count_name(names, "Persist"@) == if p {
            1nat
        } else {
            0
        });
        if p {
            assert(s || g || h || t);
        }
    }
    if has_two_log_kinds(names) {
        let (a, b) = choose|a: Seq<char>, b: Seq<char>|
            a != b && is_log_kind(a) && is_log_kind(b) && #[trigger] is_among(a, names)
                && #[trigger] is_among(b, names);
        assert(count_name(names, a) == 1);
        assert(count_name(names, b) == 1);
    }
}

/// Whether a directory holds texts: shared ones, or those of programs whose identifiers begin
/// with two hexadecimal digits.
pub open spec fn holds_texts(name: Seq<char>) -> bool {
    ||| same_ignoring_ascii_case(name, "dsc"@)
    ||| name.len() == 2 && forall|i: int|
        0 <= i < 2 ==> {
            let c = #[trigger] name[i];
            '0' <= c <= '9' || 'a' <= c <= 'f' || 'A' <= c <= 'F'
        }
}

proof fn lemma_text_dirs(names: Seq<Seq<char>>)
    ensures
        has_text_dirs(Some(names)) <==> exists|i: int|
            0 <= i < names.len() && holds_texts(#[trigger] names[i]),
{
    assert forall|name: Seq<char>| is_text_dir(name) == #[trigger] holds_texts(
        name,
    ) by {
        if name.len() == 2 {
            assert(holds_texts(name) ==> {
                let c = name[0];
                same_ignoring_ascii_case(name, "dsc"@) || '0' <= c <= '9' || 'a' <= c <= 'f' || 'A'
                    <= c <= 'F'
            });
            assert(holds_texts(name) ==> {
                let c = name[1];
                same_ignoring_ascii_case(name, "dsc"@) || '0' <= c <= '9' || 'a' <= c <= 'f' || 'A'
                    <= c <= 'F'
            });
        }
    }
    if exists|i: int| 0 <= i < names.len() && holds_texts(#[trigger] names[i]) {
        let i = choose|i: int| 0 <= i < names.len() && holds_texts(#[trigger] names[i]);
        assert(is_text_dir(names[i]));
    }
    if has_text_dirs(Some(names)) {
        let i = choose|i: int|
            0 <= i < names.len() && is_text_dir(#[trigger] names[i]);
        assert(holds_texts(names[i]));
    }
}

/// Whether a name is the first among others that is the wanted one, up to ASCII case.
pub open spec fn is_first_named(names: Seq<Seq<char>>, wanted: Seq<char>, found: Seq<char>) -> bool {
    exists|i: int|
        0 <= i < names.len() && #[trigger] names[i] == found && same_ignoring_ascii_case(
            found,
            wanted,
        ) && forall|j: int| 0 <= j < i ==> !same_ignoring_ascii_case(#[trigger] names[j], wanted)
}

proof fn lemma_child(names: Seq<Seq<char>>, wanted: Seq<char>)
    ensures
        match child_named(names, wanted) {
            Some(found) => is_first_named(names, wanted, found),
            None => !is_among(wanted, names),
        },
    decreases names.len(),
{
    if names.len() > 0 {
        if same_ignoring_ascii_case(names[0], wanted) {
            assert(is_first_named(names, wanted, names[0]));
        } else {
            let rest = names.drop_first();
            lemma_child(rest, wanted);
            match child_named(rest, wanted) {
                Some(found) => {
                    let i = choose|i: int|
                        0 <= i < rest.len() && #[trigger] rest[i] == found
                            && same_ignoring_ascii_case(found, wanted) && forall|j: int|
                            0 <= j < i ==> !same_ignoring_ascii_case(#[trigger] rest[j], wanted);
                    assert(names[i + 1] == found);
                    assert forall|j: int| 0 <= j < i + 1 implies !same_ignoring_ascii_case(
                        #[trigger] names[j],
                        wanted,
                    ) by {
                        if j > 0 {
                            assert(rest[j - 1] == names[j]);
                        }
                    }
                },
                None => {
                    if is_among(wanted, names) {
                        let i = choose|i: int|
                            0 <= i < names.len() && same_ignoring_ascii_case(
                                #[trigger] names[i],
                                wanted,
                            );
                        assert(rest[i - 1] == names[i]);
                    }
                },
            }
        }
    }
}

/// Logs with their texts beside them in one directory are a bundle. Logs without texts need
/// a directory `uuidtext` beside theirs, and cannot be read without it. A directory with both
/// `diagnostics` and `uuidtext` in it holds the logs in the one and the texts in the other.
/// Anything else is taken as a bundle.
pub proof fn lemma_parts_of_source(
    path: Seq<char>,
    names: Seq<Seq<char>>,
    beside: Seq<Seq<char>>,
)
    ensures
        ({
            let texts = exists|i: int| 0 <= i < names.len() && holds_texts(#[trigger] names[i]);
            match layout_of(path, Some(names), Some(beside)) {
                Ok(LayoutView::Beside { uuidtext }) => has_two_log_kinds(names) && !texts
                    && is_first_named(beside, "uuidtext"@, uuidtext),
                Ok(LayoutView::Children { diagnostics, uuidtext }) => !has_two_log_kinds(names)
                    && is_first_named(names, "diagnostics"@, diagnostics) && is_first_named(
                    names,
                    "uuidtext"@,
                    uuidtext,
                ),
                Ok(LayoutView::Bundle) => (has_two_log_kinds(names) && texts) || (
                !has_two_log_kinds(names) && !(is_among("diagnostics"@, names) && is_among(
                    "uuidtext"@,
                    names,
                ))),
                Err(e) => has_two_log_kinds(names) && !texts && !is_among("uuidtext"@, beside) && e
                    == no_texts_beside(path),
            }
        }),
{
    lemma_log_dirs(names);
    lemma_text_dirs(names);
    lemma_child(beside, "uuidtext"@);
    lemma_child(names, "uuidtext"@);
    lemma_child(names, "diagnostics"@);
    if is_among("diagnostics"@, names) && is_among("uuidtext"@, names) {
        assert(child_named(names, "uuidtext"@) is Some || !is_among("uuidtext"@, names));
    }
    assert(child_named(names, "uuidtext"@) is Some ==> is_among("uuidtext"@, names)) by {
        if let Some(found) = child_named(names, "uuidtext"@) {
            let i = choose|i: int|
                0 <= i < names.len() && #[trigger] names[i] == found && same_ignoring_ascii_case(
                    found,
                    "uuidtext"@,
                );
            assert(same_ignoring_ascii_case(names[i], "uuidtext"@));
        }
    }
}

/// Completing an identifier puts the zeros that are missing in front of it, at most two.
pub proof fn lemma_zeros_in_front(uuid: Seq<char>)
    ensures
        match full_uuid(uuid) {
            Ok(full) => exists|zeros: Seq<char>|
                full == #[trigger] (zeros + uuid) && zeros.len() + text_width(uuid) == 32
                    && zeros.len() <= 2 && forall|i: int|
                    0 <= i < zeros.len() ==> #[trigger] zeros[i] == '0',
            Err(_) => text_width(uuid) < 30 || text_width(uuid) > 32,
        },
{
    reveal_strlit("0");
    reveal_strlit("00");
    let none = Seq::<char>::empty();
    assert(none + uuid =~= uuid);
    if text_width(uuid) == 31 {
        assert("0"@.len() == 1 && "0"@[0] == '0');
        assert(full_uuid(uuid)->Ok_0 == "0"@ + uuid);
    } else if text_width(uuid) == 30 {
        assert("00"@.len() == 2 && "00"@[0] == '0' && "00"@[1] == '0');
        assert(full_uuid(uuid)->Ok_0 == "00"@ + uuid);
    } else if text_width(uuid) == 32 {
        assert(full_uuid(uuid)->Ok_0 == none + uuid);
    }
}

/// The record of an entry has its level, its message and its fields, and the instant that its
/// time is the nanoseconds of.
pub proof fn lemma_record_is_its_entry(entry: AulEntryView)
    ensures
        ({
            let r = aul_record(entry);
            &&& r.level == Some(entry.log_type)
            &&& r.message == Some(entry.message)
            &&& r.fields == entry.fields
            &&& r.raw == json_text(entry.fields)
            &&& r.timestamp_utc.nanos < 1_000_000_000
            &&& r.timestamp_utc.seconds * 1_000_000_000 + r.timestamp_utc.nanos == rounded(
                entry.time_bits,
            )
        }),
{
}

/// A time is rounded to the whole number that is nearest to it; of two that are as near, to
/// the one farther from zero.
pub proof fn lemma_nearest(bits: u64)
    requires
        is_finite_double(bits),
    ensures
        ({
            let n = nearest_whole(bits) as int;
            let unit = pow2(1074) as int;
            &&& 2 * double_units(bits) - unit < 2 * n * unit <= 2 * double_units(bits) + unit
            &&& bits < 0x8000_0000_0000_0000 && n <= i64::MAX ==> rounded(bits) == n
            &&& bits >= 0x8000_0000_0000_0000 && n <= i64::MAX ==> rounded(bits) == -n
        }),
{
    let unit = pow2(1074) as int;
    let twice = pow2(1075) as int;
    lemma_pow2_unfold(1075);
    lemma_pow2_pos(1074);
    assert(twice == 2 * unit);
    let x = 2 * double_units(bits) + unit;
    lemma_fundamental_div_mod(x, twice);
    let n = x / twice;
    assert(twice * n == 2 * n * unit) by (nonlinear_arith)
        requires
            twice == 2 * unit,
    ;
    assert(nearest_whole(bits) == n);
}

/// What is not a number is no time, and the infinite ones are the ends of all times.
pub proof fn lemma_times_out_of_range(bits: u64)
    ensures
        is_nan(bits) ==> rounded(bits) == 0,
        !is_finite_double(bits) && !is_nan(bits) && bits < 0x8000_0000_0000_0000 ==> rounded(bits)
            == i64::MAX,
        !is_finite_double(bits) && !is_nan(bits) && bits >= 0x8000_0000_0000_0000 ==> rounded(bits)
            == i64::MIN,
{
}

proof fn lemma_larger_magnitude(a: u64, b: u64)
    requires
        a < b < 0x7ff0_0000_0000_0000,
    ensures
        double_units(a) < double_units(b),
{
    let one = 0x10_0000_0000_0000int;
    let (ea, ma) = ((a / 0x10_0000_0000_0000) as int, (a % 0x10_0000_0000_0000) as int);
    let (eb, mb) = ((b / 0x10_0000_0000_0000) as int, (b % 0x10_0000_0000_0000) as int);
    assert(ea < 2047 && eb < 2047);
    assert(ea <= eb);
    assert(0 <= ma < one && 0 <= mb < one);
    if ea == eb {
        assert(ma < mb);
        if ea > 0 {
            let p = pow2((ea - 1) as nat) as int;
            lemma_pow2_pos((ea - 1) as nat);
            assert((one + ma) * p < (one + mb) * p) by (nonlinear_arith)
                requires
                    ma < mb,
                    p > 0,
            ;
        }
    } else {
        let q = pow2((eb - 1) as nat) as int;
        lemma_pow2_pos((eb - 1) as nat);
        assert((one + mb) * q >= one * q) by (nonlinear_arith)
            requires
                mb >= 0,
                q > 0,
        ;
        if ea == 0 {
            assert(one * q >= one) by (nonlinear_arith)
                requires
                    q > 0,
                    one > 0,
            ;
        } else {
            let p = pow2((ea - 1) as nat) as int;
            lemma_pow2_pos((ea - 1) as nat);
            lemma_pow2_unfold(ea as nat);
            assert(pow2(ea as nat) == 2 * p);
            if ea < eb - 1 {
                lemma_pow2_strictly_increases(ea as nat, (eb - 1) as nat);
            }
            assert(2 * p <= q);
            assert((one + ma) * p < one * q) by (nonlinear_arith)
                requires
                    0 <= ma < one,
                    p > 0,
                    2 * p <= q,
            ;
        }
    }
}

/// Entries are ordered by the values of their times: of two finite doubles that are not
/// negative the larger one comes later, of two negative ones the one nearer to zero, and
/// every negative one comes before all others.
pub proof fn lemma_order_of_times(a: u64, b: u64)
    requires
        is_finite_double(a),
        is_finite_double(b),
    ensures
        a < 0x8000_0000_0000_0000 && b < 0x8000_0000_0000_0000 ==> (total_rank(a) < total_rank(b)
            <==> double_units(a) < double_units(b)),
        a >= 0x8000_0000_0000_0000 && b >= 0x8000_0000_0000_0000 ==> (total_rank(a) < total_rank(b)
            <==> double_units(a) > double_units(b)),
        a >= 0x8000_0000_0000_0000 && b < 0x8000_0000_0000_0000 ==> total_rank(a) < total_rank(b),
{
    let half = 0x8000_0000_0000_0000u64;
    let x: u64 = if a >= half {
        (a - half) as u64
    } else {
        a
    };
    let y: u64 = if b >= half {
        (b - half) as u64
    } else {
        b
    };
    assert(double_units(x) == double_units(a));
    assert(double_units(y) == double_units(b));
    assert(x < 0x7ff0_0000_0000_0000 && y < 0x7ff0_0000_0000_0000);
    if x < y {
        lemma_larger_magnitude(x, y);
    } else if y < x {
        lemma_larger_magnitude(y, x);
    }
}

/// A table of texts gives for a double the text of its first entry with the same bits.
pub proof fn lemma_text_in_table(entries: Seq<(u64, Seq<char>)>, bits: u64)
    ensures
        match found_text(entries, bits) {
            Some(text) => exists|i: int|
                0 <= i < entries.len() && #[trigger] entries[i] == (bits, text) && forall|j: int|
                    0 <= j < i ==> (#[trigger] entries[j]).0 != bits,
            None => forall|i: int| 0 <= i < entries.len() ==> (#[trigger] entries[i]).0 != bits,
        },
    decreases entries.len(),
{
    if entries.len() > 0 {
        if entries[0].0 == bits {
            assert(entries[0] == (bits, entries[0].1));
        } else {
            let rest = entries.drop_first();
            lemma_text_in_table(rest, bits);
            assert forall|i: int| 1 <= i < entries.len() implies rest[i - 1]
                == #[trigger] entries[i] by {}
            if let Some(text) = found_text(rest, bits) {
                let i = choose|i: int|
                    0 <= i < rest.len() && #[trigger] rest[i] == (bits, text) && forall|j: int|
                        0 <= j < i ==> (#[trigger] rest[j]).0 != bits;
                assert(entries[i + 1] == (bits, text));
                assert forall|j: int| 0 <= j < i + 1 implies (#[trigger] entries[j]).0 != bits by {
                    if j > 0 {
                        assert(rest[j - 1] == entries[j]);
                    }
                }
            }
        }
    }
}

/// A source without files of logs fails.
pub proof fn lemma_source_without_files(path: Seq<char>)
    ensures
        stream_run(path, seq![EventView::AllRead]) == (
            StreamView::Over,
            seq![ActionView::Fail("no .tracev3 files found under "@ + path)],
        ),
{
    let events = seq![EventView::AllRead];
    assert(events.drop_last() =~= Seq::<EventView>::empty());
    assert(stream_run(path, events.drop_last()) == (
        StreamView::Reading { entries: seq![], any_file: false },
        Seq::<ActionView>::empty(),
    ));
    assert(events.last() == EventView::AllRead);
}

} // verus!
