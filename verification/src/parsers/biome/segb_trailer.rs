//! What the records of an envelope have to do with the slots of its trailer.

use vstd::prelude::*;

use crate::bytes::{i32_at, u32_at};
use crate::order::{comes_before, lemma_comes_before, lemma_stable_order, stable_order};
use crate::parsers::biome::segb::{
    crc32, known_slots, slot_count, slot_keys, sorted_slots, walk, EntryOutcome, EntryState,
    SegbRecordView, TrailerEntry,
};
use crate::time::Timestamp;

verus! {

/// Where the bytes of trailer slot `s` begin: the slots are the last bytes of a file.
pub open spec fn slot_place(b: Seq<u8>, s: int) -> int {
    b.len() - 16 * (i32_at(b, 4) - s)
}

/// Where the entry of a slot ends, counted from the start of the file.
pub open spec fn entry_end(b: Seq<u8>, s: int) -> int {
    i32_at(b, slot_place(b, s)) + 32
}

/// Whether a file has a slot `s` whose entry holds data.
pub open spec fn holds_data(b: Seq<u8>, s: int) -> bool {
    &&& 0 <= s < i32_at(b, 4)
    &&& i32_at(b, slot_place(b, s) + 4) == 1 || i32_at(b, slot_place(b, s) + 4) == 3
}

/// Whether the entry of one slot stands before that of another.
pub open spec fn stands_before(b: Seq<u8>, s: int, t: int) -> bool {
    entry_end(b, s) < entry_end(b, t) || entry_end(b, s) == entry_end(b, t) && s < t
}

/// The first place behind `n` where an entry can begin: a multiple of four.
pub open spec fn next_place(n: int) -> int {
    ((n + 3) / 4) * 4
}

/// Whether an outcome is that of slot `s`: a record has the time and the state of the
/// slot, and ends where the slot says.
pub open spec fn comes_of_slot(
    b: Seq<u8>,
    times: Seq<Result<Timestamp, String>>,
    outcome: EntryOutcome,
    s: int,
) -> bool {
    &&& holds_data(b, s)
    &&& match outcome {
        EntryOutcome::Record(r) => {
            &&& s < times.len()
            &&& times[s] == Ok::<Timestamp, String>(r.timestamp_utc)
            &&& r.state == EntryState::Written <==> i32_at(b, slot_place(b, s) + 4) == 1
            &&& r.state == EntryState::Deleted <==> i32_at(b, slot_place(b, s) + 4) == 3
            &&& r.record_offset + 8 + r.payload.len() == entry_end(b, s)
            &&& entry_end(b, s) <= b.len()
        },
        EntryOutcome::PastEnd { end_offset } => {
            &&& end_offset + 32 == entry_end(b, s)
            &&& entry_end(b, s) > b.len()
        },
        EntryOutcome::BadTimestamp(reason) => {
            &&& s < times.len() ==> times[s] is Err && reason == times[s]->Err_0@
            &&& s >= times.len() ==> reason.len() == 0
        },
    }
}

/// Whether the data of slot `s` have been written over: there are not the eight bytes
/// of a header behind the file header, or behind an entry that stands before.
pub open spec fn is_overwritten(b: Seq<u8>, s: int) -> bool {
    ||| entry_end(b, s) < 40
    ||| exists|t: int| #[trigger]
        holds_data(b, t) && stands_before(b, t, s) && entry_end(b, s) < next_place(entry_end(b, t))
            + 8
}

/// Whether outcomes are those of slots: of each at most one, in the order of the ends of
/// the entries. A slot with data that has none has been written over, or stands behind
/// an entry that would reach past the end of the file.
pub open spec fn come_of_slots(
    b: Seq<u8>,
    times: Seq<Result<Timestamp, String>>,
    outcomes: Seq<EntryOutcome>,
    from: Seq<int>,
) -> bool {
    &&& from.len() == outcomes.len()
    &&& forall|i: int|
        0 <= i < from.len() ==> comes_of_slot(b, times, outcomes[i], #[trigger] from[i])
    &&& forall|i: int, j: int|
        0 <= i < j < from.len() ==> stands_before(b, #[trigger] from[i], #[trigger] from[j])
    &&& forall|s: int| #[trigger]
        holds_data(b, s) && !from.contains(s) ==> {
            ||| is_overwritten(b, s)
            ||| outcomes.len() > 0 && outcomes.last() is PastEnd && stands_before(b, from.last(), s)
        }
}

/// Whether outcomes are those of the slots of a trailer.
pub open spec fn come_of_trailer(
    b: Seq<u8>,
    times: Seq<Result<Timestamp, String>>,
    outcomes: Seq<EntryOutcome>,
) -> bool {
    exists|from: Seq<int>| #[trigger] come_of_slots(b, times, outcomes, from)
}

/// Whether an entry of the trailer is what its slot says.
spec fn is_slot(b: Seq<u8>, e: TrailerEntry) -> bool {
    let at = slot_place(b, e.slot as int);
    &&& e.slot < i32_at(b, 4)
    &&& e.end_offset == i32_at(b, at)
    &&& e.state == EntryState::Written <==> i32_at(b, at + 4) == 1
    &&& e.state == EntryState::Deleted <==> i32_at(b, at + 4) == 3
}

spec fn are_slots(b: Seq<u8>, slots: Seq<TrailerEntry>) -> bool {
    &&& forall|i: int| 0 <= i < slots.len() ==> is_slot(b, #[trigger] slots[i])
    &&& forall|i: int, j: int|
        0 <= i < j < slots.len() ==> stands_before(
            b,
            (#[trigger] slots[i]).slot as int,
            (#[trigger] slots[j]).slot as int,
        )
}

proof fn lemma_known(b: Seq<u8>, n: int)
    requires
        slot_count(b) >= n >= 0,
        slot_count(b) < 0x8000_0000,
    ensures
        forall|i: int|
            0 <= i < known_slots(b, n).len() ==> is_slot(b, #[trigger] known_slots(b, n)[i])
                && known_slots(b, n)[i].slot < n,
        forall|i: int, j: int|
            0 <= i < j < known_slots(b, n).len() ==> (#[trigger] known_slots(b, n)[i]).slot < (
            #[trigger] known_slots(b, n)[j]).slot,
        forall|s: int|
            0 <= s < n && #[trigger] holds_data(b, s) ==> exists|i: int|
                0 <= i < known_slots(b, n).len() && (#[trigger] known_slots(b, n)[i]).slot == s,
    decreases n,
{
    if n > 0 {
        lemma_known(b, n - 1);
        let before = known_slots(b, n - 1);
        let all = known_slots(b, n);
        assert forall|i: int| 0 <= i < all.len() implies is_slot(b, #[trigger] all[i])
            && all[i].slot < n by {
            if i < before.len() {
                assert(all[i] == before[i]);
            }
        }
        assert forall|i: int, j: int| 0 <= i < j < all.len() implies (#[trigger] all[i]).slot < (
        #[trigger] all[j]).slot by {
            assert(all[i] == before[i]);
            if j < before.len() {
                assert(all[j] == before[j]);
            }
        }
        assert forall|s: int| 0 <= s < n && #[trigger] holds_data(b, s) implies exists|i: int|
            0 <= i < all.len() && (#[trigger] all[i]).slot == s by {
            if s < n - 1 {
                let i = choose|i: int|
                    0 <= i < before.len() && (#[trigger] before[i]).slot == s;
                assert(all[i] == before[i]);
            } else {
                assert(all[before.len() as int].slot == s);
            }
        }
    }
}

/// The slots are sorted by where their entries end, and none with data is left out.
proof fn lemma_sorted(b: Seq<u8>)
    requires
        0 <= i32_at(b, 4) < 0x8000_0000,
    ensures
        are_slots(b, sorted_slots(b)),
        forall|s: int| #[trigger]
            holds_data(b, s) ==> exists|i: int|
                0 <= i < sorted_slots(b).len() && (#[trigger] sorted_slots(b)[i]).slot == s,
{
    let n = slot_count(b);
    let known = known_slots(b, n);
    let keys = slot_keys(known);
    let order = stable_order(keys);
    let sorted = sorted_slots(b);
    lemma_known(b, n);
    lemma_stable_order(keys);
    assert forall|i: int| 0 <= i < sorted.len() implies is_slot(b, #[trigger] sorted[i]) by {
        assert(sorted[i] == known[order[i]]);
        assert(is_slot(b, known[order[i]]));
    }
    assert forall|i: int, j: int| 0 <= i < j < sorted.len() implies stands_before(
        b,
        (#[trigger] sorted[i]).slot as int,
        (#[trigger] sorted[j]).slot as int,
    ) by {
        let (x, y) = (order[i], order[j]);
        assert(sorted[i] == known[x] && sorted[j] == known[y]);
        assert(comes_before(keys, x, y));
        lemma_comes_before(keys, x, y, x);
        assert(is_slot(b, known[x]) && is_slot(b, known[y]));
        if keys[x].rank == keys[y].rank {
            assert(keys[x] == keys[y]);
            assert(x < y) by {
                if y < x {
                    assert(comes_before(keys, y, x));
                }
            }
        }
    }
    assert forall|s: int| #[trigger] holds_data(b, s) implies exists|i: int|
        0 <= i < sorted.len() && (#[trigger] sorted[i]).slot == s by {
        let k = choose|k: int| 0 <= k < known.len() && (#[trigger] known[k]).slot == s;
        assert(order.contains(k));
        let i = choose|i: int| 0 <= i < order.len() && order[i] == k;
        assert(sorted[i].slot == s);
    }
}

proof fn lemma_next_place(n: int)
    ensures
        next_place(n) == crate::parsers::biome::segb::next_aligned(n),
{
}

/// Why a slot in a walk has no outcome, if it has none.
spec fn is_left_out(
    b: Seq<u8>,
    slots: Seq<TrailerEntry>,
    pos: int,
    outcomes: Seq<EntryOutcome>,
    from: Seq<int>,
    k: int,
) -> bool {
    ||| slots[k].state == EntryState::Unknown
    ||| slots[k].end_offset + 32 < pos + 8
    ||| exists|t: int|
        0 <= t < k && (#[trigger] slots[t]).state != EntryState::Unknown && slots[k].end_offset
            + 32 < next_place(slots[t].end_offset + 32) + 8
    ||| outcomes.len() > 0 && outcomes.last() is PastEnd && from.last() < k
}

/// Whether the outcomes of a walk are those of the slots at the places `from`.
spec fn walked(
    b: Seq<u8>,
    times: Seq<Result<Timestamp, String>>,
    slots: Seq<TrailerEntry>,
    pos: int,
    outcomes: Seq<EntryOutcome>,
    from: Seq<int>,
) -> bool {
    &&& from.len() == outcomes.len()
    &&& forall|i: int|
        0 <= i < from.len() ==> 0 <= #[trigger] from[i] < slots.len() && comes_of_slot(
            b,
            times,
            outcomes[i],
            slots[from[i]].slot as int,
        )
    &&& forall|i: int, j: int|
        0 <= i < j < from.len() ==> #[trigger] from[i] < #[trigger] from[j]
    &&& forall|k: int|
        0 <= k < slots.len() && !from.contains(k) ==> #[trigger] is_left_out(
            b,
            slots,
            pos,
            outcomes,
            from,
            k,
        )
}

spec fn shifted(from: Seq<int>) -> Seq<int> {
    from.map_values(|k: int| k + 1)
}

/// The walk over the slots behind the first one is one over all of them, where the first
/// one is left out or has an outcome of its own.
proof fn lemma_walked_more(
    b: Seq<u8>,
    times: Seq<Result<Timestamp, String>>,
    slots: Seq<TrailerEntry>,
    pos: int,
    next: int,
    outcomes: Seq<EntryOutcome>,
    from: Seq<int>,
    first: Option<EntryOutcome>,
)
    requires
        slots.len() > 0,
        walked(b, times, slots.drop_first(), next, outcomes, from),
        next == pos || slots[0].state != EntryState::Unknown && next == next_place(
            slots[0].end_offset + 32,
        ),
        match first {
            Some(o) => comes_of_slot(b, times, o, slots[0].slot as int),
            None => slots[0].state == EntryState::Unknown || slots[0].end_offset + 32 < pos + 8,
        },
    ensures
        match first {
            Some(o) => walked(b, times, slots, pos, seq![o] + outcomes, seq![0int] + shifted(from)),
            None => walked(b, times, slots, pos, outcomes, shifted(from)),
        },
{
    let rest = slots.drop_first();
    let more = shifted(from);
    let (all, whole) = match first {
        Some(o) => (seq![0int] + more, seq![o] + outcomes),
        None => (more, outcomes),
    };
    let d: int = if first is Some {
        1
    } else {
        0
    };
    assert forall|i: int| 0 <= i < all.len() implies 0 <= #[trigger] all[i] < slots.len()
        && comes_of_slot(b, times, whole[i], slots[all[i]].slot as int) by {
        if i >= d {
            assert(from[i - d] == all[i] - 1);
            assert(rest[from[i - d]] == slots[all[i]]);
            assert(whole[i] == outcomes[i - d]);
        }
    }
    assert forall|i: int, j: int| 0 <= i < j < all.len() implies #[trigger] all[i]
        < #[trigger] all[j] by {
        assert(all[j] == from[j - d] + 1);
        if i >= d {
            assert(all[i] == from[i - d] + 1);
        }
    }
    assert forall|k: int| 0 <= k < slots.len() && !all.contains(k) implies #[trigger] is_left_out(
        b,
        slots,
        pos,
        whole,
        all,
        k,
    ) by {
        if k == 0 {
            if first is Some {
                assert(all[0] == 0);
            }
        } else {
            if from.contains(k - 1) {
                let i = choose|i: int| 0 <= i < from.len() && from[i] == k - 1;
                assert(all[i + d] == k);
            }
            assert(is_left_out(b, rest, next, outcomes, from, k - 1));
            assert(rest[k - 1] == slots[k]);
            if slots[k].state == EntryState::Unknown {
            } else if slots[k].end_offset + 32 < next + 8 {
                if next != pos {
                    assert(slots[0].state != EntryState::Unknown);
                }
            } else if outcomes.len() > 0 && outcomes.last() is PastEnd && from.last() < k - 1 {
                assert(whole.last() == outcomes.last());
                assert(all.last() == from.last() + 1);
            } else {
                let t = choose|t: int|
                    0 <= t < k - 1 && (#[trigger] rest[t]).state != EntryState::Unknown
                        && rest[k - 1].end_offset + 32 < next_place(rest[t].end_offset + 32) + 8;
                assert(slots[t + 1] == rest[t]);
            }
        }
    }
}

proof fn lemma_walk(
    b: Seq<u8>,
    times: Seq<Result<Timestamp, String>>,
    slots: Seq<TrailerEntry>,
    pos: int,
    last: Option<(i32, SegbRecordView)>,
) -> (from: Seq<int>)
    requires
        forall|i: int| 0 <= i < slots.len() ==> is_slot(b, #[trigger] slots[i]),
        last matches Some((end, r)) ==> r.record_offset + 8 + r.payload.len() == end + 32 <= b.len(),
        pos >= 0,
    ensures
        walked(b, times, slots, pos, walk(b, times, slots, pos, last), from),
    decreases slots.len(),
{
    let all = walk(b, times, slots, pos, last);
    if slots.len() == 0 {
        Seq::empty()
    } else {
        let e = slots[0];
        let rest = slots.drop_first();
        let s = e.slot as int;
        let next = next_place(e.end_offset + 32);
        lemma_next_place(e.end_offset + 32);
        assert(is_slot(b, e));
        assert forall|i: int| 0 <= i < rest.len() implies is_slot(b, #[trigger] rest[i]) by {
            assert(rest[i] == slots[i + 1]);
        }
        if e.state == EntryState::Unknown {
            let from = lemma_walk(b, times, rest, pos, last);
            lemma_walked_more(b, times, slots, pos, pos, all, from, None);
            shifted(from)
        } else if last is Some && (last->0).0 == e.end_offset {
            let from = lemma_walk(b, times, rest, pos, last);
            let after = walk(b, times, rest, pos, last);
            assert(comes_of_slot(b, times, all[0], s));
            lemma_walked_more(b, times, slots, pos, pos, after, from, Some(all[0]));
            assert(all =~= seq![all[0]] + after);
            seq![0int] + shifted(from)
        } else if e.end_offset + 32 - pos < 8 {
            let from = lemma_walk(b, times, rest, pos, last);
            lemma_walked_more(b, times, slots, pos, pos, all, from, None);
            shifted(from)
        } else if e.end_offset + 32 > b.len() {
            let from = seq![0int];
            assert(comes_of_slot(b, times, all[0], s));
            assert forall|k: int| 0 <= k < slots.len() && !from.contains(k) implies
                #[trigger] is_left_out(b, slots, pos, all, from, k) by {
                assert(from[0] == 0);
                assert(k != 0);
            }
            from
        } else {
            let kept = match all[0] {
                EntryOutcome::Record(r) => Some((e.end_offset, r)),
                _ => last,
            };
            let after = walk(b, times, rest, next, kept);
            assert(all =~= seq![all[0]] + after);
            assert(comes_of_slot(b, times, all[0], s));
            let from = lemma_walk(b, times, rest, next, kept);
            lemma_walked_more(b, times, slots, pos, next, after, from, Some(all[0]));
            seq![0int] + shifted(from)
        }
    }
}

/// Every outcome of a file is that of a trailer slot, with the time and the state of that
/// slot and none other; no slot has two, and they come in the order in which the entries
/// end.
pub proof fn lemma_outcomes_come_of_slots(b: Seq<u8>, times: Seq<Result<Timestamp, String>>) -> (from:
    Seq<int>)
    requires
        0 <= i32_at(b, 4),
    ensures
        come_of_slots(b, times, walk(b, times, sorted_slots(b), 32, None), from),
{
    let slots = sorted_slots(b);
    let outcomes = walk(b, times, slots, 32, None);
    lemma_sorted(b);
    let places = lemma_walk(b, times, slots, 32, None);
    let from = places.map_values(|k: int| slots[k].slot as int);
    assert forall|i: int| 0 <= i < from.len() implies comes_of_slot(
        b,
        times,
        outcomes[i],
        #[trigger] from[i],
    ) by {
        assert(0 <= places[i] < slots.len());
    }
    assert forall|i: int, j: int| 0 <= i < j < from.len() implies stands_before(
        b,
        #[trigger] from[i],
        #[trigger] from[j],
    ) by {
        assert(places[i] < places[j]);
        assert(stands_before(b, slots[places[i]].slot as int, slots[places[j]].slot as int));
    }
    assert forall|s: int| #[trigger] holds_data(b, s) && !from.contains(s) implies {
        ||| is_overwritten(b, s)
        ||| outcomes.len() > 0 && outcomes.last() is PastEnd && stands_before(b, from.last(), s)
    } by {
        let k = choose|k: int| 0 <= k < slots.len() && (#[trigger] slots[k]).slot == s;
        assert(is_slot(b, slots[k]));
        if places.contains(k) {
            let i = choose|i: int| 0 <= i < places.len() && places[i] == k;
            assert(from[i] == s);
        }
        assert(is_left_out(b, slots, 32, outcomes, places, k));
        if outcomes.len() > 0 && outcomes.last() is PastEnd && places.last() < k {
            assert(0 <= places[places.len() - 1]);
            assert(stands_before(b, slots[places.last()].slot as int, slots[k].slot as int));
        } else if slots[k].end_offset + 32 >= 40 {
            let t = choose|t: int|
                0 <= t < k && (#[trigger] slots[t]).state != EntryState::Unknown
                    && slots[k].end_offset + 32 < next_place(slots[t].end_offset + 32) + 8;
            assert(is_slot(b, slots[t]));
            assert(holds_data(b, slots[t].slot as int));
            assert(stands_before(b, slots[t].slot as int, slots[k].slot as int));
        }
    }
    from
}

/// Where the `i`th entry begins, if entries end as the slots in `order` say.
pub open spec fn entry_begin(b: Seq<u8>, order: Seq<int>, i: int) -> int {
    if i <= 0 {
        32
    } else {
        next_place(entry_end(b, order[i - 1]))
    }
}

/// Whether the entries of a file are well formed: `order` lists the slots with data, all
/// of them, by the ends of their entries, which differ; each entry has room for a header
/// behind the one before it, ends in the file and has a time.
pub open spec fn is_well_formed(
    b: Seq<u8>,
    times: Seq<Result<Timestamp, String>>,
    order: Seq<int>,
) -> bool {
    &&& forall|s: int| #[trigger] holds_data(b, s) <==> order.contains(s)
    &&& forall|i: int, j: int|
        0 <= i < j < order.len() ==> entry_end(b, #[trigger] order[i]) < entry_end(
            b,
            #[trigger] order[j],
        )
    &&& forall|i: int|
        0 <= i < order.len() ==> {
            &&& entry_begin(b, order, i) + 8 <= entry_end(b, #[trigger] order[i]) <= b.len()
            &&& order[i] < times.len() && times[order[i]] is Ok
        }
}

/// Whether an outcome is the record at place `i` of a well-formed file: that of the slot
/// with the end offset of that rank, with the bytes behind the entry before it.
pub open spec fn is_record_at(
    b: Seq<u8>,
    times: Seq<Result<Timestamp, String>>,
    order: Seq<int>,
    i: int,
    outcome: EntryOutcome,
) -> bool {
    let begin = entry_begin(b, order, i);
    &&& comes_of_slot(b, times, outcome, order[i])
    &&& outcome matches EntryOutcome::Record(r)
    &&& r.record_offset == begin
    &&& r.payload == b.subrange(begin + 8, entry_end(b, order[i]))
    &&& r.crc_valid == (u32_at(b, begin) == crc32(r.payload))
}

/// Whether the outcomes of a well-formed file are what its bytes say.
pub open spec fn are_entries(
    b: Seq<u8>,
    times: Seq<Result<Timestamp, String>>,
    order: Seq<int>,
    outcomes: Seq<EntryOutcome>,
) -> bool {
    &&& outcomes.len() == order.len()
    &&& forall|i: int|
        0 <= i < order.len() ==> is_record_at(b, times, order, i, #[trigger] outcomes[i])
}

/// The slots of a list that hold data.
spec fn with_data(slots: Seq<TrailerEntry>) -> Seq<TrailerEntry>
    decreases slots.len(),
{
    if slots.len() == 0 {
        seq![]
    } else if slots[0].state == EntryState::Unknown {
        with_data(slots.drop_first())
    } else {
        seq![slots[0]] + with_data(slots.drop_first())
    }
}

/// The slots that hold data are those of the list, in its order.
proof fn lemma_with_data(slots: Seq<TrailerEntry>) -> (places: Seq<int>)
    ensures
        places.len() == with_data(slots).len(),
        forall|i: int|
            0 <= i < places.len() ==> 0 <= #[trigger] places[i] < slots.len()
                && slots[places[i]] == with_data(slots)[i] && slots[places[i]].state
                != EntryState::Unknown,
        forall|i: int, j: int|
            0 <= i < j < places.len() ==> #[trigger] places[i] < #[trigger] places[j],
        forall|k: int|
            0 <= k < slots.len() && (#[trigger] slots[k]).state != EntryState::Unknown
                ==> places.contains(k),
    decreases slots.len(),
{
    if slots.len() == 0 {
        Seq::empty()
    } else {
        let rest = slots.drop_first();
        let before = lemma_with_data(rest);
        let more = shifted(before);
        let unknown = slots[0].state == EntryState::Unknown;
        let places = if unknown {
            more
        } else {
            seq![0int] + more
        };
        let d: int = if unknown {
            0
        } else {
            1
        };
        assert forall|i: int| 0 <= i < places.len() implies 0 <= #[trigger] places[i] < slots.len()
            && slots[places[i]] == with_data(slots)[i] && slots[places[i]].state
            != EntryState::Unknown by {
            if i >= d {
                assert(places[i] == before[i - d] + 1);
                assert(slots[places[i]] == rest[before[i - d]]);
            }
        }
        assert forall|i: int, j: int| 0 <= i < j < places.len() implies #[trigger] places[i]
            < #[trigger] places[j] by {
            assert(places[j] == before[j - d] + 1);
            if i >= d {
                assert(places[i] == before[i - d] + 1);
            }
        }
        assert forall|k: int|
            0 <= k < slots.len() && (#[trigger] slots[k]).state
                != EntryState::Unknown implies places.contains(k) by {
            if k == 0 {
                assert(places[0] == 0);
            } else {
                assert(rest[k - 1] == slots[k]);
                let i = choose|i: int| 0 <= i < before.len() && before[i] == k - 1;
                assert(places[i + d] == k);
            }
        }
        places
    }
}

/// Slots in the order in which their entries end are in only one.
proof fn lemma_one_order(b: Seq<u8>, x: Seq<int>, y: Seq<int>)
    requires
        forall|s: int| x.contains(s) <==> y.contains(s),
        forall|i: int, j: int|
            0 <= i < j < x.len() ==> entry_end(b, #[trigger] x[i]) < entry_end(b, #[trigger] x[j]),
        forall|i: int, j: int|
            0 <= i < j < y.len() ==> entry_end(b, #[trigger] y[i]) < entry_end(b, #[trigger] y[j]),
    ensures
        x == y,
    decreases x.len(),
{
    if x.len() == 0 {
        if y.len() > 0 {
            assert(y.contains(y[0]));
        }
        assert(x =~= y);
    } else {
        assert(x.contains(x.last()));
        assert(y.contains(x.last()));
        let p = choose|p: int| 0 <= p < y.len() && y[p] == x.last();
        assert(y.contains(y.last()));
        assert(x.contains(y.last()));
        let q = choose|q: int| 0 <= q < x.len() && x[q] == y.last();
        if p < y.len() - 1 {
            assert(entry_end(b, y[p]) < entry_end(b, y[y.len() - 1]));
            if q < x.len() - 1 {
                assert(entry_end(b, x[q]) < entry_end(b, x[x.len() - 1]));
            }
        }
        assert(x.last() == y.last());
        let (a, c) = (x.drop_last(), y.drop_last());
        assert forall|s: int| a.contains(s) <==> c.contains(s) by {
            if a.contains(s) {
                let i = choose|i: int| 0 <= i < a.len() && a[i] == s;
                assert(x[i] == s);
                assert(entry_end(b, x[i]) < entry_end(b, x[x.len() - 1]));
                assert(y.contains(s));
                let j = choose|j: int| 0 <= j < y.len() && y[j] == s;
                assert(c[j] == s);
            }
            if c.contains(s) {
                let i = choose|i: int| 0 <= i < c.len() && c[i] == s;
                assert(y[i] == s);
                assert(entry_end(b, y[i]) < entry_end(b, y[y.len() - 1]));
                assert(x.contains(s));
                let j = choose|j: int| 0 <= j < x.len() && x[j] == s;
                assert(a[j] == s);
            }
        }
        lemma_one_order(b, a, c);
        assert(x =~= a.push(x.last()));
        assert(y =~= c.push(y.last()));
    }
}

/// Where the `i`th entry of a walk begins.
spec fn walk_begin(data: Seq<TrailerEntry>, pos: int, i: int) -> int {
    if i <= 0 {
        pos
    } else {
        next_place(data[i - 1].end_offset + 32)
    }
}

/// Whether an outcome is the record of an entry that begins at a place.
spec fn is_entry(
    b: Seq<u8>,
    times: Seq<Result<Timestamp, String>>,
    e: TrailerEntry,
    begin: int,
    outcome: EntryOutcome,
) -> bool {
    &&& outcome matches EntryOutcome::Record(r)
    &&& r.state == e.state
    &&& times[e.slot as int] == Ok::<Timestamp, String>(r.timestamp_utc)
    &&& r.record_offset == begin
    &&& r.payload == b.subrange(begin + 8, e.end_offset + 32)
    &&& r.crc_valid == (u32_at(b, begin) == crc32(r.payload))
}

proof fn lemma_walk_of_entries(
    b: Seq<u8>,
    times: Seq<Result<Timestamp, String>>,
    slots: Seq<TrailerEntry>,
    pos: int,
    last: Option<(i32, SegbRecordView)>,
)
    requires
        ({
            let data = with_data(slots);
            &&& forall|i: int, j: int|
                0 <= i < j < data.len() ==> (#[trigger] data[i]).end_offset < (
                #[trigger] data[j]).end_offset
            &&& forall|i: int|
                0 <= i < data.len() ==> {
                    &&& walk_begin(data, pos, i) + 8 <= (#[trigger] data[i]).end_offset + 32
                        <= b.len()
                    &&& data[i].slot < times.len() && times[data[i].slot as int] is Ok
                    &&& last is Some ==> (last->0).0 < data[i].end_offset
                }
        }),
    ensures
        ({
            let data = with_data(slots);
            let all = walk(b, times, slots, pos, last);
            &&& all.len() == data.len()
            &&& forall|i: int|
                0 <= i < data.len() ==> {
                    is_entry(b, times, data[i], walk_begin(data, pos, i), #[trigger] all[i])
                }
        }),
    decreases slots.len(),
{
    if slots.len() > 0 {
        let e = slots[0];
        let rest = slots.drop_first();
        let data = with_data(slots);
        let all = walk(b, times, slots, pos, last);
        if e.state == EntryState::Unknown {
            lemma_walk_of_entries(b, times, rest, pos, last);
        } else {
            let behind = with_data(rest);
            assert(data[0] == e);
            assert(data.drop_first() =~= behind);
            let next = next_place(e.end_offset + 32);
            lemma_next_place(e.end_offset + 32);
            let r = all[0]->Record_0;
            let kept = Some((e.end_offset, r));
            let after = walk(b, times, rest, next, kept);
            assert(all =~= seq![all[0]] + after);
            assert forall|i: int, j: int| 0 <= i < j < behind.len() implies (
            #[trigger] behind[i]).end_offset < (#[trigger] behind[j]).end_offset by {
                assert(behind[i] == data[i + 1] && behind[j] == data[j + 1]);
            }
            assert forall|i: int| 0 <= i < behind.len() implies {
                &&& walk_begin(behind, next, i) + 8 <= (#[trigger] behind[i]).end_offset + 32
                    <= b.len()
                &&& behind[i].slot < times.len() && times[behind[i].slot as int] is Ok
                &&& e.end_offset < behind[i].end_offset
            } by {
                assert(behind[i] == data[i + 1]);
                assert(data[0].end_offset < data[i + 1].end_offset);
                assert(walk_begin(behind, next, i) == walk_begin(data, pos, i + 1)) by {
                    if i > 0 {
                        assert(behind[i - 1] == data[i]);
                    }
                }
            }
            lemma_walk_of_entries(b, times, rest, next, kept);
            assert forall|i: int| 0 <= i < data.len() implies {
                is_entry(b, times, data[i], walk_begin(data, pos, i), #[trigger] all[i])
            } by {
                if i > 0 {
                    assert(all[i] == after[i - 1]);
                    assert(data[i] == behind[i - 1]);
                    assert(walk_begin(behind, next, i - 1) == walk_begin(data, pos, i)) by {
                        if i > 1 {
                            assert(behind[i - 2] == data[i - 1]);
                        }
                    }
                }
            }
        }
    }
}

/// The slots with data, sorted, are those of a well-formed file in their order.
proof fn lemma_data_in_order(b: Seq<u8>, times: Seq<Result<Timestamp, String>>, order: Seq<int>)
    requires
        0 <= i32_at(b, 4),
        is_well_formed(b, times, order),
    ensures
        with_data(sorted_slots(b)).len() == order.len(),
        forall|i: int|
            0 <= i < order.len() ==> {
                let e = #[trigger] with_data(sorted_slots(b))[i];
                &&& is_slot(b, e)
                &&& e.slot == order[i]
                &&& e.state != EntryState::Unknown
                &&& e.end_offset + 32 == entry_end(b, order[i])
            },
{
    let slots = sorted_slots(b);
    let data = with_data(slots);
    lemma_sorted(b);
    let places = lemma_with_data(slots);
    let found = data.map_values(|e: TrailerEntry| e.slot as int);
    assert forall|i: int| 0 <= i < data.len() implies is_slot(b, #[trigger] data[i])
        && holds_data(b, data[i].slot as int) && data[i].end_offset + 32 == entry_end(
        b,
        data[i].slot as int,
    ) by {
        assert(0 <= places[i] < slots.len());
        assert(is_slot(b, slots[places[i]]));
    }
    assert forall|s: int| found.contains(s) <==> order.contains(s) by {
        if found.contains(s) {
            let i = choose|i: int| 0 <= i < found.len() && found[i] == s;
            assert(holds_data(b, data[i].slot as int));
        }
        if order.contains(s) {
            assert(holds_data(b, s));
            let k = choose|k: int| 0 <= k < slots.len() && (#[trigger] slots[k]).slot == s;
            assert(is_slot(b, slots[k]));
            assert(places.contains(k));
            let i = choose|i: int| 0 <= i < places.len() && places[i] == k;
            assert(data[i] == slots[k]);
            assert(found[i] == s);
        }
    }
    assert forall|i: int, j: int| 0 <= i < j < found.len() implies entry_end(b, #[trigger] found[i])
        < entry_end(b, #[trigger] found[j]) by {
        assert(places[i] < places[j]);
        let (x, y) = (slots[places[i]].slot as int, slots[places[j]].slot as int);
        assert(stands_before(b, x, y));
        assert(data[i].slot == x && data[j].slot == y);
        assert(found.contains(x) && found.contains(y)) by {
            assert(found[i] == x && found[j] == y);
        }
        assert(order.contains(x) && order.contains(y));
        let p = choose|p: int| 0 <= p < order.len() && order[p] == x;
        let q = choose|q: int| 0 <= q < order.len() && order[q] == y;
        if q < p {
            assert(entry_end(b, order[q]) < entry_end(b, order[p]));
        } else if p == q {
            assert(x == y);
        } else {
            assert(entry_end(b, order[p]) < entry_end(b, order[q]));
        }
    }
    lemma_one_order(b, found, order);
    assert forall|i: int| 0 <= i < order.len() implies ({
        let e = #[trigger] data[i];
        &&& is_slot(b, e)
        &&& e.slot == order[i]
        &&& e.state != EntryState::Unknown
        &&& e.end_offset + 32 == entry_end(b, order[i])
    }) by {
        assert(found[i] == data[i].slot as int);
        assert(0 <= places[i] < slots.len());
    }
}

/// The walk over a well-formed file gives a record for each entry.
proof fn lemma_walk_in_order(b: Seq<u8>, times: Seq<Result<Timestamp, String>>, order: Seq<int>)
    requires
        0 <= i32_at(b, 4),
        is_well_formed(b, times, order),
    ensures
        walk(b, times, sorted_slots(b), 32, None).len() == order.len(),
        forall|i: int|
            0 <= i < order.len() ==> is_entry(
                b,
                times,
                with_data(sorted_slots(b))[i],
                walk_begin(with_data(sorted_slots(b)), 32, i),
                #[trigger] walk(b, times, sorted_slots(b), 32, None)[i],
            ),
{
    let slots = sorted_slots(b);
    let data = with_data(slots);
    lemma_data_in_order(b, times, order);
    assert forall|i: int| 0 <= i < data.len() implies {
        &&& walk_begin(data, 32, i) + 8 <= (#[trigger] data[i]).end_offset + 32 <= b.len()
        &&& data[i].slot < times.len() && times[data[i].slot as int] is Ok
    } by {
        assert(entry_begin(b, order, i) + 8 <= entry_end(b, order[i]) <= b.len());
        lemma_same_begin(b, times, order, i);
    }
    assert forall|i: int, j: int| 0 <= i < j < data.len() implies (#[trigger] data[i]).end_offset < (
    #[trigger] data[j]).end_offset by {
        assert(entry_end(b, order[i]) < entry_end(b, order[j]));
    }
    lemma_walk_of_entries(b, times, slots, 32, None);
}

proof fn lemma_same_begin(
    b: Seq<u8>,
    times: Seq<Result<Timestamp, String>>,
    order: Seq<int>,
    i: int,
)
    requires
        0 <= i32_at(b, 4),
        is_well_formed(b, times, order),
        0 <= i < order.len(),
    ensures
        walk_begin(with_data(sorted_slots(b)), 32, i) == entry_begin(b, order, i),
{
    lemma_data_in_order(b, times, order);
    if i > 0 {
        let e = with_data(sorted_slots(b))[i - 1];
        assert(e.end_offset + 32 == entry_end(b, order[i - 1]));
    }
}

proof fn lemma_entry_of_slot(
    b: Seq<u8>,
    times: Seq<Result<Timestamp, String>>,
    e: TrailerEntry,
    begin: int,
    outcome: EntryOutcome,
)
    requires
        is_slot(b, e),
        e.state != EntryState::Unknown,
        is_entry(b, times, e, begin, outcome),
        e.slot < times.len(),
        0 <= begin,
        begin + 8 <= e.end_offset + 32 <= b.len(),
    ensures
        comes_of_slot(b, times, outcome, e.slot as int),
{
}

proof fn lemma_record_at(
    b: Seq<u8>,
    times: Seq<Result<Timestamp, String>>,
    order: Seq<int>,
    i: int,
    outcome: EntryOutcome,
)
    requires
        0 <= i32_at(b, 4),
        is_well_formed(b, times, order),
        0 <= i < order.len(),
        is_entry(
            b,
            times,
            with_data(sorted_slots(b))[i],
            walk_begin(with_data(sorted_slots(b)), 32, i),
            outcome,
        ),
    ensures
        is_record_at(b, times, order, i, outcome),
{
    let e = with_data(sorted_slots(b))[i];
    let begin = entry_begin(b, order, i);
    lemma_data_in_order(b, times, order);
    lemma_same_begin(b, times, order, i);
    assert(entry_begin(b, order, i) + 8 <= entry_end(b, order[i]) <= b.len());
    assert(order[i] < times.len());
    assert(0 <= begin) by {
        if i > 0 {
            assert(entry_begin(b, order, i - 1) + 8 <= entry_end(b, order[i - 1]));
            lemma_begin_positive(b, times, order, i);
        }
    }
    lemma_entry_of_slot(b, times, e, begin, outcome);
}

proof fn lemma_begin_positive(
    b: Seq<u8>,
    times: Seq<Result<Timestamp, String>>,
    order: Seq<int>,
    i: int,
)
    requires
        is_well_formed(b, times, order),
        0 <= i < order.len(),
    ensures
        entry_begin(b, order, i) >= 32,
    decreases i,
{
    if i > 0 {
        lemma_begin_positive(b, times, order, i - 1);
        assert(entry_begin(b, order, i - 1) + 8 <= entry_end(b, order[i - 1]));
    }
}

/// The records of a well-formed file: the `i`th of them has the time, the state and the
/// bytes of the slot whose end offset is the `i`th smallest.
pub proof fn lemma_well_formed_file(
    b: Seq<u8>,
    times: Seq<Result<Timestamp, String>>,
    order: Seq<int>,
)
    requires
        0 <= i32_at(b, 4),
        is_well_formed(b, times, order),
    ensures
        are_entries(b, times, order, walk(b, times, sorted_slots(b), 32, None)),
{
    let outcomes = walk(b, times, sorted_slots(b), 32, None);
    lemma_walk_in_order(b, times, order);
    assert forall|i: int| 0 <= i < order.len() implies is_record_at(
        b,
        times,
        order,
        i,
        #[trigger] outcomes[i],
    ) by {
        lemma_record_at(b, times, order, i, outcomes[i]);
    }
}

} // verus!
