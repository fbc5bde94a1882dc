//! Which entries of a journal have no record, and with what a journal fails.

use vstd::prelude::*;

use crate::bytes::u64_at;
use crate::parsers::journald::{
    data_field, entry_record, event_reason, fails_with, is_first_bad_event, item_fields, item_size,
    item_target, lz4_block,
    object_at, unreadable_reason, ScanEvent,
};
use crate::parsers::journald_objects::{is_object, item_count, item_place};
use crate::text::{dec, first_index, lemma_first_index, lossy_text, split_at_first};
use crate::time::in_calendar;

verus! {

/// Whether the data object at a place has a field that can be read: it is one of those, has
/// room for its header, and its payload, decompressed where it is an LZ4 block, has an `=` in
/// it. A payload that is compressed otherwise is not looked into.
pub open spec fn has_field(b: Seq<u8>, at: int, compact: bool) -> bool {
    let fixed: int = if compact {
        72
    } else {
        64
    };
    let payload = b.subrange(at + fixed, at + u64_at(b, at + 8));
    &&& is_object(b, at)
    &&& b[at] == 1
    &&& fixed <= u64_at(b, at + 8)
    &&& if (b[at + 1] / 2) % 2 == 1 {
        &&& payload.len() >= 8
        &&& u64_at(payload, 0) <= isize::MAX
        &&& lz4_block(payload.skip(8), u64_at(payload, 0) as nat) matches Ok(plain)
        &&& lossy_text(plain).contains('=')
    } else if b[at + 1] % 2 == 1 || (b[at + 1] / 4) % 2 == 1 {
        true
    } else {
        lossy_text(payload).contains('=')
    }
}

proof fn lemma_has_separator(s: Seq<char>)
    ensures
        split_at_first(s, '=') is Some <==> s.contains('='),
{
    lemma_first_index(s, '=');
    let i = first_index(s, '=');
    if i < s.len() {
        assert(s[i] == '=');
    }
    if s.contains('=') {
        let k = choose|k: int| 0 <= k < s.len() && s[k] == '=';
        if i >= s.len() {
            assert(s[k] != '=');
        }
    }
}

/// The field of a data object is read if and only if it has one.
pub proof fn lemma_readable_fields(b: Seq<u8>, at: int, compact: bool)
    requires
        0 <= at,
    ensures
        data_field(b, at, compact) is Ok <==> has_field(b, at, compact),
{
    reveal(object_at);
    reveal(data_field);
    let fixed: int = if compact {
        72
    } else {
        64
    };
    if is_object(b, at) && fixed <= u64_at(b, at + 8) {
        let payload = b.subrange(at + fixed, at + u64_at(b, at + 8));
        lemma_has_separator(lossy_text(payload));
        if payload.len() >= 8 {
            if let Ok(plain) = lz4_block(payload.skip(8), u64_at(payload, 0) as nat) {
                lemma_has_separator(lossy_text(plain));
            }
        }
    }
}

proof fn lemma_item_place(b: Seq<u8>, at: int, compact: bool, k: int)
    requires
        0 <= k,
    ensures
        item_place(b, at, compact, k) == item_target(
            b,
            at + 64 + k * item_size(compact),
            compact,
        ),
        0 <= item_place(b, at, compact, k),
{
    if compact {
        assert(4 * k == k * 4);
    } else {
        assert(16 * k == k * 16);
    }
}

proof fn lemma_readable_items(b: Seq<u8>, at: int, compact: bool, n: int)
    requires
        0 <= n,
    ensures
        item_fields(b, at + 64, n, compact) is Ok <==> forall|k: int|
            0 <= k < n ==> has_field(b, #[trigger] item_place(b, at, compact, k), compact),
    decreases n,
{
    if n > 0 {
        lemma_readable_items(b, at, compact, n - 1);
        lemma_item_place(b, at, compact, n - 1);
        lemma_readable_fields(b, item_place(b, at, compact, n - 1), compact);
        if forall|k: int|
            0 <= k < n ==> has_field(b, #[trigger] item_place(b, at, compact, k), compact) {
            assert(has_field(b, item_place(b, at, compact, n - 1), compact));
        }
        if item_fields(b, at + 64, n, compact) is Ok {
            assert forall|k: int| 0 <= k < n implies has_field(
                b,
                #[trigger] item_place(b, at, compact, k),
                compact,
            ) by {
                if k == n - 1 {
                    assert(has_field(b, item_place(b, at, compact, n - 1), compact));
                }
            }
        }
    }
}

/// An entry has a record if and only if it has room for its header, its items fill the rest
/// of it, each of them leads to a field that can be read, and its wall clock lies in the range
/// of dates.
pub proof fn lemma_entries_with_records(b: Seq<u8>, at: int, compact: bool)
    ensures
        entry_record(b, at, u64_at(b, at + 8), compact) is Ok <==> {
            let size = u64_at(b, at + 8);
            &&& size >= 64
            &&& (size - 64) % (if compact {
                4int
            } else {
                16
            }) == 0
            &&& forall|k: int|
                0 <= k < item_count(b, at, compact) ==> has_field(
                    b,
                    #[trigger] item_place(b, at, compact, k),
                    compact,
                )
            &&& u64_at(b, at + 24) <= i64::MAX
            &&& in_calendar(u64_at(b, at + 24) / 1_000_000)
        },
{
    reveal(entry_record);
    let size = u64_at(b, at + 8);
    if size >= 64 {
        lemma_readable_items(b, at, compact, item_count(b, at, compact));
    }
}

/// A journal that is not to be read in part fails with the first entry that has no record, or
/// the first object that is none, and for the reason that this has.
pub proof fn lemma_journal_fails_with_the_first(events: Seq<ScanEvent>, reason: Seq<char>)
    requires
        fails_with(events, reason),
    ensures
        exists|at: int|
            0 <= at < events.len() && (forall|i: int|
                0 <= i < at ==> (#[trigger] events[i]) is Record) && match #[trigger] events[at] {
                ScanEvent::Record(_) => false,
                ScanEvent::BadEntry { reason: why, .. } => reason == why,
                ScanEvent::BadHeader { reason: why, .. } => reason == why,
            },
{
    let at = choose|at: int| #[trigger]
        is_first_bad_event(events, at) && reason == event_reason(events[at]);
    assert(!(events[at] is Record));
}

/// The note on an object that is none says how many entries came before it.
pub proof fn lemma_note_counts(reason: Seq<char>, recovered: nat)
    ensures
        unreadable_reason(reason, recovered) == reason
            + " — journal structure unreadable from this point; "@ + dec(recovered) + " entr"@ + (
        if recovered == 1 {
            "y"@
        } else {
            "ies"@
        }) + " recovered before it, remainder of the file skipped"@,
{
}

} // verus!
