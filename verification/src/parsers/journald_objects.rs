//! What the records of a journal have to do with the objects in its bytes.

use vstd::prelude::*;

use crate::bytes::{u32_at, u64_at};
use crate::json::{json_text, lemma_stored_member, JsonView};
use crate::model::{RecordView, SkippedView};
use crate::parsers::journald::{
    data_field, entry_fields, entry_record, event_records, event_skips, header_of, item_fields,
    journal_events, lemma_object_fits, lz4_block, object_at, scan, unreadable_reason, ScanEvent,
};
use crate::text::{dec, lemma_first_index, lossy_text, prefixed_hex};
use crate::time::instant_of;

verus! {

/// Whether an object with a header lies at a place of a file, whole.
pub open spec fn is_object(b: Seq<u8>, at: int) -> bool {
    &&& 0 <= at
    &&& at + 16 <= b.len()
    &&& 16 <= u64_at(b, at + 8)
    &&& at + u64_at(b, at + 8) <= b.len()
}

/// Where the object behind one begins: at the next multiple of eight.
pub open spec fn place_behind(b: Seq<u8>, at: int) -> int {
    ((at + u64_at(b, at + 8) + 7) / 8) * 8
}

/// Whether places are those of objects one behind the other.
pub open spec fn is_chain(b: Seq<u8>, start: int, at: Seq<int>) -> bool {
    &&& at.len() > 0 ==> at[0] == start
    &&& forall|i: int|
        0 <= i < at.len() - 1 ==> is_object(b, #[trigger] at[i]) && at[i + 1] == place_behind(
            b,
            at[i],
        )
}

/// Whether a payload is a field: its name, which has no `=` in it, an `=`, and its value.
pub open spec fn is_field(payload: Seq<u8>, key: Seq<char>, value: Seq<char>) -> bool {
    &&& lossy_text(payload) == key + seq!['='] + value
    &&& !key.contains('=')
}

/// Whether the data object at a place holds a field.
pub open spec fn holds_field(
    b: Seq<u8>,
    at: int,
    compact: bool,
    key: Seq<char>,
    value: Seq<char>,
) -> bool {
    let fixed: int = if compact {
        72
    } else {
        64
    };
    let payload = b.subrange(at + fixed, at + u64_at(b, at + 8));
    &&& is_object(b, at)
    &&& b[at] == 1
    &&& fixed <= u64_at(b, at + 8)
    &&& if (b[at + 1] / 2) % 2 == 1 {
        &&& payload.len() >= 8
        &&& lz4_block(payload.skip(8), u64_at(payload, 0) as nat) matches Ok(plain)
        &&& is_field(plain, key, value)
    } else if b[at + 1] % 2 == 1 || (b[at + 1] / 4) % 2 == 1 {
        &&& key == "_UNSUPPORTED_COMPRESSED_FIELD@"@ + dec(at as nat)
        &&& value == "<"@ + (if b[at + 1] % 2 == 1 {
            "XZ"@
        } else {
            "ZSTD"@
        }) + "-compressed field, "@ + dec(payload.len()) + " bytes, not decompressed>"@
    } else {
        is_field(payload, key, value)
    }
}

/// The place of the data object that the `k`th item of an entry names.
pub open spec fn item_place(b: Seq<u8>, at: int, compact: bool, k: int) -> int {
    if compact {
        u32_at(b, at + 64 + 4 * k)
    } else {
        u64_at(b, at + 64 + 16 * k)
    }
}

/// How many items an entry has.
pub open spec fn item_count(b: Seq<u8>, at: int, compact: bool) -> int {
    (u64_at(b, at + 8) - 64) / if compact {
        4
    } else {
        16
    }
}

/// Whether a name is one of those that an entry has from its header.
pub open spec fn is_header_name(name: Seq<char>) -> bool {
    name == "__REALTIME_TIMESTAMP"@ || name == "__MONOTONIC_TIMESTAMP"@ || name == "__SEQNUM"@
}

/// Whether the fields of an entry are those of the data objects of its items: each item
/// has one, which is the field of its name unless a later item has that name, and there
/// are no others.
pub open spec fn are_item_fields(
    b: Seq<u8>,
    at: int,
    compact: bool,
    fields: JsonView,
    keys: Seq<Seq<char>>,
    values: Seq<Seq<char>>,
) -> bool {
    &&& keys.len() == item_count(b, at, compact)
    &&& values.len() == keys.len()
    &&& forall|k: int|
        0 <= k < keys.len() ==> holds_field(
            b,
            item_place(b, at, compact, k),
            compact,
            #[trigger] keys[k],
            values[k],
        )
    &&& forall|k: int|
        0 <= k < keys.len() && !is_header_name(#[trigger] keys[k]) && (forall|m: int|
            k < m < keys.len() ==> #[trigger] keys[m] != keys[k]) ==> fields.get(keys[k]) == Some(
            JsonView::Text(values[k]),
        )
    &&& forall|name: Seq<char>| #[trigger]
        fields.get(name) is Some && !is_header_name(name) ==> keys.contains(name)
}

/// Whether a text is that of a field, if there is such a field with a text.
pub open spec fn is_text_of(text: Option<Seq<char>>, field: Option<JsonView>) -> bool {
    match text {
        Some(s) => field == Some(JsonView::Text(s)),
        None => !(field matches Some(JsonView::Text(_))),
    }
}

/// Whether a record is that of the entry at a place: its time is the wall clock of the
/// entry, which it has as a field too, beside the clock since boot and the number.
pub open spec fn is_record_of(b: Seq<u8>, at: int, compact: bool, r: RecordView) -> bool {
    &&& instant_of(u64_at(b, at + 24), 1_000_000) == Some(r.timestamp_utc)
    &&& r.fields.get("__REALTIME_TIMESTAMP"@) == Some(
        JsonView::Text(dec(u64_at(b, at + 24) as nat)),
    )
    &&& r.fields.get("__MONOTONIC_TIMESTAMP"@) == Some(
        JsonView::Text(dec(u64_at(b, at + 32) as nat)),
    )
    &&& r.fields.get("__SEQNUM"@) == Some(JsonView::Text(dec(u64_at(b, at + 16) as nat)))
    &&& is_text_of(r.message, r.fields.get("MESSAGE"@))
    &&& is_text_of(r.level, r.fields.get("PRIORITY"@))
    &&& r.raw == json_text(r.fields)
    &&& exists|keys: Seq<Seq<char>>, values: Seq<Seq<char>>| #[trigger]
        are_item_fields(b, at, compact, r.fields, keys, values)
}

proof fn lemma_field_split(payload: Seq<u8>, key: Seq<char>, value: Seq<char>)
    requires
        crate::parsers::journald::field_of(payload) == Ok::<(Seq<char>, Seq<char>), Seq<char>>(
            (key, value),
        ),
    ensures
        is_field(payload, key, value),
{
    let text = lossy_text(payload);
    lemma_first_index(text, '=');
    let i = crate::text::first_index(text, '=');
    assert(text =~= key + seq!['='] + value);
    if key.contains('=') {
        let j = choose|j: int| 0 <= j < key.len() && key[j] == '=';
        assert(text[j] == '=');
    }
}

/// The field of a data object is what its bytes say.
pub proof fn lemma_data_object_holds_field(
    b: Seq<u8>,
    at: int,
    compact: bool,
    key: Seq<char>,
    value: Seq<char>,
)
    requires
        0 <= at,
        data_field(b, at, compact) == Ok::<(Seq<char>, Seq<char>), Seq<char>>((key, value)),
    ensures
        holds_field(b, at, compact, key, value),
{
    reveal(data_field);
    reveal(object_at);
    let size = u64_at(b, at + 8);
    let start = crate::parsers::journald::payload_start(at, compact);
    let payload = b.subrange(start, at + size);
    if (b[at + 1] / 2) % 2 == 1 {
        let plain = lz4_block(payload.skip(8), u64_at(payload, 0) as nat)->Ok_0;
        lemma_field_split(plain, key, value);
    } else if !(b[at + 1] % 2 == 1 || (b[at + 1] / 4) % 2 == 1) {
        lemma_field_split(payload, key, value);
    }
}

/// The fields of the first items of an entry.
proof fn lemma_items(b: Seq<u8>, at: int, n: int, compact: bool) -> (kv: (
    Seq<Seq<char>>,
    Seq<Seq<char>>,
))
    requires
        item_fields(b, at + 64, n, compact) is Ok,
        n >= 0,
    ensures
        kv.0.len() == n,
        kv.1.len() == n,
        forall|k: int|
            0 <= k < n ==> holds_field(
                b,
                item_place(b, at, compact, k),
                compact,
                #[trigger] kv.0[k],
                kv.1[k],
            ),
        ({
            let fields = JsonView::Object(item_fields(b, at + 64, n, compact)->Ok_0);
            &&& forall|k: int|
                0 <= k < n && (forall|m: int| k < m < n ==> #[trigger] kv.0[m] != kv.0[k])
                    ==> fields.get(#[trigger] kv.0[k]) == Some(JsonView::Text(kv.1[k]))
            &&& forall|name: Seq<char>| #[trigger]
                fields.get(name) is Some ==> kv.0.contains(name)
        }),
    decreases n,
{
    if n == 0 {
        (Seq::empty(), Seq::empty())
    } else {
        let (keys, values) = lemma_items(b, at, n - 1, compact);
        let width = crate::parsers::journald::item_size(compact);
        let place = crate::parsers::journald::item_target(b, at + 64 + (n - 1) * width, compact);
        assert(place == item_place(b, at, compact, n - 1));
        let (key, value) = data_field(b, place, compact)->Ok_0;
        lemma_data_object_holds_field(b, place, compact, key, value);
        let before = item_fields(b, at + 64, n - 1, compact)->Ok_0;
        let after = item_fields(b, at + 64, n, compact)->Ok_0;
        let (k2, v2) = (keys.push(key), values.push(value));
        assert forall|k: int| 0 <= k < n implies holds_field(
            b,
            item_place(b, at, compact, k),
            compact,
            #[trigger] k2[k],
            v2[k],
        ) by {
            if k < n - 1 {
                assert(k2[k] == keys[k]);
            }
        }
        assert forall|k: int|
            0 <= k < n && (forall|m: int| k < m < n ==> #[trigger] k2[m] != k2[k]) implies
            JsonView::Object(after).get(#[trigger] k2[k]) == Some(JsonView::Text(v2[k])) by {
            lemma_stored_member(before, key, JsonView::Text(value), k2[k]);
            if k < n - 1 {
                assert(k2[n - 1] == key);
                assert(k2[k] != key);
                assert(k2[k] == keys[k]);
                assert forall|m: int| k < m < n - 1 implies #[trigger] keys[m] != keys[k] by {
                    assert(k2[m] == keys[m]);
                }
            }
        }
        assert forall|name: Seq<char>| #[trigger]
            JsonView::Object(after).get(name) is Some implies k2.contains(name) by {
            lemma_stored_member(before, key, JsonView::Text(value), name);
            if name == key {
                assert(k2[n - 1] == name);
            } else {
                assert(keys.contains(name));
                let i = choose|i: int| 0 <= i < keys.len() && keys[i] == name;
                assert(k2[i] == name);
            }
        }
        (k2, v2)
    }
}

proof fn lemma_header_names()
    ensures
        "__REALTIME_TIMESTAMP"@ != "__MONOTONIC_TIMESTAMP"@,
        "__REALTIME_TIMESTAMP"@ != "__SEQNUM"@,
        "__MONOTONIC_TIMESTAMP"@ != "__SEQNUM"@,
        !is_header_name("MESSAGE"@),
        !is_header_name("PRIORITY"@),
{
    reveal_strlit("__REALTIME_TIMESTAMP");
    reveal_strlit("__MONOTONIC_TIMESTAMP");
    reveal_strlit("__SEQNUM");
    reveal_strlit("MESSAGE");
    reveal_strlit("PRIORITY");
    assert("__REALTIME_TIMESTAMP"@.len() == 20);
    assert("__MONOTONIC_TIMESTAMP"@.len() == 21);
    assert("__SEQNUM"@.len() == 8 && "__SEQNUM"@[0] == '_');
    assert("MESSAGE"@.len() == 7);
    assert("PRIORITY"@.len() == 8 && "PRIORITY"@[0] == 'P');
}

proof fn lemma_entry_fields(
    b: Seq<u8>,
    at: int,
    items: Seq<(Seq<char>, JsonView)>,
    name: Seq<char>,
)
    ensures
        JsonView::Object(entry_fields(b, at, items)).get(name) == (if name
            == "__REALTIME_TIMESTAMP"@ {
            Some(JsonView::Text(dec(u64_at(b, at + 24) as nat)))
        } else if name == "__MONOTONIC_TIMESTAMP"@ {
            Some(JsonView::Text(dec(u64_at(b, at + 32) as nat)))
        } else if name == "__SEQNUM"@ {
            Some(JsonView::Text(dec(u64_at(b, at + 16) as nat)))
        } else {
            JsonView::Object(items).get(name)
        }),
{
    lemma_header_names();
    let v24 = JsonView::Text(dec(u64_at(b, at + 24) as nat));
    let v32 = JsonView::Text(dec(u64_at(b, at + 32) as nat));
    let v16 = JsonView::Text(dec(u64_at(b, at + 16) as nat));
    let one = crate::json::with_member(items, "__REALTIME_TIMESTAMP"@, v24);
    let two = crate::json::with_member(one, "__MONOTONIC_TIMESTAMP"@, v32);
    lemma_stored_member(items, "__REALTIME_TIMESTAMP"@, v24, name);
    lemma_stored_member(one, "__MONOTONIC_TIMESTAMP"@, v32, name);
    lemma_stored_member(two, "__SEQNUM"@, v16, name);
}

/// The record of an entry is what its bytes say: its time is the wall clock at byte 24,
/// and its fields hold that clock, the clock since boot at byte 32 and the number at byte
/// 16, each under its own name, beside the fields of its items.
pub proof fn lemma_record_is_its_entry(b: Seq<u8>, at: int, compact: bool)
    requires
        entry_record(b, at, u64_at(b, at + 8), compact) is Ok,
    ensures
        is_record_of(b, at, compact, entry_record(b, at, u64_at(b, at + 8), compact)->Ok_0),
        64 <= u64_at(b, at + 8),
{
    reveal(entry_record);
    let size = u64_at(b, at + 8);
    let r = entry_record(b, at, size, compact)->Ok_0;
    let n = item_count(b, at, compact);
    assert(n == (size - 64) / crate::parsers::journald::item_size(compact));
    let items = item_fields(b, at + 64, n, compact)->Ok_0;
    let (keys, values) = lemma_items(b, at, n, compact);
    lemma_header_names();
    lemma_entry_fields(b, at, items, "__REALTIME_TIMESTAMP"@);
    lemma_entry_fields(b, at, items, "__MONOTONIC_TIMESTAMP"@);
    lemma_entry_fields(b, at, items, "__SEQNUM"@);
    lemma_entry_fields(b, at, items, "MESSAGE"@);
    lemma_entry_fields(b, at, items, "PRIORITY"@);
    assert forall|k: int|
        0 <= k < keys.len() && !is_header_name(#[trigger] keys[k]) && (forall|m: int|
            k < m < keys.len() ==> #[trigger] keys[m] != keys[k]) implies r.fields.get(keys[k])
        == Some(JsonView::Text(values[k])) by {
        lemma_entry_fields(b, at, items, keys[k]);
    }
    assert forall|name: Seq<char>| #[trigger]
        r.fields.get(name) is Some && !is_header_name(name) implies keys.contains(name) by {
        lemma_entry_fields(b, at, items, name);
        assert(JsonView::Object(items).get(name) is Some);
    }
    assert(are_item_fields(b, at, compact, r.fields, keys, values));
}

/// Whether an event is what comes of the object at a place.
pub open spec fn is_event_of(b: Seq<u8>, at: int, compact: bool, event: ScanEvent) -> bool {
    match event {
        ScanEvent::Record(r) => is_object(b, at) && b[at] == 3 && is_record_of(b, at, compact, r),
        ScanEvent::BadEntry { offset, .. } => {
            &&& offset == at
            &&& is_object(b, at)
            &&& b[at] == 3
            &&& entry_record(b, at, u64_at(b, at + 8), compact) is Err
        },
        ScanEvent::BadHeader { offset, .. } => offset == at && !is_object(b, at),
    }
}

/// Whether events are those of a file from `start` to the object at `tail`: the objects
/// lie at the places `at`, one behind the other, and each entry among them, and an object
/// that is none, has one event, in their order.
pub open spec fn are_events_of(
    b: Seq<u8>,
    start: int,
    tail: int,
    compact: bool,
    events: Seq<ScanEvent>,
    at: Seq<int>,
    from: Seq<int>,
) -> bool {
    &&& is_chain(b, start, at)
    &&& forall|i: int| 0 <= i < at.len() ==> 0 <= #[trigger] at[i] <= tail
    &&& start <= tail ==> at.len() > 0
    &&& at.len() > 0 && is_object(b, at.last()) ==> place_behind(b, at.last()) > tail
    &&& from.len() == events.len()
    &&& forall|k: int|
        0 <= k < from.len() ==> 0 <= #[trigger] from[k] < at.len() && is_event_of(
            b,
            at[from[k]],
            compact,
            events[k],
        )
    &&& forall|j: int, k: int| 0 <= j < k < from.len() ==> #[trigger] from[j] < #[trigger] from[k]
    &&& forall|i: int|
        0 <= i < at.len() && !from.contains(i) ==> is_object(b, #[trigger] at[i]) && b[at[i]] != 3
}

proof fn lemma_scan(b: Seq<u8>, start: int, tail: int, compact: bool) -> (places: (
    Seq<int>,
    Seq<int>,
))
    requires
        0 <= start,
    ensures
        are_events_of(
            b,
            start,
            tail,
            compact,
            scan(b, start, tail, compact),
            places.0,
            places.1,
        ),
    decreases b.len() + 8 - start,
{
    let events = scan(b, start, tail, compact);
    if start > tail {
        (Seq::empty(), Seq::empty())
    } else if object_at(b, start) is Err {
        reveal(object_at);
        assert(seq![0int].contains(0)) by {
            assert(seq![0int][0] == 0);
        }
        (seq![start], seq![0int])
    } else {
        reveal(object_at);
        lemma_object_fits(b, start);
        let size = u64_at(b, start + 8);
        let next = place_behind(b, start);
        let (at, from) = lemma_scan(b, next, tail, compact);
        let rest = scan(b, next, tail, compact);
        let places = seq![start] + at;
        let entry = b[start] == 3;
        let moved = from.map_values(|i: int| i + 1);
        let all = if entry {
            seq![0int] + moved
        } else {
            moved
        };
        let d: int = if entry {
            1
        } else {
            0
        };
        assert(events =~= if entry {
            seq![events[0]] + rest
        } else {
            rest
        });
        if entry {
            assert(events[0] == crate::parsers::journald::entry_event(b, start, size, compact));
            if entry_record(b, start, size, compact) is Ok {
                lemma_record_is_its_entry(b, start, compact);
            }
        }
        assert forall|i: int| 0 <= i < places.len() - 1 implies is_object(b, #[trigger] places[i])
            && places[i + 1] == place_behind(b, places[i]) by {
            if i > 0 {
                assert(places[i] == at[i - 1]);
                assert(places[i + 1] == at[i]);
            }
        }
        assert forall|i: int| 0 <= i < places.len() implies 0 <= #[trigger] places[i] <= tail by {
            if i > 0 {
                assert(places[i] == at[i - 1]);
            }
        }
        assert(places.last() == if at.len() > 0 {
            at.last()
        } else {
            start
        });
        assert forall|k: int| 0 <= k < all.len() implies 0 <= #[trigger] all[k] < places.len()
            && is_event_of(b, places[all[k]], compact, events[k]) by {
            if k >= d {
                assert(all[k] == from[k - d] + 1);
                assert(places[all[k]] == at[from[k - d]]);
                assert(events[k] == rest[k - d]);
            }
        }
        assert forall|j: int, k: int| 0 <= j < k < all.len() implies #[trigger] all[j]
            < #[trigger] all[k] by {
            assert(all[k] == from[k - d] + 1);
            if j >= d {
                assert(all[j] == from[j - d] + 1);
            }
        }
        assert forall|i: int| 0 <= i < places.len() && !all.contains(i) implies is_object(
            b,
            #[trigger] places[i],
        ) && b[places[i]] != 3 by {
            if i == 0 {
                if entry {
                    assert(all[0] == 0);
                }
            } else {
                if from.contains(i - 1) {
                    let k = choose|k: int| 0 <= k < from.len() && from[k] == i - 1;
                    assert(all[k + d] == i);
                }
                assert(places[i] == at[i - 1]);
            }
        }
        (places, all)
    }
}

/// What the header of a journal has to be: long enough, with the signature `LPKSHHRH`,
/// without flags that are not known, and with a size that fits.
pub open spec fn is_journal(b: Seq<u8>) -> bool {
    &&& b.len() >= 144
    &&& b.take(8) == seq![0x4cu8, 0x50, 0x4b, 0x53, 0x48, 0x48, 0x52, 0x48]
    &&& u32_at(b, 12) < 32
    &&& 144 <= u64_at(b, 88) <= b.len()
}

/// A file is a journal where its header is one, and what is read of the header stands in
/// its bytes.
pub proof fn lemma_header_is_read(b: Seq<u8>)
    ensures
        header_of(b) is Ok <==> is_journal(b),
        header_of(b) matches Ok(h) ==> {
            &&& h.header_size == u64_at(b, 88)
            &&& h.tail_object_offset == u64_at(b, 136)
            &&& h.compact == (b[12] >= 16)
        },
{
    reveal(header_of);
    let signature = seq![0x4cu8, 0x50, 0x4b, 0x53, 0x48, 0x48, 0x52, 0x48];
    if b.len() >= 144 {
        if crate::parsers::journald::has_signature(b) {
            assert(b.take(8) =~= signature);
        } else if b.take(8) == signature {
            assert forall|i: int| 0 <= i < 8 implies b[i] == #[trigger] signature[i] by {
                assert(b.take(8)[i] == b[i]);
            }
            assert(b[0] == signature[0] && b[1] == signature[1] && b[2] == signature[2] && b[3]
                == signature[3] && b[4] == signature[4] && b[5] == signature[5] && b[6]
                == signature[6] && b[7] == signature[7]);
        }
    }
}

/// A journal is read from behind its header to its last object: each entry in it gives
/// one record, or a note why not, and nothing else does.
pub proof fn lemma_journal_is_read(b: Seq<u8>) -> (places: (Seq<int>, Seq<int>))
    requires
        is_journal(b),
        u64_at(b, 136) != 0,
    ensures
        are_events_of(
            b,
            ((u64_at(b, 88) + 7) / 8) * 8,
            u64_at(b, 136),
            b[12] >= 16,
            journal_events(b, header_of(b)->Ok_0),
            places.0,
            places.1,
        ),
{
    reveal(journal_events);
    lemma_header_is_read(b);
    lemma_scan(b, ((u64_at(b, 88) + 7) / 8) * 8, u64_at(b, 136), b[12] >= 16)
}

/// Whether records and notes part events: each record is that of one event and each note
/// is on another, both in the order of the events.
pub open spec fn part_events(
    events: Seq<ScanEvent>,
    records: Seq<RecordView>,
    skips: Seq<SkippedView>,
    good: Seq<int>,
    bad: Seq<int>,
) -> bool {
    &&& good.len() == records.len()
    &&& bad.len() == skips.len()
    &&& good.len() + bad.len() == events.len()
    &&& forall|k: int|
        0 <= k < good.len() ==> 0 <= #[trigger] good[k] < events.len() && events[good[k]]
            == ScanEvent::Record(records[k])
    &&& forall|k: int|
        0 <= k < bad.len() ==> 0 <= #[trigger] bad[k] < events.len() && is_note_on(
            events[bad[k]],
            skips[k],
            bad[k] - k,
        )
    &&& forall|j: int, k: int| 0 <= j < k < good.len() ==> #[trigger] good[j] < #[trigger] good[k]
    &&& forall|j: int, k: int| 0 <= j < k < bad.len() ==> #[trigger] bad[j] < #[trigger] bad[k]
}

/// Whether a note is on an event that is no record, with so many records before it.
pub open spec fn is_note_on(event: ScanEvent, note: SkippedView, recovered: int) -> bool {
    match event {
        ScanEvent::Record(_) => false,
        ScanEvent::BadEntry { offset, reason } => {
            &&& note.location == "entry at offset "@ + prefixed_hex(offset as nat)
            &&& note.reason == reason
        },
        ScanEvent::BadHeader { offset, reason } => {
            &&& note.location == "offset "@ + prefixed_hex(offset as nat)
            &&& note.reason == unreadable_reason(reason, recovered as nat)
        },
    }
}

/// Every event of a scan is a record or is noted, once, in order; the note on an object
/// behind which nothing can be read counts the records before it.
pub proof fn lemma_events_are_parted(events: Seq<ScanEvent>) -> (places: (Seq<int>, Seq<int>))
    ensures
        part_events(events, event_records(events), event_skips(events), places.0, places.1),
    decreases events.len(),
{
    if events.len() == 0 {
        (Seq::empty(), Seq::empty())
    } else {
        let n = events.len() - 1;
        let (good, bad) = lemma_events_are_parted(events.drop_last());
        assert forall|i: int| 0 <= i < n implies events.drop_last()[i] == events[i] by {}
        if events.last() is Record {
            (good.push(n), bad)
        } else {
            (good, bad.push(n))
        }
    }
}

} // verus!
