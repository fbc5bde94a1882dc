//! What decoding says of messages that are put one behind the other.

use vstd::prelude::*;

use crate::bytes::{u32_at, u64_at};
use crate::json::{
    has_key, key_index, lemma_first_place, lemma_key_index, with_member, JsonView,
};
use crate::parsers::biome::protobuf::{
    accumulated, fields_from, lemma_fields_work, lemma_value_next, lemma_varint_stop, lemma_work_is_bounded, message,
    message_object, value_at, varint, varint_stop, varint_value, Decoded, DecodedValue,
    MAX_DECODE_WORK, MAX_FIELD_NUMBER,
};
use crate::text::dec;

verus! {

type Fields = Seq<(Seq<char>, JsonView)>;

type Floats = Seq<(u64, Seq<char>)>;

/// The occurrences of a field of a decoded message.
pub open spec fn occurrences(decoded: JsonView, key: Seq<char>) -> Seq<JsonView> {
    match decoded.get(key) {
        None => seq![],
        Some(JsonView::Array(items)) => items,
        Some(value) => seq![value],
    }
}

/// What the bytes of a message decode to.
pub open spec fn decoded(b: Seq<u8>, floats: Seq<(u64, Seq<char>)>) -> JsonView {
    message_object(message(b, 0, MAX_DECODE_WORK as nat, floats))
}

/// Whether a message was decoded to its end.
pub open spec fn is_whole(decoded: JsonView) -> bool {
    decoded.get("_decode_error"@) is None
}

/// How much work it is to decode a message.
pub open spec fn work(b: Seq<u8>, floats: Seq<(u64, Seq<char>)>) -> int {
    MAX_DECODE_WORK - message(b, 0, MAX_DECODE_WORK as nat, floats).budget
}

spec fn occ(fields: Fields, key: Seq<char>) -> Seq<JsonView> {
    occurrences(JsonView::Object(fields), key)
}

/// A list among fields holds the occurrences of one that occurs more than once.
spec fn lists_are_long(fields: Fields) -> bool {
    forall|i: int|
        0 <= i < fields.len() ==> match (#[trigger] fields[i]).1 {
            JsonView::Array(items) => items.len() >= 2,
            _ => true,
        }
}

proof fn lemma_accumulate(fields: Fields, key: Seq<char>, value: JsonView)
    requires
        lists_are_long(fields),
        !(value is Array),
    ensures
        lists_are_long(accumulated(fields, key, value)),
        occ(accumulated(fields, key, value), key) == occ(fields, key).push(value),
        forall|k: Seq<char>| k != key ==> #[trigger] occ(accumulated(fields, key, value), k) == occ(
            fields,
            k,
        ),
{
    let more = accumulated(fields, key, value);
    let at = key_index(fields, key);
    lemma_key_index(fields, key);
    lemma_first_place(more, key, at);
    if has_key(fields, key) {
        assert(lists_are_long(more)) by {
            assert forall|i: int| 0 <= i < more.len() implies match (#[trigger] more[i]).1 {
                JsonView::Array(items) => items.len() >= 2,
                _ => true,
            } by {
                if i != at {
                    assert(more[i] == fields[i]);
                } else {
                    assert(fields[at].1 matches JsonView::Array(items) ==> items.len() >= 2);
                }
            }
        }
    } else {
        assert forall|i: int| 0 <= i < more.len() implies match (#[trigger] more[i]).1 {
            JsonView::Array(items) => items.len() >= 2,
            _ => true,
        } by {
            if i < fields.len() {
                assert(more[i] == fields[i]);
            }
        }
    }
    assert(occ(more, key) =~= occ(fields, key).push(value));
    assert forall|k: Seq<char>| k != key implies #[trigger] occ(more, k) == occ(fields, k) by {
        lemma_key_index(fields, k);
        let j = key_index(fields, k);
        if has_key(fields, k) {
            assert(more[j] == fields[j]);
            assert forall|i: int| 0 <= i < j implies (#[trigger] more[i]).0 != k by {
                if i != at {
                    assert(more[i] == fields[i]);
                }
            }
            lemma_first_place(more, k, j);
        } else {
            assert forall|i: int| 0 <= i < more.len() implies (#[trigger] more[i]).0 != k by {
                if i < fields.len() && i != at {
                    assert(more[i] == fields[i]);
                }
            }
            lemma_first_place(more, k, more.len() as int);
        }
    }
}

proof fn lemma_value_is_no_list(
    wire: nat,
    b: Seq<u8>,
    pos: int,
    depth: nat,
    budget: nat,
    floats: Floats,
)
    ensures
        value_at(wire, b, pos, depth, budget, floats) matches Some(v) ==> !(v.value is Array),
{
}

proof fn lemma_fields_keep_lists(
    b: Seq<u8>,
    pos: int,
    depth: nat,
    budget: nat,
    fields: Fields,
    floats: Floats,
)
    requires
        lists_are_long(fields),
    ensures
        lists_are_long(fields_from(b, pos, depth, budget, fields, floats).fields),
    decreases b.len() - pos,
{
    if depth < 32 && 0 <= pos < b.len() && budget > 0 {
        let left = (budget - 1) as nat;
        if let Some(tag) = varint(b, pos) {
            let number = (tag / 8) as nat;
            let wire = (tag % 8) as nat;
            let start = varint_stop(b, pos, 0);
            if number != 0 && number < MAX_FIELD_NUMBER {
                if let Some(v) = value_at(wire, b, start, depth, left, floats) {
                    if pos < v.next <= b.len() {
                        lemma_value_is_no_list(wire, b, start, depth, left, floats);
                        lemma_accumulate(fields, dec(number), v.value);
                        lemma_fields_keep_lists(
                            b,
                            v.next,
                            depth,
                            v.budget,
                            accumulated(fields, dec(number), v.value),
                            floats,
                        );
                    }
                }
            }
        }
    }
}

proof fn lemma_varint_in_front(a: Seq<u8>, b: Seq<u8>, pos: int, k: int)
    requires
        0 <= pos,
        varint_value(a, pos, k) is Some,
    ensures
        varint_value(a + b, pos, k) == varint_value(a, pos, k),
        varint_stop(a + b, pos, k) == varint_stop(a, pos, k),
    decreases a.len() - pos,
{
    assert((a + b)[pos] == a[pos]);
    if a[pos] >= 128 {
        lemma_varint_in_front(a, b, pos + 1, k + 1);
    }
}

proof fn lemma_varint_behind(a: Seq<u8>, b: Seq<u8>, pos: int, k: int)
    requires
        0 <= pos,
    ensures
        varint_value(a + b, a.len() + pos, k) == varint_value(b, pos, k),
        varint_stop(a + b, a.len() + pos, k) == a.len() + varint_stop(b, pos, k),
    decreases b.len() - pos,
{
    if k < 10 && pos < b.len() {
        assert((a + b)[a.len() + pos] == b[pos]);
        if b[pos] >= 128 {
            lemma_varint_behind(a, b, pos + 1, k + 1);
        }
    }
}

proof fn lemma_word_behind(a: Seq<u8>, b: Seq<u8>, pos: int)
    requires
        0 <= pos,
        pos + 4 <= b.len(),
    ensures
        u32_at(a + b, a.len() + pos) == u32_at(b, pos),
{
}

proof fn lemma_value_in_front(
    wire: nat,
    a: Seq<u8>,
    b: Seq<u8>,
    pos: int,
    depth: nat,
    budget: nat,
    floats: Floats,
)
    requires
        0 <= pos,
        value_at(wire, a, pos, depth, budget, floats) is Some,
    ensures
        value_at(wire, a + b, pos, depth, budget, floats) == value_at(
            wire,
            a,
            pos,
            depth,
            budget,
            floats,
        ),
{
    if wire == 0 || wire == 2 {
        lemma_varint_in_front(a, b, pos, 0);
        lemma_varint_stop(a, pos, 0);
    }
    if wire == 1 {
        assert(u64_at(a + b, pos) == u64_at(a, pos));
    } else if wire == 5 {
        assert(u32_at(a + b, pos) == u32_at(a, pos));
    } else if wire == 2 {
        let len = varint(a, pos)->0;
        let start = varint_stop(a, pos, 0);
        assert((a + b).subrange(start, start + len) =~= a.subrange(start, start + len));
    }
}

proof fn lemma_value_behind(
    wire: nat,
    a: Seq<u8>,
    b: Seq<u8>,
    pos: int,
    depth: nat,
    budget: nat,
    floats: Floats,
)
    requires
        0 <= pos,
    ensures
        value_at(wire, a + b, a.len() + pos, depth, budget, floats) == (match value_at(
            wire,
            b,
            pos,
            depth,
            budget,
            floats,
        ) {
            Some(v) => Some(
                DecodedValue { value: v.value, next: a.len() + v.next, budget: v.budget },
            ),
            None => None,
        }),
{
    if wire == 0 {
        lemma_varint_behind(a, b, pos, 0);
    } else if wire == 1 {
        if pos + 8 <= b.len() {
            lemma_word_behind(a, b, pos);
            lemma_word_behind(a, b, pos + 4);
        }
    } else if wire == 5 {
        if pos + 4 <= b.len() {
            lemma_word_behind(a, b, pos);
        }
    } else if wire == 2 {
        lemma_varint_behind(a, b, pos, 0);
        lemma_varint_stop(b, pos, 0);
        if let Some(len) = varint(b, pos) {
            let start = varint_stop(b, pos, 0);
            if start + len <= b.len() {
                assert((a + b).subrange(a.len() + start, a.len() + start + len) =~= b.subrange(
                    start,
                    start + len,
                ));
            }
        }
    }
}

/// Fields that end where another message begins are read as if it were not there.
proof fn lemma_fields_in_front(
    a: Seq<u8>,
    b: Seq<u8>,
    pos: int,
    depth: nat,
    budget: nat,
    fields: Fields,
    floats: Floats,
)
    requires
        0 <= pos <= a.len(),
        depth < 32,
        fields_from(a, pos, depth, budget, fields, floats).error is None,
    ensures
        ({
            let d = fields_from(a, pos, depth, budget, fields, floats);
            fields_from(a + b, pos, depth, budget, fields, floats) == fields_from(
                a + b,
                a.len() as int,
                depth,
                d.budget,
                d.fields,
                floats,
            )
        }),
    decreases a.len() - pos,
{
    if pos < a.len() {
        let left = (budget - 1) as nat;
        let tag = varint(a, pos)->0;
        let number = (tag / 8) as nat;
        let wire = (tag % 8) as nat;
        let start = varint_stop(a, pos, 0);
        lemma_varint_in_front(a, b, pos, 0);
        lemma_varint_stop(a, pos, 0);
        lemma_value_next(wire, a, start, depth, left, floats);
        lemma_value_in_front(wire, a, b, start, depth, left, floats);
        let v = value_at(wire, a, start, depth, left, floats)->0;
        lemma_fields_in_front(
            a,
            b,
            v.next,
            depth,
            v.budget,
            accumulated(fields, dec(number), v.value),
            floats,
        );
    }
}

/// Fields behind another message are read as if they stood alone.
proof fn lemma_fields_behind(
    a: Seq<u8>,
    b: Seq<u8>,
    pos: int,
    depth: nat,
    budget: nat,
    first: Fields,
    both: Fields,
    second: Fields,
    floats: Floats,
)
    requires
        0 <= pos <= b.len(),
        depth < 32,
        lists_are_long(both),
        lists_are_long(second),
        forall|k: Seq<char>| #[trigger] occ(both, k) == occ(first, k) + occ(second, k),
        fields_from(b, pos, depth, budget, second, floats).error is None,
    ensures
        ({
            let alone = fields_from(b, pos, depth, budget, second, floats);
            let d = fields_from(a + b, a.len() + pos, depth, budget, both, floats);
            &&& d.error is None
            &&& d.budget == alone.budget
            &&& forall|k: Seq<char>| #[trigger]
                occ(d.fields, k) == occ(first, k) + occ(alone.fields, k)
        }),
    decreases b.len() - pos,
{
    if pos < b.len() {
        let left = (budget - 1) as nat;
        let tag = varint(b, pos)->0;
        let number = (tag / 8) as nat;
        let wire = (tag % 8) as nat;
        let start = varint_stop(b, pos, 0);
        lemma_varint_behind(a, b, pos, 0);
        lemma_varint_stop(b, pos, 0);
        lemma_value_next(wire, b, start, depth, left, floats);
        lemma_value_behind(wire, a, b, start, depth, left, floats);
        lemma_value_is_no_list(wire, b, start, depth, left, floats);
        let v = value_at(wire, b, start, depth, left, floats)->0;
        let key = dec(number);
        let more = accumulated(both, key, v.value);
        let more_second = accumulated(second, key, v.value);
        lemma_accumulate(both, key, v.value);
        lemma_accumulate(second, key, v.value);
        assert forall|k: Seq<char>| #[trigger] occ(more, k) == occ(first, k) + occ(
            more_second,
            k,
        ) by {
            assert(occ(both, k) == occ(first, k) + occ(second, k));
            if k == key {
                assert((occ(first, k) + occ(second, k)).push(v.value) =~= occ(first, k) + occ(
                    second,
                    k,
                ).push(v.value));
            } else {
                assert(occ(more, k) == occ(both, k));
                assert(occ(more_second, k) == occ(second, k));
            }
        }
        lemma_fields_behind(a, b, v.next, depth, v.budget, first, more, more_second, floats);
    }
}

/// Work that is left over makes no difference.
proof fn lemma_value_with_other_budget(
    wire: nat,
    b: Seq<u8>,
    pos: int,
    depth: nat,
    budget: nat,
    other: nat,
    floats: Floats,
)
    requires
        value_at(wire, b, pos, depth, budget, floats) matches Some(v) ==> v.budget > 0 && other
            - budget + v.budget > 0,
    ensures
        value_at(wire, b, pos, depth, other, floats) == (match value_at(
            wire,
            b,
            pos,
            depth,
            budget,
            floats,
        ) {
            Some(v) => Some(
                DecodedValue {
                    value: v.value,
                    next: v.next,
                    budget: (other - budget + v.budget) as nat,
                },
            ),
            None => None,
        }),
    decreases 32 - depth, b.len() - pos, 0int,
{
    if wire == 2 {
        if let Some(len) = varint(b, pos) {
            let start = varint_stop(b, pos, 0);
            if start + len <= b.len() {
                let raw = b.subrange(start, start + len);
                if raw.len() > 0 && depth < 32 {
                    if budget > 0 {
                        lemma_work_is_bounded(raw, depth + 1, budget, floats);
                        lemma_message_with_other_budget(raw, depth + 1, budget, other, floats);
                    }
                }
            }
        }
    }
}

proof fn lemma_fields_with_other_budget(
    b: Seq<u8>,
    pos: int,
    depth: nat,
    budget: nat,
    other: nat,
    fields: Fields,
    floats: Floats,
)
    requires
        ({
            let d = fields_from(b, pos, depth, budget, fields, floats);
            d.budget > 0 && other - budget + d.budget > 0
        }),
    ensures
        ({
            let d = fields_from(b, pos, depth, budget, fields, floats);
            fields_from(b, pos, depth, other, fields, floats) == (Decoded {
                fields: d.fields,
                error: d.error,
                budget: (other - budget + d.budget) as nat,
            })
        }),
    decreases 32 - depth, b.len() - pos, 1int,
{
    if depth < 32 && 0 <= pos < b.len() && budget > 0 {
        lemma_fields_work(b, pos, depth, budget, fields, floats);
        let left = (budget - 1) as nat;
        let other_left = (other - 1) as nat;
        if let Some(tag) = varint(b, pos) {
            let number = (tag / 8) as nat;
            let wire = (tag % 8) as nat;
            let start = varint_stop(b, pos, 0);
            lemma_varint_stop(b, pos, 0);
            if number != 0 && number < MAX_FIELD_NUMBER {
                lemma_value_next(wire, b, start, depth, left, floats);
                if let Some(v) = value_at(wire, b, start, depth, left, floats) {
                    let more = accumulated(fields, dec(number), v.value);
                    lemma_fields_work(b, v.next, depth, v.budget, more, floats);
                    lemma_value_with_other_budget(wire, b, start, depth, left, other_left, floats);
                    lemma_fields_with_other_budget(
                        b,
                        v.next,
                        depth,
                        v.budget,
                        (other_left - left + v.budget) as nat,
                        more,
                        floats,
                    );
                } else {
                    lemma_value_with_other_budget(wire, b, start, depth, left, other_left, floats);
                }
            }
        }
    }
}

proof fn lemma_message_with_other_budget(
    b: Seq<u8>,
    depth: nat,
    budget: nat,
    other: nat,
    floats: Floats,
)
    requires
        ({
            let d = message(b, depth, budget, floats);
            d.budget > 0 && other - budget + d.budget > 0
        }),
    ensures
        ({
            let d = message(b, depth, budget, floats);
            message(b, depth, other, floats) == (Decoded {
                fields: d.fields,
                error: d.error,
                budget: (other - budget + d.budget) as nat,
            })
        }),
    decreases 32 - depth, b.len() + 1, 0int,
{
    if depth < 32 {
        lemma_fields_with_other_budget(b, 0, depth, budget, other, seq![], floats);
    }
}

/// The names of fields are numbers.
spec fn named_by_numbers(fields: Fields) -> bool {
    forall|i: int|
        0 <= i < fields.len() ==> (#[trigger] fields[i]).0.len() > 0 && fields[i].0[0] != '_'
}

proof fn lemma_number_is_no_word(n: nat)
    ensures
        dec(n).len() > 0,
        dec(n)[0] != '_',
    decreases n,
{
    if n >= 10 {
        lemma_number_is_no_word(n / 10);
        assert(dec(n)[0] == dec(n / 10)[0]);
    }
}

proof fn lemma_fields_keep_names(
    b: Seq<u8>,
    pos: int,
    depth: nat,
    budget: nat,
    fields: Fields,
    floats: Floats,
)
    requires
        named_by_numbers(fields),
    ensures
        named_by_numbers(fields_from(b, pos, depth, budget, fields, floats).fields),
    decreases b.len() - pos,
{
    if depth < 32 && 0 <= pos < b.len() && budget > 0 {
        let left = (budget - 1) as nat;
        if let Some(tag) = varint(b, pos) {
            let number = (tag / 8) as nat;
            let wire = (tag % 8) as nat;
            let start = varint_stop(b, pos, 0);
            if number != 0 && number < MAX_FIELD_NUMBER {
                if let Some(v) = value_at(wire, b, start, depth, left, floats) {
                    if pos < v.next <= b.len() {
                        let key = dec(number);
                        let more = accumulated(fields, key, v.value);
                        lemma_number_is_no_word(number);
                        lemma_key_index(fields, key);
                        assert forall|i: int| 0 <= i < more.len() implies (
                        #[trigger] more[i]).0.len() > 0 && more[i].0[0] != '_' by {
                            if i < fields.len() && i != key_index(fields, key) {
                                assert(more[i] == fields[i]);
                            }
                        }
                        lemma_fields_keep_names(b, v.next, depth, v.budget, more, floats);
                    }
                }
            }
        }
    }
}

/// A message that was decoded to its end says so.
proof fn lemma_whole(b: Seq<u8>, floats: Floats)
    ensures
        is_whole(decoded(b, floats)) == (message(b, 0, MAX_DECODE_WORK as nat, floats).error
            is None),
{
    let max = MAX_DECODE_WORK as nat;
    let d = message(b, 0, max, floats);
    let key = "_decode_error"@;
    reveal_strlit("_decode_error");
    assert(key[0] == '_');
    let none: Fields = seq![];
    assert(named_by_numbers(none));
    lemma_fields_keep_names(b, 0, 0, max, none, floats);
    lemma_key_index(d.fields, key);
    match d.error {
        Some(e) => {
            let all = with_member(d.fields, key, JsonView::Text(e));
            lemma_first_place(all, key, key_index(d.fields, key));
        },
        None => {
            if has_key(d.fields, key) {
                assert(d.fields[key_index(d.fields, key)].0[0] != '_');
            }
        },
    }
}

proof fn lemma_value_work_in_bytes(
    wire: nat,
    b: Seq<u8>,
    pos: int,
    depth: nat,
    budget: nat,
    floats: Floats,
)
    requires
        0 <= pos,
        depth < 32,
    ensures
        value_at(wire, b, pos, depth, budget, floats) matches Some(v) ==> budget - v.budget <= (31
            - depth) * (v.next - pos),
    decreases 32 - depth, b.len() - pos, 0int,
{
    lemma_value_next(wire, b, pos, depth, budget, floats);
    if let Some(v) = value_at(wire, b, pos, depth, budget, floats) {
        let most = 31 - depth;
        let taken = v.next - pos;
        assert(0 <= most * taken) by (nonlinear_arith)
            requires
                0 <= most,
                0 <= taken,
        ;
        if wire == 2 {
            let len = varint(b, pos)->0;
            let start = varint_stop(b, pos, 0);
            lemma_varint_stop(b, pos, 0);
            let raw = b.subrange(start, start + len);
            if raw.len() > 0 && budget > 0 && depth + 1 < 32 {
                lemma_message_work_in_bytes(raw, depth + 1, budget, floats);
                assert(most * raw.len() <= most * taken) by (nonlinear_arith)
                    requires
                        0 <= most,
                        raw.len() <= taken,
                ;
            }
        }
    }
}

proof fn lemma_fields_work_in_bytes(
    b: Seq<u8>,
    pos: int,
    depth: nat,
    budget: nat,
    fields: Fields,
    floats: Floats,
)
    requires
        0 <= pos <= b.len(),
        depth < 32,
    ensures
        budget - fields_from(b, pos, depth, budget, fields, floats).budget <= (32 - depth) * (
        b.len() - pos),
    decreases 32 - depth, b.len() - pos, 1int,
{
    let most = 32 - depth;
    if pos < b.len() {
        assert(1 <= most * (b.len() - pos)) by (nonlinear_arith)
            requires
                1 <= most,
                1 <= b.len() - pos,
        ;
    } else {
        assert(most * (b.len() - pos) == 0) by (nonlinear_arith)
            requires
                b.len() - pos == 0,
        ;
    }
    if pos < b.len() && budget > 0 {
        let left = (budget - 1) as nat;
        if let Some(tag) = varint(b, pos) {
            let number = (tag / 8) as nat;
            let wire = (tag % 8) as nat;
            let start = varint_stop(b, pos, 0);
            lemma_varint_stop(b, pos, 0);
            if number != 0 && number < MAX_FIELD_NUMBER {
                lemma_value_next(wire, b, start, depth, left, floats);
                lemma_value_work_in_bytes(wire, b, start, depth, left, floats);
                if let Some(v) = value_at(wire, b, start, depth, left, floats) {
                    let more = accumulated(fields, dec(number), v.value);
                    lemma_fields_work_in_bytes(b, v.next, depth, v.budget, more, floats);
                    let (len, next) = (b.len() as int, v.next);
                    assert(1 + (most - 1) * (next - start) + most * (len - next) <= most * (len
                        - pos)) by (nonlinear_arith)
                        requires
                            1 <= most,
                            pos < start < next <= len,
                    ;
                }
            }
        }
    }
}

proof fn lemma_message_work_in_bytes(b: Seq<u8>, depth: nat, budget: nat, floats: Floats)
    requires
        depth < 32,
    ensures
        budget - message(b, depth, budget, floats).budget <= (32 - depth) * b.len(),
    decreases 32 - depth, b.len() + 1, 0int,
{
    lemma_fields_work_in_bytes(b, 0, depth, budget, seq![], floats);
}

/// A message is what its parts are together: two messages, one behind the other, decode
/// to the fields of both, and a field of both has the occurrences in the first before
/// those in the second. That holds of messages which are decoded to their ends, as long as
/// decoding them takes less work together than may be done.
pub proof fn lemma_messages_join(a: Seq<u8>, b: Seq<u8>, floats: Seq<(u64, Seq<char>)>)
    requires
        is_whole(decoded(a, floats)),
        is_whole(decoded(b, floats)),
        work(a, floats) + work(b, floats) < MAX_DECODE_WORK,
    ensures
        is_whole(decoded(a + b, floats)),
        work(a + b, floats) == work(a, floats) + work(b, floats),
        forall|key: Seq<char>| #[trigger]
            occurrences(decoded(a + b, floats), key) == occurrences(decoded(a, floats), key)
                + occurrences(decoded(b, floats), key),
{
    let max = MAX_DECODE_WORK as nat;
    let first = message(a, 0, max, floats);
    let second = message(b, 0, max, floats);
    let both = message(a + b, 0, max, floats);
    lemma_whole(a, floats);
    lemma_whole(b, floats);
    lemma_whole(a + b, floats);
    lemma_work_is_bounded(a, 0, max, floats);
    lemma_work_is_bounded(b, 0, max, floats);
    lemma_message_with_other_budget(b, 0, max, first.budget, floats);
    lemma_fields_in_front(a, b, 0, 0, max, seq![], floats);
    let none: Fields = seq![];
    assert(lists_are_long(none));
    lemma_fields_keep_lists(a, 0, 0, max, none, floats);
    assert forall|k: Seq<char>| #[trigger] occ(first.fields, k) == occ(first.fields, k) + occ(
        none,
        k,
    ) by {
        assert(occ(none, k) =~= seq![]);
        assert(occ(first.fields, k) + occ(none, k) =~= occ(first.fields, k));
    }
    lemma_fields_behind(a, b, 0, 0, first.budget, first.fields, first.fields, none, floats);
    assert forall|key: Seq<char>| #[trigger]
        occurrences(decoded(a + b, floats), key) == occurrences(decoded(a, floats), key)
            + occurrences(decoded(b, floats), key) by {
        assert(occ(both.fields, key) == occ(first.fields, key) + occ(second.fields, key));
    }
}

/// Decoding a message takes at most as much work as it has bytes, for each level of
/// messages inside messages.
pub proof fn lemma_work_by_bytes(b: Seq<u8>, floats: Seq<(u64, Seq<char>)>)
    ensures
        work(b, floats) <= 32 * b.len(),
{
    lemma_message_work_in_bytes(b, 0, MAX_DECODE_WORK as nat, floats);
}

/// Short messages, one behind the other, decode to the fields of both.
pub proof fn lemma_short_messages_join(a: Seq<u8>, b: Seq<u8>, floats: Seq<(u64, Seq<char>)>)
    requires
        is_whole(decoded(a, floats)),
        is_whole(decoded(b, floats)),
        32 * (a.len() + b.len()) < MAX_DECODE_WORK,
    ensures
        is_whole(decoded(a + b, floats)),
        forall|key: Seq<char>| #[trigger]
            occurrences(decoded(a + b, floats), key) == occurrences(decoded(a, floats), key)
                + occurrences(decoded(b, floats), key),
{
    lemma_work_by_bytes(a, floats);
    lemma_work_by_bytes(b, floats);
    lemma_messages_join(a, b, floats);
}

proof fn lemma_fields_grow(
    b: Seq<u8>,
    pos: int,
    depth: nat,
    budget: nat,
    fields: Fields,
    floats: Floats,
)
    requires
        lists_are_long(fields),
    ensures
        forall|k: Seq<char>|
            occ(fields, k).is_prefix_of(
                #[trigger] occ(fields_from(b, pos, depth, budget, fields, floats).fields, k),
            ),
    decreases b.len() - pos,
{
    let d = fields_from(b, pos, depth, budget, fields, floats);
    if depth < 32 && 0 <= pos < b.len() && budget > 0 {
        let left = (budget - 1) as nat;
        if let Some(tag) = varint(b, pos) {
            let number = (tag / 8) as nat;
            let wire = (tag % 8) as nat;
            let start = varint_stop(b, pos, 0);
            if number != 0 && number < MAX_FIELD_NUMBER {
                if let Some(v) = value_at(wire, b, start, depth, left, floats) {
                    if pos < v.next <= b.len() {
                        let key = dec(number);
                        let more = accumulated(fields, key, v.value);
                        lemma_value_is_no_list(wire, b, start, depth, left, floats);
                        lemma_accumulate(fields, key, v.value);
                        lemma_fields_grow(b, v.next, depth, v.budget, more, floats);
                        assert forall|k: Seq<char>|
                            occ(fields, k).is_prefix_of(#[trigger] occ(d.fields, k)) by {
                            assert(occ(more, k).is_prefix_of(occ(d.fields, k)));
                            if k == key {
                                assert(occ(more, k) == occ(fields, k).push(v.value));
                            } else {
                                assert(occ(more, k) == occ(fields, k));
                            }
                            assert(occ(fields, k) =~= occ(d.fields, k).subrange(
                                0,
                                occ(fields, k).len() as int,
                            )) by {
                                assert forall|i: int|
                                    0 <= i < occ(fields, k).len() implies occ(fields, k)[i] == occ(
                                    d.fields,
                                    k,
                                )[i] by {
                                    assert(occ(more, k)[i] == occ(d.fields, k).subrange(
                                        0,
                                        occ(more, k).len() as int,
                                    )[i]);
                                }
                            }
                        }
                    }
                }
            }
        }
    }
}

/// What stopped the decoding stands beside the fields.
proof fn lemma_error_beside_fields(b: Seq<u8>, floats: Floats, key: Seq<char>)
    requires
        key != "_decode_error"@,
    ensures
        occurrences(decoded(b, floats), key) == occ(
            message(b, 0, MAX_DECODE_WORK as nat, floats).fields,
            key,
        ),
{
    let max = MAX_DECODE_WORK as nat;
    let d = message(b, 0, max, floats);
    if let Some(e) = d.error {
        let err = "_decode_error"@;
        reveal_strlit("_decode_error");
        assert(err[0] == '_');
        let none: Fields = seq![];
        assert(named_by_numbers(none));
        lemma_fields_keep_names(b, 0, 0, max, none, floats);
        lemma_key_index(d.fields, err);
        assert(!has_key(d.fields, err)) by {
            if has_key(d.fields, err) {
                assert(d.fields[key_index(d.fields, err)].0[0] != '_');
            }
        }
        let all = d.fields.push((err, JsonView::Text(e)));
        lemma_key_index(d.fields, key);
        if has_key(d.fields, key) {
            lemma_first_place(all, key, key_index(d.fields, key));
        } else {
            lemma_first_place(all, key, all.len() as int);
        }
    }
}

/// Fields that were decoded are kept whatever stands behind them: the occurrences of a
/// field in a message come first among those in the message with more bytes behind it,
/// also where these cannot be decoded.
pub proof fn lemma_decoded_fields_are_kept(
    a: Seq<u8>,
    b: Seq<u8>,
    floats: Seq<(u64, Seq<char>)>,
    key: Seq<char>,
)
    requires
        is_whole(decoded(a, floats)),
        key != "_decode_error"@,
    ensures
        occurrences(decoded(a, floats), key).is_prefix_of(occurrences(decoded(a + b, floats), key)),
{
    let max = MAX_DECODE_WORK as nat;
    let first = message(a, 0, max, floats);
    let none: Fields = seq![];
    lemma_whole(a, floats);
    lemma_fields_in_front(a, b, 0, 0, max, none, floats);
    assert(lists_are_long(none));
    lemma_fields_keep_lists(a, 0, 0, max, none, floats);
    lemma_fields_grow(a + b, a.len() as int, 0, first.budget, first.fields, floats);
    lemma_error_beside_fields(a, floats, key);
    lemma_error_beside_fields(a + b, floats, key);
    assert(occ(first.fields, key).is_prefix_of(
        occ(message(a + b, 0, max, floats).fields, key),
    ));
}

/// A field of a message that was decoded to its end is its one occurrence, or the list
/// of its occurrences where it has more.
pub proof fn lemma_field_is_its_occurrences(
    b: Seq<u8>,
    floats: Seq<(u64, Seq<char>)>,
    key: Seq<char>,
)
    requires
        is_whole(decoded(b, floats)),
    ensures
        ({
            let all = occurrences(decoded(b, floats), key);
            decoded(b, floats).get(key) == (if all.len() == 0 {
                None
            } else if all.len() == 1 {
                Some(all[0])
            } else {
                Some(JsonView::Array(all))
            })
        }),
{
    let max = MAX_DECODE_WORK as nat;
    let none: Fields = seq![];
    assert(lists_are_long(none));
    lemma_whole(b, floats);
    lemma_fields_keep_lists(b, 0, 0, max, none, floats);
    let fields = message(b, 0, max, floats).fields;
    lemma_key_index(fields, key);
    if has_key(fields, key) {
        let value = fields[key_index(fields, key)].1;
        assert(value matches JsonView::Array(items) ==> items.len() >= 2);
    }
}

} // verus!
