//! How messages are written, and that they are read as they were written.

use vstd::prelude::*;
use vstd::utf8::{
    decode_utf8, encode_utf8, is_ascii_chars, is_ascii_chars_encode_utf8, valid_utf8,
};

use crate::bytes::{u32_at, u64_at};
use crate::double::{
    double_units, float_text, is_finite_double, is_finite_single, lemma_widening_is_exact,
    single_units,
};
use crate::json::{lemma_first_place, lemma_key_index, lemma_stored_member, JsonView};
use crate::order::{comes_before, lemma_stable_order, reordered, stable_order};
use crate::parsers::biome::concatenation::decoded;
use crate::parsers::biome::protobuf::{
    accumulated, bytes_summary, field_summary_text, fields_from, has_numbered, length_delimited,
    message, numbered_parts, part_keys, payload_summary, scalar_summaries, scalar_summary, value_at,
    varint, varint_stop, varint_value, Decoded, DecodedValue, MAX_DECODE_WORK,
};
use crate::selection::{is_selection, lemma_selection_grows};
use crate::text_laws::{is_hex_digit_of, lemma_bytes_in_hex};
use crate::text::{dec, debug_quoted, hex, joined, parsed_u64};

verus! {

/// How a number is written with a variable number of bytes: seven bits in each, the lowest
/// first, and the highest bit set in all but the last.
pub open spec fn varint_bytes(n: nat) -> Seq<u8>
    decreases n,
{
    if n < 128 {
        seq![n as u8]
    } else {
        seq![(n % 128 + 128) as u8] + varint_bytes(n / 128)
    }
}

/// Whether bytes stand in a buffer at a place.
pub open spec fn stands_at(b: Seq<u8>, pos: int, what: Seq<u8>) -> bool {
    &&& 0 <= pos
    &&& pos + what.len() <= b.len()
    &&& b.subrange(pos, pos + what.len()) == what
}

spec fn power_of_128(m: nat) -> nat
    decreases m,
{
    if m == 0 {
        1
    } else {
        128 * power_of_128((m - 1) as nat)
    }
}

proof fn lemma_varint_len(n: nat, m: nat)
    requires
        m > 0,
        n < power_of_128(m),
    ensures
        varint_bytes(n).len() <= m,
    decreases n,
{
    if n >= 128 {
        if m == 1 {
            assert(power_of_128(1) == 128 * power_of_128(0));
            assert(false);
        }
        lemma_varint_len(n / 128, (m - 1) as nat);
    }
}

proof fn lemma_varint_at(b: Seq<u8>, pos: int, k: int, n: nat)
    requires
        stands_at(b, pos, varint_bytes(n)),
        0 <= k,
        k + varint_bytes(n).len() <= 10,
    ensures
        varint_value(b, pos, k) == Some(n),
        varint_stop(b, pos, k) == pos + varint_bytes(n).len(),
    decreases n,
{
    let w = varint_bytes(n);
    assert(b.subrange(pos, pos + w.len())[0] == b[pos]);
    assert(w[0] == b[pos]);
    if n >= 128 {
        let rest = varint_bytes(n / 128);
        assert(w =~= seq![(n % 128 + 128) as u8] + rest);
        assert(b.subrange(pos + 1, pos + 1 + rest.len()) =~= w.skip(1));
        assert(w.skip(1) =~= rest);
        lemma_varint_at(b, pos + 1, k + 1, n / 128);
        assert(b[pos] == n % 128 + 128);
    }
}

/// A number of 64 bits is read as it was written, and reading stops behind it.
pub proof fn lemma_varint_is_read(b: Seq<u8>, pos: int, n: u64)
    requires
        stands_at(b, pos, varint_bytes(n as nat)),
    ensures
        varint(b, pos) == Some(n),
        varint_stop(b, pos, 0) == pos + varint_bytes(n as nat).len(),
{
    reveal_with_fuel(power_of_128, 11);
    assert(power_of_128(10) == 0x40_0000_0000_0000_0000);
    lemma_varint_len(n as nat, 10);
    lemma_varint_at(b, pos, 0, n as nat);
}

/// A number is written with at most ten bytes; all but the last have their highest bit set.
pub proof fn lemma_unfinished_number(b: Seq<u8>, pos: int)
    requires
        0 <= pos <= b.len(),
        forall|i: int| pos <= i < b.len() ==> #[trigger] b[i] >= 128,
    ensures
        varint(b, pos) is None,
{
    lemma_unfinished(b, pos, 0);
}

proof fn lemma_unfinished(b: Seq<u8>, pos: int, k: int)
    requires
        0 <= pos <= b.len(),
        forall|i: int| pos <= i < b.len() ==> #[trigger] b[i] >= 128,
    ensures
        varint_value(b, pos, k) is None,
    decreases b.len() - pos,
{
    if k < 10 && pos < b.len() {
        assert(b[pos] >= 128);
        lemma_unfinished(b, pos + 1, k + 1);
    }
}

/// The key of a field: its number and how its value is written.
pub open spec fn key_bytes(number: nat, wire: nat) -> Seq<u8> {
    varint_bytes(8 * number + wire)
}

/// The number of a field.
pub open spec fn is_field_number(number: nat) -> bool {
    0 < number < 0x2000_0000
}

proof fn lemma_one_field(
    number: nat,
    wire: nat,
    body: Seq<u8>,
    floats: Seq<(u64, Seq<char>)>,
    v: DecodedValue,
)
    requires
        is_field_number(number),
        wire < 8,
        value_at(
            wire,
            key_bytes(number, wire) + body,
            key_bytes(number, wire).len() as int,
            0,
            (MAX_DECODE_WORK - 1) as nat,
            floats,
        ) == Some(v),
        v.next == key_bytes(number, wire).len() + body.len(),
    ensures
        decoded(key_bytes(number, wire) + body, floats) == JsonView::Object(
            seq![(dec(number), v.value)],
        ),
{
    let key = key_bytes(number, wire);
    let b = key + body;
    let tag = 8 * number + wire;
    assert(b.subrange(0, 0 + key.len() as int) =~= key);
    lemma_varint_is_read(b, 0, tag as u64);
    assert(tag as u64 / 8 == number);
    assert(tag as u64 % 8 == wire);
    assert(key.len() > 0);
    let none = Seq::<(Seq<char>, JsonView)>::empty();
    assert(accumulated(none, dec(number), v.value) =~= seq![(dec(number), v.value)]);
    let budget = MAX_DECODE_WORK as nat;
    assert(b.len() > 0);
    let all = fields_from(b, 0, 0, budget, none, floats);
    assert(all == fields_from(
        b,
        v.next,
        0,
        v.budget,
        accumulated(none, dec(number), v.value),
        floats,
    ));
    assert(message(b, 0, budget, floats) == all);
}

/// A field with a number is read as the number that was written. It is taken as signed, in
/// two's complement.
pub proof fn lemma_number_is_read(number: nat, n: u64, floats: Seq<(u64, Seq<char>)>)
    requires
        is_field_number(number),
    ensures
        decoded(key_bytes(number, 0) + varint_bytes(n as nat), floats) == JsonView::Object(
            seq![
                (
                    dec(number),
                    if n < 0x8000_0000_0000_0000 {
                        JsonView::Unsigned(n)
                    } else {
                        JsonView::Negative((n - 0x1_0000_0000_0000_0000) as i64)
                    },
                ),
            ],
        ),
{
    let key = key_bytes(number, 0);
    let body = varint_bytes(n as nat);
    let b = key + body;
    let at = key.len() as int;
    assert(b.subrange(at, at + body.len()) =~= body);
    lemma_varint_is_read(b, at, n);
    let v = value_at(0, b, at, 0, (MAX_DECODE_WORK - 1) as nat, floats)->0;
    lemma_one_field(number, 0, body, floats, v);
}

proof fn lemma_bytes_value(number: nat, raw: Seq<u8>, floats: Seq<(u64, Seq<char>)>) -> (v:
    DecodedValue)
    requires
        is_field_number(number),
        raw.len() <= u64::MAX,
    ensures
        value_at(
            2,
            key_bytes(number, 2) + (varint_bytes(raw.len()) + raw),
            key_bytes(number, 2).len() as int,
            0,
            (MAX_DECODE_WORK - 1) as nat,
            floats,
        ) == Some(v),
        v.next == key_bytes(number, 2).len() + (varint_bytes(raw.len()) + raw).len(),
        v.value == length_delimited(
            raw,
            if raw.len() > 0 {
                message(raw, 1, (MAX_DECODE_WORK - 1) as nat, floats)
            } else {
                Decoded { fields: seq![], error: None, budget: (MAX_DECODE_WORK - 1) as nat }
            },
        ),
{
    let key = key_bytes(number, 2);
    let count = varint_bytes(raw.len());
    let body = count + raw;
    let b = key + body;
    let at = key.len() as int;
    assert(b.subrange(at, at + count.len()) =~= count);
    lemma_varint_is_read(b, at, raw.len() as u64);
    let start = at + count.len();
    assert(b.subrange(start, start + raw.len()) =~= raw);
    value_at(2, b, at, 0, (MAX_DECODE_WORK - 1) as nat, floats)->0
}

proof fn lemma_readings(raw: Seq<u8>, inner: Decoded)
    ensures
        length_delimited(raw, inner).get("hex"@) == Some(JsonView::Text(hex(raw))),
        length_delimited(raw, inner).get("utf8"@) == Some(
            if valid_utf8(raw) {
                JsonView::Text(decode_utf8(raw))
            } else {
                JsonView::Null
            },
        ),
        length_delimited(raw, inner).get("nested"@) == Some(
            if inner.fields.len() > 0 && inner.error is None {
                JsonView::Object(inner.fields)
            } else {
                JsonView::Null
            },
        ),
{
    let members = length_delimited(raw, inner)->Object_0;
    reveal_strlit("utf8");
    reveal_strlit("nested");
    reveal_strlit("hex");
    assert("utf8"@.len() == 4);
    assert("nested"@.len() == 6);
    assert("hex"@.len() == 3);
    lemma_first_place(members, "utf8"@, 0);
    lemma_first_place(members, "nested"@, 1);
    lemma_first_place(members, "hex"@, 2);
}

/// A field with bytes is read as the bytes that were written: in hexadecimal, as text where
/// they are UTF-8, and as a message where they are one with fields.
pub proof fn lemma_bytes_are_read(number: nat, raw: Seq<u8>, floats: Seq<(u64, Seq<char>)>)
    requires
        is_field_number(number),
        raw.len() <= u64::MAX,
    ensures
        ({
            let b = key_bytes(number, 2) + (varint_bytes(raw.len()) + raw);
            let inner = message(raw, 1, (MAX_DECODE_WORK - 1) as nat, floats);
            &&& decoded(b, floats) matches JsonView::Object(fields)
            &&& fields.len() == 1
            &&& fields[0].0 == dec(number)
            &&& fields[0].1.get("hex"@) == Some(JsonView::Text(hex(raw)))
            &&& fields[0].1.get("utf8"@) == Some(
                if valid_utf8(raw) {
                    JsonView::Text(decode_utf8(raw))
                } else {
                    JsonView::Null
                },
            )
            &&& fields[0].1.get("nested"@) == Some(
                if raw.len() > 0 && inner.fields.len() > 0 && inner.error is None {
                    JsonView::Object(inner.fields)
                } else {
                    JsonView::Null
                },
            )
        }),
{
    let v = lemma_bytes_value(number, raw, floats);
    lemma_one_field(number, 2, varint_bytes(raw.len()) + raw, floats, v);
    let inner = if raw.len() > 0 {
        message(raw, 1, (MAX_DECODE_WORK - 1) as nat, floats)
    } else {
        Decoded { fields: seq![], error: None, budget: (MAX_DECODE_WORK - 1) as nat }
    };
    lemma_readings(raw, inner);
}

/// A field of eight bytes is read as the double with these bits, and one of four as the
/// double of the same value as the single with these bits; what is not finite is nothing.
pub proof fn lemma_floats_are_read(number: nat, w: Seq<u8>, floats: Seq<(u64, Seq<char>)>)
    requires
        is_field_number(number),
        w.len() == 8 || w.len() == 4,
    ensures
        w.len() == 8 ==> ({
            let bits = u64_at(w, 0) as u64;
            decoded(key_bytes(number, 1) + w, floats) == JsonView::Object(
                seq![
                    (
                        dec(number),
                        if is_finite_double(bits) {
                            JsonView::Float { bits, text: float_text(floats, bits) }
                        } else {
                            JsonView::Null
                        },
                    ),
                ],
            )
        }),
        w.len() == 4 ==> ({
            let bits = u32_at(w, 0) as u32;
            &&& decoded(key_bytes(number, 5) + w, floats) matches JsonView::Object(fields)
            &&& fields.len() == 1
            &&& fields[0].0 == dec(number)
            &&& !is_finite_single(bits) ==> fields[0].1 == JsonView::Null
            &&& is_finite_single(bits) ==> {
                &&& fields[0].1 matches JsonView::Float { bits: d, text }
                &&& double_units(d) == single_units(bits)
                &&& d / 0x8000_0000_0000_0000 == bits / 0x8000_0000
                &&& text == float_text(floats, d)
            }
        }),
{
    let left = (MAX_DECODE_WORK - 1) as nat;
    if w.len() == 8 {
        let key = key_bytes(number, 1);
        let at = key.len() as int;
        let b = key + w;
        assert forall|i: int| 0 <= i < 8 implies b[at + i] == #[trigger] w[i] by {}
        assert(u64_at(b, at) == u64_at(w, 0)) by {
            assert(b[at] == w[0] && b[at + 1] == w[1] && b[at + 2] == w[2] && b[at + 3] == w[3]);
            assert(b[at + 4] == w[4] && b[at + 4 + 1] == w[5] && b[at + 4 + 2] == w[6] && b[at + 4
                + 3] == w[7]);
        }
        let v = value_at(1, b, at, 0, left, floats)->0;
        lemma_one_field(number, 1, w, floats, v);
    } else {
        let key = key_bytes(number, 5);
        let at = key.len() as int;
        let b = key + w;
        assert(u32_at(b, at) == u32_at(w, 0)) by {
            assert(b[at] == w[0] && b[at + 1] == w[1] && b[at + 2] == w[2] && b[at + 3] == w[3]);
        }
        let v = value_at(5, b, at, 0, left, floats)->0;
        lemma_one_field(number, 5, w, floats, v);
        let bits = u32_at(w, 0) as u32;
        if is_finite_single(bits) {
            lemma_widening_is_exact(bits);
        }
    }
}

/// Whether a member of a decoded message is shown in a summary: it is a numbered field that
/// has a text.
pub open spec fn is_shown(member: (Seq<char>, JsonView)) -> bool {
    &&& member.0 != "_decode_error"@
    &&& parsed_u64(member.0) is Some
    &&& field_summary_text(member.1) is Some
}

/// How a field is shown: its number and what it holds.
pub open spec fn shown_text(member: (Seq<char>, JsonView)) -> Seq<char> {
    dec(parsed_u64(member.0)->0 as nat) + ": "@ + field_summary_text(member.1)->0
}

proof fn lemma_shown_parts(members: Seq<(Seq<char>, JsonView)>) -> (from: Seq<int>)
    ensures
        is_selection(members, |m: (Seq<char>, JsonView)| is_shown(m), from),
        from.len() == numbered_parts(members).len(),
        forall|k: int|
            0 <= k < from.len() ==> numbered_parts(members)[k] == (
                parsed_u64(members[#[trigger] from[k]].0)->0,
                shown_text(members[from[k]]),
            ),
    decreases members.len(),
{
    if members.len() == 0 {
        Seq::empty()
    } else {
        let front = members.drop_last();
        let before = lemma_shown_parts(front);
        let keep = |m: (Seq<char>, JsonView)| is_shown(m);
        let from = lemma_selection_grows(members, keep, before);
        assert(members.last() == members[members.len() - 1]);
        assert forall|k: int| 0 <= k < from.len() implies numbered_parts(members)[k] == (
            parsed_u64(members[#[trigger] from[k]].0)->0,
            shown_text(members[from[k]]),
        ) by {
            if k < before.len() {
                assert(from[k] == before[k]);
                assert(front[before[k]] == members[before[k]]);
                assert(numbered_parts(members)[k] == numbered_parts(front)[k]);
            }
        }
        from
    }
}

/// Whether places of members are those of the fields that are shown, all of them and each
/// once, by ascending number.
pub open spec fn are_shown_in_order(members: Seq<(Seq<char>, JsonView)>, order: Seq<int>) -> bool {
    &&& forall|k: int|
        0 <= k < order.len() ==> 0 <= #[trigger] order[k] < members.len() && is_shown(
            members[order[k]],
        )
    &&& forall|i: int|
        0 <= i < members.len() && is_shown(#[trigger] members[i]) ==> order.contains(i)
    &&& forall|j: int, k: int|
        0 <= j < k < order.len() ==> #[trigger] order[j] != #[trigger] order[k] && parsed_u64(
            members[order[j]].0,
        )->0 <= parsed_u64(members[order[k]].0)->0
}

/// The summary of a message shows its fields by ascending number, with bars between them,
/// and behind them why decoding stopped, where it did.
pub proof fn lemma_summary_shows_fields(members: Seq<(Seq<char>, JsonView)>) -> (order: Seq<int>)
    requires
        has_numbered(members),
    ensures
        are_shown_in_order(members, order),
        ({
            let texts = order.map_values(|i: int| shown_text(members[i]));
            let all = match JsonView::Object(members).get("_decode_error"@) {
                Some(JsonView::Text(e)) => texts.push("decode error: "@ + e),
                _ => texts,
            };
            payload_summary(JsonView::Object(members)) == if all.len() == 0 {
                None
            } else {
                Some(joined(all, "  |  "@))
            }
        }),
{
    let from = lemma_shown_parts(members);
    let parts = numbered_parts(members);
    let keys = part_keys(parts);
    let by = stable_order(keys);
    lemma_stable_order(keys);
    let order = by.map_values(|j: int| from[j]);
    assert forall|k: int| 0 <= k < order.len() implies 0 <= #[trigger] order[k] < members.len()
        && is_shown(members[order[k]]) by {
        assert(0 <= by[k] < keys.len());
        assert(order[k] == from[by[k]]);
    }
    assert forall|i: int| 0 <= i < members.len() && is_shown(#[trigger] members[i]) implies
        order.contains(i) by {
        assert(from.contains(i));
        let j = choose|j: int| 0 <= j < from.len() && from[j] == i;
        assert(by.contains(j));
        let k = choose|k: int| 0 <= k < by.len() && by[k] == j;
        assert(order[k] == i);
    }
    assert forall|j: int, k: int| 0 <= j < k < order.len() implies #[trigger] order[j]
        != #[trigger] order[k] && parsed_u64(members[order[j]].0)->0 <= parsed_u64(
        members[order[k]].0,
    )->0 by {
        let (x, y) = (by[j], by[k]);
        assert(0 <= x < keys.len() && 0 <= y < keys.len());
        assert(comes_before(keys, x, y));
        assert(x != y);
        assert(from[x] != from[y]);
        assert(keys[x].rank == parts[x].0 && keys[y].rank == parts[y].0);
        assert(parts[x].0 == parsed_u64(members[from[x]].0)->0);
        assert(parts[y].0 == parsed_u64(members[from[y]].0)->0);
    }
    let texts = order.map_values(|i: int| shown_text(members[i]));
    let sorted = reordered(parts, by);
    let shown = sorted.map_values(|p: (u64, Seq<char>)| p.1);
    assert(shown =~= texts) by {
        assert forall|k: int| 0 <= k < shown.len() implies shown[k] == texts[k] by {
            assert(0 <= by[k] < keys.len());
            assert(parts[by[k]] == (
                parsed_u64(members[from[by[k]]].0)->0,
                shown_text(members[from[by[k]]]),
            ));
        }
    }
    order
}

/// How one value is shown: a number by its digits, text in quotes, a message in braces, and
/// other bytes by their number and the first of them.
pub proof fn lemma_values_are_shown(value: JsonView)
    ensures
        value is Null ==> scalar_summary(value) is None,
        value matches JsonView::Unsigned(n) ==> scalar_summary(value) == Some(dec(n as nat)),
        value matches JsonView::Negative(n) ==> scalar_summary(value) == Some(
            seq!['-'] + dec((-n) as nat),
        ) || n >= 0,
        value matches JsonView::Float { text, .. } ==> scalar_summary(value) == Some(text),
        value is Object ==> match (value.get("utf8"@), value.get("nested"@)) {
            (Some(JsonView::Text(s)), _) => scalar_summary(value) == Some(debug_quoted(s)),
            (_, Some(inner)) => scalar_summary(value) == Some(
                match payload_summary(inner) {
                    Some(text) => "{"@ + text + "}"@,
                    None => bytes_summary(value),
                },
            ),
            _ => scalar_summary(value) == Some(bytes_summary(value)),
        },
{
    if let JsonView::Object(members) = value {
        lemma_key_index(members, "nested"@);
    }
}

proof fn lemma_digits_are_ascii(raw: Seq<u8>)
    ensures
        encode_utf8(hex(raw)).len() == 2 * raw.len(),
        hex(raw).len() == 2 * raw.len(),
{
    lemma_bytes_in_hex(raw);
    let digits = hex(raw);
    assert forall|i: int| 0 <= i < digits.len() implies '\0' <= #[trigger] digits[i] <= '\u{7f}' by {
        let k = i / 2;
        assert(raw[k] == raw[k]);
        assert(is_hex_digit_of(digits[2 * k], raw[k] as int / 16));
        assert(is_hex_digit_of(digits[2 * k + 1], raw[k] as int % 16));
        assert(i == 2 * k || i == 2 * k + 1);
    }
    assert(is_ascii_chars(digits));
    is_ascii_chars_encode_utf8(digits);
}

/// Bytes that are neither a text nor a message are shown by their number and the first
/// sixteen of them.
pub proof fn lemma_other_bytes_are_shown(value: JsonView, raw: Seq<u8>)
    requires
        value.get("hex"@) == Some(JsonView::Text(hex(raw))),
    ensures
        raw.len() <= 16 ==> bytes_summary(value) == "<"@ + dec(raw.len()) + " B: "@ + hex(raw)
            + ">"@,
        raw.len() > 16 ==> bytes_summary(value) == "<"@ + dec(raw.len()) + " B: "@ + hex(raw).take(
            32,
        ) + "…"@ + ">"@,
{
    lemma_digits_are_ascii(raw);
    reveal_strlit("");
    let head = "<"@ + dec(raw.len()) + " B: "@ + hex(raw);
    assert(head + ""@ =~= head);
}

/// The occurrences of a field are shown one behind the other in brackets, those of them that
/// have a text; a single one is shown by itself, and where none has a text, nothing is.
pub proof fn lemma_occurrences_are_shown(items: Seq<JsonView>) -> (from: Seq<int>)
    ensures
        is_selection(items, |v: JsonView| scalar_summary(v) is Some, from),
        ({
            let shown = from.map_values(|i: int| scalar_summary(items[i])->0);
            field_summary_text(JsonView::Array(items)) == if shown.len() == 0 {
                None
            } else if shown.len() == 1 {
                Some(shown[0])
            } else {
                Some("["@ + joined(shown, ", "@) + "]"@)
            }
        }),
{
    let from = lemma_shown_items(items);
    let shown = from.map_values(|i: int| scalar_summary(items[i])->0);
    assert(shown =~= scalar_summaries(items));
    from
}

proof fn lemma_shown_items(items: Seq<JsonView>) -> (from: Seq<int>)
    ensures
        is_selection(items, |v: JsonView| scalar_summary(v) is Some, from),
        from.len() == scalar_summaries(items).len(),
        forall|k: int|
            0 <= k < from.len() ==> scalar_summary(items[#[trigger] from[k]]) == Some(
                scalar_summaries(items)[k],
            ),
    decreases items.len(),
{
    if items.len() == 0 {
        Seq::empty()
    } else {
        let front = items.drop_last();
        let before = lemma_shown_items(front);
        let keep = |v: JsonView| scalar_summary(v) is Some;
        let from = lemma_selection_grows(items, keep, before);
        assert(items.last() == items[items.len() - 1]);
        assert forall|k: int| 0 <= k < from.len() implies scalar_summary(items[#[trigger] from[k]])
            == Some(scalar_summaries(items)[k]) by {
            if k < before.len() {
                assert(from[k] == before[k]);
                assert(front[before[k]] == items[before[k]]);
                assert(scalar_summaries(items)[k] == scalar_summaries(front)[k]);
            }
        }
        from
    }
}

/// A field whose number is out of range, whose value is written in a way that is not known, or
/// that ends too early is not decoded, and the message says so.
pub proof fn lemma_unreadable_field(
    number: nat,
    wire: nat,
    body: Seq<u8>,
    floats: Seq<(u64, Seq<char>)>,
)
    requires
        wire < 8,
        8 * number + wire <= u64::MAX,
    ensures
        ({
            let error = decoded(key_bytes(number, wire) + body, floats).get("_decode_error"@);
            &&& !is_field_number(number) ==> error == Some(
                JsonView::Text("invalid field number "@ + dec(number) + " at byte "@ + dec(0)),
            )
            &&& is_field_number(number) && (wire == 3 || wire == 4 || wire == 6 || wire == 7 || (
            wire == 1 && body.len() < 8) || (wire == 5 && body.len() < 4)) ==> error == Some(
                JsonView::Text(
                    "unsupported or truncated wire type "@ + dec(wire) + " for field "@ + dec(
                        number,
                    ) + " at byte "@ + dec(0),
                ),
            )
        }),
{
    let key = key_bytes(number, wire);
    let b = key + body;
    let tag = 8 * number + wire;
    assert(b.subrange(0, 0 + key.len() as int) =~= key);
    lemma_varint_is_read(b, 0, tag as u64);
    assert(tag as u64 / 8 == number);
    assert(tag as u64 % 8 == wire);
    assert(key.len() > 0);
    let none = Seq::<(Seq<char>, JsonView)>::empty();
    let d = message(b, 0, MAX_DECODE_WORK as nat, floats);
    assert(d == fields_from(b, 0, 0, MAX_DECODE_WORK as nat, none, floats));
    if let Some(e) = d.error {
        lemma_stored_member(d.fields, "_decode_error"@, JsonView::Text(e), "_decode_error"@);
    }
}

} // verus!
