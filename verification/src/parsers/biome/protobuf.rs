//! A decoder for protobuf messages of which no schema is known.
//!
//! The result is an object with one member per field number. A field that
//! occurs more than once becomes an array of its occurrences. What a
//! length-delimited field holds cannot be told without a schema, so its three
//! readings are kept side by side: as text, as a nested message, and as bytes.

use vstd::arithmetic::power2::{lemma2_to64, lemma_pow2_adds, lemma_pow2_pos, pow2};
use vstd::prelude::*;
use vstd::utf8::{decode_utf8, encode_utf8, valid_utf8};

use crate::bytes::{copy_range, read_u32, read_u64, u32_at, u64_at};
use crate::double::{
    double_is_finite, float_text, is_finite_double, is_finite_single, single_is_finite, widen,
    widened, FloatTexts,
};
use crate::json::{
    find_key, has_key, insert, int_view, items_view, json_text, key_index, lemma_key_index,
    members_view, with_member, Json, JsonView,
};
use crate::order::{keys_view, reordered, sorted_positions, stable_order, SortKey, SortKeyView};
use crate::text::{
    chars_of, debug_quoted, dec, dec_u64, hex, hex_encode, join, joined, parse_u64,
    parsed_u64, quote_debug, same, string_of, texts, utf8_string,
};

verus! {

/// The bound on field numbers.
pub const MAX_FIELD_NUMBER: u64 = 0x2000_0000;

/// How deep messages are looked for inside messages.
pub const MAX_DECODE_DEPTH: usize = 32;

/// How many fields one call decodes, those of nested messages included.
pub const MAX_DECODE_WORK: usize = 100_000;

/// The value of the variable-length integer at `pos`, of which `k` bytes were
/// read before; `None` where it does not end in the buffer or takes more than
/// ten bytes.
pub open spec fn varint_value(b: Seq<u8>, pos: int, k: int) -> Option<nat>
    decreases b.len() - pos,
{
    if k >= 10 || pos < 0 || pos >= b.len() {
        None
    } else if b[pos] < 128 {
        Some(b[pos] as nat)
    } else {
        match varint_value(b, pos + 1, k + 1) {
            Some(rest) => Some((b[pos] - 128) as nat + 128 * rest),
            None => None,
        }
    }
}

/// Where the reading of the variable-length integer at `pos` stops.
pub open spec fn varint_stop(b: Seq<u8>, pos: int, k: int) -> int
    decreases b.len() - pos,
{
    if k >= 10 || pos < 0 || pos >= b.len() {
        pos
    } else if b[pos] < 128 {
        pos + 1
    } else {
        varint_stop(b, pos + 1, k + 1)
    }
}

/// The variable-length integer at `pos`, of which the low 64 bits are kept.
pub open spec fn varint(b: Seq<u8>, pos: int) -> Option<u64> {
    match varint_value(b, pos, 0) {
        Some(v) => Some((v % 0x1_0000_0000_0000_0000) as u64),
        None => None,
    }
}

/// A variable-length integer takes at least one byte, all of them in the
/// buffer.
pub proof fn lemma_varint_stop(b: Seq<u8>, pos: int, k: int)
    requires
        0 <= pos,
    ensures
        pos <= varint_stop(b, pos, k),
        pos <= b.len() ==> varint_stop(b, pos, k) <= b.len(),
        varint_value(b, pos, k) is Some ==> pos < varint_stop(b, pos, k) <= b.len(),
    decreases b.len() - pos,
{
    if k < 10 && pos < b.len() && b[pos] >= 128 {
        lemma_varint_stop(b, pos + 1, k + 1);
    }
}

/// Reads the variable-length integer at `pos` and moves `pos` behind it.
pub fn read_varint(bytes: &[u8], pos: &mut usize) -> (r: Option<u64>)
    requires
        *old(pos) <= bytes.len(),
    ensures
        r == varint(bytes@, *old(pos) as int),
        *final(pos) == varint_stop(bytes@, *old(pos) as int, 0),
        *final(pos) <= bytes.len(),
        r is Some ==> *old(pos) < *final(pos),
{
    let ghost b = bytes@;
    let ghost start = *pos as int;
    let mut acc: u128 = 0;
    let mut scale: u128 = 1;
    let mut k: u32 = 0;
    proof {
        lemma_varint_stop(b, start, 0);
        lemma2_to64();
        match varint_value(b, start, 0) {
            Some(v) => {
                assert(0 + 1 * v == v);
            },
            None => {},
        }
    }
    loop
        invariant
            b == bytes@,
            start == *old(pos),
            0 <= start <= *pos <= bytes.len(),
            k <= 10,
            k as nat == *pos - start,
            scale == pow2((7 * k) as nat),
            acc < scale,
            varint_stop(b, start, 0) == varint_stop(b, *pos as int, k as int),
            varint_value(b, start, 0) == (match varint_value(b, *pos as int, k as int) {
                Some(v) => Some((acc + scale * v) as nat),
                None => None,
            }),
            start == *pos ==> k == 0,
        decreases bytes.len() - *pos,
    {
        if k >= 10 || *pos >= bytes.len() {
            return None;
        }
        let byte: u8 = bytes[*pos];
        let low: u8 = byte % 128;
        proof {
            lemma_pow2_adds((7 * k) as nat, 7);
            lemma_scale_bound(k as nat);
            assert(low as int * scale <= 127 * scale) by (nonlinear_arith)
                requires
                    low <= 127,
                    scale >= 0,
            ;
            lemma2_to64();
            assert(pow2(7) == 128);
            match varint_value(b, *pos + 1, k + 1) {
                Some(v) => {
                    assert(acc + scale * ((byte - 128) + 128 * v) == (acc + (byte - 128) * scale)
                        + (scale * 128) * v) by (nonlinear_arith);
                },
                None => {},
            }
            assert(scale * (byte as nat) == (byte as int) * scale) by (nonlinear_arith);
        }
        acc = acc + (low as u128) * scale;
        *pos = *pos + 1;
        if byte < 128 {
            assert(varint_value(b, start, 0) == Some(acc as nat));
            return Some((acc % 0x1_0000_0000_0000_0000) as u64);
        }
        scale = scale * 128;
        k = k + 1;
    }
}

proof fn lemma_scale_bound(k: nat)
    requires
        k < 10,
    ensures
        1 <= pow2(7 * k) <= 0x8000_0000_0000_0000,
{
    lemma2_to64();
    if 7 * k < 63 {
        vstd::arithmetic::power2::lemma_pow2_strictly_increases(7 * k, 63);
    }
    lemma_pow2_pos(7 * k);
    vstd::arithmetic::power2::lemma2_to64_rest();
}

/// Reads `width` bytes at `pos` and moves `pos` behind them.
pub fn read_fixed(bytes: &[u8], pos: &mut usize, width: usize) -> (r: Option<Vec<u8>>)
    requires
        *old(pos) <= bytes.len(),
    ensures
        *final(pos) <= bytes.len(),
        match r {
            Some(raw) => {
                &&& *old(pos) + width <= bytes.len()
                &&& raw@ == bytes@.subrange(*old(pos) as int, *old(pos) + width)
                &&& *final(pos) == *old(pos) + width
            },
            None => *old(pos) + width > bytes.len() && *final(pos) == *old(pos),
        },
{
    if width > bytes.len() - *pos {
        return None;
    }
    let raw = copy_range(bytes, *pos, *pos + width);
    *pos = *pos + width;
    Some(raw)
}

/// The fields after one more occurrence of the field `key`: a second occurrence
/// makes an array of both, a later one is appended to it.
pub open spec fn accumulated(
    fields: Seq<(Seq<char>, JsonView)>,
    key: Seq<char>,
    value: JsonView,
) -> Seq<(Seq<char>, JsonView)> {
    if has_key(fields, key) {
        let both = match fields[key_index(fields, key)].1 {
            JsonView::Array(items) => JsonView::Array(items.push(value)),
            existing => JsonView::Array(seq![existing, value]),
        };
        with_member(fields, key, both)
    } else {
        with_member(fields, key, value)
    }
}

/// The bits of a signed integer with the same bits as `raw`.
pub open spec fn signed(raw: u64) -> int {
    if raw < 0x8000_0000_0000_0000 {
        raw as int
    } else {
        raw - 0x1_0000_0000_0000_0000
    }
}

/// The number with these bits, `null` where it is not finite.
pub open spec fn double_view(bits: u64, floats: Seq<(u64, Seq<char>)>) -> JsonView {
    if is_finite_double(bits) {
        JsonView::Float { bits, text: float_text(floats, bits) }
    } else {
        JsonView::Null
    }
}

/// What decoding a stretch of fields comes to: the fields, why it stopped
/// early, and how much work may still be done.
pub struct Decoded {
    pub fields: Seq<(Seq<char>, JsonView)>,
    pub error: Option<Seq<char>>,
    pub budget: nat,
}

/// What decoding one value comes to: the value, where the next field begins,
/// and how much work may still be done.
pub struct DecodedValue {
    pub value: JsonView,
    pub next: int,
    pub budget: nat,
}

/// The object of a decoded message.
pub open spec fn message_object(d: Decoded) -> JsonView {
    match d.error {
        Some(error) => JsonView::Object(
            with_member(d.fields, "_decode_error"@, JsonView::Text(error)),
        ),
        None => JsonView::Object(d.fields),
    }
}

/// The message in `b`, `depth` levels below the outermost one.
pub open spec fn message(b: Seq<u8>, depth: nat, budget: nat, floats: Seq<(u64, Seq<char>)>) -> Decoded
    decreases 32 - depth, b.len() + 1, 0int,
{
    if depth >= 32 {
        Decoded { fields: seq![], error: Some("maximum nesting depth exceeded"@), budget }
    } else {
        fields_from(b, 0, depth, budget, seq![], floats)
    }
}

/// The fields from `pos` on, behind those in `fields`. A value always ends
/// behind its beginning and inside the buffer (`lemma_value_next`).
pub open spec fn fields_from(
    b: Seq<u8>,
    pos: int,
    depth: nat,
    budget: nat,
    fields: Seq<(Seq<char>, JsonView)>,
    floats: Seq<(u64, Seq<char>)>,
) -> Decoded
    decreases 32 - depth, b.len() - pos, 1int,
{
    if depth >= 32 || pos < 0 || pos >= b.len() {
        Decoded { fields, error: None, budget }
    } else if budget == 0 {
        Decoded { fields, error: Some("decode work budget exceeded"@), budget }
    } else {
        let left = (budget - 1) as nat;
        match varint(b, pos) {
            None => Decoded {
                fields,
                error: Some("unterminated varint tag at byte "@ + dec(pos as nat)),
                budget: left,
            },
            Some(tag) => {
                let number = (tag / 8) as nat;
                let wire = (tag % 8) as nat;
                let start = varint_stop(b, pos, 0);
                proof {
                    lemma_varint_stop(b, pos, 0);
                }
                if number == 0 || number >= MAX_FIELD_NUMBER {
                    Decoded {
                        fields,
                        error: Some(
                            "invalid field number "@ + dec(number) + " at byte "@ + dec(pos as nat),
                        ),
                        budget: left,
                    }
                } else {
                    match value_at(wire, b, start, depth, left, floats) {
                        None => Decoded {
                            fields,
                            error: Some(
                                "unsupported or truncated wire type "@ + dec(wire) + " for field "@
                                    + dec(number) + " at byte "@ + dec(pos as nat),
                            ),
                            budget: left,
                        },
                        Some(v) => if pos < v.next <= b.len() {
                            fields_from(
                                b,
                                v.next,
                                depth,
                                v.budget,
                                accumulated(fields, dec(number), v.value),
                                floats,
                            )
                        } else {
                            Decoded { fields, error: None, budget: left }
                        },
                    }
                }
            },
        }
    }
}

/// The value of wire type `wire` at `pos`. Variable-length integers are taken
/// as signed, the fixed widths as floating-point numbers. Groups are not
/// supported.
pub open spec fn value_at(
    wire: nat,
    b: Seq<u8>,
    pos: int,
    depth: nat,
    budget: nat,
    floats: Seq<(u64, Seq<char>)>,
) -> Option<DecodedValue>
    decreases 32 - depth, b.len() - pos, 0int,
{
    if wire == 0 {
        match varint(b, pos) {
            Some(raw) => Some(
                DecodedValue {
                    value: int_view(signed(raw)),
                    next: varint_stop(b, pos, 0),
                    budget,
                },
            ),
            None => None,
        }
    } else if wire == 1 {
        if pos + 8 <= b.len() {
            Some(
                DecodedValue {
                    value: double_view(u64_at(b, pos) as u64, floats),
                    next: pos + 8,
                    budget,
                },
            )
        } else {
            None
        }
    } else if wire == 5 {
        if pos + 4 <= b.len() {
            let bits = u32_at(b, pos) as u32;
            let value = if is_finite_single(bits) {
                double_view(widened(bits), floats)
            } else {
                JsonView::Null
            };
            Some(DecodedValue { value, next: pos + 4, budget })
        } else {
            None
        }
    } else if wire == 2 {
        match varint(b, pos) {
            Some(len) => {
                let start = varint_stop(b, pos, 0);
                if start + len <= b.len() {
                    let raw = b.subrange(start, start + len);
                    let attempt = raw.len() > 0 && budget > 0 && depth < 32;
                    let inner = if attempt {
                        message(raw, depth + 1, budget, floats)
                    } else {
                        Decoded { fields: seq![], error: None, budget }
                    };
                    Some(
                        DecodedValue {
                            value: length_delimited(raw, inner),
                            next: start + len,
                            budget: inner.budget,
                        },
                    )
                } else {
                    None
                }
            },
            None => None,
        }
    } else {
        None
    }
}

/// The three readings of a length-delimited field. The nested message is kept
/// only where it has fields and was decoded to its end.
pub open spec fn length_delimited(raw: Seq<u8>, inner: Decoded) -> JsonView {
    let utf8 = if valid_utf8(raw) {
        JsonView::Text(decode_utf8(raw))
    } else {
        JsonView::Null
    };
    let nested = if inner.fields.len() > 0 && inner.error is None {
        JsonView::Object(inner.fields)
    } else {
        JsonView::Null
    };
    JsonView::Object(
        seq![("utf8"@, utf8), ("nested"@, nested), ("hex"@, JsonView::Text(hex(raw)))],
    )
}

/// A value ends behind its beginning.
pub proof fn lemma_value_next(
    wire: nat,
    b: Seq<u8>,
    pos: int,
    depth: nat,
    budget: nat,
    floats: Seq<(u64, Seq<char>)>,
)
    requires
        0 <= pos,
    ensures
        match value_at(wire, b, pos, depth, budget, floats) {
            Some(v) => pos < v.next <= b.len(),
            None => true,
        },
{
    lemma_varint_stop(b, pos, 0);
}

/// Adds one more occurrence of the field `key`.
fn insert_or_accumulate(fields: &mut Vec<(String, Json)>, key: String, value: Json)
    ensures
        members_view(final(fields)@) == accumulated(members_view(old(fields)@), key@, value@),
{
    let ghost before = fields@;
    let at: usize = find_key(fields, key.as_str());
    if at < fields.len() {
        let (name, existing) = fields.remove(at);
        let both = match existing {
            Json::Array(mut items) => {
                let ghost seen = items@;
                items.push(value);
                assert(items_view(items@) =~= items_view(seen).push(value@));
                Json::Array(items)
            },
            single => {
                let mut items: Vec<Json> = Vec::new();
                items.push(single);
                items.push(value);
                assert(items_view(items@) =~= seq![single@, value@]);
                Json::Array(items)
            },
        };
        fields.insert(at, (key, both));
        assert(members_view(fields@) =~= members_view(before).update(at as int, (key@, both@)));
    } else {
        fields.push((key, value));
        assert(members_view(fields@) =~= members_view(before).push((key@, value@)));
    }
}

/// Decodes `bytes` as a message. Decoding never fails: where a field cannot be
/// read, the fields before it are kept, and the member `_decode_error` says why
/// decoding stopped. `floats` gives the texts of the floating-point numbers.
pub fn decode_message(bytes: &[u8], floats: &FloatTexts) -> (r: Json)
    ensures
        r@ == message_object(message(bytes@, 0, MAX_DECODE_WORK as nat, floats@)),
{
    let mut budget: usize = MAX_DECODE_WORK;
    let (fields, error) = decode_message_impl(bytes, 0, &mut budget, floats);
    finish_message(fields, error)
}

fn finish_message(fields: Vec<(String, Json)>, error: Option<String>) -> (r: Json)
    ensures
        forall|budget: nat| #[trigger]
            message_object(decoded_view(fields@, error, budget)) == r@,
{
    let mut fields = fields;
    match error {
        Some(reason) => {
            insert(&mut fields, "_decode_error", Json::Text(reason));
        },
        None => {},
    }
    Json::Object(fields)
}

spec fn decoded_view(fields: Seq<(String, Json)>, error: Option<String>, budget: nat) -> Decoded {
    Decoded {
        fields: members_view(fields),
        error: match error {
            Some(e) => Some(e@),
            None => None,
        },
        budget,
    }
}

fn decode_message_impl(bytes: &[u8], depth: usize, budget: &mut usize, floats: &FloatTexts) -> (r: (
    Vec<(String, Json)>,
    Option<String>,
))
    requires
        depth <= 32,
    ensures
        decoded_view(r.0@, r.1, *final(budget) as nat) == message(
            bytes@,
            depth as nat,
            *old(budget) as nat,
            floats@,
        ),
    decreases 32 - depth, bytes.len() + 1, 0int,
{
    let mut fields: Vec<(String, Json)> = Vec::new();
    proof {
        assert(members_view(fields@) =~= seq![]);
    }
    if depth >= MAX_DECODE_DEPTH {
        return (fields, Some("maximum nesting depth exceeded".to_owned()));
    }
    let ghost whole = message(bytes@, depth as nat, *budget as nat, floats@);
    let mut pos: usize = 0;
    while pos < bytes.len()
        invariant
            depth < 32,
            pos <= bytes.len(),
            whole == message(bytes@, depth as nat, *old(budget) as nat, floats@),
            whole == fields_from(
                bytes@,
                pos as int,
                depth as nat,
                *budget as nat,
                members_view(fields@),
                floats@,
            ),
        decreases bytes.len() - pos,
    {
        if *budget == 0 {
            return (fields, Some("decode work budget exceeded".to_owned()));
        }
        *budget = *budget - 1;
        let tag_start: usize = pos;
        let tag: u64 = match read_varint(bytes, &mut pos) {
            Some(tag) => tag,
            None => {
                let mut error = "unterminated varint tag at byte ".to_owned();
                error.append(dec_u64(tag_start as u64).as_str());
                return (fields, Some(error));
            },
        };
        let number: u64 = tag / 8;
        let wire: u64 = tag % 8;
        if number == 0 || number >= MAX_FIELD_NUMBER {
            let mut error = "invalid field number ".to_owned();
            error.append(dec_u64(number).as_str());
            error.append(" at byte ");
            error.append(dec_u64(tag_start as u64).as_str());
            return (fields, Some(error));
        }
        proof {
            lemma_value_next(wire as nat, bytes@, pos as int, depth as nat, *budget as nat, floats@);
        }
        match decode_field_value(wire as u8, bytes, &mut pos, depth, budget, floats) {
            Some(value) => {
                insert_or_accumulate(&mut fields, dec_u64(number), value);
            },
            None => {
                let mut error = "unsupported or truncated wire type ".to_owned();
                error.append(dec_u64(wire).as_str());
                error.append(" for field ");
                error.append(dec_u64(number).as_str());
                error.append(" at byte ");
                error.append(dec_u64(tag_start as u64).as_str());
                return (fields, Some(error));
            },
        }
    }
    (fields, None)
}

fn double_json(bits: u64, floats: &FloatTexts) -> (r: Json)
    ensures
        r@ == double_view(bits, floats@),
{
    if double_is_finite(bits) {
        Json::Float { bits, text: floats.lookup(bits) }
    } else {
        Json::Null
    }
}

/// Reads the value of wire type `wire` at `pos` and moves `pos` behind it.
fn decode_field_value(
    wire: u8,
    bytes: &[u8],
    pos: &mut usize,
    depth: usize,
    budget: &mut usize,
    floats: &FloatTexts,
) -> (r: Option<Json>)
    requires
        depth < 32,
        *old(pos) <= bytes.len(),
    ensures
        match (r, value_at(
            wire as nat,
            bytes@,
            *old(pos) as int,
            depth as nat,
            *old(budget) as nat,
            floats@,
        )) {
            (Some(v), Some(d)) => {
                &&& v@ == d.value
                &&& *final(pos) == d.next
                &&& *final(budget) == d.budget
            },
            (None, None) => *final(budget) == *old(budget),
            _ => false,
        },
    decreases 32 - depth, 0nat, 0int,
{
    let ghost b = bytes@;
    let start: usize = *pos;
    proof {
        lemma_varint_stop(b, start as int, 0);
    }
    if wire == 0 {
        match read_varint(bytes, pos) {
            Some(raw) => if raw < 0x8000_0000_0000_0000 {
                Some(Json::from_i64(raw as i64))
            } else {
                Some(Json::from_i64((raw as i128 - 0x1_0000_0000_0000_0000) as i64))
            },
            None => None,
        }
    } else if wire == 1 {
        if bytes.len() - start < 8 {
            return None;
        }
        let bits: u64 = read_u64(bytes, start);
        *pos = start + 8;
        Some(double_json(bits, floats))
    } else if wire == 5 {
        if bytes.len() - start < 4 {
            return None;
        }
        let bits: u32 = read_u32(bytes, start);
        *pos = start + 4;
        if single_is_finite(bits) {
            Some(double_json(widen(bits), floats))
        } else {
            Some(Json::Null)
        }
    } else if wire == 2 {
        let len: u64 = match read_varint(bytes, pos) {
            Some(len) => len,
            None => {
                return None;
            },
        };
        if len > (bytes.len() - *pos) as u64 {
            return None;
        }
        let raw = match read_fixed(bytes, pos, len as usize) {
            Some(raw) => raw,
            None => {
                return None;
            },
        };
        let utf8 = match utf8_string(raw.as_slice()) {
            Some(s) => Json::Text(s),
            None => Json::Null,
        };
        let nested = decode_nested_best_effort(raw.as_slice(), depth, budget, floats);
        let mut members: Vec<(String, Json)> = Vec::new();
        members.push(("utf8".to_owned(), utf8));
        members.push(("nested".to_owned(), nested));
        members.push(("hex".to_owned(), Json::Text(hex_encode(raw.as_slice()))));
        proof {
            assert(members_view(members@) =~= seq![
                ("utf8"@, utf8@),
                ("nested"@, nested@),
                ("hex"@, JsonView::Text(hex(raw@))),
            ]);
        }
        Some(Json::Object(members))
    } else {
        None
    }
}

/// The message in `raw` where there is one that has fields and can be decoded
/// to its end, else `null`.
fn decode_nested_best_effort(raw: &[u8], depth: usize, budget: &mut usize, floats: &FloatTexts) -> (r:
    Json)
    requires
        depth < 32,
    ensures
        ({
            let inner = if raw@.len() > 0 && *old(budget) > 0 {
                message(raw@, (depth + 1) as nat, *old(budget) as nat, floats@)
            } else {
                Decoded { fields: seq![], error: None, budget: *old(budget) as nat }
            };
            &&& *final(budget) == inner.budget
            &&& r@ == (if inner.fields.len() > 0 && inner.error is None {
                JsonView::Object(inner.fields)
            } else {
                JsonView::Null
            })
        }),
    decreases 32 - depth - 1, raw.len() + 1, 1int,
{
    if raw.len() == 0 || *budget == 0 {
        return Json::Null;
    }
    let (fields, error) = decode_message_impl(raw, depth + 1, budget, floats);
    if fields.len() == 0 || error.is_some() {
        return Json::Null;
    }
    Json::Object(fields)
}

/// The parts of a summary: each numbered field that has a rendering, with its
/// number, in the order of the object.
pub open spec fn numbered_parts(members: Seq<(Seq<char>, JsonView)>) -> Seq<(u64, Seq<char>)>
    decreases members, 0int,
{
    if members.len() == 0 {
        seq![]
    } else {
        let before = numbered_parts(members.drop_last());
        let last = members[members.len() - 1];
        if last.0 == "_decode_error"@ {
            before
        } else {
            match (parsed_u64(last.0), field_summary_text(last.1)) {
                (Some(number), Some(text)) => before.push(
                    (number, dec(number as nat) + ": "@ + text),
                ),
                _ => before,
            }
        }
    }
}

/// What the parts are sorted by: their field numbers.
pub open spec fn part_keys(parts: Seq<(u64, Seq<char>)>) -> Seq<SortKeyView> {
    parts.map_values(
        |p: (u64, Seq<char>)| SortKeyView { rank: p.0 as int, text: seq![], minor: 0 },
    )
}

/// Whether an object has the field of some number.
pub open spec fn has_numbered(members: Seq<(Seq<char>, JsonView)>) -> bool {
    exists|i: int|
        0 <= i < members.len() && (#[trigger] members[i]).0 != "_decode_error"@ && parsed_u64(
            members[i].0,
        ) is Some
}

/// The one-line rendering of a decoded message: its fields in ascending order
/// of their numbers, then the decode error. Of a message without a field there is
/// nothing to show, whatever stopped its decoding.
pub open spec fn payload_summary(payload: JsonView) -> Option<Seq<char>>
    decreases payload, 1int,
{
    match payload {
        JsonView::Object(members) => if has_numbered(members) {
            let parts = numbered_parts(members);
            let sorted = reordered(parts, stable_order(part_keys(parts)));
            summary_line(
                sorted.map_values(|p: (u64, Seq<char>)| p.1),
                payload.get("_decode_error"@),
            )
        } else {
            None
        },
        _ => None,
    }
}

/// The parts and the decode error in one line; nothing where there is nothing
/// to show.
pub open spec fn summary_line(parts: Seq<Seq<char>>, error: Option<JsonView>) -> Option<Seq<char>> {
    let all = match error {
        Some(JsonView::Text(e)) => parts.push("decode error: "@ + e),
        _ => parts,
    };
    if all.len() == 0 {
        None
    } else {
        Some(joined(all, "  |  "@))
    }
}

/// The rendering of a field: of one value, or of the list of its occurrences.
pub open spec fn field_summary_text(value: JsonView) -> Option<Seq<char>>
    decreases value, 1int,
{
    match value {
        JsonView::Array(items) => {
            let rendered = scalar_summaries(items);
            if rendered.len() == 0 {
                None
            } else if rendered.len() == 1 {
                Some(rendered[0])
            } else {
                Some("["@ + joined(rendered, ", "@) + "]"@)
            }
        },
        _ => scalar_summary(value),
    }
}

/// The renderings of those items that have one.
pub open spec fn scalar_summaries(items: Seq<JsonView>) -> Seq<Seq<char>>
    decreases items, 0int,
{
    if items.len() == 0 {
        seq![]
    } else {
        let before = scalar_summaries(items.drop_last());
        match scalar_summary(items[items.len() - 1]) {
            Some(text) => before.push(text),
            None => before,
        }
    }
}

/// The rendering of one value: a number as it is; a length-delimited field as
/// its text, else as the message it holds, else as its length and first bytes.
pub open spec fn scalar_summary(value: JsonView) -> Option<Seq<char>>
    decreases value, 0int,
{
    match value {
        JsonView::Null => None,
        JsonView::Object(members) => {
            let at = key_index(members, "nested"@);
            let inner = if 0 <= at < members.len() {
                payload_summary(members[at].1)
            } else {
                None
            };
            match value.get("utf8"@) {
                Some(JsonView::Text(s)) => Some(debug_quoted(s)),
                _ => match inner {
                    Some(text) => Some("{"@ + text + "}"@),
                    None => Some(bytes_summary(value)),
                },
            }
        },
        _ => Some(json_text(value)),
    }
}

/// The length and the first bytes of a length-delimited field.
pub open spec fn bytes_summary(value: JsonView) -> Seq<char> {
    let digits = match value.get("hex"@) {
        Some(JsonView::Text(s)) => s,
        _ => ""@,
    };
    let len = encode_utf8(digits).len();
    let preview = if digits.len() > 32 {
        digits.take(32)
    } else {
        digits
    };
    "<"@ + dec(len / 2) + " B: "@ + preview + (if len > 32 {
        "…"@
    } else {
        ""@
    }) + ">"@
}

/// The one-line rendering of a decoded message, such as
/// `1: "US/Pacific"  |  2: -25200`; nothing where there is nothing to show, as of a
/// message whose first field could not be decoded.
pub fn render_payload_summary(payload: &Json) -> (r: Option<String>)
    ensures
        match r {
            Some(s) => payload_summary(payload@) == Some(s@),
            None => payload_summary(payload@) is None,
        },
    decreases payload, 1int,
{
    match payload {
        Json::Object(members) => {
            let ghost mv = members_view(members@);
            let mut numbers: Vec<SortKey> = Vec::new();
            let mut found: Vec<String> = Vec::new();
            let mut any: bool = false;
            let mut i: usize = 0;
            while i < members.len()
                invariant
                    i <= members.len(),
                    mv == members_view(members@),
                    any ==> has_numbered(mv),
                    !any ==> forall|j: int|
                        0 <= j < i ==> (#[trigger] mv[j]).0 == "_decode_error"@ || parsed_u64(
                            mv[j].0,
                        ) is None,
                    numbers.len() == found.len(),
                    numbered_parts(mv.take(i as int)).len() == found.len(),
                    forall|j: int|
                        0 <= j < found.len() ==> (#[trigger] found@[j])@ == numbered_parts(
                            mv.take(i as int),
                        )[j].1,
                    forall|j: int|
                        0 <= j < found.len() ==> (#[trigger] numbers@[j])@ == (SortKeyView {
                            rank: numbered_parts(mv.take(i as int))[j].0 as int,
                            text: seq![],
                            minor: 0,
                        }),
                    decreases_to!(payload => members@),
                decreases members.len() - i,
            {
                proof {
                    let next = mv.take(i + 1);
                    assert(next.drop_last() == mv.take(i as int));
                    assert(next[next.len() - 1] == (members@[i as int].0@, members@[i as int].1@));
                    assert(mv[i as int].0 == members@[i as int].0@);
                    assert(decreases_to!(members@ => members@[i as int]));
                    assert(decreases_to!(members@[i as int] => members@[i as int].1));
                }
                if !same(members[i].0.as_str(), "_decode_error") {
                    if let Some(number) = parse_u64(members[i].0.as_str()) {
                        any = true;
                        if let Some(part) = render_field_summary(number, &members[i].1) {
                            numbers.push(
                                SortKey {
                                    rank: number as i128,
                                    text: String::new(),
                                    minor: 0,
                                },
                            );
                            found.push(part);
                        }
                    }
                }
                i += 1;
            }
            if !any {
                return None;
            }
            let ghost parts = numbered_parts(mv);
            proof {
                assert(mv.take(i as int) == mv);
                assert(keys_view(numbers@) =~= part_keys(parts));
            }
            let order = sorted_positions(&numbers);
            let ghost o = order@.map_values(|i: usize| i as int);
            let ghost lines = reordered(parts, o).map_values(|p: (u64, Seq<char>)| p.1);
            let mut sorted: Vec<String> = Vec::new();
            let mut k: usize = 0;
            while k < order.len()
                invariant
                    k <= order.len(),
                    o == order@.map_values(|i: usize| i as int),
                    order.len() == found.len(),
                    found.len() == parts.len(),
                    forall|j: int| 0 <= j < o.len() ==> 0 <= #[trigger] o[j] < found.len(),
                    forall|j: int|
                        0 <= j < found.len() ==> (#[trigger] found@[j])@ == parts[j].1,
                    lines == reordered(parts, o).map_values(|p: (u64, Seq<char>)| p.1),
                    texts(sorted@) == lines.take(k as int),
                decreases order.len() - k,
            {
                assert(o[k as int] == order@[k as int]);
                let ghost before = sorted@;
                sorted.push(found[order[k]].clone());
                proof {
                    assert(texts(sorted@) =~= texts(before).push(found@[o[k as int]]@));
                    assert(lines.take(k + 1) =~= lines.take(k as int).push(lines[k as int]));
                }
                k += 1;
            }
            assert(lines.take(k as int) == lines);
            let ghost before = sorted@;
            if let Some(error) = payload.get("_decode_error") {
                if let Json::Text(reason) = error {
                    let mut line = "decode error: ".to_owned();
                    line.append(reason.as_str());
                    sorted.push(line);
                    assert(texts(sorted@) =~= texts(before).push("decode error: "@ + reason@));
                }
            }
            if sorted.len() == 0 {
                None
            } else {
                Some(join(&sorted, "  |  "))
            }
        },
        _ => None,
    }
}

/// The rendering of a field with its number.
fn render_field_summary(number: u64, value: &Json) -> (r: Option<String>)
    ensures
        match r {
            Some(s) => field_summary_text(value@) is Some && s@ == dec(number as nat) + ": "@
                + field_summary_text(value@)->0,
            None => field_summary_text(value@) is None,
        },
    decreases value, 1int,
{
    let text = match value {
        Json::Array(items) => {
            let ghost iv = items_view(items@);
            let mut rendered: Vec<String> = Vec::new();
            let mut i: usize = 0;
            while i < items.len()
                invariant
                    i <= items.len(),
                    iv == items_view(items@),
                    texts(rendered@) == scalar_summaries(iv.take(i as int)),
                    decreases_to!(value => items@),
                decreases items.len() - i,
            {
                let ghost before = rendered@;
                proof {
                    let next = iv.take(i + 1);
                    assert(next.drop_last() == iv.take(i as int));
                    assert(next[next.len() - 1] == items@[i as int]@);
                    assert(decreases_to!(items@ => items@[i as int]));
                }
                if let Some(text) = render_scalar_summary(&items[i]) {
                    rendered.push(text);
                    assert(texts(rendered@) =~= texts(before).push(text@));
                }
                i += 1;
            }
            assert(iv.take(i as int) == iv);
            if rendered.len() == 0 {
                assert(texts(rendered@).len() == 0);
                None
            } else if rendered.len() == 1 {
                assert(texts(rendered@)[0] == rendered@[0]@);
                Some(rendered[0].clone())
            } else {
                let mut list = "[".to_owned();
                list.append(join(&rendered, ", ").as_str());
                list.append("]");
                assert(texts(rendered@).len() > 1);
                Some(list)
            }
        },
        _ => render_scalar_summary(value),
    };
    match text {
        Some(text) => {
            let mut line = dec_u64(number);
            line.append(": ");
            line.append(text.as_str());
            Some(line)
        },
        None => None,
    }
}

/// The rendering of one value.
fn render_scalar_summary(value: &Json) -> (r: Option<String>)
    ensures
        match r {
            Some(s) => scalar_summary(value@) == Some(s@),
            None => scalar_summary(value@) is None,
        },
    decreases value, 0int,
{
    match value {
        Json::Null => None,
        Json::Object(members) => {
            if let Some(Json::Text(s)) = value.get("utf8") {
                return Some(quote_debug(s.as_str()));
            }
            let at: usize = find_key(members, "nested");
            if at < members.len() {
                proof {
                    assert(decreases_to!(members@ => members@[at as int]));
                    assert(decreases_to!(members@[at as int] => members@[at as int].1));
                }
                if let Some(inner) = render_payload_summary(&members[at].1) {
                    let mut text = "{".to_owned();
                    text.append(inner.as_str());
                    text.append("}");
                    return Some(text);
                }
            }
            Some(render_bytes(value))
        },
        _ => Some(value.to_text()),
    }
}

fn render_bytes(value: &Json) -> (r: String)
    ensures
        r@ == bytes_summary(value@),
{
    let digits: String = match value.get("hex") {
        Some(Json::Text(s)) => s.clone(),
        _ => "".to_owned(),
    };
    let len: usize = digits.as_str().as_bytes().len();
    let v = chars_of(digits.as_str());
    let shown: usize = if v.len() > 32 {
        32
    } else {
        v.len()
    };
    let preview = string_of(&v, 0, shown);
    proof {
        if v.len() <= 32 {
            assert(v@.subrange(0, v@.len() as int) == v@);
        }
    }
    let mut text = "<".to_owned();
    text.append(dec_u64((len / 2) as u64).as_str());
    text.append(" B: ");
    text.append(preview.as_str());
    text.append(
        if len > 32 {
            "…"
        } else {
            ""
        },
    );
    text.append(">");
    text
}

proof fn lemma_accumulated_len(
    fields: Seq<(Seq<char>, JsonView)>,
    key: Seq<char>,
    value: JsonView,
)
    ensures
        accumulated(fields, key, value).len() <= fields.len() + 1,
{
    lemma_key_index(fields, key);
}

proof fn lemma_value_work(
    wire: nat,
    b: Seq<u8>,
    pos: int,
    depth: nat,
    budget: nat,
    floats: Seq<(u64, Seq<char>)>,
)
    ensures
        value_at(wire, b, pos, depth, budget, floats) matches Some(v) ==> v.budget <= budget,
    decreases 32 - depth, b.len() - pos, 0int,
{
    if wire == 2 {
        if let Some(len) = varint(b, pos) {
            let start = varint_stop(b, pos, 0);
            if start + len <= b.len() {
                let raw = b.subrange(start, start + len);
                if raw.len() > 0 && budget > 0 && depth < 32 {
                    lemma_work_is_bounded(raw, depth + 1, budget, floats);
                }
            }
        }
    }
}

pub(crate) proof fn lemma_fields_work(
    b: Seq<u8>,
    pos: int,
    depth: nat,
    budget: nat,
    fields: Seq<(Seq<char>, JsonView)>,
    floats: Seq<(u64, Seq<char>)>,
)
    ensures
        ({
            let d = fields_from(b, pos, depth, budget, fields, floats);
            &&& d.budget <= budget
            &&& d.fields.len() + d.budget <= fields.len() + budget
        }),
    decreases 32 - depth, b.len() - pos, 1int,
{
    if depth < 32 && 0 <= pos < b.len() && budget > 0 {
        let left = (budget - 1) as nat;
        if let Some(tag) = varint(b, pos) {
            let number = (tag / 8) as nat;
            let wire = (tag % 8) as nat;
            let start = varint_stop(b, pos, 0);
            lemma_varint_stop(b, pos, 0);
            if number != 0 && number < MAX_FIELD_NUMBER {
                lemma_value_work(wire, b, start, depth, left, floats);
                if let Some(v) = value_at(wire, b, start, depth, left, floats) {
                    if pos < v.next <= b.len() {
                        let more = accumulated(fields, dec(number), v.value);
                        lemma_accumulated_len(fields, dec(number), v.value);
                        lemma_fields_work(b, v.next, depth, v.budget, more, floats);
                        assert(fields_from(b, pos, depth, budget, fields, floats) == fields_from(
                            b,
                            v.next,
                            depth,
                            v.budget,
                            more,
                            floats,
                        ));
                    }
                }
            }
        }
    }
}

/// The work of decoding is bounded: every field that is decoded, also one of a
/// nested message, uses up some of what may be done, so that a message has no more
/// fields than that.
pub proof fn lemma_work_is_bounded(
    b: Seq<u8>,
    depth: nat,
    budget: nat,
    floats: Seq<(u64, Seq<char>)>,
)
    ensures
        ({
            let d = message(b, depth, budget, floats);
            &&& d.budget <= budget
            &&& d.fields.len() <= budget - d.budget
        }),
    decreases 32 - depth, b.len() + 1, 0int,
{
    if depth < 32 {
        lemma_fields_work(b, 0, depth, budget, seq![], floats);
    }
}

} // verus!
