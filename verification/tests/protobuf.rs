//! Messages without a schema.

use peach::double::FloatTexts;
use peach::json::{parse_json, Json};
use peach::parsers::biome::protobuf::{
    decode_message, read_fixed, read_varint, render_payload_summary, MAX_DECODE_DEPTH,
    MAX_DECODE_WORK,
};

fn json(text: &str) -> Json {
    parse_json(text).unwrap()
}

/// The fields of a message, with the texts of the numbers that occur in it.
fn decode(bytes: &[u8]) -> Json {
    let mut floats = FloatTexts { entries: Vec::new() };
    for bits in decode_message(bytes, &floats).float_bits() {
        floats.entries.push((bits, format!("{:?}", f64::from_bits(bits))));
    }
    decode_message(bytes, &floats)
}

fn part<'a>(value: &'a Json, path: &[&str]) -> &'a Json {
    value.at(path).unwrap()
}

fn varint_bytes(mut value: u64) -> Vec<u8> {
    let mut out = Vec::new();
    loop {
        let byte = (value & 0x7F) as u8;
        value >>= 7;
        if value == 0 {
            out.push(byte);
            break;
        }
        out.push(byte | 0x80);
    }
    out
}

fn tag(field_number: u64, wire_type: u8) -> Vec<u8> {
    varint_bytes((field_number << 3) | wire_type as u64)
}

#[test]
fn decodes_a_varint_field() {
    let mut bytes = tag(1, 0);
    bytes.extend(varint_bytes(150));

    let decoded = decode(&bytes);
    assert_eq!(*part(&decoded, &["1"]), json(r#"150"#));
    assert!(decoded.get("_decode_error").is_none());
}

#[test]
fn decodes_a_fixed64_field_as_a_double() {
    let mut bytes = tag(2, 1);
    bytes.extend_from_slice(&1.5f64.to_le_bytes());

    let decoded = decode(&bytes);
    assert_eq!(*part(&decoded, &["2"]), json(r#"1.5"#));
}

#[test]
fn decodes_a_fixed32_field_as_a_float() {
    let mut bytes = tag(3, 5);
    bytes.extend_from_slice(&2.5f32.to_le_bytes());

    let decoded = decode(&bytes);
    assert_eq!(*part(&decoded, &["3"]), json("2.5"));
}

#[test]
fn decodes_a_length_delimited_utf8_string() {
    let mut bytes = tag(4, 2);
    bytes.extend(varint_bytes(5));
    bytes.extend_from_slice(b"hello");

    let decoded = decode(&bytes);
    assert_eq!(*part(&decoded, &["4", "utf8"]), json(r#""hello""#));
    assert_eq!(*part(&decoded, &["4", "hex"]), json(r#""68656c6c6f""#));
    assert_eq!(*part(&decoded, &["4", "nested"]), Json::Null);
}

#[test]
fn a_repeated_field_number_becomes_an_array() {
    let mut bytes = tag(5, 0);
    bytes.extend(varint_bytes(1));
    bytes.extend(tag(5, 0));
    bytes.extend(varint_bytes(2));

    let decoded = decode(&bytes);
    assert_eq!(*part(&decoded, &["5"]), json(r#"[1, 2]"#));
}

#[test]
fn a_cleanly_reparsing_nested_message_is_exposed_under_nested() {
    // Field 4's payload is itself a valid protobuf message: one varint
    // field (field 1 = 42).
    let mut inner = tag(1, 0);
    inner.extend(varint_bytes(42));

    let mut bytes = tag(4, 2);
    bytes.extend(varint_bytes(inner.len() as u64));
    bytes.extend(&inner);

    let decoded = decode(&bytes);
    assert_eq!(*part(&decoded, &["4", "nested", "1"]), json(r#"42"#));
    // The raw bytes stay available too, never discarded in favor of
    // only the nested interpretation.
    assert!(part(&decoded, &["4", "hex"]).as_text().is_some());
}

#[test]
fn bytes_that_dont_reparse_cleanly_leave_nested_null_but_keep_hex_and_utf8() {
    // Not valid UTF-8 and not a plausible nested message either (a
    // single 0xFF byte's high bits look like a continuing varint tag
    // that never terminates within the buffer).
    let raw: &[u8] = &[0xFF];
    let mut bytes = tag(6, 2);
    bytes.extend(varint_bytes(raw.len() as u64));
    bytes.extend_from_slice(raw);

    let decoded = decode(&bytes);
    assert_eq!(*part(&decoded, &["6", "nested"]), Json::Null);
    assert_eq!(*part(&decoded, &["6", "hex"]), json(r#""ff""#));
}

#[test]
fn invalid_field_number_zero_produces_a_decode_error_with_partial_fields_kept() {
    let mut bytes = tag(1, 0);
    bytes.extend(varint_bytes(7));
    // A second field with an invalid field number 0.
    bytes.extend(tag(0, 0));
    bytes.extend(varint_bytes(1));

    let decoded = decode(&bytes);
    assert_eq!(*part(&decoded, &["1"]), json(r#"7"#));
    assert!(
        decoded
            .get("_decode_error")
            .unwrap()
            .as_text()
            .unwrap()
            .contains("invalid field number 0")
    );
}

#[test]
fn a_group_wire_type_produces_a_decode_error_not_a_panic() {
    let bytes = tag(1, 3); // start_group

    let decoded = decode(&bytes);
    assert!(decoded.get("_decode_error").is_some());
}

#[test]
fn a_truncated_varint_produces_a_decode_error_not_a_panic() {
    // Every byte has its continuation bit set, and the buffer ends
    // before a terminating byte — must reject cleanly, not hang or
    // panic.
    let bytes = vec![0x80u8; 3];

    let decoded = decode(&bytes);
    assert!(decoded.get("_decode_error").is_some());
}

#[test]
fn an_empty_message_decodes_to_an_empty_object_with_no_error() {
    let decoded = decode(&[]);
    assert_eq!(decoded, json(r#"{}"#));
}

#[test]
fn render_payload_summary_orders_by_field_number_and_quotes_strings() {
    let payload = json(r#"{ "2": 42, "1": {"utf8": "US/Pacific", "nested": null, "hex": "..."} }"#);
    assert_eq!(
        render_payload_summary(&payload).unwrap(),
        "1: \"US/Pacific\"  |  2: 42"
    );
}

#[test]
fn render_payload_summary_sorts_numerically_not_lexically() {
    // "10" must sort after "2", not between "1" and "2".
    let payload = json(r#"{"1": 1, "2": 2, "10": 10}"#);
    assert_eq!(
        render_payload_summary(&payload).unwrap(),
        "1: 1  |  2: 2  |  10: 10"
    );
}

#[test]
fn render_payload_summary_collapses_a_single_repeated_value_but_lists_several() {
    let single = json(r#"{"1": [7]}"#);
    let multiple = json(r#"{"1": [7, 8]}"#);
    assert_eq!(render_payload_summary(&single).unwrap(), "1: 7");
    assert_eq!(render_payload_summary(&multiple).unwrap(), "1: [7, 8]");
}

#[test]
fn render_payload_summary_shows_a_byte_preview_for_undecodable_bytes() {
    let payload = json(r#"{"1": {"utf8": null, "nested": null, "hex": "ff00"}}"#);
    assert_eq!(render_payload_summary(&payload).unwrap(), "1: <2 B: ff00>");
}

#[test]
fn render_payload_summary_renders_a_nested_message_recursively() {
    let payload = json(r#"{ "1": {"utf8": null, "nested": {"1": {"utf8": "inner", "nested": null, "hex": "..."}}, "hex": "..."} }"#);
    assert_eq!(
        render_payload_summary(&payload).unwrap(),
        "1: {1: \"inner\"}"
    );
}

#[test]
fn render_payload_summary_appends_a_decode_error_note_after_real_fields() {
    let payload = json(r#"{"1": 1, "_decode_error": "invalid field number 0 at byte 2"}"#);
    assert_eq!(
        render_payload_summary(&payload).unwrap(),
        "1: 1  |  decode error: invalid field number 0 at byte 2"
    );
}

#[test]
fn render_payload_summary_is_none_for_an_empty_payload() {
    assert_eq!(render_payload_summary(&json(r#"{}"#)), None);
}

#[test]
fn numbers_are_read_seven_bits_at_a_time() {
    let mut pos = 0;
    assert_eq!(read_varint(&[0x96, 0x01, 0x05], &mut pos), Some(150));
    assert_eq!(pos, 2);
    assert_eq!(read_varint(&[0x96, 0x01, 0x05], &mut pos), Some(5));
    assert_eq!(pos, 3);
    let mut pos = 0;
    let mut longest = vec![0xFFu8; 9];
    longest.push(0x01);
    assert_eq!(read_varint(&longest, &mut pos), Some(u64::MAX));
    let mut pos = 0;
    assert_eq!(read_varint(&[0x80u8; 11], &mut pos), None);
}

#[test]
fn fixed_widths_are_read_whole_or_not_at_all() {
    let mut pos = 1;
    assert_eq!(read_fixed(&[1, 2, 3, 4, 5], &mut pos, 4), Some(vec![2, 3, 4, 5]));
    assert_eq!(pos, 5);
    assert_eq!(read_fixed(&[1, 2, 3, 4, 5], &mut pos, 1), None);
}

#[test]
fn a_single_is_widened_without_loss() {
    let mut bytes = tag(3, 5);
    bytes.extend_from_slice(&0.1f32.to_le_bytes());
    let decoded = decode_message(&bytes, &FloatTexts { entries: Vec::new() });
    assert_eq!(decoded.float_bits(), vec![(0.1f32 as f64).to_bits()]);
}

#[test]
fn numbers_that_are_not_finite_are_null() {
    let mut bytes = tag(1, 1);
    bytes.extend_from_slice(&f64::NAN.to_le_bytes());
    bytes.extend(tag(2, 5));
    bytes.extend_from_slice(&f32::INFINITY.to_le_bytes());
    assert_eq!(decode(&bytes), json("{\"1\": null, \"2\": null}"));
}

#[test]
fn nesting_stops_at_a_depth() {
    let mut bytes = tag(1, 0);
    bytes.extend(varint_bytes(7));
    for _ in 0..MAX_DECODE_DEPTH + 3 {
        let mut outer = tag(1, 2);
        outer.extend(varint_bytes(bytes.len() as u64));
        outer.extend(&bytes);
        bytes = outer;
    }
    let decoded = decode(&bytes);
    let mut depth = 0;
    let mut at = &decoded;
    while let Some(inner) = at.at(&["1", "nested"]) {
        if *inner == Json::Null {
            break;
        }
        at = inner;
        depth += 1;
    }
    assert!(depth < MAX_DECODE_DEPTH + 3);
    assert!(decoded.get("_decode_error").is_none());
}

#[test]
fn truncated_fields_are_errors() {
    for bytes in [vec![0x09u8, 1, 2], vec![0x0D, 1], vec![0x0A, 5, 1], vec![0x08]] {
        assert!(decode(&bytes).get("_decode_error").is_some());
    }
}

#[test]
fn every_field_uses_up_some_of_the_work() {
    let one = [0x08u8, 0x01];
    let enough = decode(&one.repeat(MAX_DECODE_WORK));
    assert_eq!(enough.get("_decode_error"), None);
    let too_many = decode(&one.repeat(MAX_DECODE_WORK + 1));
    assert_eq!(
        too_many.get("_decode_error"),
        Some(&Json::Text("decode work budget exceeded".to_string()))
    );
}

#[test]
fn an_error_without_a_field_is_nothing_to_show() {
    assert_eq!(render_payload_summary(&json(r#"{"_decode_error": "why"}"#)), None);
    assert_eq!(
        render_payload_summary(&json(r#"{"1": null, "_decode_error": "why"}"#)),
        Some("decode error: why".to_string())
    );
    assert_eq!(render_payload_summary(&json(r#"{"1": null}"#)), None);
}

#[test]
fn messages_one_behind_the_other_decode_to_the_fields_of_both() {
    let first = [0x08, 0x01, 0x12, 0x01, b'a'];
    let second = [0x08, 0x02, 0x18, 0x05, 0x08, 0x03];
    let both = decode(&[&first[..], &second[..]].concat());
    assert_eq!(both.get("1"), Some(&json("[1,2,3]")));
    assert_eq!(both.get("2"), decode(&first).get("2"));
    assert_eq!(both.get("3"), decode(&second).get("3"));
    assert_eq!(both.get("_decode_error"), None);
}

#[test]
fn fields_before_undecodable_bytes_are_kept() {
    let whole = [0x08, 0x01, 0x12, 0x01, b'a'];
    for rest in [&[0x00][..], &[0x08][..], &[0x08, 0x02, 0x0b][..]] {
        let decoded = decode(&[&whole[..], rest].concat());
        assert!(decoded.get("_decode_error").is_some());
        assert_eq!(decoded.get("2"), decode(&whole).get("2"));
        let ones = decoded.get("1").unwrap();
        assert!(*ones == json("1") || *ones == json("[1,2]"));
    }
}
