//! Values: numbers, texts, documents, instants, orders.

use peach::bytes::{copy_range, read_i32, read_u32, read_u64};
use peach::double::{
    double_is_finite, rank_double, round_double, same_double, single_is_finite, widen, FloatTexts,
};
use peach::json::{clone_members, find_key, insert, parse_json, Json};
use peach::order::{sort_texts, sorted_positions, text_positions, SortKey};
use peach::paths::{
    file_name_of_path, join_path, parent_of_path, path_from_steps, steps_of_path, stem_of_name,
};
use peach::text::{
    contains, dec_i64, dec_u64, eq_ignore_ascii_case, has_extension, has_extension_ignoring_case,
    has_suffix, hex_encode, join, lines, parse_i64, parse_u64, prefixed_hex_u64, same,
    split, split_once, text_less, trim,
};
use peach::time::{from_nanos, Timestamp};
use peach::toml_doc::{may_text, need_table, need_text, parse_toml, Toml};

fn texts(list: &[&str]) -> Vec<String> {
    list.iter().map(|s| s.to_string()).collect()
}

#[test]
fn numbers_are_read_with_the_lowest_byte_first() {
    let bytes = [1, 2, 3, 4, 5, 6, 7, 8, 9];
    assert_eq!(read_u32(&bytes, 1), 0x0504_0302);
    assert_eq!(read_u64(&bytes, 1), 0x0908_0706_0504_0302);
    assert_eq!(read_i32(&[0xFE, 0xFF, 0xFF, 0xFF], 0), -2);
    assert_eq!(copy_range(&bytes, 2, 4), vec![3, 4]);
}

#[test]
fn doubles_are_classified_by_their_bits() {
    assert!(double_is_finite(1.5f64.to_bits()));
    assert!(!double_is_finite(f64::INFINITY.to_bits()));
    assert!(!double_is_finite(f64::NAN.to_bits()));
    assert!(single_is_finite(f32::MAX.to_bits()));
    assert!(!single_is_finite(f32::NAN.to_bits()));
    assert!(same_double(0.0f64.to_bits(), (-0.0f64).to_bits()));
    assert!(!same_double(f64::NAN.to_bits(), f64::NAN.to_bits()));
    assert!(same_double(2.5f64.to_bits(), 2.5f64.to_bits()));
}

#[test]
fn widening_keeps_the_number() {
    for x in [0.0f32, -0.0, 1.0, -2.5, 0.1, f32::MAX, f32::MIN_POSITIVE, 1e-45, 3e-39] {
        assert_eq!(widen(x.to_bits()), (x as f64).to_bits(), "{x}");
    }
}

#[test]
fn rounding_goes_away_from_zero_and_stops_at_the_ends() {
    for x in [
        0.0f64, -0.0, 0.4, 0.5, -0.5, 1.5, 2.5, -2.5, 1e15, -1e15, 4503599627370497.5, 1e18,
        1_640_995_200_000_000_000.0, 9.3e18, -9.3e18, f64::MAX, f64::MIN, f64::INFINITY,
        f64::NEG_INFINITY, f64::NAN, 1e-300,
    ] {
        assert_eq!(round_double(x.to_bits()), x.round() as i64, "{x}");
    }
}

#[test]
fn ranks_order_doubles_totally() {
    let ascending = [
        f64::NEG_INFINITY, -1e300, -1.0, -1e-300, -0.0, 0.0, 1e-300, 1.0, 1e300, f64::INFINITY,
        f64::NAN,
    ];
    for pair in ascending.windows(2) {
        assert!(rank_double(pair[0].to_bits()) < rank_double(pair[1].to_bits()));
    }
}

#[test]
fn the_text_of_a_double_is_the_first_one_given() {
    let table = FloatTexts { entries: vec![(1, "a".to_string()), (1, "b".to_string())] };
    assert_eq!(table.find(1).as_deref(), Some("a"));
    assert_eq!(table.find(2), None);
    assert_eq!(table.lookup(2), "");
}

#[test]
fn documents_are_read_and_written() {
    let text = "{\"b\":[1,-2,2.5,true,null],\"a\":{\"x\":\"\\u00e9\\n\"},\"b2\":18446744073709551615}";
    let value = parse_json(text).unwrap();
    assert_eq!(
        value.to_text(),
        "{\"b\":[1,-2,2.5,true,null],\"a\":{\"x\":\"é\\n\"},\"b2\":18446744073709551615}"
    );
    assert_eq!(value.at(&["b", "1"]).and_then(|v| v.as_i64()), Some(-2));
    assert_eq!(value.at(&["b", "01"]), None);
    assert_eq!(value.at(&["b", "5"]), None);
    assert_eq!(value.text_at(&["a", "x"]).map(|s| s.as_str()), Some("é\n"));
    assert_eq!(value.get("b2").and_then(|v| v.as_u64()), Some(u64::MAX));
    assert_eq!(value.get("b2").and_then(|v| v.as_i64()), None);
    assert_eq!(value.at(&["b", "2"]).and_then(|v| v.as_double()), Some(2.5f64.to_bits()));
    assert_eq!(value.at(&["b", "0"]).and_then(|v| v.as_double()), Some(1f64.to_bits()));
    assert_eq!(value.get("b2").and_then(|v| v.as_double()), Some((u64::MAX as f64).to_bits()));
    assert_eq!(value.at(&["b", "1"]).and_then(|v| v.as_double()), Some((-2f64).to_bits()));
    assert_eq!(value.float_bits(), vec![2.5f64.to_bits()]);
    assert_eq!(value.clone(), value);
    assert!(parse_json("{").is_err());
    assert!(parse_json(&"[".repeat(200)).is_err());
}

#[test]
fn control_characters_are_escaped() {
    let value = Json::Text("\"\\/\u{8}\u{c}\n\r\t\u{1}\u{7f}é".to_string());
    assert_eq!(value.to_text(), "\"\\\"\\\\/\\b\\f\\n\\r\\t\\u0001\u{7f}é\"");
    assert_eq!(parse_json(&value.to_text()).unwrap(), value);
}

#[test]
fn the_last_of_two_members_with_one_name_counts() {
    let value = parse_json("{\"a\":1,\"b\":2,\"a\":3}").unwrap();
    assert_eq!(value.to_text(), "{\"a\":3,\"b\":2}");
    let mut members = vec![("a".to_string(), Json::Null)];
    insert(&mut members, "a", Json::Bool(true));
    insert(&mut members, "b", Json::from_i64(-1));
    assert_eq!(find_key(&members, "b"), 1);
    assert_eq!(find_key(&members, "c"), 2);
    assert_eq!(
        Json::Object(clone_members(&members)).to_text(),
        "{\"a\":true,\"b\":-1}"
    );
}

#[test]
fn tables_are_read_with_their_types() {
    let doc = parse_toml(
        "t = \"x\"\ni = -3\nf = 1.5\nb = true\nd = 1979-05-27T07:32:00Z\na = [1]\n[u]\nv = 1\n",
    )
    .unwrap();
    assert_eq!(doc.get("t"), Some(&Toml::Text("x".to_string())));
    assert_eq!(doc.get("i"), Some(&Toml::Integer(-3)));
    assert_eq!(doc.get("f"), Some(&Toml::Float { bits: 1.5f64.to_bits() }));
    assert_eq!(doc.get("b"), Some(&Toml::Bool(true)));
    assert_eq!(doc.get("d"), Some(&Toml::Datetime("1979-05-27T07:32:00Z".to_string())));
    assert_eq!(doc.get("a"), Some(&Toml::Array(vec![Toml::Integer(1)])));
    assert_eq!(need_table(&doc, "u").unwrap().get("v"), Some(&Toml::Integer(1)));
    assert_eq!(need_text(&doc, "t").as_deref(), Ok("x"));
    assert!(need_text(&doc, "i").is_err());
    assert!(need_text(&doc, "none").is_err());
    assert_eq!(may_text(&doc, "none"), Ok(None));
    assert!(may_text(&doc, "i").is_err());
    assert!(need_table(&doc, "t").is_err());
    assert!(parse_toml("= 3").is_err());
    assert_eq!(doc.clone(), doc);
}

#[test]
fn decimal_texts_are_read_back() {
    for n in [0u64, 7, 10, 1234567890, u64::MAX] {
        assert_eq!(dec_u64(n), n.to_string());
        assert_eq!(parse_u64(&dec_u64(n)), Some(n));
    }
    for n in [0i64, -1, 42, i64::MAX, i64::MIN] {
        assert_eq!(dec_i64(n), n.to_string());
        assert_eq!(parse_i64(&dec_i64(n)), Some(n));
    }
    assert_eq!(parse_u64("18446744073709551616"), None);
    assert_eq!(parse_i64("9223372036854775808"), None);
    assert_eq!(parse_i64("-9223372036854775808"), Some(i64::MIN));
    assert_eq!(parse_u64("+5"), Some(5));
    for bad in ["", "+", "-", "1_0", " 1", "1 ", "٣"] {
        assert_eq!(parse_u64(bad), None);
        assert_eq!(parse_i64(bad), None);
    }
}

#[test]
fn texts_are_cut_and_joined() {
    assert_eq!(split("a,,b", ','), texts(&["a", "", "b"]));
    assert_eq!(split("", ','), texts(&[""]));
    assert_eq!(split_once("a=b=c", '='), Some(("a".to_string(), "b=c".to_string())));
    assert_eq!(split_once("a", '='), None);
    assert_eq!(join(&texts(&["a", "b"]), ", "), "a, b");
    assert_eq!(join(&Vec::new(), ", "), "");
    assert_eq!(trim(" \t\u{a0}x y\n"), "x y");
    assert_eq!(lines("a\r\nb\n\nc"), texts(&["a", "b", "", "c"]));
    assert_eq!(lines("a\n"), texts(&["a"]));
    assert_eq!(lines(""), Vec::<String>::new());
    assert_eq!(lines("a\r"), texts(&["a\r"]));
}

#[test]
fn texts_are_compared() {
    assert!(same("é", "é"));
    assert!(!same("é", "e"));
    assert!(eq_ignore_ascii_case("LoCaL", "lOcAl"));
    assert!(!eq_ignore_ascii_case("É", "é"));
    assert!(contains("abc", "bc"));
    assert!(contains("abc", ""));
    assert!(!contains("abc", "cb"));
    assert!(has_suffix("abc", "bc"));
    assert!(!has_suffix("c", "bc"));
    assert!(text_less("a", "ab"));
    assert!(text_less("Z", "a"));
    assert!(!text_less("a", "a"));
    // As the bytes do: a character beyond the first plane comes last.
    assert!(text_less("\u{ffff}", "\u{10000}"));
}

#[test]
fn bytes_are_written_in_hexadecimal() {
    assert_eq!(hex_encode(&[0, 0x0f, 0xa0, 0xff]), "000fa0ff");
    assert_eq!(hex_encode(&[]), "");
    assert_eq!(prefixed_hex_u64(0), "0x0");
    assert_eq!(prefixed_hex_u64(0xdead_beef), "0xdeadbeef");
}

#[test]
fn extensions_follow_the_last_dot() {
    assert!(has_extension("a.b.toml", "toml"));
    assert!(!has_extension(".toml", "toml"));
    assert!(!has_extension("a.TOML", "toml"));
    assert!(has_extension_ignoring_case("a.TOML", "toml"));
    assert!(!has_extension("toml", "toml"));
}

#[test]
fn positions_are_sorted_and_keep_the_order_of_equals() {
    let keys: Vec<SortKey> = [(2, "b", 0), (1, "a", 5), (1, "a", 5), (1, "", 9)]
        .iter()
        .map(|(rank, text, minor)| SortKey { rank: *rank, text: text.to_string(), minor: *minor })
        .collect();
    assert_eq!(sorted_positions(&keys), vec![3, 1, 2, 0]);
    assert_eq!(text_positions(&texts(&["b", "a", "b", "a"])), vec![1, 3, 0, 2]);
    assert_eq!(sort_texts(&texts(&["b", "Z", "a"])), texts(&["Z", "a", "b"]));
    assert!(sort_texts(&Vec::new()).is_empty());
}

#[test]
fn paths_are_taken_apart_and_put_together() {
    assert_eq!(join_path("/a", "b"), "/a/b");
    assert_eq!(join_path("/a/", "b"), "/a/b");
    assert_eq!(join_path("", "b"), "b");
    assert_eq!(steps_of_path("/a//b/./c/"), texts(&["a", "b", "c"]));
    assert_eq!(path_from_steps(true, &texts(&["a", "b"])), "/a/b");
    assert_eq!(path_from_steps(false, &texts(&["a"])), "a");
    assert_eq!(parent_of_path("/a/b").as_deref(), Some("/a"));
    assert_eq!(parent_of_path("/a").as_deref(), Some("/"));
    assert_eq!(parent_of_path("a").as_deref(), Some(""));
    assert_eq!(parent_of_path("/"), None);
    assert_eq!(file_name_of_path("/a/b.c/").as_deref(), Some("b.c"));
    assert_eq!(file_name_of_path("/a/.."), None);
    assert_eq!(stem_of_name("a.b.c"), "a.b");
    assert_eq!(stem_of_name(".hidden"), ".hidden");
}

#[test]
fn instants_are_counted_in_nanoseconds() {
    assert_eq!(from_nanos(1_500_000_001), Some(Timestamp { seconds: 1, nanos: 500_000_001 }));
    assert_eq!(from_nanos(-1), Some(Timestamp { seconds: -1, nanos: 999_999_999 }));
    assert_eq!(
        from_nanos(i64::MIN),
        Some(Timestamp { seconds: -9_223_372_037, nanos: 145_224_192 })
    );
}

#[test]
fn white_space_is_what_unicode_says() {
    let white: String = (0..=0x10ffff_u32)
        .filter_map(char::from_u32)
        .filter(|c| trim(&c.to_string()).is_empty())
        .collect();
    assert_eq!(
        white,
        "\t\n\u{b}\u{c}\r \u{85}\u{a0}\u{1680}\u{2000}\u{2001}\u{2002}\u{2003}\u{2004}\u{2005}\u{2006}\u{2007}\u{2008}\u{2009}\u{200a}\u{2028}\u{2029}\u{202f}\u{205f}\u{3000}"
    );
}
