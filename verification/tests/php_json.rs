use composer_rs::json::{JsonMap, JsonNumber, JsonValue};
use composer_rs::php_json::{encode, Mode};

fn enc(v: &JsonValue, mode: Mode) -> String {
    String::from_utf8(encode(v, mode)).expect("UTF-8 output")
}

fn s(x: &str) -> JsonValue {
    JsonValue::String(x.to_owned())
}

fn integer(i: i64) -> JsonValue {
    JsonValue::Number(JsonNumber::Int(i))
}

fn obj(entries: Vec<(&str, JsonValue)>) -> JsonValue {
    JsonValue::Object(JsonMap {
        entries: entries.into_iter().map(|(k, v)| (k.to_owned(), v)).collect(),
    })
}

fn float(f: f64) -> JsonValue {
    JsonValue::Number(JsonNumber::Float(f.to_string()))
}

#[test]
fn hash_escapes_forward_slash() {
    assert_eq!(enc(&s("a/b"), Mode::Hash), "\"a\\/b\"");
}

#[test]
fn pretty_leaves_forward_slash_raw() {
    assert_eq!(enc(&s("a/b"), Mode::Pretty), "\"a/b\"");
}

#[test]
fn both_modes_escape_double_quote_and_backslash() {
    assert_eq!(enc(&s("\""), Mode::Hash), "\"\\\"\"");
    assert_eq!(enc(&s("\""), Mode::Pretty), "\"\\\"\"");
    assert_eq!(enc(&s("\\"), Mode::Hash), "\"\\\\\"");
    assert_eq!(enc(&s("\\"), Mode::Pretty), "\"\\\\\"");
}

#[test]
fn named_c0_escapes() {
    assert_eq!(enc(&s("\u{08}"), Mode::Hash), "\"\\b\"");
    assert_eq!(enc(&s("\u{09}"), Mode::Hash), "\"\\t\"");
    assert_eq!(enc(&s("\u{0a}"), Mode::Hash), "\"\\n\"");
    assert_eq!(enc(&s("\u{0c}"), Mode::Hash), "\"\\f\"");
    assert_eq!(enc(&s("\u{0d}"), Mode::Hash), "\"\\r\"");
    assert_eq!(enc(&s("\u{01}"), Mode::Hash), "\"\\u0001\"");
    assert_eq!(enc(&s("\u{0b}"), Mode::Hash), "\"\\u000b\"");
    assert_eq!(enc(&s("\u{1f}"), Mode::Hash), "\"\\u001f\"");
}

#[test]
fn del_0x7f_is_raw() {
    let out = encode(&s("\u{7f}"), Mode::Hash);
    assert_eq!(out, vec![b'"', 0x7f, b'"']);
}

#[test]
fn hash_escapes_non_ascii_bmp_lowercase_hex() {
    assert_eq!(enc(&s("é"), Mode::Hash), "\"\\u00e9\"");
    assert_eq!(enc(&s("\u{201c}"), Mode::Hash), "\"\\u201c\"");
}

#[test]
fn hash_emits_surrogate_pair_for_supplementary_plane() {
    assert_eq!(enc(&s("\u{1f4a9}"), Mode::Hash), "\"\\ud83d\\udca9\"");
}

#[test]
fn pretty_emits_non_ascii_raw_utf8() {
    let out = encode(&s("é"), Mode::Pretty);
    assert_eq!(out, vec![b'"', 0xc3, 0xa9, b'"']);
}

#[test]
fn pretty_still_escapes_line_terminators() {
    assert_eq!(enc(&s("\u{2028}"), Mode::Pretty), "\"\\u2028\"");
    assert_eq!(enc(&s("\u{2029}"), Mode::Pretty), "\"\\u2029\"");
}

#[test]
fn empty_collections() {
    assert_eq!(enc(&JsonValue::Array(vec![]), Mode::Hash), "[]");
    assert_eq!(enc(&obj(vec![]), Mode::Hash), "{}");
    assert_eq!(enc(&JsonValue::Array(vec![]), Mode::Pretty), "[]");
    assert_eq!(enc(&obj(vec![]), Mode::Pretty), "{}");
}

#[test]
fn hash_compact_no_whitespace() {
    let v = obj(vec![
        ("name", s("acme/widget")),
        ("require", obj(vec![("php", s("^8.3"))])),
    ]);
    assert_eq!(
        enc(&v, Mode::Hash),
        "{\"name\":\"acme\\/widget\",\"require\":{\"php\":\"^8.3\"}}"
    );
}

#[test]
fn hash_preserves_nested_key_order() {
    let v = obj(vec![(
        "require",
        obj(vec![("php", s("^8.3")), ("ext-redis", s("*"))]),
    )]);
    let out = enc(&v, Mode::Hash);
    assert!(out.contains("\"php\":\"^8.3\",\"ext-redis\":\"*\""));
}

#[test]
fn pretty_uses_four_space_indent() {
    let v = obj(vec![("a", integer(1)), ("b", JsonValue::Array(vec![integer(2), integer(3)]))]);
    let expected = "{\n    \"a\": 1,\n    \"b\": [\n        2,\n        3\n    ]\n}";
    assert_eq!(enc(&v, Mode::Pretty), expected);
}

#[test]
fn integers_plain_decimal() {
    assert_eq!(enc(&integer(0), Mode::Hash), "0");
    assert_eq!(enc(&integer(-7), Mode::Hash), "-7");
    assert_eq!(enc(&integer(1_000_000_000_i64), Mode::Hash), "1000000000");
}

#[test]
fn floats_shortest_roundtrip_with_lowercase_e() {
    assert_eq!(enc(&float(0.1_f64), Mode::Hash), "0.1");
    let one: serde_json::Value = serde_json::from_str("1.0").unwrap();
    assert_eq!(enc(&float(one.as_f64().unwrap()), Mode::Hash), "1");
}

#[test]
fn null_true_false() {
    assert_eq!(enc(&JsonValue::Null, Mode::Hash), "null");
    assert_eq!(enc(&JsonValue::Bool(true), Mode::Hash), "true");
    assert_eq!(enc(&JsonValue::Bool(false), Mode::Hash), "false");
}

#[test]
fn integer_extremes_render_in_decimal() {
    assert_eq!(enc(&integer(i64::MIN), Mode::Hash), "-9223372036854775808");
    assert_eq!(enc(&integer(i64::MAX), Mode::Pretty), "9223372036854775807");
    assert_eq!(
        enc(&JsonValue::Number(JsonNumber::UInt(u64::MAX)), Mode::Hash),
        "18446744073709551615"
    );
}

#[test]
fn pretty_nested_object_in_array_indents_per_level() {
    let v = JsonValue::Array(vec![obj(vec![("k", JsonValue::Null)]), JsonValue::Array(vec![])]);
    assert_eq!(enc(&v, Mode::Pretty), "[\n    {\n        \"k\": null\n    },\n    []\n]");
    assert_eq!(enc(&v, Mode::Hash), "[{\"k\":null},[]]");
}

#[test]
fn keys_are_escaped_like_values() {
    let v = obj(vec![("a/é", JsonValue::Bool(true))]);
    assert_eq!(enc(&v, Mode::Hash), "{\"a\\/\\u00e9\":true}");
    assert_eq!(enc(&v, Mode::Pretty), "{\n    \"a/é\": true\n}");
}

#[test]
fn pretty_supplementary_plane_is_raw_utf8() {
    assert_eq!(encode(&s("\u{1f4a9}"), Mode::Pretty), vec![b'"', 0xf0, 0x9f, 0x92, 0xa9, b'"']);
    assert_eq!(encode(&s("\u{800}"), Mode::Pretty), vec![b'"', 0xe0, 0xa0, 0x80, b'"']);
}

fn from_serde(v: &serde_json::Value) -> JsonValue {
    match v {
        serde_json::Value::Null => JsonValue::Null,
        serde_json::Value::Bool(b) => JsonValue::Bool(*b),
        serde_json::Value::Number(n) => JsonValue::Number(if let Some(i) = n.as_i64() {
            JsonNumber::Int(i)
        } else {
            JsonNumber::UInt(n.as_u64().expect("an integer"))
        }),
        serde_json::Value::String(t) => JsonValue::String(t.clone()),
        serde_json::Value::Array(a) => JsonValue::Array(a.iter().map(from_serde).collect()),
        serde_json::Value::Object(o) => JsonValue::Object(JsonMap {
            entries: o.iter().map(|(k, v)| (k.clone(), from_serde(v))).collect(),
        }),
    }
}

#[test]
fn encoding_reads_back_as_the_value() {
    let value = obj(vec![
        ("a/b", s("quote \" backslash \\ slash / tab \t nl \n \u{1} del \u{7f}")),
        ("b", JsonValue::Array(vec![
            integer(i64::MIN),
            JsonValue::Number(JsonNumber::UInt(u64::MAX)),
            integer(0),
            integer(-7),
            JsonValue::Null,
            JsonValue::Bool(true),
            JsonValue::Bool(false),
            JsonValue::Array(vec![]),
            obj(vec![]),
        ])),
        ("c", s("é € \u{2028} \u{2029} 😀")),
        ("d", obj(vec![("x", JsonValue::Array(vec![s(""), integer(12)]))])),
    ]);
    for mode in [Mode::Hash, Mode::Pretty] {
        let bytes = encode(&value, mode);
        let read: serde_json::Value = serde_json::from_slice(&bytes).expect("valid JSON");
        assert!(from_serde(&read).equals(&value));
    }
}
