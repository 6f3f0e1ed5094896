use composer_rs::json::{JsonMap, JsonNumber, JsonValue};
use composer_rs::wire::{expand_versions, minify_versions, PackageDocument, RootManifest};
use serde_json::Value;

fn conv(v: &Value) -> JsonValue {
    match v {
        Value::Null => JsonValue::Null,
        Value::Bool(b) => JsonValue::Bool(*b),
        Value::Number(n) => JsonValue::Number(if let Some(i) = n.as_i64() {
            JsonNumber::Int(i)
        } else if let Some(u) = n.as_u64() {
            JsonNumber::UInt(u)
        } else {
            JsonNumber::Float(n.as_f64().unwrap().to_string())
        }),
        Value::String(s) => JsonValue::String(s.clone()),
        Value::Array(a) => JsonValue::Array(a.iter().map(conv).collect()),
        Value::Object(o) => JsonValue::Object(JsonMap {
            entries: o.iter().map(|(k, v)| (k.clone(), conv(v))).collect(),
        }),
    }
}

fn json(text: &str) -> JsonValue {
    conv(&serde_json::from_str::<Value>(text).unwrap())
}

fn obj(text: &str) -> JsonMap {
    match json(text) {
        JsonValue::Object(m) => m,
        _ => panic!("expected a JSON object"),
    }
}

/// A `/p2/` document read from JSON text (package lists in name order).
fn doc(body: &str) -> PackageDocument {
    let v: Value = serde_json::from_str(body).unwrap();
    let minified = v.get("minified").and_then(Value::as_str).map(str::to_owned);
    let mut packages: Vec<(String, Vec<JsonMap>)> = Vec::new();
    if let Some(Value::Object(ps)) = v.get("packages") {
        for (name, list) in ps {
            let versions = match list {
                Value::Array(items) => items
                    .iter()
                    .map(|item| match conv(item) {
                        JsonValue::Object(m) => m,
                        _ => panic!("expected a JSON object"),
                    })
                    .collect(),
                _ => panic!("expected a version list"),
            };
            packages.push((name.clone(), versions));
        }
    }
    packages.sort_by(|a, b| a.0.cmp(&b.0));
    PackageDocument { minified, packages }
}

fn key(m: &JsonMap, k: &str) -> Option<JsonValue> {
    m.entries.iter().find(|(name, _)| name == k).map(|(_, v)| v.duplicate())
}

fn field(v: &JsonValue, k: &str) -> JsonValue {
    match v {
        JsonValue::Object(m) => key(m, k).expect("key present"),
        _ => panic!("expected a JSON object"),
    }
}

fn same(a: &JsonValue, b: &JsonValue) -> bool {
    a.equals(b)
}

fn package<'a>(expanded: &'a [(String, Vec<JsonMap>)], name: &str) -> &'a Vec<JsonMap> {
    &expanded.iter().find(|(n, _)| n == name).expect("package present").1
}

fn all_equal(a: &[JsonMap], b: &[JsonMap]) -> bool {
    a.len() == b.len() && a.iter().zip(b).all(|(x, y)| x.equals(y))
}

#[test]
fn expand_inherits_and_overrides() {
    let versions = vec![
        obj(r#"{"name":"a/b","version":"2.0.0","require":{"php":">=8"}}"#),
        obj(r#"{"version":"1.0.0"}"#),
    ];
    let expanded = expand_versions(versions);
    assert!(same(&key(&expanded[1], "name").unwrap(), &json(r#""a/b""#)));
    assert!(same(&field(&key(&expanded[1], "require").unwrap(), "php"), &json(r#"">=8""#)));
    assert!(same(&key(&expanded[1], "version").unwrap(), &json(r#""1.0.0""#)));
}

#[test]
fn minify_is_inverse_of_expand() {
    let full = vec![
        obj(r#"{"name":"a/b","version":"3.0.0","type":"library","require":{"php":">=8.1"},"dist":{"type":"zip","url":"u3"}}"#),
        obj(r#"{"name":"a/b","version":"2.0.0","type":"library","require":{"php":">=8.1"},"dist":{"type":"zip","url":"u2"}}"#),
        obj(r#"{"name":"a/b","version":"1.0.0","type":"library","require":{"php":">=7.4"},"dist":{"type":"zip","url":"u1"}}"#),
    ];
    let mini = minify_versions(&full);
    assert!(!mini[1].contains_key(&"name".to_owned()));
    assert!(!mini[1].contains_key(&"type".to_owned()));
    assert!(!mini[1].contains_key(&"require".to_owned()));
    assert!(mini[1].contains_key(&"version".to_owned()));
    assert!(mini[2].contains_key(&"require".to_owned()));
    assert!(all_equal(&expand_versions(mini), &full));
}

#[test]
fn minify_emits_unset_for_dropped_keys() {
    let full = vec![
        obj(r#"{"name":"a/b","version":"2.0.0","require":{"php":">=8"}}"#),
        obj(r#"{"name":"a/b","version":"1.0.0"}"#),
    ];
    let mini = minify_versions(&full);
    assert!(same(&key(&mini[1], "require").unwrap(), &json(r#""__unset""#)));
    assert!(all_equal(&expand_versions(mini), &full));
}

#[test]
fn unset_in_input_removes_key() {
    let versions = vec![
        obj(r#"{"name":"a/b","version":"2.0.0","require":{"php":">=8"}}"#),
        obj(r#"{"version":"1.0.0","require":"__unset"}"#),
    ];
    let expanded = expand_versions(versions);
    assert!(key(&expanded[1], "require").is_none());
    assert!(same(&key(&expanded[1], "name").unwrap(), &json(r#""a/b""#)));
}

#[test]
fn parses_a_single_fully_expanded_version() {
    let body = r#"{ "packages": { "monolog/monolog": [
        {"name":"monolog/monolog","version":"3.0.0","require":{"php":">=8.1"}}
    ] } }"#;
    let expanded = doc(body).expand();
    let v = package(&expanded, "monolog/monolog");
    assert_eq!(v.len(), 1);
    assert!(same(&key(&v[0], "version").unwrap(), &json(r#""3.0.0""#)));
    assert!(same(&field(&key(&v[0], "require").unwrap(), "php"), &json(r#"">=8.1""#)));
}

#[test]
fn expands_minified_composer_2_0_inheritance() {
    let body = r#"{ "minified":"composer/2.0", "packages": { "acme/foo": [
        {"name":"acme/foo","version":"3.0.0","type":"library","dist":{"type":"zip","url":"https://e/3.0.0.zip"},"require":{"php":">=8.1"}},
        {"version":"2.5.0","dist":{"type":"zip","url":"https://e/2.5.0.zip"}},
        {"version":"2.0.0","dist":{"type":"zip","url":"https://e/2.0.0.zip"},"require":{"php":">=7.4"},"require-dev":{"phpunit/phpunit":"^9"}}
    ] } }"#;
    let expanded = doc(body).expand();
    let v = package(&expanded, "acme/foo");
    assert_eq!(v.len(), 3);
    assert!(same(&key(&v[0], "version").unwrap(), &json(r#""3.0.0""#)));
    assert!(same(&key(&v[1], "version").unwrap(), &json(r#""2.5.0""#)));
    assert!(same(&key(&v[1], "name").unwrap(), &json(r#""acme/foo""#)));
    assert!(same(&key(&v[1], "type").unwrap(), &json(r#""library""#)));
    assert!(same(&field(&key(&v[1], "require").unwrap(), "php"), &json(r#"">=8.1""#)));
    assert!(same(&field(&key(&v[1], "dist").unwrap(), "url"), &json(r#""https://e/2.5.0.zip""#)));
    assert!(same(&field(&key(&v[2], "require").unwrap(), "php"), &json(r#"">=7.4""#)));
    assert!(same(&field(&key(&v[2], "require-dev").unwrap(), "phpunit/phpunit"), &json(r#""^9""#)));
    assert!(same(&key(&v[2], "name").unwrap(), &json(r#""acme/foo""#)));
}

#[test]
fn unset_sentinel_resets_inherited_key() {
    let body = r#"{ "minified":"composer/2.0", "packages": { "acme/bar": [
        {"name":"acme/bar","version":"2.0.0","require":{"php":">=8.0"}},
        {"version":"1.0.0","require":"__unset"}
    ] } }"#;
    let expanded = doc(body).expand();
    let v = package(&expanded, "acme/bar");
    assert!(same(&key(&v[1], "version").unwrap(), &json(r#""1.0.0""#)));
    assert!(key(&v[1], "require").is_none());
    assert!(same(&key(&v[1], "name").unwrap(), &json(r#""acme/bar""#)));
}

#[test]
fn non_minified_response_is_returned_as_is() {
    let body = r#"{ "packages": { "acme/baz": [
        {"name":"acme/baz","version":"2.0.0","require":{"php":">=8.0"}},
        {"name":"acme/baz","version":"1.0.0"}
    ] } }"#;
    let expanded = doc(body).expand();
    let v = package(&expanded, "acme/baz");
    assert!(same(&field(&key(&v[0], "require").unwrap(), "php"), &json(r#"">=8.0""#)));
    assert!(key(&v[1], "require").is_none());
}

#[test]
fn unknown_minified_marker_is_treated_as_non_minified() {
    let body = r#"{ "minified":"composer/2.1", "packages": { "acme/qux": [
        {"name":"acme/qux","version":"2.0.0"}
    ] } }"#;
    let expanded = doc(body).expand();
    assert_eq!(package(&expanded, "acme/qux").len(), 1);
    assert!(same(&key(&package(&expanded, "acme/qux")[0], "version").unwrap(), &json(r#""2.0.0""#)));
}

#[test]
fn empty_packages_map_parses() {
    let body = r#"{"minified":"composer/2.0","packages":{}}"#;
    let expanded = doc(body).expand();
    assert!(expanded.is_empty());
}

#[test]
fn minified_constructor_round_trips_through_expand() {
    let packages = || {
        vec![(
            "acme/foo".to_owned(),
            vec![
                obj(r#"{"name":"acme/foo","version":"2.0.0","require":{"php":">=8"}}"#),
                obj(r#"{"name":"acme/foo","version":"1.0.0","require":{"php":">=8"}}"#),
            ],
        )]
    };
    let d = PackageDocument::minified(packages());
    assert_eq!(d.minified.as_deref(), Some("composer/2.0"));
    let expanded = d.expand();
    let full = packages();
    assert_eq!(expanded.len(), full.len());
    assert_eq!(expanded[0].0, full[0].0);
    assert!(all_equal(&expanded[0].1, &full[0].1));
}

#[test]
fn root_manifest_v2_render_and_round_trip() {
    let root = RootManifest::v2(
        "https://r.test/",
        vec!["acme/widget".to_owned(), "acme/gadget".to_owned()],
    );
    assert_eq!(
        root.metadata_url.as_deref(),
        Some("https://r.test/p2/%package%.json")
    );
    assert_eq!(
        root.available_packages,
        Some(vec!["acme/widget".to_owned(), "acme/gadget".to_owned()])
    );
}

#[test]
fn flat_document_keeps_versions_standalone() {
    let d = PackageDocument::flat(vec![(
        "acme/a".to_owned(),
        vec![obj(r#"{"version":"2.0.0","require":"__unset"}"#), obj(r#"{"version":"1.0.0"}"#)],
    )]);
    assert!(d.minified.is_none());
    let expanded = d.expand();
    // Stand-alone entries are not diffs: the sentinel stays, nothing is inherited.
    assert!(same(&key(&expanded[0].1[0], "require").unwrap(), &json(r#""__unset""#)));
    assert!(key(&expanded[0].1[1], "require").is_none());
}

#[test]
fn metadata_template_trims_every_trailing_slash() {
    assert_eq!(RootManifest::metadata_template("https://r.test//"), "https://r.test/p2/%package%.json");
    assert_eq!(RootManifest::metadata_template(""), "/p2/%package%.json");
}

#[test]
fn removal_moves_the_last_key_into_place() {
    let mut m = obj(r#"{"a":1,"b":2,"c":3}"#);
    m.remove(&"a".to_owned());
    let keys: Vec<&str> = m.entries.iter().map(|(k, _)| k.as_str()).collect();
    assert_eq!(keys, vec!["c", "b"]);
    m.insert("b".to_owned(), json("5"));
    m.insert("d".to_owned(), json("null"));
    let keys: Vec<&str> = m.entries.iter().map(|(k, _)| k.as_str()).collect();
    assert_eq!(keys, vec!["c", "b", "d"]);
    assert!(same(&key(&m, "b").unwrap(), &json("5")));
}

#[test]
fn object_equality_ignores_key_order_and_zero_sign() {
    assert!(json(r#"{"a":1,"b":[true,null]}"#).equals(&json(r#"{"b":[true,null],"a":1}"#)));
    assert!(!json(r#"{"a":1}"#).equals(&json(r#"{"a":1,"b":2}"#)));
    assert!(!json("[1,2]").equals(&json("[2,1]")));
    assert!(json("0.0").equals(&json("-0.0")));
    assert!(!json("1.0").equals(&json("1")));
    assert!(json("18446744073709551615").equals(&json("18446744073709551615")));
}

#[test]
fn minify_keeps_equal_values_under_reordered_keys() {
    // The second version's `require` equals the first's as a key/value set,
    // so the diff omits it and expansion inherits the first one's object.
    let full = vec![
        obj(r#"{"version":"2.0.0","require":{"php":">=8","ext-json":"*"}}"#),
        obj(r#"{"version":"1.0.0","require":{"ext-json":"*","php":">=8"}}"#),
    ];
    let mini = minify_versions(&full);
    assert!(!mini[1].contains_key(&"require".to_owned()));
    assert!(all_equal(&expand_versions(mini), &full));
}

#[test]
fn null_overwrites_while_unset_removes() {
    let expanded = expand_versions(vec![
        obj(r#"{"a":1,"b":2}"#),
        obj(r#"{"a":null,"b":"__unset"}"#),
    ]);
    assert!(same(&key(&expanded[1], "a").unwrap(), &json("null")));
    assert!(key(&expanded[1], "b").is_none());
    assert!(same(&key(&expanded[0], "b").unwrap(), &json("2")));
}
