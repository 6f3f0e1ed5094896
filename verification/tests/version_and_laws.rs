use composer_rs::constraint::Constraint;
use composer_rs::json::{JsonMap, JsonValue};
use composer_rs::php_json::{encode, Mode};
use composer_rs::stability::Stability;
use composer_rs::version::{is_branch_alias, CmpOp, ParseError, Suffix, Version, VersionKind};
use std::cmp::Ordering;

fn v(s: &str) -> Version {
    Version::parse(s).unwrap()
}

#[test]
fn version_order_is_a_total_preorder_on_samples() {
    let samples = [
        "dev-main", "dev-feature", "1.0.0-dev", "1.0.0-alpha1", "1.0.0-beta2-dev", "1.0.0-beta2",
        "1.0.0-RC1", "1.0.0", "1.0.0-patch1", "1.0", "1.0.1", "2.x-dev", "10.0.0", "9.9.9",
        "2010.01.02", "2010.1.2",
    ];
    let vs: Vec<Version> = samples.iter().map(|s| v(s)).collect();
    for a in &vs {
        assert_eq!(a.cmp(a), Ordering::Equal);
        for b in &vs {
            assert_eq!(a.cmp(b), b.cmp(a).reverse());
            for c in &vs {
                if a.cmp(b) != Ordering::Greater && b.cmp(c) != Ordering::Greater {
                    assert_ne!(a.cmp(c), Ordering::Greater);
                }
            }
        }
    }
    assert_eq!(v("1.0").cmp(&v("1.0.0")), Ordering::Equal);
    assert_eq!(v("10.0.0").cmp(&v("9.9.9")), Ordering::Greater);
    assert_eq!(v("1.0.0-beta2-dev").cmp(&v("1.0.0-alpha1")), Ordering::Greater);
    assert_eq!(v("dev-main").cmp(&v("1.0.0-dev")), Ordering::Less);
}

#[test]
fn comparator_operators_relate_as_stated() {
    let vs = [v("1.0.0"), v("1.0.0-beta"), v("2.0"), v("dev-a"), v("dev-b")];
    let ops = [CmpOp::Gt, CmpOp::Ge, CmpOp::Lt, CmpOp::Le, CmpOp::Eq, CmpOp::Ne];
    for a in &vs {
        for b in &vs {
            assert_eq!(a.compare(CmpOp::Gt, b), b.compare(CmpOp::Lt, a));
            assert_eq!(a.compare(CmpOp::Ge, b), b.compare(CmpOp::Le, a));
            let both_branches = a.normalized.starts_with("dev-") && b.normalized.starts_with("dev-");
            if both_branches {
                assert!(!a.compare(CmpOp::Ne, b));
            } else {
                assert_eq!(a.compare(CmpOp::Ne, b), !a.compare(CmpOp::Eq, b));
            }
            assert_eq!(a.compare(CmpOp::Ge, b), a.compare(CmpOp::Gt, b) || a.compare(CmpOp::Eq, b));
        }
    }
    // Two different branches are incomparable: every operator fails, `!=` too.
    for op in ops {
        assert!(!v("dev-foo").compare(op, &v("dev-bar")));
    }
    assert!(v("dev-foo").compare(CmpOp::Eq, &v("dev-foo")));
    assert!(!v("dev-foo").compare(CmpOp::Ne, &v("dev-foo")));
}

#[test]
fn stability_keywords_round_trip() {
    for st in [Stability::Dev, Stability::Alpha, Stability::Beta, Stability::Rc, Stability::Stable] {
        assert_eq!(Stability::parse(st.as_str()), Some(st));
    }
    assert_eq!(Stability::parse("STABLE"), Some(Stability::Stable));
    assert_eq!(Stability::parse("gamma"), None);
    assert!(Stability::Dev < Stability::Alpha && Stability::Rc < Stability::Stable);
}

#[test]
fn version_stability_and_suffixes() {
    assert_eq!(v("1.0.0").stability(), Stability::Stable);
    assert_eq!(v("1.0.0-patch2").stability(), Stability::Stable);
    assert_eq!(v("1.0.0-beta3").stability(), Stability::Beta);
    assert_eq!(v("1.0.0-RC1-dev").stability(), Stability::Dev);
    assert_eq!(v("dev-main").stability(), Stability::Dev);
    let w = v("1.2.3").with_suffix(Suffix::Dev).unwrap();
    assert_eq!(w.normalized, "1.2.3.0-dev");
    assert!(w.cmp(&v("1.2.3-alpha")) == Ordering::Less);
    assert!(v("dev-x").with_suffix(Suffix::Dev).is_none());
}

#[test]
fn branch_helpers() {
    assert_eq!(Version::parse_numeric_alias_prefix("1.x-dev"), Some("1.".to_owned()));
    assert_eq!(Version::parse_numeric_alias_prefix("1.2-dev"), Some("1.2.".to_owned()));
    assert_eq!(Version::parse_numeric_alias_prefix("v1.2.x-dev"), Some("1.2.".to_owned()));
    assert_eq!(Version::parse_numeric_alias_prefix("x-dev"), Some(String::new()));
    assert_eq!(Version::parse_numeric_alias_prefix("dev-master"), None);
    assert_eq!(Version::parse_numeric_alias_prefix("-dev"), None);
    assert_eq!(Version::normalize_branch("1.x"), "1.9999999.9999999.9999999-dev");
    assert_eq!(Version::normalize_branch("v2.1"), "2.1.9999999.9999999-dev");
    assert_eq!(Version::normalize_branch("feature"), "dev-feature");
    assert_eq!(Version::normalize_branch("very-branch"), "dev-very-branch");
    assert_eq!(Version::normalize_branch("v1.x.y"), "dev-v1.x.y");
    assert_eq!(Version::normalize_default_branch("dev-master"), "9999999-dev");
    assert_eq!(Version::normalize_default_branch("dev-trunk"), "9999999-dev");
    assert_eq!(Version::normalize_default_branch("dev-main"), "dev-main");
    assert!(is_branch_alias("1.x-dev"));
    assert!(is_branch_alias("  v1.2.x-dev "));
    assert!(!is_branch_alias("dev-main"));
}

#[test]
fn parse_stability_reads_the_modifier() {
    assert_eq!(Version::parse_stability("1.0.0"), Stability::Stable);
    assert_eq!(Version::parse_stability("1.0.0-b2"), Stability::Beta);
    assert_eq!(Version::parse_stability("1.0.0-ALPHA"), Stability::Alpha);
    assert_eq!(Version::parse_stability("1.0.0RC3"), Stability::Rc);
    assert_eq!(Version::parse_stability("dev-foo"), Stability::Dev);
    assert_eq!(Version::parse_stability("1.0.x-dev#abc"), Stability::Dev);
    assert_eq!(Version::parse_stability("1.0.0-pl1"), Stability::Stable);
}

#[test]
fn version_error_message() {
    match Version::parse("nope!") {
        Err(e) => {
            let ParseError::Invalid(m) = &e;
            assert_eq!(m, "nope!");
            assert_eq!(e.message(), "invalid version: \"nope!\"");
        }
        Ok(x) => panic!("parsed {:?}", x.normalized),
    }
}

#[test]
fn hash_output_is_ascii() {
    let v = JsonValue::Object(JsonMap {
        entries: vec![
            ("naïve/é".to_owned(), JsonValue::String("\u{2028}ü\u{1f600}\u{7f}".to_owned())),
            ("k".to_owned(), JsonValue::Array(vec![JsonValue::String("日本".to_owned())])),
        ],
    });
    let out = encode(&v, Mode::Hash);
    assert!(out.iter().all(|b| *b < 0x80));
    let pretty = encode(&v, Mode::Pretty);
    assert!(pretty.iter().any(|b| *b >= 0x80));
}

#[test]
fn union_parses_each_side() {
    for (a, b) in [("^1.2", "~2.0"), (" >=1.0,<2 ", "3.*"), ("dev-main", "1.0.0")] {
        let whole = Constraint::parse(&format!("{a} || {b}")).unwrap();
        let x = Constraint::parse(a).unwrap();
        let y = Constraint::parse(b).unwrap();
        assert_eq!(whole, Constraint::Or(vec![x, y]));
    }
    let bad = Constraint::parse("^1.2 || nonsense!").unwrap_err();
    assert_eq!(bad, Constraint::parse("nonsense!").unwrap_err());
    let first = Constraint::parse("junk? || also junk?").unwrap_err();
    assert_eq!(first, Constraint::parse("junk?").unwrap_err());
}

#[test]
fn parsed_versions_have_their_shape() {
    for s in ["1.2.3-beta2", "2.0-RC", "1.0.0-patch4-dev", "dev-feature/x", "2010-01-02", "1.x-dev", "v3", "\u{661}.\u{662}"] {
        let p = v(s);
        let expected = match &p.kind {
            VersionKind::Branch(b) => format!("dev-{b}"),
            VersionKind::Numeric { segments_raw, suffix } => {
                let tail = match suffix {
                    Suffix::Stable => String::new(),
                    Suffix::Patch(n) => format!("-patch{n}"),
                    Suffix::Prerelease { stability, num } => format!("-{}{num}", stability.as_str()),
                    Suffix::Dev => "-dev".to_owned(),
                    Suffix::PrereleaseDev { stability, num } => format!("-{}{num}-dev", stability.as_str()),
                    Suffix::PatchDev(n) => format!("-patch{n}-dev"),
                };
                assert!(!segments_raw.is_empty(), "{s}");
                assert!(segments_raw.iter().all(|g| !g.is_empty() && g.chars().all(char::is_numeric)), "{s}");
                segments_raw.join(".") + &tail
            }
        };
        assert_eq!(p.normalized, expected, "{s}");
    }
}
