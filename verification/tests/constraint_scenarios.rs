use composer_rs::bound::Bound;
use composer_rs::constraint::{Constraint, ParseError};
use composer_rs::version::{CmpOp, Version};

/// A compact rendering: `>=1.2.0.0!` is an explicit lower bound.
fn show(c: &Constraint) -> String {
    match c {
        Constraint::Any => "*".to_owned(),
        Constraint::Op { op, version, explicit_lower_bound } => {
            let o = match op {
                CmpOp::Gt => ">",
                CmpOp::Ge => ">=",
                CmpOp::Lt => "<",
                CmpOp::Le => "<=",
                CmpOp::Eq => "==",
                CmpOp::Ne => "!=",
            };
            format!("{o}{}{}", version.normalized, if *explicit_lower_bound { "!" } else { "" })
        }
        Constraint::And(items) => items.iter().map(show).collect::<Vec<_>>().join(" "),
        Constraint::Or(items) => items.iter().map(show).collect::<Vec<_>>().join(" || "),
    }
}

fn parsed(s: &str) -> String {
    show(&Constraint::parse(s).unwrap())
}

fn err(s: &str) -> String {
    match Constraint::parse(s) {
        Err(ParseError::Invalid(m)) => m,
        Ok(c) => panic!("{s:?} parsed as {}", show(&c)),
    }
}

fn v(s: &str) -> Version {
    Version::parse(s).unwrap()
}

#[test]
fn prerelease_of_the_written_version_satisfies_caret_but_not_less_than() {
    assert!(Constraint::parse("^1.2.3").unwrap().matches(&v("1.2.3-beta")));
    assert!(!Constraint::parse("<1.2.3").unwrap().matches(&v("1.2.3-beta")));
    // A partial lower bound does not admit the prerelease.
    assert!(!Constraint::parse("^1.2").unwrap().matches(&v("1.2.0-beta")));
}

#[test]
fn caret_tilde_and_partial_expansions() {
    assert_eq!(parsed("^1.2.3"), ">=1.2.3.0! <2.0.0.0");
    assert_eq!(parsed("^0.0"), ">=0.0.0.0 <0.1.0.0");
    assert_eq!(parsed("~1.2"), ">=1.2.0.0 <2.0.0.0");
    assert_eq!(parsed("~1.2.3"), ">=1.2.3.0! <1.3.0.0");
    assert_eq!(parsed("1.2"), ">=1.2.0.0 <1.3.0.0");
    assert_eq!(parsed("1"), ">=1.0.0.0 <2.0.0.0");
    assert_eq!(parsed("1.2.3"), "==1.2.3.0!");
    assert_eq!(parsed("v1.2.3+build.5"), "==1.2.3.0!");
}

#[test]
fn wildcards() {
    assert_eq!(parsed("1.2.*"), ">=1.2.0.0 <1.3.0.0");
    assert_eq!(parsed("2.x.x"), ">=2.0.0.0 <3.0.0.0");
    assert_eq!(parsed("*"), "*");
    assert_eq!(parsed("x"), "*");
    assert_eq!(parsed("*.1"), "*");
}

#[test]
fn operators_keep_their_operand_across_separators() {
    assert_eq!(parsed(">= 1.2.3"), ">=1.2.3.0!");
    assert_eq!(parsed(">=, 1.2"), ">=1.2.0.0");
    assert_eq!(parsed("<> 2"), "!=2.0.0.0");
    assert_eq!(parsed(">1.0,<2.0"), ">1.0.0.0 <2.0.0.0");
    assert_eq!(parsed("=1.0 == 2"), "==1.0.0.0 ==2.0.0.0");
}

#[test]
fn unions_split_on_single_and_double_bars() {
    assert_eq!(parsed("1.0.0 || 2.0.0"), "==1.0.0.0! || ==2.0.0.0!");
    assert_eq!(parsed("1.0.0|2.0.0"), "==1.0.0.0! || ==2.0.0.0!");
    assert_eq!(parsed("|| 1.0.0 |||"), "==1.0.0.0!");
}

#[test]
fn hyphen_ranges() {
    assert_eq!(parsed("1.0 - 2.0"), ">=1.0.0.0 <=2.0.9999999.9999999");
    assert_eq!(parsed("1.2.3+x - v2"), ">=1.2.3.0 <=2.9999999.9999999.9999999");
    assert_eq!(err("1.0 -2.0"), "-2.0");
}

#[test]
fn branch_references_and_hash_suffixes() {
    assert_eq!(parsed("dev-main#abc123"), "==dev-main!");
    assert_eq!(parsed("DEV-Main"), "==dev-Main!");
    assert_eq!(parsed("2.x-dev"), "==2.9999999.9999999.9999999-dev!");
    assert_eq!(parsed("feature/x-DEV"), "==dev-feature/x!");
}

#[test]
fn error_texts() {
    assert_eq!(err(""), "");
    assert_eq!(err("   "), "   ");
    assert_eq!(err("||"), "||");
    assert_eq!(err(","), ",");
    assert_eq!(err("foo"), "foo");
    assert_eq!(err(">=abc"), ">=abc: invalid version: \"abc\"");
    assert_eq!(err("^abc"), "abc");
    assert_eq!(err("1.2.3.4.5"), "1.2.3.4.5: invalid version: \"1.2.3.4.5\"");
    let e = Constraint::parse(">=abc").unwrap_err();
    assert_eq!(e.message(), "invalid constraint: \">=abc: invalid version: \\\"abc\\\"\"");
}

#[test]
fn bounds_overflowing_u32_are_reported_by_checked_parse() {
    assert!(Constraint::checked_parse("^4294967295").is_none());
    assert!(Constraint::checked_parse("~1.4294967295.0").is_none());
    assert!(Constraint::checked_parse("1.4294967295.*").is_none());
    // A major of ten digits is no version at all, so the lower bound fails first.
    assert!(matches!(Constraint::checked_parse("4294967295.*"), Some(Err(_))));
    // An invalid alternative before it stops the parse first.
    assert!(matches!(Constraint::checked_parse("foo || ^4294967295"), Some(Err(_))));
    // One below the limit bumps fine, though a ten-digit major is no version.
    assert_eq!(err("^4294967294"), "^4294967294 upper: invalid version: \"4294967295.0.0.0\"");
    let ok = Constraint::checked_parse("~1.4294967294.0").unwrap().unwrap();
    assert_eq!(show(&ok), ">=1.4294967294.0.0! <1.4294967295.0.0");
}

#[test]
fn upper_bounds_and_intersections() {
    let ub = Constraint::parse("^1.2 || ~3.1").unwrap().upper_bound();
    assert_eq!((ub.version(), ub.is_inclusive()), ("4.0.0.0", false));
    assert!(Constraint::parse(">=2").unwrap().upper_bound().is_positive_infinity());
    assert!(Constraint::parse("dev-main").unwrap().upper_bound().is_positive_infinity());
    assert!(Constraint::parse("dev-main").unwrap().lower_bound().is_zero());
    // Touching inclusive ends intersect.
    assert!(Constraint::parse("<=2.0").unwrap().intersects(&Constraint::parse(">=2.0").unwrap()));
    assert!(Constraint::parse("^2.0").unwrap().intersects(&Constraint::parse("^1.0 || ^2.5").unwrap()));
}

#[test]
fn bound_ordering() {
    let a = Bound::new("1.0.0.0".to_owned(), true);
    let b = Bound::new("1.0.0.0".to_owned(), false);
    let c = Bound::new("2.0.0.0".to_owned(), true);
    assert!(!a.compare_to(&a, true));
    assert!(c.compare_to(&a, true));
    assert!(!c.compare_to(&a, false));
    assert!(b.compare_to(&a, true));
    assert!(a.compare_to(&b, false));
    assert_eq!(a.version_cmp(&c), std::cmp::Ordering::Less);
    assert_eq!(a.version_cmp(&b), std::cmp::Ordering::Equal);
    assert_eq!(Bound::zero().version(), "0.0.0.0-dev");
    assert_eq!(Bound::positive_infinity().version(), "9223372036854775807.0.0.0");
}

#[test]
fn matching_against_unions_and_intersections() {
    let c = Constraint::parse(">=1.0 <1.5 || 2.*").unwrap();
    assert!(c.matches(&v("1.4.9")));
    assert!(!c.matches(&v("1.5.0")));
    assert!(c.matches(&v("2.7")));
    assert!(!c.matches(&v("3.0")));
    assert!(!c.matches(&v("dev-main")));
    assert!(Constraint::parse("!=1.0").unwrap().matches(&v("1.0.1")));
}

#[test]
fn positive_infinity_sorts_above_every_version() {
    let inf = Bound::positive_infinity();
    assert_eq!(inf.version_cmp(&Bound::new("95.0.0.0".to_owned(), false)), std::cmp::Ordering::Greater);
    assert_eq!(Bound::new("95.0.0.0".to_owned(), false).version_cmp(&inf), std::cmp::Ordering::Less);
    assert_eq!(inf.version_cmp(&Bound::positive_infinity()), std::cmp::Ordering::Equal);
    let ub = Constraint::parse("^95").unwrap().upper_bound();
    assert_eq!((ub.version(), ub.is_inclusive()), ("96.0.0.0", false));
    assert!(!Constraint::parse("^95").unwrap().intersects(&Constraint::parse("^97").unwrap()));
    assert!(Constraint::parse("^95").unwrap().intersects(&Constraint::parse(">=95.5").unwrap()));
}

#[test]
fn compare_to_is_antisymmetric() {
    let bounds = [
        Bound::new("1.0.0.0".to_owned(), true),
        Bound::new("1.0.0.0".to_owned(), false),
        Bound::new("2.0.0.0".to_owned(), true),
        Bound::zero(),
        Bound::positive_infinity(),
    ];
    for a in &bounds {
        for b in &bounds {
            for g in [true, false] {
                let same = a.version() == b.version() && a.is_inclusive() == b.is_inclusive();
                assert_eq!(a.compare_to(b, g), !same && !b.compare_to(a, g));
            }
        }
    }
}
