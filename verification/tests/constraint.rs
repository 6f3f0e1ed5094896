use composer_rs::constraint::Constraint;
use composer_rs::version::Version;

#[test]
fn caret_zero_partial_versions_match_composer() {
    // `^0` admits the whole 0.x line, up to (not incl.) 1.0.0.
    let c = Constraint::parse("^0").unwrap();
    assert!(c.matches(&Version::parse("0.0.1").unwrap()));
    assert!(c.matches(&Version::parse("0.19.2").unwrap()));
    assert!(!c.matches(&Version::parse("1.0.0").unwrap()));

    // `^0.0` → `<0.1.0` (patch unwritten → bump minor).
    let c = Constraint::parse("^0.0").unwrap();
    assert!(c.matches(&Version::parse("0.0.9").unwrap()));
    assert!(!c.matches(&Version::parse("0.1.0").unwrap()));

    // `^0.3` → `<0.4.0` (minor non-zero → bump minor).
    let c = Constraint::parse("^0.3").unwrap();
    assert!(c.matches(&Version::parse("0.3.7").unwrap()));
    assert!(!c.matches(&Version::parse("0.4.0").unwrap()));

    // `^0.0.3` → `<0.0.4` (patch non-zero → bump patch).
    let c = Constraint::parse("^0.0.3").unwrap();
    assert!(c.matches(&Version::parse("0.0.3").unwrap()));
    assert!(!c.matches(&Version::parse("0.0.4").unwrap()));

    // `^1` is unchanged: `<2.0.0`.
    let c = Constraint::parse("^1").unwrap();
    assert!(c.matches(&Version::parse("1.9.9").unwrap()));
    assert!(!c.matches(&Version::parse("2.0.0").unwrap()));
}

#[test]
fn nx_dev_constraint_matches_same_branch_version() {
    let c = Constraint::parse("3.x-dev").unwrap();
    let v = Version::parse("3.x-dev").unwrap();
    assert!(c.matches(&v), "got constraint {c:?}");
}

#[test]
fn nx_dev_constraint_rejects_other_major_branch() {
    let c = Constraint::parse("3.x-dev").unwrap();
    let other = Version::parse("2.x-dev").unwrap();
    assert!(!c.matches(&other), "got constraint {c:?}");
}

#[test]
fn nx_dev_constraint_rejects_stable_release() {
    let c = Constraint::parse("3.x-dev").unwrap();
    let stable = Version::parse("3.0.0").unwrap();
    assert!(!c.matches(&stable), "got constraint {c:?}");
}

#[test]
fn n_dot_x_dev_handles_two_segment_form() {
    let c = Constraint::parse("1.x-dev").unwrap();
    let v = Version::parse("1.x-dev").unwrap();
    assert!(c.matches(&v));
}

#[test]
fn n_dot_m_dot_x_dev_handles_three_segment_form() {
    // `1.0.x-dev` parses to `1.0.9999999.9999999-dev`.
    let c = Constraint::parse("1.0.x-dev").unwrap();
    let v = Version::parse("1.0.x-dev").unwrap();
    assert!(c.matches(&v));
}

#[test]
fn dev_branch_constraint_matches_named_branch() {
    let c = Constraint::parse("dev-main").unwrap();
    let v = Version::parse("dev-main").unwrap();
    assert!(c.matches(&v), "constraint {c:?} should match {v:?}");
}

#[test]
fn dev_branch_constraint_rejects_other_branches() {
    let c = Constraint::parse("dev-main").unwrap();
    let other = Version::parse("dev-feature-x").unwrap();
    assert!(!c.matches(&other));
}

#[test]
fn name_dash_dev_suffix_is_synonym_for_dev_dash_name() {
    let c = Constraint::parse("master-dev").unwrap();
    let v = Version::parse("dev-master").unwrap();
    assert!(c.matches(&v), "constraint {c:?} should match {v:?}");
}

#[test]
fn name_dash_dev_rejects_unsafe_chars() {
    assert!(Constraint::parse("foo bar-dev").is_err());
    assert!(Constraint::parse("1.0.0<1.0.5-dev").is_err());
}

#[test]
fn name_dash_dev_does_not_swallow_numeric_dev_versions() {
    let c = Constraint::parse("1.0.0-dev").unwrap();
    let v = Version::parse("1.0.0-dev").unwrap();
    assert!(c.matches(&v));
}

fn lb(s: &str) -> (String, bool) {
    let b = Constraint::parse(s).unwrap().lower_bound();
    (b.version().to_owned(), b.is_inclusive())
}

#[test]
fn lower_bound_atomic_ops() {
    assert_eq!(lb(">=8.1"), ("8.1.0.0".to_owned(), true));
    assert_eq!(lb(">8.0"), ("8.0.0.0".to_owned(), false));
    assert_eq!(lb("8.1.2"), ("8.1.2.0".to_owned(), true)); // == form
    // Upper-only / negation constraints floor at zero.
    assert!(Constraint::parse("<8.0").unwrap().lower_bound().is_zero());
    assert!(Constraint::parse("!=8.0").unwrap().lower_bound().is_zero());
    assert!(Constraint::parse("*").unwrap().lower_bound().is_zero());
}

#[test]
fn lower_bound_caret_tilde_take_the_floor() {
    assert_eq!(lb("^8.1"), ("8.1.0.0".to_owned(), true));
    assert_eq!(lb("~8.2.3"), ("8.2.3.0".to_owned(), true));
    assert_eq!(lb("^8"), ("8.0.0.0".to_owned(), true));
}

#[test]
fn lower_bound_conjunction_takes_the_greater() {
    assert_eq!(lb(">=7.4 <8.3"), ("7.4.0.0".to_owned(), true));
}

#[test]
fn lower_bound_disjunction_takes_the_least() {
    assert_eq!(lb("^7.4 || ^8.0"), ("7.4.0.0".to_owned(), true));
}

#[test]
fn intersects_any_provider_matches_everything() {
    let provided = Constraint::parse("*").unwrap();
    assert!(provided.intersects(&Constraint::parse("^2.0").unwrap()));
    assert!(provided.intersects(&Constraint::parse("*").unwrap()));
}

#[test]
fn intersects_overlapping_and_disjoint_ranges() {
    let p = Constraint::parse("^1.0").unwrap();
    assert!(p.intersects(&Constraint::parse(">=1.5").unwrap())); // overlap
    assert!(!p.intersects(&Constraint::parse("^2.0").unwrap())); // disjoint
    assert!(!p.intersects(&Constraint::parse(">=2.0").unwrap()));
}

#[test]
fn intersects_disjunction_member_overlap() {
    let provided = Constraint::parse("^1.0 || ^3.0").unwrap();
    assert!(provided.intersects(&Constraint::parse("^3.1").unwrap()));
    assert!(!provided.intersects(&Constraint::parse("^2.0").unwrap()));
}

#[test]
fn dev_branch_constraint_handles_slashed_branch_name() {
    let c = Constraint::parse("dev-fix/some-bug").unwrap();
    let v = Version::parse("dev-fix/some-bug").unwrap();
    assert!(c.matches(&v));
}

#[test]
fn constraint_clone_is_equal() {
    for s in ["*", "^1.2", ">=1.0,<2 || dev-main", "1.2.* || ~3.4.5"] {
        let c = Constraint::parse(s).unwrap();
        assert_eq!(c.clone(), c);
    }
}
