//! The constraint and version grammars checked against the regular
//! expressions Composer writes them with, evaluated by the `regex` crate.

use composer_rs::constraint::Constraint;
use composer_rs::version::{is_branch_alias, CmpOp, Version};
use regex::Regex;

fn corpus() -> Vec<String> {
    let parts = ["1", "2", "x", "X", "*", "10", "0", "v1", "١٢", "a", "", " ", "-dev", ".", "V3"];
    let mut out = Vec::new();
    for a in parts {
        for b in parts {
            for c in ["", "-dev", "-DEV", ".x-dev", "-dev ", " -dev"] {
                out.push(format!("{a}.{b}{c}"));
                out.push(format!("{a}{b}{c}"));
                out.push(format!(" {a}.{b}.x{c}"));
            }
        }
    }
    out
}

#[test]
fn branch_alias_form_agrees_with_its_regex() {
    let re = Regex::new(r"^v?(\d+)(\.(?:\d+|[xX*]))*-dev$").unwrap();
    for s in corpus() {
        assert_eq!(is_branch_alias(&s), re.is_match(s.trim()), "{s:?}");
    }
}

#[test]
fn numeric_branch_names_agree_with_their_regex() {
    let re = Regex::new(r"^(\d+)(\.(?:\d+|[xX*]))*$").unwrap();
    for s in corpus() {
        let stripped = s.strip_prefix(['v', 'V']).unwrap_or(&s);
        let normalized = Version::normalize_branch(&s);
        if re.is_match(stripped) {
            assert!(normalized.ends_with("-dev") && !normalized.starts_with("dev-"), "{s:?}");
        } else {
            assert_eq!(normalized, format!("dev-{s}"), "{s:?}");
        }
    }
}

#[test]
fn alternatives_split_like_the_bar_regex() {
    let re = Regex::new(r"\s*\|\|?\s*").unwrap();
    let atoms = ["1.0", "^2.1", ">=3", "dev-x", "*"];
    let seps = ["|", "||", " || ", " |", "| ", "|||", " \u{a0}|\t"];
    for a in atoms {
        for s1 in seps {
            for b in atoms {
                for s2 in seps {
                    let input = format!("{s1}{a}{s2}{b}{s2}");
                    let expected = re
                        .split(input.trim())
                        .map(str::trim)
                        .filter(|p| !p.is_empty())
                        .count();
                    let got = match Constraint::parse(&input).unwrap() {
                        Constraint::Or(items) => items.len(),
                        _ => 1,
                    };
                    assert_eq!(got, expected, "{input:?}");
                }
            }
        }
    }
}

#[test]
fn hyphen_ranges_follow_their_regex() {
    let re = Regex::new(r"^(?P<lo>[^\s]+)\s+-\s+(?P<hi>[^\s]+)$").unwrap();
    let inputs = [
        "1.0 - 2.0", "1.0 -2.0", "1.0- 2.0", "1.0  -\t2.0", "1.0 - 2.0 - 3.0", "1.0-beta - 2",
        "1 - 2 ", " 1 - 2", "1.0 \u{3000}- 2", "- 1.0", "1.0 --  2.0",
    ];
    for input in inputs {
        let is_range = re.is_match(input.trim());
        let parsed = Constraint::parse(input);
        let looks_like_range = matches!(
            &parsed,
            Ok(Constraint::And(items)) if items.len() == 2 && matches!(
                (&items[0], &items[1]),
                (Constraint::Op { op: CmpOp::Ge, .. }, Constraint::Op { op: CmpOp::Le, .. })
            )
        );
        assert_eq!(looks_like_range, is_range, "{input:?} gave {parsed:?}");
    }
}
