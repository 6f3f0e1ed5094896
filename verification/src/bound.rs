//! One end of a version interval: a normalized version text plus
//! whether the endpoint itself belongs to the interval.

use vstd::prelude::*;
use std::cmp::Ordering;
use crate::text::{chars_eq, string_chars, to_chars, to_string};
use crate::version::{
    law_version_order, normalize, normalize_exec, ordering_of, version_sign, version_sign_exec,
};

verus! {

#[derive(Debug, Clone, PartialEq, Eq)]
pub struct Bound {
    version: String,
    is_inclusive: bool,
}

impl View for Bound {
    type V = (Seq<char>, bool);

    closed spec fn view(&self) -> (Seq<char>, bool) {
        (self.version@, self.is_inclusive)
    }
}

pub open spec fn zero_text() -> Seq<char> {
    "0.0.0.0-dev"@
}

/// `<PHP_INT_MAX>.0.0.0`, the body of the positive-infinity sentinel.
pub open spec fn infinity_text() -> Seq<char> {
    "9223372036854775807.0.0.0"@
}

/// Lexicographic order of two texts by code point, as -1 / 0 / 1.
pub open spec fn lex_sign(a: Seq<char>, b: Seq<char>) -> int
    decreases a.len(),
{
    if a.len() == 0 && b.len() == 0 {
        0
    } else if a.len() == 0 {
        -1
    } else if b.len() == 0 {
        1
    } else if a[0] < b[0] {
        -1
    } else if a[0] > b[0] {
        1
    } else {
        lex_sign(a.drop_first(), b.drop_first())
    }
}

/// Order of two bound bodies: the positive-infinity body sorts above
/// every other body and equal to itself; otherwise as versions when both
/// parse, else as text.
pub open spec fn bound_sign(a: Seq<char>, b: Seq<char>) -> int {
    if a == infinity_text() && b == infinity_text() {
        0
    } else if a == infinity_text() {
        1
    } else if b == infinity_text() {
        -1
    } else {
        match (normalize(a), normalize(b)) {
            (Ok(x), Ok(y)) => version_sign(x.kind, y.kind),
            _ => lex_sign(a, b),
        }
    }
}

/// `Bound::compareTo`: whether `a` lies strictly beyond `b` upward
/// (`gt`) or downward (`!gt`); equal bounds are never beyond each other,
/// and on equal versions the inclusivity of `b` decides.
pub open spec fn beyond(a: (Seq<char>, bool), b: (Seq<char>, bool), gt: bool) -> bool {
    if a == b {
        false
    } else {
        let s = bound_sign(a.0, b.0);
        if s > 0 {
            gt
        } else if s < 0 {
            !gt
        } else if gt {
            b.1
        } else {
            !b.1
        }
    }
}

pub fn lex_sign_exec(a: &Vec<char>, b: &Vec<char>) -> (r: i8)
    ensures
        r as int == lex_sign(a@, b@),
{
    let mut k: usize = 0;
    assert(a@.subrange(0, a@.len() as int) =~= a@);
    assert(b@.subrange(0, b@.len() as int) =~= b@);
    while k < a.len() && k < b.len() && a[k] == b[k]
        invariant
            k <= a.len() && k <= b.len(),
            lex_sign(a@, b@) == lex_sign(a@.subrange(k as int, a@.len() as int), b@.subrange(k as int, b@.len() as int)),
        decreases a.len() - k,
    {
        assert(a@.subrange(k as int, a@.len() as int).drop_first() =~= a@.subrange(k + 1, a@.len() as int));
        assert(b@.subrange(k as int, b@.len() as int).drop_first() =~= b@.subrange(k + 1, b@.len() as int));
        k += 1;
    }
    let ghost ra = a@.subrange(k as int, a@.len() as int);
    let ghost rb = b@.subrange(k as int, b@.len() as int);
    assert(ra.len() == a.len() - k && rb.len() == b.len() - k);
    if k == a.len() && k == b.len() {
        0
    } else if k == a.len() {
        -1
    } else if k == b.len() {
        1
    } else if a[k] < b[k] {
        assert(ra[0] == a@[k as int] && rb[0] == b@[k as int]);
        -1
    } else {
        assert(ra[0] == a@[k as int] && rb[0] == b@[k as int]);
        assert(a@[k as int] != b@[k as int]);
        1
    }
}

pub fn bound_sign_exec(a: &String, b: &String) -> (r: i8)
    ensures
        r as int == bound_sign(a@, b@),
{
    let ca = string_chars(a);
    let cb = string_chars(b);
    let inf = to_chars("9223372036854775807.0.0.0");
    let a_inf = chars_eq(&ca, &inf);
    let b_inf = chars_eq(&cb, &inf);
    if a_inf && b_inf {
        return 0;
    } else if a_inf {
        return 1;
    } else if b_inf {
        return -1;
    }
    match (normalize_exec(&ca), normalize_exec(&cb)) {
        (Ok(x), Ok(y)) => version_sign_exec(&x.kind, &y.kind),
        _ => lex_sign_exec(&ca, &cb),
    }
}

impl Bound {
    /// A bound at a normalized version text.
    pub fn new(version: String, is_inclusive: bool) -> (r: Self)
        ensures
            r@ == (version@, is_inclusive),
    {
        Self { version, is_inclusive }
    }

    /// `0.0.0.0-dev`, inclusive: the lower bound of a constraint with no floor.
    pub fn zero() -> (r: Self)
        ensures
            r@ == (zero_text(), true),
    {
        Self { version: to_string(&to_chars("0.0.0.0-dev")), is_inclusive: true }
    }

    /// `9223372036854775807.0.0.0`, exclusive: the upper bound of a
    /// constraint with no ceiling.
    pub fn positive_infinity() -> (r: Self)
        ensures
            r@ == (infinity_text(), false),
    {
        Self { version: to_string(&to_chars("9223372036854775807.0.0.0")), is_inclusive: false }
    }

    /// The normalized version body.
    pub fn version(&self) -> (r: &str)
        ensures
            r@ == self@.0,
    {
        self.version.as_str()
    }

    /// Whether the endpoint is part of the interval.
    pub fn is_inclusive(&self) -> (r: bool)
        ensures
            r == self@.1,
    {
        self.is_inclusive
    }

    pub fn is_zero(&self) -> (r: bool)
        ensures
            r == (self@ == (zero_text(), true)),
    {
        chars_eq(&string_chars(&self.version), &to_chars("0.0.0.0-dev")) && self.is_inclusive
    }

    pub fn is_positive_infinity(&self) -> (r: bool)
        ensures
            r == (self@ == (infinity_text(), false)),
    {
        chars_eq(&string_chars(&self.version), &to_chars("9223372036854775807.0.0.0"))
            && !self.is_inclusive
    }

    /// Whether `self` lies strictly beyond `other` upward (`gt`) or
    /// downward (`!gt`).
    pub fn compare_to(&self, other: &Bound, gt: bool) -> (r: bool)
        ensures
            r == beyond(self@, other@, gt),
    {
        if chars_eq(&string_chars(&self.version), &string_chars(&other.version))
            && self.is_inclusive == other.is_inclusive {
            return false;
        }
        let s = bound_sign_exec(&self.version, &other.version);
        if s > 0 {
            gt
        } else if s < 0 {
            !gt
        } else if gt {
            other.is_inclusive
        } else {
            !other.is_inclusive
        }
    }

    /// Order of the two endpoints by version body alone.
    pub fn version_cmp(&self, other: &Bound) -> (r: Ordering)
        ensures
            r == ordering_of(bound_sign(self@.0, other@.0)),
    {
        let s = bound_sign_exec(&self.version, &other.version);
        if s < 0 {
            Ordering::Less
        } else if s > 0 {
            Ordering::Greater
        } else {
            Ordering::Equal
        }
    }
}

/// No bound lies beyond itself, in either direction.
pub proof fn law_never_beyond_itself(b: (Seq<char>, bool), gt: bool)
    ensures
        !beyond(b, b, gt),
{
}

proof fn lemma_lex_sign_antisymmetric(a: Seq<char>, b: Seq<char>)
    ensures
        lex_sign(a, b) == -lex_sign(b, a),
    decreases a.len(),
{
    if a.len() > 0 && b.len() > 0 && a[0] == b[0] {
        lemma_lex_sign_antisymmetric(a.drop_first(), b.drop_first());
    }
}

/// Swapping two bodies reverses their order.
pub proof fn lemma_bound_sign_antisymmetric(a: Seq<char>, b: Seq<char>)
    ensures
        bound_sign(a, b) == -bound_sign(b, a),
{
    lemma_lex_sign_antisymmetric(a, b);
    match (normalize(a), normalize(b)) {
        (Ok(x), Ok(y)) => law_version_order(x.kind, y.kind, y.kind),
        _ => {},
    }
}

/// `a` lies beyond `b` exactly when the two differ and `b` does not lie
/// beyond `a` in the same direction, for ends whose bodies are the same
/// text or compare unequal.
pub proof fn law_beyond_antisymmetric(a: (Seq<char>, bool), b: (Seq<char>, bool), gt: bool)
    requires
        a.0 == b.0 || bound_sign(a.0, b.0) != 0,
    ensures
        beyond(a, b, gt) == (a != b && !beyond(b, a, gt)),
{
    lemma_bound_sign_antisymmetric(a.0, b.0);
}

} // verus!
