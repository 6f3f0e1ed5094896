//! Composer constraints: parse, `matches`, lower/upper bounds and
//! interval intersection.
//!
//! A constraint is `Any` (`*`), an operator clause against a version, an
//! intersection (`And`, whitespace/comma separated) or a union (`Or`,
//! `||` separated).

use vstd::prelude::*;
use std::cmp::Ordering;
use crate::bound::{
    beyond, bound_sign, bound_sign_exec, infinity_text, lemma_bound_sign_antisymmetric, zero_text, Bound,
};
use crate::stability::Stability;
use crate::text::{
    concat, debug_quoted, debug_text, to_string,
    all_ascii_digits, chars_eq, parse_uint, parse_uint_exec, string_chars, to_chars,
};
use crate::version::{
    compare_holds, law_version_order, normalize, string_views, CmpOp, KindModel, SuffixModel,
    Suffix, Version, VersionKind, VersionModel,
};

verus! {

#[derive(Debug, PartialEq, Eq)]
pub enum Constraint {
    /// `*` / `x`: matches everything.
    Any,
    /// `op version`. `explicit_lower_bound` is set when a `>=`/`>` lower
    /// bound was written with a full version (`^1.2.3`, `>=1.2.3`), which
    /// admits prereleases of that same version.
    Op { op: CmpOp, version: Version, explicit_lower_bound: bool },
    /// Intersection.
    And(Vec<Constraint>),
    /// Union.
    Or(Vec<Constraint>),
}

#[derive(Debug, Clone, PartialEq, Eq)]
pub enum ParseError {
    Invalid(String),
}

/// The text of a constraint error: `invalid constraint: "<detail>"`.
pub open spec fn constraint_message(m: Seq<char>) -> Seq<char> {
    "invalid constraint: "@ + debug_text(m)
}

impl ParseError {
    /// The error's rendering, `invalid constraint: "<detail>"`.
    pub fn message(&self) -> (r: String)
        ensures
            match self {
                ParseError::Invalid(m) => r@ == constraint_message(m@),
            },
    {
        match self {
            ParseError::Invalid(m) => {
                let d = debug_quoted(m);
                to_string(&concat(&to_chars("invalid constraint: "), &string_chars(&d)))
            },
        }
    }
}

pub ghost enum ConstraintModel {
    Any,
    Op(CmpOp, VersionModel, bool),
    And(Seq<ConstraintModel>),
    Or(Seq<ConstraintModel>),
}

impl Constraint {
    pub open spec fn model(self) -> ConstraintModel
        decreases self,
    {
        match self {
            Constraint::Any => ConstraintModel::Any,
            Constraint::Op { op, version, explicit_lower_bound } => ConstraintModel::Op(
                op,
                version@,
                explicit_lower_bound,
            ),
            Constraint::And(items) => ConstraintModel::And(models_of(items@)),
            Constraint::Or(items) => ConstraintModel::Or(models_of(items@)),
        }
    }
}

impl Clone for Constraint {
    /// A copy with the same model.
    fn clone(&self) -> (r: Self)
        ensures
            r.model() == self.model(),
        decreases self,
    {
        match self {
            Constraint::Any => Constraint::Any,
            Constraint::Op { op, version, explicit_lower_bound } => Constraint::Op {
                op: *op,
                version: version.copied(),
                explicit_lower_bound: *explicit_lower_bound,
            },
            Constraint::And(xs) => {
                proof {
                    lemma_models_of(xs@);
                }
                let mut out: Vec<Constraint> = Vec::new();
                let mut k: usize = 0;
                while k < xs.len()
                    invariant
                        k <= xs.len(),
                        *self == Constraint::And(*xs),
                        models_of(xs@).len() == xs.len(),
                        forall|i: int| 0 <= i < xs.len() ==> #[trigger] models_of(xs@)[i] == xs@[i].model(),
                        models_of(out@) == models_of(xs@).take(k as int),
                    decreases xs.len() - k,
                {
                    proof {
                        assert(decreases_to!(*self => self->And_0));
                        assert(decreases_to!(self->And_0 => self->And_0@));
                        assert(decreases_to!(self->And_0@ => self->And_0@[k as int]));
                    }
                    let c = xs[k].clone();
                    let ghost before = out@;
                    out.push(c);
                    assert(out@.subrange(0, out@.len() - 1) =~= before);
                    assert(models_of(xs@).take(k + 1) =~= models_of(xs@).take(k as int).push(xs@[k as int].model()));
                    k += 1;
                }
                assert(models_of(xs@).take(xs.len() as int) =~= models_of(xs@));
                Constraint::And(out)
            },
            Constraint::Or(xs) => {
                proof {
                    lemma_models_of(xs@);
                }
                let mut out: Vec<Constraint> = Vec::new();
                let mut k: usize = 0;
                while k < xs.len()
                    invariant
                        k <= xs.len(),
                        *self == Constraint::Or(*xs),
                        models_of(xs@).len() == xs.len(),
                        forall|i: int| 0 <= i < xs.len() ==> #[trigger] models_of(xs@)[i] == xs@[i].model(),
                        models_of(out@) == models_of(xs@).take(k as int),
                    decreases xs.len() - k,
                {
                    proof {
                        assert(decreases_to!(*self => self->Or_0));
                        assert(decreases_to!(self->Or_0 => self->Or_0@));
                        assert(decreases_to!(self->Or_0@ => self->Or_0@[k as int]));
                    }
                    let c = xs[k].clone();
                    let ghost before = out@;
                    out.push(c);
                    assert(out@.subrange(0, out@.len() - 1) =~= before);
                    assert(models_of(xs@).take(k + 1) =~= models_of(xs@).take(k as int).push(xs@[k as int].model()));
                    k += 1;
                }
                assert(models_of(xs@).take(xs.len() as int) =~= models_of(xs@));
                Constraint::Or(out)
            },
        }
    }
}

pub open spec fn models_of(s: Seq<Constraint>) -> Seq<ConstraintModel>
    decreases s,
{
    if s.len() == 0 {
        seq![]
    } else {
        models_of(s.subrange(0, s.len() - 1)).push(s[s.len() - 1].model())
    }
}

pub proof fn lemma_models_of(s: Seq<Constraint>)
    ensures
        models_of(s).len() == s.len(),
        forall|i: int| 0 <= i < s.len() ==> #[trigger] models_of(s)[i] == s[i].model(),
    decreases s.len(),
{
    if s.len() > 0 {
        lemma_models_of(s.subrange(0, s.len() - 1));
        assert forall|i: int| 0 <= i < s.len() implies #[trigger] models_of(s)[i] == s[i].model() by {
            if i < s.len() - 1 {
                assert(s.subrange(0, s.len() - 1)[i] == s[i]);
            }
        }
    }
}

// ---- matching -------------------------------------------------------------

/// `str::parse::<u64>().unwrap_or(0)` of a segment.
pub open spec fn plain_value(s: Seq<char>) -> nat {
    match parse_uint(s, crate::version::max_u64()) {
        Some(v) => v,
        None => 0,
    }
}

pub open spec fn plain_at(segs: Seq<Seq<char>>, i: int) -> nat {
    if 0 <= i < segs.len() {
        plain_value(segs[i])
    } else {
        0
    }
}

/// Same numeric value at every position (missing segments are 0).
pub open spec fn segments_equal(a: Seq<Seq<char>>, b: Seq<Seq<char>>) -> bool {
    forall|i: int| 0 <= i < a.len() || 0 <= i < b.len() ==> #[trigger] plain_at(a, i) == plain_at(b, i)
}

pub open spec fn is_prerelease(s: SuffixModel) -> bool {
    match s {
        SuffixModel::Prerelease(_, _) | SuffixModel::PrereleaseDev(_, _)
        | SuffixModel::PatchDev(_) | SuffixModel::Dev => true,
        _ => false,
    }
}

/// Both numeric with numerically equal segments, exactly one of them a
/// prerelease.
pub open spec fn prerelease_of_same(a: KindModel, b: KindModel) -> bool {
    match (a, b) {
        (KindModel::Numeric(sa, xa), KindModel::Numeric(sb, xb)) => segments_equal(sa, sb)
            && is_prerelease(xa) != is_prerelease(xb),
        _ => false,
    }
}

/// Whether `cand` satisfies `op target`: a prerelease and the stable
/// version of the same numbers count as equal for `<`, `<=`, `==`, `!=`,
/// and for `>`/`>=` only when the lower bound was written in full.
pub open spec fn atom_matches(cand: KindModel, op: CmpOp, target: KindModel, explicit: bool) -> bool {
    if prerelease_of_same(cand, target) && (match op {
        CmpOp::Gt | CmpOp::Ge => explicit,
        _ => true,
    }) {
        op == CmpOp::Eq || op == CmpOp::Ge || op == CmpOp::Le
    } else {
        compare_holds(cand, op, target)
    }
}

pub open spec fn model_matches(c: ConstraintModel, v: KindModel) -> bool
    decreases c,
{
    match c {
        ConstraintModel::Any => true,
        ConstraintModel::Op(op, target, explicit) => atom_matches(v, op, target.kind, explicit),
        ConstraintModel::And(items) => all_match(items, v),
        ConstraintModel::Or(items) => any_match(items, v),
    }
}

pub open spec fn all_match(items: Seq<ConstraintModel>, v: KindModel) -> bool
    decreases items,
{
    if items.len() == 0 {
        true
    } else {
        all_match(items.subrange(0, items.len() - 1), v) && model_matches(items[items.len() - 1], v)
    }
}

pub open spec fn any_match(items: Seq<ConstraintModel>, v: KindModel) -> bool
    decreases items,
{
    if items.len() == 0 {
        false
    } else {
        any_match(items.subrange(0, items.len() - 1), v) || model_matches(items[items.len() - 1], v)
    }
}

pub fn plain_value_exec(s: &String) -> (r: u64)
    ensures
        r as nat == plain_value(s@),
{
    match parse_uint_exec(&string_chars(s), u64::MAX) {
        Some(v) => v,
        None => 0,
    }
}

pub fn segments_equal_exec(a: &Vec<String>, b: &Vec<String>) -> (r: bool)
    ensures
        r == segments_equal(string_views(a@), string_views(b@)),
{
    let ghost sa = string_views(a@);
    let ghost sb = string_views(b@);
    let n = if a.len() > b.len() {
        a.len()
    } else {
        b.len()
    };
    let mut i: usize = 0;
    while i < n
        invariant
            i <= n,
            n == a.len() || n == b.len(),
            a.len() <= n && b.len() <= n,
            sa == string_views(a@),
            sb == string_views(b@),
            forall|k: int| 0 <= k < i ==> #[trigger] plain_at(sa, k) == plain_at(sb, k),
        decreases n - i,
    {
        let va = if i < a.len() {
            plain_value_exec(&a[i])
        } else {
            0
        };
        let vb = if i < b.len() {
            plain_value_exec(&b[i])
        } else {
            0
        };
        assert(va as nat == plain_at(sa, i as int));
        assert(vb as nat == plain_at(sb, i as int));
        if va != vb {
            return false;
        }
        i += 1;
    }
    true
}

pub fn is_prerelease_exec(s: &Suffix) -> (r: bool)
    ensures
        r == is_prerelease(s@),
{
    match s {
        Suffix::Prerelease { .. } | Suffix::PrereleaseDev { .. } | Suffix::PatchDev(_) | Suffix::Dev => true,
        _ => false,
    }
}

pub fn prerelease_of_same_exec(a: &Version, b: &Version) -> (r: bool)
    ensures
        r == prerelease_of_same(a.kind@, b.kind@),
{
    match (&a.kind, &b.kind) {
        (
            VersionKind::Numeric { segments_raw: sa, suffix: xa },
            VersionKind::Numeric { segments_raw: sb, suffix: xb },
        ) => segments_equal_exec(sa, sb) && (is_prerelease_exec(xa) != is_prerelease_exec(xb)),
        _ => false,
    }
}

pub fn matches_atom(candidate: &Version, op: CmpOp, target: &Version, explicit: bool) -> (r: bool)
    ensures
        r == atom_matches(candidate.kind@, op, target.kind@, explicit),
{
    if prerelease_of_same_exec(candidate, target) {
        let treat_equal = match op {
            CmpOp::Gt | CmpOp::Ge => explicit,
            _ => true,
        };
        if treat_equal {
            return match op {
                CmpOp::Eq | CmpOp::Ge | CmpOp::Le => true,
                _ => false,
            };
        }
    }
    candidate.compare(op, target)
}

impl Constraint {
    /// Whether `version` satisfies this constraint.
    pub fn matches(&self, version: &Version) -> (r: bool)
        ensures
            r == model_matches(self.model(), version.kind@),
        decreases self,
    {
        match self {
            Constraint::Any => true,
            Constraint::Op { op, version: target, explicit_lower_bound } => matches_atom(
                version,
                *op,
                target,
                *explicit_lower_bound,
            ),
            Constraint::And(items) => {
                proof {
                    lemma_models_of(items@);
                }
                let mut k: usize = 0;
                while k < items.len()
                    invariant
                        k <= items.len(),
                        self == Constraint::And(*items),
                        models_of(items@).len() == items@.len(),
                        forall|i: int| 0 <= i < items@.len() ==> #[trigger] models_of(items@)[i] == items@[i].model(),
                        all_match(models_of(items@).subrange(0, k as int), version.kind@),
                    decreases items.len() - k,
                {
                    let ghost pre = models_of(items@).subrange(0, k as int);
                    let ghost nxt = models_of(items@).subrange(0, k + 1);
                    assert(nxt.subrange(0, k as int) =~= pre);
                    if !items[k].matches(version) {
                        proof {
                            lemma_all_match_prefix(models_of(items@), version.kind@, k + 1);
                        }
                        assert(models_of(items@).subrange(0, items@.len() as int) =~= models_of(items@));
                        return false;
                    }
                    k += 1;
                }
                assert(models_of(items@).subrange(0, items@.len() as int) =~= models_of(items@));
                true
            },
            Constraint::Or(items) => {
                proof {
                    lemma_models_of(items@);
                }
                let mut k: usize = 0;
                while k < items.len()
                    invariant
                        k <= items.len(),
                        self == Constraint::Or(*items),
                        models_of(items@).len() == items@.len(),
                        forall|i: int| 0 <= i < items@.len() ==> #[trigger] models_of(items@)[i] == items@[i].model(),
                        !any_match(models_of(items@).subrange(0, k as int), version.kind@),
                    decreases items.len() - k,
                {
                    let ghost pre = models_of(items@).subrange(0, k as int);
                    let ghost nxt = models_of(items@).subrange(0, k + 1);
                    assert(nxt.subrange(0, k as int) =~= pre);
                    if items[k].matches(version) {
                        proof {
                            lemma_any_match_prefix(models_of(items@), version.kind@, k + 1);
                        }
                        assert(models_of(items@).subrange(0, items@.len() as int) =~= models_of(items@));
                        return true;
                    }
                    k += 1;
                }
                assert(models_of(items@).subrange(0, items@.len() as int) =~= models_of(items@));
                false
            },
        }
    }
}

/// A failing prefix fails the whole list.
pub proof fn lemma_all_match_prefix(items: Seq<ConstraintModel>, v: KindModel, k: int)
    requires
        0 <= k <= items.len(),
        !all_match(items.subrange(0, k), v),
    ensures
        !all_match(items, v),
    decreases items.len() - k,
{
    if k < items.len() {
        let nxt = items.subrange(0, k + 1);
        assert(nxt.subrange(0, k) =~= items.subrange(0, k));
        lemma_all_match_prefix(items, v, k + 1);
    } else {
        assert(items.subrange(0, k) =~= items);
    }
}

/// A matching prefix matches the whole union.
pub proof fn lemma_any_match_prefix(items: Seq<ConstraintModel>, v: KindModel, k: int)
    requires
        0 <= k <= items.len(),
        any_match(items.subrange(0, k), v),
    ensures
        any_match(items, v),
    decreases items.len() - k,
{
    if k < items.len() {
        let nxt = items.subrange(0, k + 1);
        assert(nxt.subrange(0, k) =~= items.subrange(0, k));
        lemma_any_match_prefix(items, v, k + 1);
    } else {
        assert(items.subrange(0, k) =~= items);
    }
}

// ---- bounds ---------------------------------------------------------------

pub open spec fn starts_dev(n: Seq<char>) -> bool {
    n.len() >= 4 && n.subrange(0, 4) == "dev-"@
}

/// Lower bound of one operator clause: `==`/`>=` inclusive, `>`
/// exclusive, anything else (and any `dev-` branch) zero.
pub open spec fn op_lower(op: CmpOp, v: VersionModel) -> (Seq<char>, bool) {
    if starts_dev(v.normalized) {
        (zero_text(), true)
    } else {
        match op {
            CmpOp::Eq | CmpOp::Ge => (v.normalized, true),
            CmpOp::Gt => (v.normalized, false),
            _ => (zero_text(), true),
        }
    }
}

/// Upper bound of one operator clause: `==`/`<=` inclusive, `<`
/// exclusive, anything else (and any `dev-` branch) positive infinity.
pub open spec fn op_upper(op: CmpOp, v: VersionModel) -> (Seq<char>, bool) {
    if starts_dev(v.normalized) {
        (infinity_text(), false)
    } else {
        match op {
            CmpOp::Eq | CmpOp::Le => (v.normalized, true),
            CmpOp::Lt => (v.normalized, false),
            _ => (infinity_text(), false),
        }
    }
}

/// Fold member bounds left to right, replacing the running bound by a
/// member's bound when it lies beyond it (upward when `greater`).
pub open spec fn pick(acc: Option<(Seq<char>, bool)>, b: (Seq<char>, bool), greater: bool) -> Option<(Seq<char>, bool)> {
    match acc {
        None => Some(b),
        Some(cur) => if beyond(b, cur, greater) {
            Some(b)
        } else {
            Some(cur)
        },
    }
}

pub open spec fn or_zero(b: Option<(Seq<char>, bool)>) -> (Seq<char>, bool) {
    match b {
        Some(x) => x,
        None => (zero_text(), true),
    }
}

pub open spec fn lower_model(c: ConstraintModel) -> (Seq<char>, bool)
    decreases c,
{
    match c {
        ConstraintModel::Any => (zero_text(), true),
        ConstraintModel::Op(op, v, _) => op_lower(op, v),
        ConstraintModel::And(items) => or_zero(fold_lower(items, true)),
        ConstraintModel::Or(items) => or_zero(fold_lower(items, false)),
    }
}

pub open spec fn fold_lower(items: Seq<ConstraintModel>, greater: bool) -> Option<(Seq<char>, bool)>
    decreases items,
{
    if items.len() == 0 {
        None
    } else {
        pick(fold_lower(items.subrange(0, items.len() - 1), greater), lower_model(items[items.len() - 1]), greater)
    }
}

pub open spec fn upper_model(c: ConstraintModel) -> (Seq<char>, bool)
    decreases c,
{
    match c {
        ConstraintModel::Any => (infinity_text(), false),
        ConstraintModel::Op(op, v, _) => op_upper(op, v),
        ConstraintModel::And(items) => or_zero(fold_upper(items, false)),
        ConstraintModel::Or(items) => or_zero(fold_upper(items, true)),
    }
}

pub open spec fn fold_upper(items: Seq<ConstraintModel>, greater: bool) -> Option<(Seq<char>, bool)>
    decreases items,
{
    if items.len() == 0 {
        None
    } else {
        pick(fold_upper(items.subrange(0, items.len() - 1), greater), upper_model(items[items.len() - 1]), greater)
    }
}

/// Whether two single-interval constraints overlap: the greater lower
/// bound lies below the lesser upper bound (or they touch with both ends
/// included); a zero lower or infinite upper bound always overlaps.
pub open spec fn overlap(a: ConstraintModel, b: ConstraintModel) -> bool {
    let la = lower_model(a);
    let lb = lower_model(b);
    let ua = upper_model(a);
    let ub = upper_model(b);
    let lower = if beyond(la, lb, true) {
        la
    } else {
        lb
    };
    let upper = if beyond(ua, ub, false) {
        ua
    } else {
        ub
    };
    if lower == (zero_text(), true) || upper == (infinity_text(), false) {
        true
    } else if lower == (infinity_text(), false) {
        false
    } else {
        let s = bound_sign(lower.0, upper.0);
        if s < 0 {
            true
        } else if s > 0 {
            false
        } else {
            lower.1 && upper.1
        }
    }
}

pub open spec fn intersects_model(a: ConstraintModel, b: ConstraintModel) -> bool
    decreases a, b,
{
    match a {
        ConstraintModel::Or(items) => any_left(items, b),
        _ => match b {
            ConstraintModel::Or(items) => any_right(a, items),
            _ => if a is Any || b is Any {
                true
            } else {
                overlap(a, b)
            },
        },
    }
}

pub open spec fn any_left(items: Seq<ConstraintModel>, b: ConstraintModel) -> bool
    decreases items, b,
{
    if items.len() == 0 {
        false
    } else {
        any_left(items.subrange(0, items.len() - 1), b) || intersects_model(items[items.len() - 1], b)
    }
}

pub open spec fn any_right(a: ConstraintModel, items: Seq<ConstraintModel>) -> bool
    decreases a, items,
{
    if items.len() == 0 {
        false
    } else {
        any_right(a, items.subrange(0, items.len() - 1)) || intersects_model(a, items[items.len() - 1])
    }
}

pub fn starts_dev_exec(n: &String) -> (r: bool)
    ensures
        r == starts_dev(n@),
{
    let c = string_chars(n);
    if c.len() < 4 {
        return false;
    }
    chars_eq(&crate::text::slice_chars(&c, 0, 4), &to_chars("dev-"))
}

pub fn pick_exec(acc: Option<Bound>, b: Bound, greater: bool) -> (r: Option<Bound>)
    ensures
        match r {
            Some(x) => pick(
                match acc {
                    Some(a) => Some(a@),
                    None => None,
                },
                b@,
                greater,
            ) == Some(x@),
            None => false,
        },
{
    match acc {
        None => Some(b),
        Some(cur) => if b.compare_to(&cur, greater) {
            Some(b)
        } else {
            Some(cur)
        },
    }
}

pub open spec fn opt_view(b: Option<Bound>) -> Option<(Seq<char>, bool)> {
    match b {
        Some(x) => Some(x@),
        None => None,
    }
}

pub fn or_zero_exec(b: Option<Bound>) -> (r: Bound)
    ensures
        r@ == or_zero(opt_view(b)),
{
    match b {
        Some(x) => x,
        None => Bound::zero(),
    }
}

impl Constraint {
    /// The lowest version this constraint admits: the greatest member
    /// bound of an `And`, the least of an `Or`.
    pub fn lower_bound(&self) -> (r: Bound)
        ensures
            r@ == lower_model(self.model()),
        decreases self,
    {
        match self {
            Constraint::Any => Bound::zero(),
            Constraint::Op { op, version, .. } => {
                if starts_dev_exec(&version.normalized) {
                    return Bound::zero();
                }
                match op {
                    CmpOp::Eq | CmpOp::Ge => Bound::new(version.normalized.clone(), true),
                    CmpOp::Gt => Bound::new(version.normalized.clone(), false),
                    _ => Bound::zero(),
                }
            },
            Constraint::And(items) => or_zero_exec(fold_lower_exec(items, true)),
            Constraint::Or(items) => or_zero_exec(fold_lower_exec(items, false)),
        }
    }

    /// The highest version this constraint admits: the least member
    /// bound of an `And`, the greatest of an `Or`.
    pub fn upper_bound(&self) -> (r: Bound)
        ensures
            r@ == upper_model(self.model()),
        decreases self,
    {
        match self {
            Constraint::Any => Bound::positive_infinity(),
            Constraint::Op { op, version, .. } => {
                if starts_dev_exec(&version.normalized) {
                    return Bound::positive_infinity();
                }
                match op {
                    CmpOp::Eq | CmpOp::Le => Bound::new(version.normalized.clone(), true),
                    CmpOp::Lt => Bound::new(version.normalized.clone(), false),
                    _ => Bound::positive_infinity(),
                }
            },
            Constraint::And(items) => or_zero_exec(fold_upper_exec(items, false)),
            Constraint::Or(items) => or_zero_exec(fold_upper_exec(items, true)),
        }
    }
}

pub fn fold_lower_exec(items: &Vec<Constraint>, greater: bool) -> (r: Option<Bound>)
    ensures
        opt_view(r) == fold_lower(models_of(items@), greater),
    decreases items@,
{
    proof {
        lemma_models_of(items@);
    }
    let mut acc: Option<Bound> = None;
    let mut k: usize = 0;
    while k < items.len()
        invariant
            k <= items.len(),
            models_of(items@).len() == items@.len(),
            forall|i: int| 0 <= i < items@.len() ==> #[trigger] models_of(items@)[i] == items@[i].model(),
            opt_view(acc) == fold_lower(models_of(items@).subrange(0, k as int), greater),
        decreases items.len() - k,
    {
        let ghost nxt = models_of(items@).subrange(0, k + 1);
        assert(nxt.subrange(0, k as int) =~= models_of(items@).subrange(0, k as int));
        let b = items[k].lower_bound();
        acc = pick_exec(acc, b, greater);
        k += 1;
    }
    assert(models_of(items@).subrange(0, items@.len() as int) =~= models_of(items@));
    acc
}

pub fn fold_upper_exec(items: &Vec<Constraint>, greater: bool) -> (r: Option<Bound>)
    ensures
        opt_view(r) == fold_upper(models_of(items@), greater),
    decreases items@,
{
    proof {
        lemma_models_of(items@);
    }
    let mut acc: Option<Bound> = None;
    let mut k: usize = 0;
    while k < items.len()
        invariant
            k <= items.len(),
            models_of(items@).len() == items@.len(),
            forall|i: int| 0 <= i < items@.len() ==> #[trigger] models_of(items@)[i] == items@[i].model(),
            opt_view(acc) == fold_upper(models_of(items@).subrange(0, k as int), greater),
        decreases items.len() - k,
    {
        let ghost nxt = models_of(items@).subrange(0, k + 1);
        assert(nxt.subrange(0, k as int) =~= models_of(items@).subrange(0, k as int));
        let b = items[k].upper_bound();
        acc = pick_exec(acc, b, greater);
        k += 1;
    }
    assert(models_of(items@).subrange(0, items@.len() as int) =~= models_of(items@));
    acc
}

/// A prefix of members that intersects `b` makes the whole union intersect it.
pub proof fn lemma_any_left_prefix(items: Seq<ConstraintModel>, b: ConstraintModel, k: int)
    requires
        0 <= k <= items.len(),
        any_left(items.subrange(0, k), b),
    ensures
        any_left(items, b),
    decreases items.len() - k,
{
    if k < items.len() {
        assert(items.subrange(0, k + 1).subrange(0, k) =~= items.subrange(0, k));
        lemma_any_left_prefix(items, b, k + 1);
    } else {
        assert(items.subrange(0, k) =~= items);
    }
}

pub proof fn lemma_any_right_prefix(a: ConstraintModel, items: Seq<ConstraintModel>, k: int)
    requires
        0 <= k <= items.len(),
        any_right(a, items.subrange(0, k)),
    ensures
        any_right(a, items),
    decreases items.len() - k,
{
    if k < items.len() {
        assert(items.subrange(0, k + 1).subrange(0, k) =~= items.subrange(0, k));
        lemma_any_right_prefix(a, items, k + 1);
    } else {
        assert(items.subrange(0, k) =~= items);
    }
}

/// Overlap of two single-interval constraints.
fn intervals_overlap(a: &Constraint, b: &Constraint) -> (r: bool)
    ensures
        r == overlap(a.model(), b.model()),
{
    let la = a.lower_bound();
    let lb = b.lower_bound();
    let ua = a.upper_bound();
    let ub = b.upper_bound();
    let lower = if la.compare_to(&lb, true) {
        la
    } else {
        lb
    };
    let upper = if ua.compare_to(&ub, false) {
        ua
    } else {
        ub
    };
    if lower.is_zero() || upper.is_positive_infinity() {
        return true;
    }
    if lower.is_positive_infinity() {
        return false;
    }
    match lower.version_cmp(&upper) {
        Ordering::Less => true,
        Ordering::Greater => false,
        Ordering::Equal => lower.is_inclusive() && upper.is_inclusive(),
    }
}

impl Constraint {
    /// Whether `self` and `other` admit a common version: a union
    /// intersects when one of its members does; `*` intersects anything;
    /// two intervals intersect when they overlap.
    pub fn intersects(&self, other: &Constraint) -> (r: bool)
        ensures
            r == intersects_model(self.model(), other.model()),
        decreases self, other,
    {
        match self {
            Constraint::Or(items) => {
                proof {
                    lemma_models_of(items@);
                }
                let ghost bm = other.model();
                let mut k: usize = 0;
                while k < items.len()
                    invariant
                        k <= items.len(),
                        self == Constraint::Or(*items),
                        bm == other.model(),
                        models_of(items@).len() == items@.len(),
                        forall|i: int| 0 <= i < items@.len() ==> #[trigger] models_of(items@)[i] == items@[i].model(),
                        !any_left(models_of(items@).subrange(0, k as int), bm),
                    decreases items.len() - k,
                {
                    assert(models_of(items@).subrange(0, k + 1).subrange(0, k as int) =~= models_of(items@).subrange(0, k as int));
                    if items[k].intersects(other) {
                        proof {
                            lemma_any_left_prefix(models_of(items@), bm, k + 1);
                        }
                        return true;
                    }
                    k += 1;
                }
                assert(models_of(items@).subrange(0, items@.len() as int) =~= models_of(items@));
                false
            },
            _ => match other {
                Constraint::Or(items) => {
                    proof {
                        lemma_models_of(items@);
                    }
                    let ghost am = self.model();
                    let mut k: usize = 0;
                    while k < items.len()
                        invariant
                            k <= items.len(),
                            other == Constraint::Or(*items),
                            am == self.model(),
                            !(am is Or),
                            models_of(items@).len() == items@.len(),
                            forall|i: int| 0 <= i < items@.len() ==> #[trigger] models_of(items@)[i] == items@[i].model(),
                            !any_right(am, models_of(items@).subrange(0, k as int)),
                        decreases items.len() - k,
                    {
                        assert(models_of(items@).subrange(0, k + 1).subrange(0, k as int) =~= models_of(items@).subrange(0, k as int));
                        if self.intersects(&items[k]) {
                            proof {
                                lemma_any_right_prefix(am, models_of(items@), k + 1);
                            }
                            return true;
                        }
                        k += 1;
                    }
                    assert(models_of(items@).subrange(0, items@.len() as int) =~= models_of(items@));
                    false
                },
                _ => {
                    let any = match self {
                        Constraint::Any => true,
                        _ => match other {
                            Constraint::Any => true,
                            _ => false,
                        },
                    };
                    if any {
                        true
                    } else {
                        intervals_overlap(self, other)
                    }
                },
            },
        }
    }
}

// ---- laws of the bounds ----------------------------------------------------------

/// A bound body that is a version text or the positive-infinity body.
pub open spec fn bound_text_ok(t: Seq<char>) -> bool {
    normalize(t) is Ok || t == infinity_text()
}

/// On version texts and the infinity body the bound order is a total
/// preorder.
proof fn lemma_bound_sign_order(x: Seq<char>, y: Seq<char>, z: Seq<char>)
    requires
        bound_text_ok(x),
        bound_text_ok(y),
        bound_text_ok(z),
    ensures
        bound_sign(x, x) == 0,
        bound_sign(x, y) == -bound_sign(y, x),
        bound_sign(x, y) <= 0 && bound_sign(y, z) <= 0 ==> bound_sign(x, z) <= 0,
{
    let kx = if normalize(x) is Ok { normalize(x)->Ok_0.kind } else { KindModel::Branch(seq![]) };
    let ky = if normalize(y) is Ok { normalize(y)->Ok_0.kind } else { KindModel::Branch(seq![]) };
    let kz = if normalize(z) is Ok { normalize(z)->Ok_0.kind } else { KindModel::Branch(seq![]) };
    law_version_order(kx, ky, kz);
    law_version_order(kx, kx, kx);
}

/// `x` is not above `y` (when `greater`), or not below it (otherwise).
pub open spec fn not_past(x: (Seq<char>, bool), y: (Seq<char>, bool), greater: bool) -> bool {
    if greater {
        bound_sign(x.0, y.0) <= 0
    } else {
        bound_sign(x.0, y.0) >= 0
    }
}

/// One step of the fold: keeping the running bound or taking the member's
/// bound never lets an earlier bound end up past the result.
proof fn lemma_pick_step(r: (Seq<char>, bool), b: (Seq<char>, bool), m: (Seq<char>, bool), greater: bool)
    requires
        bound_text_ok(r.0),
        bound_text_ok(b.0),
        bound_text_ok(m.0),
        not_past(m, r, greater),
    ensures
        not_past(m, pick(Some(r), b, greater)->Some_0, greater),
        not_past(b, pick(Some(r), b, greater)->Some_0, greater),
        not_past(r, pick(Some(r), b, greater)->Some_0, greater),
{
    lemma_bound_sign_order(m.0, r.0, b.0);
    lemma_bound_sign_order(b.0, r.0, m.0);
    lemma_bound_sign_order(r.0, b.0, m.0);
    lemma_bound_sign_order(m.0, b.0, r.0);
    lemma_bound_sign_order(b.0, m.0, r.0);
    lemma_bound_sign_order(r.0, m.0, b.0);
}

proof fn lemma_fold_lower_extremal(items: Seq<ConstraintModel>, greater: bool)
    requires
        items.len() > 0,
        forall|i: int| 0 <= i < items.len() ==> bound_text_ok((#[trigger] lower_model(items[i])).0),
    ensures
        fold_lower(items, greater) is Some,
        exists|i: int| 0 <= i < items.len() && fold_lower(items, greater) == Some(lower_model(#[trigger] items[i])),
        forall|i: int| 0 <= i < items.len() ==> not_past(lower_model(#[trigger] items[i]), fold_lower(items, greater)->Some_0, greater),
    decreases items.len(),
{
    let n = items.len() - 1;
    let b = lower_model(items[n]);
    assert(bound_text_ok(b.0));
    if n == 0 {
        assert(fold_lower(items.drop_last(), greater) is None);
        lemma_bound_sign_order(b.0, b.0, b.0);
        assert(fold_lower(items, greater) == Some(lower_model(items[0])));
    } else {
        let d = items.drop_last();
        assert forall|i: int| 0 <= i < d.len() implies bound_text_ok((#[trigger] lower_model(d[i])).0) by {
            assert(d[i] == items[i]);
            assert(bound_text_ok(lower_model(items[i]).0));
        }
        lemma_fold_lower_extremal(d, greater);
        let r = fold_lower(d, greater)->Some_0;
        let j = choose|j: int| 0 <= j < d.len() && fold_lower(d, greater) == Some(lower_model(#[trigger] d[j]));
        assert(d[j] == items[j]);
        assert(bound_text_ok(lower_model(items[j]).0));
        lemma_bound_sign_order(r.0, r.0, r.0);
        assert forall|i: int| 0 <= i < items.len() implies not_past(lower_model(#[trigger] items[i]), fold_lower(items, greater)->Some_0, greater) by {
            if i < n {
                assert(d[i] == items[i]);
                assert(bound_text_ok(lower_model(items[i]).0));
                assert(not_past(lower_model(d[i]), r, greater));
                lemma_pick_step(r, b, lower_model(items[i]), greater);
            } else {
                lemma_pick_step(r, b, r, greater);
            }
        }
        if beyond(b, r, greater) {
            assert(fold_lower(items, greater) == Some(lower_model(items[n])));
        } else {
            assert(fold_lower(items, greater) == Some(lower_model(items[j])));
        }
    }
}

proof fn lemma_fold_upper_extremal(items: Seq<ConstraintModel>, greater: bool)
    requires
        items.len() > 0,
        forall|i: int| 0 <= i < items.len() ==> bound_text_ok((#[trigger] upper_model(items[i])).0),
    ensures
        fold_upper(items, greater) is Some,
        exists|i: int| 0 <= i < items.len() && fold_upper(items, greater) == Some(upper_model(#[trigger] items[i])),
        forall|i: int| 0 <= i < items.len() ==> not_past(upper_model(#[trigger] items[i]), fold_upper(items, greater)->Some_0, greater),
    decreases items.len(),
{
    let n = items.len() - 1;
    let b = upper_model(items[n]);
    assert(bound_text_ok(b.0));
    if n == 0 {
        assert(fold_upper(items.drop_last(), greater) is None);
        lemma_bound_sign_order(b.0, b.0, b.0);
        assert(fold_upper(items, greater) == Some(upper_model(items[0])));
    } else {
        let d = items.drop_last();
        assert forall|i: int| 0 <= i < d.len() implies bound_text_ok((#[trigger] upper_model(d[i])).0) by {
            assert(d[i] == items[i]);
            assert(bound_text_ok(upper_model(items[i]).0));
        }
        lemma_fold_upper_extremal(d, greater);
        let r = fold_upper(d, greater)->Some_0;
        let j = choose|j: int| 0 <= j < d.len() && fold_upper(d, greater) == Some(upper_model(#[trigger] d[j]));
        assert(d[j] == items[j]);
        assert(bound_text_ok(upper_model(items[j]).0));
        lemma_bound_sign_order(r.0, r.0, r.0);
        assert forall|i: int| 0 <= i < items.len() implies not_past(upper_model(#[trigger] items[i]), fold_upper(items, greater)->Some_0, greater) by {
            if i < n {
                assert(d[i] == items[i]);
                assert(bound_text_ok(upper_model(items[i]).0));
                assert(not_past(upper_model(d[i]), r, greater));
                lemma_pick_step(r, b, upper_model(items[i]), greater);
            } else {
                lemma_pick_step(r, b, r, greater);
            }
        }
        if beyond(b, r, greater) {
            assert(fold_upper(items, greater) == Some(upper_model(items[n])));
        } else {
            assert(fold_upper(items, greater) == Some(upper_model(items[j])));
        }
    }
}

/// The lower bound of an intersection is the greatest of its members'
/// lower bounds, and that of a union the least: it is one of them, and no
/// member's lower bound lies above (below) it in version order. Stated
/// for members whose bound bodies are version texts or the
/// positive-infinity body, as every parsed constraint's are.
pub proof fn law_lower_bound_extremes(items: Seq<ConstraintModel>)
    requires
        items.len() > 0,
        forall|i: int| 0 <= i < items.len() ==> bound_text_ok((#[trigger] lower_model(items[i])).0),
    ensures
        exists|i: int| 0 <= i < items.len() && lower_model(ConstraintModel::And(items)) == lower_model(#[trigger] items[i]),
        forall|i: int| 0 <= i < items.len() ==> bound_sign(lower_model(#[trigger] items[i]).0, lower_model(ConstraintModel::And(items)).0) <= 0,
        exists|i: int| 0 <= i < items.len() && lower_model(ConstraintModel::Or(items)) == lower_model(#[trigger] items[i]),
        forall|i: int| 0 <= i < items.len() ==> bound_sign(lower_model(#[trigger] items[i]).0, lower_model(ConstraintModel::Or(items)).0) >= 0,
{
    lemma_fold_lower_extremal(items, true);
    lemma_fold_lower_extremal(items, false);
    let j = choose|i: int| 0 <= i < items.len() && fold_lower(items, true) == Some(lower_model(#[trigger] items[i]));
    let k = choose|i: int| 0 <= i < items.len() && fold_lower(items, false) == Some(lower_model(#[trigger] items[i]));
    assert(lower_model(ConstraintModel::And(items)) == lower_model(items[j]));
    assert(lower_model(ConstraintModel::Or(items)) == lower_model(items[k]));
}

/// The upper bound of an intersection is the least of its members' upper
/// bounds, and that of a union the greatest, in the same sense.
pub proof fn law_upper_bound_extremes(items: Seq<ConstraintModel>)
    requires
        items.len() > 0,
        forall|i: int| 0 <= i < items.len() ==> bound_text_ok((#[trigger] upper_model(items[i])).0),
    ensures
        exists|i: int| 0 <= i < items.len() && upper_model(ConstraintModel::And(items)) == upper_model(#[trigger] items[i]),
        forall|i: int| 0 <= i < items.len() ==> bound_sign(upper_model(#[trigger] items[i]).0, upper_model(ConstraintModel::And(items)).0) >= 0,
        exists|i: int| 0 <= i < items.len() && upper_model(ConstraintModel::Or(items)) == upper_model(#[trigger] items[i]),
        forall|i: int| 0 <= i < items.len() ==> bound_sign(upper_model(#[trigger] items[i]).0, upper_model(ConstraintModel::Or(items)).0) <= 0,
{
    lemma_fold_upper_extremal(items, false);
    lemma_fold_upper_extremal(items, true);
    let j = choose|i: int| 0 <= i < items.len() && fold_upper(items, false) == Some(upper_model(#[trigger] items[i]));
    let k = choose|i: int| 0 <= i < items.len() && fold_upper(items, true) == Some(upper_model(#[trigger] items[i]));
    assert(upper_model(ConstraintModel::And(items)) == upper_model(items[j]));
    assert(upper_model(ConstraintModel::Or(items)) == upper_model(items[k]));
}

/// No prerelease of a version satisfies a strict `<` on that version: a
/// `-dev`, alpha, beta, RC, `-dev` prerelease or `-patchN-dev` of `x`
/// (the same numbers) is not below `x` for `<x`.
pub proof fn law_strict_upper_excludes_prereleases(g: Seq<Seq<char>>, x: VersionModel, e: bool, s: SuffixModel)
    requires
        x.kind == KindModel::Numeric(g, SuffixModel::Stable),
        match s {
            SuffixModel::Dev | SuffixModel::Prerelease(_, _) | SuffixModel::PrereleaseDev(_, _)
            | SuffixModel::PatchDev(_) => true,
            _ => false,
        },
    ensures
        !model_matches(ConstraintModel::Op(CmpOp::Lt, x, e), KindModel::Numeric(g, s)),
{
    assert(segments_equal(g, g));
    assert(prerelease_of_same(KindModel::Numeric(g, s), x.kind));
}

/// `t` lies at or below the upper end `u`.
pub open spec fn below_upper(t: Seq<char>, u: (Seq<char>, bool)) -> bool {
    bound_sign(t, u.0) < 0 || (bound_sign(t, u.0) == 0 && u.1)
}

/// `t` lies at or above the lower end `l`.
pub open spec fn above_lower(t: Seq<char>, l: (Seq<char>, bool)) -> bool {
    bound_sign(l.0, t) < 0 || (bound_sign(l.0, t) == 0 && l.1)
}

/// A comparison clause on a numeric version `x` admits `x` exactly when
/// `x` lies within the clause's lower and upper bounds: `==x`, `<=x` and
/// `>=x` keep `x` inside both ends, `<x` puts it at an exclusive upper
/// end and `>x` at an exclusive lower end.
pub proof fn law_clause_bounds_hold_target(op: CmpOp, x: VersionModel, e: bool)
    requires
        op != CmpOp::Ne,
        x.kind is Numeric,
        !starts_dev(x.normalized),
        x.normalized != infinity_text(),
        bound_sign(zero_text(), x.normalized) <= 0,
    ensures
        model_matches(ConstraintModel::Op(op, x, e), x.kind) == (above_lower(
            x.normalized,
            lower_model(ConstraintModel::Op(op, x, e)),
        ) && below_upper(x.normalized, upper_model(ConstraintModel::Op(op, x, e)))),
{
    lemma_bound_sign_antisymmetric(x.normalized, x.normalized);
    law_version_order(x.kind, x.kind, x.kind);
    let k = x.kind;
    match k {
        KindModel::Numeric(g, suf) => {
            assert(!prerelease_of_same(k, k));
        },
        _ => {},
    }
}

} // verus!
