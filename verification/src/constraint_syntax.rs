//! The constraint grammar:
//!
//! ```text
//! constraint := alt ("|" | "||") alt ...     -- empty alternatives are dropped
//! alt        := lo " - " hi                  -- hyphenated range
//!             | atom (sep atom)*             -- sep is whitespace or ","
//! atom       := "*" | "x" | "X"
//!             | branch reference             -- N.x-dev, dev-<name>
//!             | "^" version | "~" version
//!             | op version                   -- >=, <=, ==, !=, <>, >, <, =
//!             | wildcard                     -- 1.2.*, 2.x.x
//!             | partial or full version      -- 1, 1.2, 1.2.3
//!             | <name>-dev                   -- recovered as dev-<name>
//! ```
//!
//! An operator followed by separators keeps its operand: `>= 1.2`, `>=,1.2`.

use vstd::prelude::*;
use crate::constraint::{lemma_models_of, models_of, Constraint, ConstraintModel, ParseError};
use crate::grammar::{all_ascii_digits_exec, branch_alias_form, is_wildcard};
use crate::text::{
    all_ascii_digits, before_char, before_char_exec, concat, dec, dec_chars, find_from,
    index_from, is_ascii_alnum, is_ws, join, join_chars, lemma_index_from, lower, nonempty_parts,
    nonempty_parts_exec, no_ws, pad_to_four, pad_to_four_exec, parse_uint, parse_uint_exec,
    slice_chars, split, split_chars, string_chars, to_chars, to_string, trim, trim_chars,
    trim_end, trim_end_chars, trimmed, trimmed_exec, views, ws, lower_chars, lemma_trim_lacks,
    lemma_split_none, lemma_trim_idempotent, lemma_trim_nonempty, lemma_ws_prefix_len,
    lemma_trim_end_len, lemma_trim_start_concat, lemma_trim_end_concat, lemma_split_cons,
    lemma_ws_prefix_len_unique, lemma_trim_drops_trailing_blank, lemma_trim_commute, trim_start,
    ws_prefix_len,
};
use crate::grammar::branch_alias_form_exec;
use crate::version::{
    before_hash, before_hash_exec, chars_are, first_wildcard, first_wildcard_exec, nines,
    normalize, normalize_exec, strip_v, strip_v_exec, version_message, CmpOp, Version,
    VersionModel,
};

verus! {

/// What parsing a constraint text comes to: a constraint, an `Invalid`
/// error with its text, or an arithmetic overflow (a bound one above
/// `u32::MAX`, on which parsing panics).
pub ghost enum Outcome {
    Built(ConstraintModel),
    Invalid(Seq<char>),
    Overflow,
}

pub open spec fn u32_max() -> nat {
    4294967295
}

/// `str::parse::<u32>().unwrap_or(0)`.
pub open spec fn u32_or_zero(s: Seq<char>) -> nat {
    match parse_uint(s, u32_max()) {
        Some(v) => v,
        None => 0,
    }
}

// ---- partial versions -------------------------------------------------------

/// The non-empty `.`-pieces of the text before the first `-`, after one
/// leading `v`/`V` is dropped.
pub open spec fn partial_segments(s: Seq<char>) -> Seq<Seq<char>> {
    nonempty_parts(split(before_char(strip_v(s), '-'), '.'))
}

/// The segments of a partial version, or `s` itself when there are none
/// or the first is not all ASCII digits.
pub open spec fn partial_numeric(s: Seq<char>) -> Result<Seq<Seq<char>>, Seq<char>> {
    let segs = partial_segments(s);
    if segs.len() == 0 || !all_ascii_digits(segs[0]) {
        Err(s)
    } else {
        Ok(segs)
    }
}

/// A partial version padded to four segments with `0`, any `-` tail kept.
pub open spec fn pad_partial(s: Seq<char>) -> Seq<char> {
    let st = strip_v(s);
    let i = index_from(st, '-', 0);
    join(pad_to_four(nonempty_parts(split(st.subrange(0, i), '.')), "0"@), "."@) + st.subrange(
        i,
        st.len() as int,
    )
}

/// Index of the first `-` or `+` (the length when neither occurs).
pub open spec fn body_end(s: Seq<char>) -> int {
    let a = index_from(s, '-', 0);
    let b = index_from(s, '+', 0);
    if a <= b {
        a
    } else {
        b
    }
}

/// Whether a version was written in full: three or more segments, all
/// ASCII digits, before any `-`/`+` tail.
pub open spec fn wrote_full_version(s: Seq<char>) -> bool {
    let t = strip_v(trim(s));
    let segs = nonempty_parts(split(t.subrange(0, body_end(t)), '.'));
    segs.len() >= 3 && forall|i: int| 0 <= i < segs.len() ==> all_ascii_digits(#[trigger] segs[i])
}

/// `>=lo` and `<up` (or `<=up` when `inclusive_top`).
pub open spec fn range_model(lo: VersionModel, explicit: bool, up: VersionModel, inclusive_top: bool) -> ConstraintModel {
    ConstraintModel::And(
        seq![
            ConstraintModel::Op(CmpOp::Ge, lo, explicit),
            ConstraintModel::Op(if inclusive_top {
                CmpOp::Le
            } else {
                CmpOp::Lt
            }, up, false),
        ],
    )
}

/// Lower bound of `^`/`~`: the text as written, else padded with zeros.
pub open spec fn lower_of(rest: Seq<char>) -> Result<VersionModel, Seq<char>> {
    match normalize(rest) {
        Ok(v) => Ok(v),
        Err(_) => normalize(pad_partial(rest)),
    }
}

/// `n + 1` on a `u32`, `None` where it overflows.
pub open spec fn bumped(n: nat) -> Option<nat> {
    if n >= u32_max() {
        None
    } else {
        Some(n + 1)
    }
}

/// Exclusive upper bound of `^`: bump the first non-zero segment, or the
/// last written one when all written segments are zero.
pub open spec fn caret_upper(segs: Seq<Seq<char>>) -> Option<Seq<char>> {
    let major = u32_or_zero(segs[0]);
    let minor = if segs.len() > 1 {
        u32_or_zero(segs[1])
    } else {
        0
    };
    if major > 0 || segs.len() < 2 {
        match bumped(major) {
            Some(n) => Some(dec(n) + ".0.0.0"@),
            None => None,
        }
    } else if minor > 0 || segs.len() < 3 {
        match bumped(minor) {
            Some(n) => Some("0."@ + dec(n) + ".0.0"@),
            None => None,
        }
    } else {
        match bumped(u32_or_zero(segs[2])) {
            Some(n) => Some("0.0."@ + dec(n) + ".0"@),
            None => None,
        }
    }
}

/// The caret's upper bound depends only on the written segments up to
/// the leftmost non-zero one: once a segment before the last is
/// non-zero, dropping the last written segment leaves the bound as it
/// was (`^0.3.1` ends where `^0.3` does, `^1.2.3` where `^1` does).
pub proof fn law_caret_upper_leftmost_nonzero(segs: Seq<Seq<char>>)
    requires
        segs.len() >= 2,
        exists|i: int| 0 <= i < segs.len() - 1 && u32_or_zero(#[trigger] segs[i]) > 0,
    ensures
        caret_upper(segs) == caret_upper(segs.drop_last()),
{
    let i = choose|i: int| 0 <= i < segs.len() - 1 && u32_or_zero(#[trigger] segs[i]) > 0;
    let d = segs.drop_last();
    assert(d[0] == segs[0]);
    if d.len() > 1 {
        assert(d[1] == segs[1]);
    }
    if d.len() > 2 {
        assert(d[2] == segs[2]);
    }
    if u32_or_zero(segs[0]) == 0 {
        assert(i >= 1);
        assert(segs.len() >= 3);
        if u32_or_zero(segs[1]) == 0 {
            assert(i >= 2);
            assert(d.len() >= 3);
        }
    }
}

/// Up to the leftmost non-zero segment the caret ends where a bare
/// partial version ends: `^X` where `X` does (the next major) and `^0.Y`
/// where `0.Y` does (the next minor).
pub proof fn law_caret_upper_as_partial(segs: Seq<Seq<char>>)
    requires
        segs.len() == 1 || (segs.len() == 2 && u32_or_zero(segs[0]) == 0),
    ensures
        caret_upper(segs) == partial_upper(segs),
{
    reveal_strlit("0.");
    reveal_strlit(".");
    assert(dec(0) =~= seq!['0']);
    if segs.len() == 2 {
        match bumped(u32_or_zero(segs[1])) {
            Some(n) => {
                assert("0."@ + dec(n) + ".0.0"@ =~= dec(0) + "."@ + dec(n) + ".0.0"@);
            },
            None => {},
        }
    }
}

/// Exclusive upper bound of `~`: next major for `~X` and `~X.Y`, next
/// minor for `~X.Y.Z`.
pub open spec fn tilde_upper(segs: Seq<Seq<char>>) -> Option<Seq<char>> {
    let major = u32_or_zero(segs[0]);
    if segs.len() <= 2 {
        match bumped(major) {
            Some(n) => Some(dec(n) + ".0.0.0"@),
            None => None,
        }
    } else {
        match bumped(u32_or_zero(segs[1])) {
            Some(n) => Some(dec(major) + "."@ + dec(n) + ".0.0"@),
            None => None,
        }
    }
}

/// Exclusive upper bound of a bare partial: next major for `X`, next
/// minor for `X.Y`.
pub open spec fn partial_upper(segs: Seq<Seq<char>>) -> Option<Seq<char>> {
    let major = u32_or_zero(segs[0]);
    if segs.len() == 1 {
        match bumped(major) {
            Some(n) => Some(dec(n) + ".0.0.0"@),
            None => None,
        }
    } else {
        match bumped(u32_or_zero(segs[1])) {
            Some(n) => Some(dec(major) + "."@ + dec(n) + ".0.0"@),
            None => None,
        }
    }
}

/// `>=lower, <upper` with the lower bound from `lower` and the upper
/// bound text from `upper`; `label` prefixes the error texts.
pub open spec fn bounded(
    lower: Result<VersionModel, Seq<char>>,
    lower_label: Seq<char>,
    explicit: bool,
    upper: Option<Seq<char>>,
    upper_label: Seq<char>,
) -> Outcome {
    match lower {
        Err(m) => Outcome::Invalid(lower_label + version_message(m)),
        Ok(lo) => match upper {
            None => Outcome::Overflow,
            Some(ut) => match normalize(ut) {
                Err(m) => Outcome::Invalid(upper_label + version_message(m)),
                Ok(up) => Outcome::Built(range_model(lo, explicit, up, false)),
            },
        },
    }
}

/// `^rest`.
pub open spec fn caret_outcome(rest: Seq<char>) -> Outcome {
    match partial_numeric(rest) {
        Err(m) => Outcome::Invalid(m),
        Ok(segs) => bounded(
            lower_of(rest),
            "^"@ + rest + ": "@,
            wrote_full_version(rest),
            caret_upper(segs),
            "^"@ + rest + " upper: "@,
        ),
    }
}

/// `~rest`.
pub open spec fn tilde_outcome(rest: Seq<char>) -> Outcome {
    match partial_numeric(rest) {
        Err(m) => Outcome::Invalid(m),
        Ok(segs) => bounded(
            lower_of(rest),
            "~"@ + rest + ": "@,
            wrote_full_version(rest),
            tilde_upper(segs),
            "~"@ + rest + " upper: "@,
        ),
    }
}

/// The decimal text of each part's `u32` value (0 when it does not parse).
pub open spec fn wild_digits(parts: Seq<Seq<char>>) -> Seq<Seq<char>> {
    parts.map_values(|p: Seq<char>| dec(u32_or_zero(p)))
}

/// `1.2.*` / `2.x.x`: from the numbers before the first wildcard padded
/// with zeros, up to (excluding) the same with the last number bumped.
pub open spec fn wildcard_outcome(s: Seq<char>) -> Outcome {
    let parts = split(s, '.');
    let w = first_wildcard(parts, 0);
    if w >= parts.len() {
        Outcome::Invalid(s)
    } else {
        let nums = wild_digits(parts.take(w));
        match normalize(join(pad_to_four(nums, "0"@), "."@)) {
            Err(m) => Outcome::Invalid(s + " lower: "@ + version_message(m)),
            Ok(lo) => if w == 0 {
                Outcome::Built(ConstraintModel::Any)
            } else {
                match bumped(u32_or_zero(parts[w - 1])) {
                    None => Outcome::Overflow,
                    Some(n) => match normalize(
                        join(pad_to_four(nums.update(w - 1, dec(n)), "0"@), "."@),
                    ) {
                        Err(m) => Outcome::Invalid(s + " upper: "@ + version_message(m)),
                        Ok(up) => Outcome::Built(range_model(lo, false, up, false)),
                    },
                }
            },
        }
    }
}

/// A bare version: three or more segments pin it (`==`); fewer cover the
/// named major or minor.
pub open spec fn partial_outcome(s: Seq<char>) -> Outcome {
    let cleaned = before_char(s, '+');
    match partial_numeric(cleaned) {
        Err(m) => Outcome::Invalid(m),
        Ok(segs) => if segs.len() >= 3 {
            match normalize(cleaned) {
                Ok(v) => Outcome::Built(ConstraintModel::Op(CmpOp::Eq, v, true)),
                Err(m) => Outcome::Invalid(s + ": "@ + version_message(m)),
            }
        } else {
            bounded(
                normalize(pad_partial(cleaned)),
                s + " lower: "@,
                false,
                partial_upper(segs),
                s + " upper: "@,
            )
        },
    }
}

/// The operator a clause starts with and its length.
pub open spec fn op_prefix(s: Seq<char>) -> Option<(CmpOp, int)> {
    if s.len() >= 2 && s.take(2) == ">="@ {
        Some((CmpOp::Ge, 2))
    } else if s.len() >= 2 && s.take(2) == "<="@ {
        Some((CmpOp::Le, 2))
    } else if s.len() >= 2 && s.take(2) == "=="@ {
        Some((CmpOp::Eq, 2))
    } else if s.len() >= 2 && s.take(2) == "!="@ {
        Some((CmpOp::Ne, 2))
    } else if s.len() >= 2 && s.take(2) == "<>"@ {
        Some((CmpOp::Ne, 2))
    } else if s.len() >= 1 && s[0] == '>' {
        Some((CmpOp::Gt, 1))
    } else if s.len() >= 1 && s[0] == '<' {
        Some((CmpOp::Lt, 1))
    } else if s.len() >= 1 && s[0] == '=' {
        Some((CmpOp::Eq, 1))
    } else {
        None
    }
}

/// Starts with `dev-`, ASCII case ignored.
pub open spec fn starts_dev_ci(s: Seq<char>) -> bool {
    s.len() >= 4 && lower(s.take(4)) == "dev-"@
}

/// Only ASCII letters and digits, `-`, `.` and `/`, and not empty.
pub open spec fn name_safe(s: Seq<char>) -> bool {
    s.len() > 0 && forall|k: int|
        0 <= k < s.len() ==> is_ascii_alnum(#[trigger] s[k]) || s[k] == '-' || s[k] == '.' || s[k]
            == '/'
}

/// `<name>-dev` (ASCII case ignored in the suffix) with a name-safe name
/// that normalizes as `dev-<name>`.
pub open spec fn dev_recovery(s: Seq<char>) -> Option<VersionModel> {
    if s.len() >= 5 && lower(s.subrange(s.len() - 4, s.len() as int)) == "-dev"@ && name_safe(
        s.subrange(0, s.len() - 4),
    ) {
        match normalize("dev-"@ + s.subrange(0, s.len() - 4)) {
            Ok(v) => Some(v),
            Err(_) => None,
        }
    } else {
        None
    }
}

/// One atom of an intersection.
#[verifier::opaque]
pub open spec fn atom_outcome(token: Seq<char>) -> Outcome {
    let s0 = trim(token);
    if s0.len() == 0 {
        Outcome::Invalid(token)
    } else {
        let s = trim_end(before_hash(s0));
        if s == "*"@ || s == "x"@ || s == "X"@ {
            Outcome::Built(ConstraintModel::Any)
        } else if branch_alias_form(trim(s)) || starts_dev_ci(s) {
            match normalize(s) {
                Ok(v) => Outcome::Built(ConstraintModel::Op(CmpOp::Eq, v, true)),
                Err(m) => Outcome::Invalid(token + ": "@ + version_message(m)),
            }
        } else if s.len() > 0 && s[0] == '^' {
            caret_outcome(trim(s.drop_first()))
        } else if s.len() > 0 && s[0] == '~' {
            tilde_outcome(trim(s.drop_first()))
        } else {
            match op_prefix(s) {
                Some((op, n)) => {
                    let rest = trim(s.subrange(n, s.len() as int));
                    match normalize(rest) {
                        Ok(v) => Outcome::Built(
                            ConstraintModel::Op(
                                op,
                                v,
                                (op == CmpOp::Ge || op == CmpOp::Gt) && wrote_full_version(rest),
                            ),
                        ),
                        Err(m) => Outcome::Invalid(token + ": "@ + version_message(m)),
                    }
                },
                None => if first_wildcard(split(s, '.'), 0) < split(s, '.').len() {
                    wildcard_outcome(s)
                } else {
                    match partial_outcome(s) {
                        Outcome::Invalid(e) => match dev_recovery(s) {
                            Some(v) => Outcome::Built(ConstraintModel::Op(CmpOp::Eq, v, true)),
                            None => Outcome::Invalid(e),
                        },
                        other => other,
                    }
                },
            }
        }
    }
}

// ---- intersections ------------------------------------------------------------

pub open spec fn is_sep(c: char) -> bool {
    c == ',' || is_ws(c)
}

/// An operator still waiting for its version.
pub open spec fn pending_operator(cur: Seq<char>) -> bool {
    cur == ">"@ || cur == ">="@ || cur == "<"@ || cur == "<="@ || cur == "="@ || cur == "=="@
        || cur == "!="@ || cur == "<>"@
}

/// Tokenizer state after reading `s`: the finished tokens and the one
/// being built. A separator ends the current token unless that token is a
/// pending operator.
pub open spec fn tok_state(s: Seq<char>) -> (Seq<Seq<char>>, Seq<char>)
    decreases s.len(),
{
    if s.len() == 0 {
        (seq![], seq![])
    } else {
        let (out, cur) = tok_state(s.drop_last());
        let c = s.last();
        if is_sep(c) {
            if cur.len() > 0 && !pending_operator(cur) {
                (out.push(cur), seq![])
            } else {
                (out, cur)
            }
        } else {
            (out, cur.push(c))
        }
    }
}

pub open spec fn tokens(s: Seq<char>) -> Seq<Seq<char>> {
    let (out, cur) = tok_state(s);
    if cur.len() > 0 {
        out.push(cur)
    } else {
        out
    }
}

/// Index of the first whitespace character at or after `i`.
pub open spec fn first_ws(s: Seq<char>, i: int) -> int
    decreases s.len() - i,
{
    if i < 0 || i >= s.len() {
        s.len() as int
    } else if is_ws(s[i]) {
        i
    } else {
        first_ws(s, i + 1)
    }
}

/// Index of the first non-whitespace character at or after `i`.
pub open spec fn first_non_ws(s: Seq<char>, i: int) -> int
    decreases s.len() - i,
{
    if i < 0 || i >= s.len() {
        s.len() as int
    } else if !is_ws(s[i]) {
        i
    } else {
        first_non_ws(s, i + 1)
    }
}

/// `lo - hi`: exactly three whitespace-separated words, the middle one
/// `-`.
pub open spec fn hyphen_range(s: Seq<char>) -> Option<(Seq<char>, Seq<char>)> {
    let t = trim(s);
    let i = first_ws(t, 0);
    let j = first_non_ws(t, i);
    let k = first_non_ws(t, j + 1);
    if 0 < i && i < j && j < t.len() && t[j] == '-' && j + 1 < k && k < t.len() && no_ws(
        t.subrange(k, t.len() as int),
    ) {
        Some((t.subrange(0, i), t.subrange(k, t.len() as int)))
    } else {
        None
    }
}

/// The lower end of a hyphenated range, padded with zeros.
pub open spec fn expand_lower(lo: Seq<char>) -> Result<VersionModel, Seq<char>> {
    match normalize(pad_partial(before_char(lo, '+'))) {
        Ok(v) => Ok(v),
        Err(m) => Err(version_message(m)),
    }
}

/// The upper end of a hyphenated range, padded with `9999999`.
pub open spec fn expand_upper(hi: Seq<char>) -> Result<VersionModel, Seq<char>> {
    let segs = partial_segments(before_char(hi, '+'));
    if segs.len() == 0 {
        Err(hi)
    } else {
        match normalize(join(pad_to_four(segs, nines()), "."@)) {
            Ok(v) => Ok(v),
            Err(m) => Err(version_message(m)),
        }
    }
}

/// The atoms of a token list, in order, or the first failure.
pub open spec fn collect_atoms(toks: Seq<Seq<char>>) -> Result<Seq<ConstraintModel>, Outcome>
    decreases toks.len(),
{
    if toks.len() == 0 {
        Ok(seq![])
    } else {
        match collect_atoms(toks.drop_last()) {
            Err(o) => Err(o),
            Ok(ms) => match atom_outcome(toks.last()) {
                Outcome::Built(m) => Ok(ms.push(m)),
                o => Err(o),
            },
        }
    }
}

/// One `||`-alternative.
#[verifier::opaque]
pub open spec fn intersection_outcome(s: Seq<char>) -> Outcome {
    match hyphen_range(s) {
        Some((lo, hi)) => match expand_lower(lo) {
            Err(m) => Outcome::Invalid(m),
            Ok(l) => match expand_upper(hi) {
                Err(m) => Outcome::Invalid(m),
                Ok(h) => Outcome::Built(range_model(l, false, h, true)),
            },
        },
        None => match collect_atoms(tokens(s)) {
            Err(o) => o,
            Ok(ms) => if ms.len() == 0 {
                Outcome::Invalid(s)
            } else if ms.len() == 1 {
                Outcome::Built(ms[0])
            } else {
                Outcome::Built(ConstraintModel::And(ms))
            },
        },
    }
}

pub open spec fn collect_alternatives(alts: Seq<Seq<char>>) -> Result<Seq<ConstraintModel>, Outcome>
    decreases alts.len(),
{
    if alts.len() == 0 {
        Ok(seq![])
    } else {
        match collect_alternatives(alts.drop_last()) {
            Err(o) => Err(o),
            Ok(ms) => match intersection_outcome(alts.last()) {
                Outcome::Built(m) => Ok(ms.push(m)),
                o => Err(o),
            },
        }
    }
}

/// The alternatives of a constraint text: the trimmed, non-empty pieces
/// between `|` characters.
pub open spec fn alternatives(t: Seq<char>) -> Seq<Seq<char>> {
    nonempty_parts(trimmed(split(t, '|')))
}

/// `Constraint::parse` on `input`.
pub open spec fn parse_outcome(input: Seq<char>) -> Outcome {
    let t = trim(input);
    let alts = alternatives(t);
    if t.len() == 0 || alts.len() == 0 {
        Outcome::Invalid(input)
    } else {
        match collect_alternatives(alts) {
            Err(o) => o,
            Ok(ms) => if ms.len() == 1 {
                Outcome::Built(ms[0])
            } else {
                Outcome::Built(ConstraintModel::Or(ms))
            },
        }
    }
}

proof fn lemma_one_nonempty_part(t: Seq<char>)
    requires
        t.len() > 0,
    ensures
        nonempty_parts(seq![t]) == seq![t],
{
    let one = seq![t];
    let none = Seq::<Seq<char>>::empty();
    assert(one.drop_last() =~= none);
    assert(nonempty_parts(none) == none);
    assert(none.push(t) =~= one);
}

/// A text without `|` that is not blank is one alternative: parsing it
/// parses its trimmed text as an intersection.
proof fn lemma_single_alternative(a: Seq<char>)
    requires
        !a.contains('|'),
        trim(a).len() > 0,
    ensures
        parse_outcome(a) == intersection_outcome(trim(a)),
{
    let t = trim(a);
    lemma_trim_lacks(a, '|');
    lemma_split_none(t, '|');
    lemma_trim_idempotent(a);
    let one = seq![t];
    assert(trimmed(one) =~= one);
    lemma_one_nonempty_part(t);
    assert(alternatives(t) =~= one);
    let none = Seq::<Seq<char>>::empty();
    assert(one.drop_last() =~= none);
    assert(collect_alternatives(none) == Ok::<Seq<ConstraintModel>, Outcome>(seq![]));
    match intersection_outcome(t) {
        Outcome::Built(m) => {
            assert(collect_alternatives(one) == Ok::<Seq<ConstraintModel>, Outcome>(seq![m]));
        },
        o => {
            assert(collect_alternatives(one) == Err::<Seq<ConstraintModel>, Outcome>(o));
        },
    }
}

/// Parsing `a || b`, where neither side holds `|` and neither is blank,
/// parses each side: both constraints together as a union where both
/// parse, else the first side's failure, else the second's.
pub proof fn law_union_splits(a: Seq<char>, b: Seq<char>)
    requires
        !a.contains('|'),
        !b.contains('|'),
        trim(a).len() > 0,
        trim(b).len() > 0,
    ensures
        parse_outcome(a + " || "@ + b) == match (parse_outcome(a), parse_outcome(b)) {
            (Outcome::Built(x), Outcome::Built(y)) => Outcome::Built(ConstraintModel::Or(seq![x, y])),
            (Outcome::Built(_), o) => o,
            (o, _) => o,
        },
{
    reveal_strlit(" || ");
    let m: Seq<char> = " || "@;
    assert(m =~= seq![' ', '|', '|', ' ']);
    let s = a + m + b;
    let ta = trim(a);
    let tb = trim(b);
    lemma_trim_nonempty(a);
    lemma_trim_nonempty(b);
    lemma_trim_lacks(a, '|');
    lemma_trim_lacks(b, '|');
    // The trimmed input: what `a` keeps after its leading blanks, the
    // separator, and what `b` keeps before its trailing blanks.
    lemma_ws_prefix_len(a);
    let aa = trim_start(a);
    lemma_trim_end_len(aa);
    assert(aa[0] == a[ws_prefix_len(a)]);
    assert(s =~= a + (m + b));
    lemma_trim_start_concat(a, m + b);
    let bb = trim_end(b);
    assert(aa + (m + b) =~= (aa + m) + b);
    lemma_trim_end_concat(aa + m, b);
    let t = trim(s);
    assert(t == (aa + m) + bb);
    // Its pieces between `|`.
    let p1 = aa + seq![' '];
    let e: Seq<char> = seq![];
    let p3 = seq![' '] + bb;
    let rest = seq!['|'] + p3;
    assert(t =~= p1 + seq!['|'] + rest);
    assert forall|i: int| 0 <= i < p1.len() implies p1[i] != '|' by {
        if i < aa.len() {
            assert(p1[i] == aa[i]);
        }
    }
    assert forall|i: int| 0 <= i < p3.len() implies p3[i] != '|' by {
        if i > 0 {
            assert(p3[i] == bb[i - 1]);
        }
    }
    lemma_split_cons(p1, '|', rest);
    assert(rest =~= e + seq!['|'] + p3);
    lemma_split_cons(e, '|', p3);
    lemma_split_none(p3, '|');
    assert(split(t, '|') =~= seq![p1, e, p3]);
    // The pieces trimmed.
    lemma_ws_prefix_len_unique(aa, 0);
    lemma_ws_prefix_len(aa);
    assert(aa.subrange(0, aa.len() as int) =~= aa);
    lemma_trim_start_concat(aa, seq![' ']);
    lemma_trim_drops_trailing_blank(aa, ' ');
    assert(aa.push(' ') =~= p1);
    assert(trim(p1) == ta);
    assert(p3.drop_first() =~= bb);
    assert(trim(p3) == trim(bb));
    lemma_trim_commute(b);
    lemma_trim_idempotent(trim_start(b));
    assert(trim(bb) == tb);
    assert(trimmed(seq![p1, e, p3]) =~= seq![ta, e, tb]);
    let q = seq![ta, e, tb];
    assert(q.drop_last() =~= seq![ta, e]);
    assert(seq![ta, e].drop_last() =~= seq![ta]);
    lemma_one_nonempty_part(ta);
    assert(nonempty_parts(seq![ta, e]) == seq![ta]);
    assert(nonempty_parts(q) =~= seq![ta].push(tb));
    assert(seq![ta].push(tb) =~= seq![ta, tb]);
    assert(alternatives(t) =~= seq![ta, tb]);
    lemma_single_alternative(a);
    lemma_single_alternative(b);
    let two = seq![ta, tb];
    let none = Seq::<Seq<char>>::empty();
    assert(two.drop_last() =~= seq![ta]);
    assert(seq![ta].drop_last() =~= none);
    assert(collect_alternatives(none) == Ok::<Seq<ConstraintModel>, Outcome>(seq![]));
    match intersection_outcome(ta) {
        Outcome::Built(x) => {
            assert(collect_alternatives(seq![ta]) == Ok::<Seq<ConstraintModel>, Outcome>(seq![x]));
            match intersection_outcome(tb) {
                Outcome::Built(y) => {
                    assert(seq![x].push(y) =~= seq![x, y]);
                    assert(collect_alternatives(two) == Ok::<Seq<ConstraintModel>, Outcome>(seq![x, y]));
                },
                o => {
                    assert(collect_alternatives(two) == Err::<Seq<ConstraintModel>, Outcome>(o));
                },
            }
        },
        o => {
            assert(collect_alternatives(seq![ta]) == Err::<Seq<ConstraintModel>, Outcome>(o));
            assert(collect_alternatives(two) == Err::<Seq<ConstraintModel>, Outcome>(o));
        },
    }
}

// ---- executable helpers ---------------------------------------------------------

fn u32_or_zero_exec(s: &Vec<char>) -> (r: u32)
    ensures
        r as nat == u32_or_zero(s@),
{
    match parse_uint_exec(s, 4294967295u64) {
        Some(v) => v as u32,
        None => 0,
    }
}

fn partial_segments_exec(s: &Vec<char>) -> (r: Vec<Vec<char>>)
    ensures
        views(r@) == partial_segments(s@),
{
    let body = before_char_exec(&strip_v_exec(s), '-');
    nonempty_parts_exec(&split_chars(&body, '.'))
}

fn partial_numeric_exec(s: &Vec<char>) -> (r: Result<Vec<Vec<char>>, Vec<char>>)
    ensures
        match r {
            Ok(segs) => partial_numeric(s@) == Ok::<Seq<Seq<char>>, Seq<char>>(views(segs@)),
            Err(m) => partial_numeric(s@) == Err::<Seq<Seq<char>>, Seq<char>>(m@),
        },
{
    let segs = partial_segments_exec(s);
    if segs.len() == 0 {
        return Err(s.clone());
    }
    assert(views(segs@)[0] == segs@[0]@);
    if !all_ascii_digits_exec(&segs[0]) {
        return Err(s.clone());
    }
    Ok(segs)
}

fn pad_partial_exec(s: &Vec<char>) -> (r: Vec<char>)
    ensures
        r@ == pad_partial(s@),
{
    let st = strip_v_exec(s);
    let i = find_from(&st, '-', 0);
    let mut segs = nonempty_parts_exec(&split_chars(&slice_chars(&st, 0, i), '.'));
    pad_to_four_exec(&mut segs, &to_chars("0"));
    concat(&join_chars(&segs, &to_chars(".")), &slice_chars(&st, i, st.len()))
}

fn wrote_full_version_exec(s: &Vec<char>) -> (r: bool)
    ensures
        r == wrote_full_version(s@),
{
    let t = strip_v_exec(&trim_chars(s));
    let a = find_from(&t, '-', 0);
    let b = find_from(&t, '+', 0);
    let e = if a <= b {
        a
    } else {
        b
    };
    let segs = nonempty_parts_exec(&split_chars(&slice_chars(&t, 0, e), '.'));
    let ghost sv = views(segs@);
    assert(e as int == body_end(t@));
    assert(sv == nonempty_parts(split(t@.subrange(0, body_end(t@)), '.')));
    if segs.len() < 3 {
        return false;
    }
    let mut k: usize = 0;
    while k < segs.len()
        invariant
            k <= segs.len(),
            sv == views(segs@),
            t@ == strip_v(trim(s@)),
            sv == nonempty_parts(split(t@.subrange(0, body_end(t@)), '.')),
            forall|i: int| 0 <= i < k ==> all_ascii_digits(#[trigger] sv[i]),
        decreases segs.len() - k,
    {
        if !all_ascii_digits_exec(&segs[k]) {
            assert(!all_ascii_digits(sv[k as int]));
            return false;
        }
        k += 1;
    }
    true
}

fn dec32(n: u32) -> (r: Vec<char>)
    ensures
        r@ == dec(n as nat),
{
    dec_chars(n as u64)
}

fn cat3(a: &Vec<char>, b: &Vec<char>, c: &Vec<char>) -> (r: Vec<char>)
    ensures
        r@ == a@ + b@ + c@,
{
    concat(&concat(a, b), c)
}

fn caret_upper_exec(segs: &Vec<Vec<char>>) -> (r: Option<Vec<char>>)
    requires
        segs.len() >= 1,
    ensures
        match r {
            Some(t) => caret_upper(views(segs@)) == Some(t@),
            None => caret_upper(views(segs@)) is None,
        },
{
    let ghost sv = views(segs@);
    let major = u32_or_zero_exec(&segs[0]);
    let minor = if segs.len() > 1 {
        u32_or_zero_exec(&segs[1])
    } else {
        0
    };
    assert(sv[0] == segs@[0]@);
    assert(segs.len() > 1 ==> sv[1] == segs@[1]@);
    if major > 0 || segs.len() < 2 {
        if major == u32::MAX {
            return None;
        }
        Some(concat(&dec32(major + 1), &to_chars(".0.0.0")))
    } else if minor > 0 || segs.len() < 3 {
        if minor == u32::MAX {
            return None;
        }
        Some(cat3(&to_chars("0."), &dec32(minor + 1), &to_chars(".0.0")))
    } else {
        let patch = u32_or_zero_exec(&segs[2]);
        assert(sv[2] == segs@[2]@);
        if patch == u32::MAX {
            return None;
        }
        Some(cat3(&to_chars("0.0."), &dec32(patch + 1), &to_chars(".0")))
    }
}

fn tilde_upper_exec(segs: &Vec<Vec<char>>) -> (r: Option<Vec<char>>)
    requires
        segs.len() >= 1,
    ensures
        match r {
            Some(t) => tilde_upper(views(segs@)) == Some(t@),
            None => tilde_upper(views(segs@)) is None,
        },
{
    let ghost sv = views(segs@);
    let major = u32_or_zero_exec(&segs[0]);
    assert(sv[0] == segs@[0]@);
    if segs.len() <= 2 {
        if major == u32::MAX {
            return None;
        }
        Some(concat(&dec32(major + 1), &to_chars(".0.0.0")))
    } else {
        let minor = u32_or_zero_exec(&segs[1]);
        assert(sv[1] == segs@[1]@);
        if minor == u32::MAX {
            return None;
        }
        Some(concat(&cat3(&dec32(major), &to_chars("."), &dec32(minor + 1)), &to_chars(".0.0")))
    }
}

fn partial_upper_exec(segs: &Vec<Vec<char>>) -> (r: Option<Vec<char>>)
    requires
        segs.len() >= 1,
    ensures
        match r {
            Some(t) => partial_upper(views(segs@)) == Some(t@),
            None => partial_upper(views(segs@)) is None,
        },
{
    let ghost sv = views(segs@);
    let major = u32_or_zero_exec(&segs[0]);
    assert(sv[0] == segs@[0]@);
    if segs.len() == 1 {
        if major == u32::MAX {
            return None;
        }
        Some(concat(&dec32(major + 1), &to_chars(".0.0.0")))
    } else {
        let minor = u32_or_zero_exec(&segs[1]);
        assert(sv[1] == segs@[1]@);
        if minor == u32::MAX {
            return None;
        }
        Some(concat(&cat3(&dec32(major), &to_chars("."), &dec32(minor + 1)), &to_chars(".0.0")))
    }
}

// ---- executable parser --------------------------------------------------------

/// Why a parse stopped: an `Invalid` error, or a bound that overflows.
enum Fault {
    Invalid(String),
    Overflow,
}

spec fn fault_reports(f: Fault, o: Outcome) -> bool {
    match f {
        Fault::Invalid(m) => o == Outcome::Invalid(m@),
        Fault::Overflow => o == Outcome::Overflow,
    }
}

spec fn reports(r: Result<Constraint, Fault>, o: Outcome) -> bool {
    match r {
        Ok(c) => o == Outcome::Built(c.model()),
        Err(f) => fault_reports(f, o),
    }
}

pub open spec fn version_result(r: Result<Version, crate::version::ParseError>) -> Result<VersionModel, Seq<char>> {
    match r {
        Ok(v) => Ok(v@),
        Err(crate::version::ParseError::Invalid(m)) => Err(m@),
    }
}

fn norm(s: &Vec<char>) -> (r: Result<Version, crate::version::ParseError>)
    ensures
        version_result(r) == normalize(s@),
{
    normalize_exec(s)
}

/// `label` followed by the version error's text.
fn labeled(label: &Vec<char>, e: &crate::version::ParseError) -> (r: String)
    ensures
        match e {
            crate::version::ParseError::Invalid(m) => r@ == label@ + version_message(m@),
        },
{
    let msg = e.message();
    to_string(&concat(label, &string_chars(&msg)))
}

fn range_constraint(lo: Version, explicit: bool, up: Version, inclusive_top: bool) -> (r: Constraint)
    ensures
        r.model() == range_model(lo@, explicit, up@, inclusive_top),
{
    let top = if inclusive_top {
        CmpOp::Le
    } else {
        CmpOp::Lt
    };
    let items = vec![
        Constraint::Op { op: CmpOp::Ge, version: lo, explicit_lower_bound: explicit },
        Constraint::Op { op: top, version: up, explicit_lower_bound: false },
    ];
    proof {
        lemma_models_of(items@);
        assert(models_of(items@) =~= seq![items@[0].model(), items@[1].model()]);
    }
    Constraint::And(items)
}

fn bounded_exec(
    lower: Result<Version, crate::version::ParseError>,
    lower_label: &Vec<char>,
    explicit: bool,
    upper: Option<Vec<char>>,
    upper_label: &Vec<char>,
) -> (r: Result<Constraint, Fault>)
    ensures
        reports(
            r,
            bounded(
                version_result(lower),
                lower_label@,
                explicit,
                match upper {
                    Some(t) => Some(t@),
                    None => None,
                },
                upper_label@,
            ),
        ),
{
    match lower {
        Err(e) => Err(Fault::Invalid(labeled(lower_label, &e))),
        Ok(lo) => match upper {
            None => Err(Fault::Overflow),
            Some(ut) => match norm(&ut) {
                Err(e) => Err(Fault::Invalid(labeled(upper_label, &e))),
                Ok(up) => Ok(range_constraint(lo, explicit, up, false)),
            },
        },
    }
}

fn lower_of_exec(rest: &Vec<char>) -> (r: Result<Version, crate::version::ParseError>)
    ensures
        version_result(r) == lower_of(rest@),
{
    match norm(rest) {
        Ok(v) => Ok(v),
        Err(_) => norm(&pad_partial_exec(rest)),
    }
}

fn caret_exec(rest: &Vec<char>) -> (r: Result<Constraint, Fault>)
    ensures
        reports(r, caret_outcome(rest@)),
{
    match partial_numeric_exec(rest) {
        Err(m) => Err(Fault::Invalid(to_string(&m))),
        Ok(segs) => {
            let upper = caret_upper_exec(&segs);
            bounded_exec(
                lower_of_exec(rest),
                &cat3(&to_chars("^"), rest, &to_chars(": ")),
                wrote_full_version_exec(rest),
                upper,
                &cat3(&to_chars("^"), rest, &to_chars(" upper: ")),
            )
        },
    }
}

fn tilde_exec(rest: &Vec<char>) -> (r: Result<Constraint, Fault>)
    ensures
        reports(r, tilde_outcome(rest@)),
{
    match partial_numeric_exec(rest) {
        Err(m) => Err(Fault::Invalid(to_string(&m))),
        Ok(segs) => {
            let upper = tilde_upper_exec(&segs);
            bounded_exec(
                lower_of_exec(rest),
                &cat3(&to_chars("~"), rest, &to_chars(": ")),
                wrote_full_version_exec(rest),
                upper,
                &cat3(&to_chars("~"), rest, &to_chars(" upper: ")),
            )
        },
    }
}

fn wild_digits_exec(parts: &Vec<Vec<char>>, w: usize) -> (r: Vec<Vec<char>>)
    requires
        w <= parts.len(),
    ensures
        views(r@) == wild_digits(views(parts@).take(w as int)),
{
    let mut out: Vec<Vec<char>> = Vec::new();
    let mut k: usize = 0;
    while k < w
        invariant
            k <= w <= parts.len(),
            views(out@) =~= wild_digits(views(parts@).take(w as int)).take(k as int),
        decreases w - k,
    {
        let ghost before = views(out@);
        let d = dec32(u32_or_zero_exec(&parts[k]));
        out.push(d);
        assert(views(out@) =~= before.push(dec(u32_or_zero(parts@[k as int]@))));
        k += 1;
    }
    out
}

fn wildcard_exec(s: &Vec<char>) -> (r: Result<Constraint, Fault>)
    ensures
        reports(r, wildcard_outcome(s@)),
{
    let parts = split_chars(s, '.');
    let w = first_wildcard_exec(&parts);
    if w >= parts.len() {
        return Err(Fault::Invalid(to_string(s)));
    }
    let mut lower_segs = wild_digits_exec(&parts, w);
    pad_to_four_exec(&mut lower_segs, &to_chars("0"));
    let lower_text = join_chars(&lower_segs, &to_chars("."));
    match norm(&lower_text) {
        Err(e) => Err(Fault::Invalid(labeled(&concat(s, &to_chars(" lower: ")), &e))),
        Ok(lo) => {
            if w == 0 {
                return Ok(Constraint::Any);
            }
            let last = u32_or_zero_exec(&parts[w - 1]);
            if last == u32::MAX {
                return Err(Fault::Overflow);
            }
            let mut upper_segs = wild_digits_exec(&parts, w);
            let ghost nums = views(upper_segs@);
            upper_segs.set(w - 1, dec32(last + 1));
            assert(views(upper_segs@) =~= nums.update(w - 1, dec((last + 1) as nat)));
            pad_to_four_exec(&mut upper_segs, &to_chars("0"));
            let upper_text = join_chars(&upper_segs, &to_chars("."));
            match norm(&upper_text) {
                Err(e) => Err(Fault::Invalid(labeled(&concat(s, &to_chars(" upper: ")), &e))),
                Ok(up) => Ok(range_constraint(lo, false, up, false)),
            }
        },
    }
}

fn partial_exec(s: &Vec<char>) -> (r: Result<Constraint, Fault>)
    ensures
        reports(r, partial_outcome(s@)),
{
    let cleaned = before_char_exec(s, '+');
    match partial_numeric_exec(&cleaned) {
        Err(m) => Err(Fault::Invalid(to_string(&m))),
        Ok(segs) => {
            if segs.len() >= 3 {
                match norm(&cleaned) {
                    Ok(v) => Ok(Constraint::Op { op: CmpOp::Eq, version: v, explicit_lower_bound: true }),
                    Err(e) => Err(Fault::Invalid(labeled(&concat(s, &to_chars(": ")), &e))),
                }
            } else {
                let upper = partial_upper_exec(&segs);
                bounded_exec(
                    norm(&pad_partial_exec(&cleaned)),
                    &concat(s, &to_chars(" lower: ")),
                    false,
                    upper,
                    &concat(s, &to_chars(" upper: ")),
                )
            }
        },
    }
}

fn op_prefix_exec(s: &Vec<char>) -> (r: Option<(CmpOp, usize)>)
    ensures
        match r {
            Some((op, n)) => op_prefix(s@) == Some((op, n as int)) && n <= s.len(),
            None => op_prefix(s@) is None,
        },
{
    if s.len() >= 2 {
        let two = slice_chars(s, 0, 2);
        assert(two@ == s@.take(2));
        if chars_are(&two, ">=") {
            return Some((CmpOp::Ge, 2));
        }
        if chars_are(&two, "<=") {
            return Some((CmpOp::Le, 2));
        }
        if chars_are(&two, "==") {
            return Some((CmpOp::Eq, 2));
        }
        if chars_are(&two, "!=") {
            return Some((CmpOp::Ne, 2));
        }
        if chars_are(&two, "<>") {
            return Some((CmpOp::Ne, 2));
        }
    }
    if s.len() >= 1 {
        if s[0] == '>' {
            return Some((CmpOp::Gt, 1));
        }
        if s[0] == '<' {
            return Some((CmpOp::Lt, 1));
        }
        if s[0] == '=' {
            return Some((CmpOp::Eq, 1));
        }
    }
    None
}

fn starts_dev_ci_exec(s: &Vec<char>) -> (r: bool)
    ensures
        r == starts_dev_ci(s@),
{
    if s.len() < 4 {
        return false;
    }
    let head = slice_chars(s, 0, 4);
    assert(head@ == s@.take(4));
    chars_are(&lower_chars(&head), "dev-")
}

fn name_safe_exec(s: &Vec<char>) -> (r: bool)
    ensures
        r == name_safe(s@),
{
    if s.len() == 0 {
        return false;
    }
    let mut k: usize = 0;
    while k < s.len()
        invariant
            k <= s.len(),
            forall|m: int|
                0 <= m < k ==> is_ascii_alnum(#[trigger] s@[m]) || s@[m] == '-' || s@[m] == '.'
                    || s@[m] == '/',
        decreases s.len() - k,
    {
        let c = s[k];
        let ok = ('0' <= c && c <= '9') || ('a' <= c && c <= 'z') || ('A' <= c && c <= 'Z')
            || c == '-' || c == '.' || c == '/';
        if !ok {
            assert(!(is_ascii_alnum(s@[k as int]) || s@[k as int] == '-' || s@[k as int] == '.'
                || s@[k as int] == '/'));
            return false;
        }
        k += 1;
    }
    true
}

fn dev_recovery_exec(s: &Vec<char>) -> (r: Option<Version>)
    ensures
        match r {
            Some(v) => dev_recovery(s@) == Some(v@),
            None => dev_recovery(s@) is None,
        },
{
    if s.len() < 5 {
        return None;
    }
    let tail = slice_chars(s, s.len() - 4, s.len());
    if !chars_are(&lower_chars(&tail), "-dev") {
        return None;
    }
    let body = slice_chars(s, 0, s.len() - 4);
    if !name_safe_exec(&body) {
        return None;
    }
    match norm(&concat(&to_chars("dev-"), &body)) {
        Ok(v) => Some(v),
        Err(_) => None,
    }
}

fn atom_exec(token: &Vec<char>) -> (r: Result<Constraint, Fault>)
    ensures
        reports(r, atom_outcome(token@)),
{
    proof {
        reveal(atom_outcome);
    }
    let s0 = trim_chars(token);
    if s0.len() == 0 {
        return Err(Fault::Invalid(to_string(token)));
    }
    let s = trim_end_chars(&before_hash_exec(&s0));
    if chars_are(&s, "*") || chars_are(&s, "x") || chars_are(&s, "X") {
        return Ok(Constraint::Any);
    }
    if branch_alias_form_exec(&trim_chars(&s)) || starts_dev_ci_exec(&s) {
        return match norm(&s) {
            Ok(v) => Ok(Constraint::Op { op: CmpOp::Eq, version: v, explicit_lower_bound: true }),
            Err(e) => Err(Fault::Invalid(labeled(&concat(token, &to_chars(": ")), &e))),
        };
    }
    if s.len() > 0 && s[0] == '^' {
        let rest = slice_chars(&s, 1, s.len());
        assert(rest@ == s@.drop_first());
        return caret_exec(&trim_chars(&rest));
    }
    if s.len() > 0 && s[0] == '~' {
        let rest = slice_chars(&s, 1, s.len());
        assert(rest@ == s@.drop_first());
        return tilde_exec(&trim_chars(&rest));
    }
    match op_prefix_exec(&s) {
        Some((op, n)) => {
            let rest = trim_chars(&slice_chars(&s, n, s.len()));
            match norm(&rest) {
                Ok(v) => {
                    let explicit = (op == CmpOp::Ge || op == CmpOp::Gt) && wrote_full_version_exec(
                        &rest,
                    );
                    Ok(Constraint::Op { op, version: v, explicit_lower_bound: explicit })
                },
                Err(e) => Err(Fault::Invalid(labeled(&concat(token, &to_chars(": ")), &e))),
            }
        },
        None => {
            let parts = split_chars(&s, '.');
            if first_wildcard_exec(&parts) < parts.len() {
                return wildcard_exec(&s);
            }
            match partial_exec(&s) {
                Err(Fault::Invalid(e)) => match dev_recovery_exec(&s) {
                    Some(v) => Ok(Constraint::Op { op: CmpOp::Eq, version: v, explicit_lower_bound: true }),
                    None => Err(Fault::Invalid(e)),
                },
                other => other,
            }
        },
    }
}

fn pending_operator_exec(cur: &Vec<char>) -> (r: bool)
    ensures
        r == pending_operator(cur@),
{
    chars_are(cur, ">") || chars_are(cur, ">=") || chars_are(cur, "<") || chars_are(cur, "<=")
        || chars_are(cur, "=") || chars_are(cur, "==") || chars_are(cur, "!=") || chars_are(
        cur,
        "<>",
    )
}

fn tokens_exec(s: &Vec<char>) -> (r: Vec<Vec<char>>)
    ensures
        views(r@) == tokens(s@),
{
    let mut out: Vec<Vec<char>> = Vec::new();
    let mut cur: Vec<char> = Vec::new();
    let mut k: usize = 0;
    while k < s.len()
        invariant
            k <= s.len(),
            (views(out@), cur@) == tok_state(s@.take(k as int)),
        decreases s.len() - k,
    {
        let ghost pre = s@.take(k as int);
        let ghost nxt = s@.take(k + 1);
        assert(nxt.drop_last() =~= pre);
        assert(nxt.last() == s@[k as int]);
        let c = s[k];
        if c == ',' || ws(c) {
            if cur.len() > 0 && !pending_operator_exec(&cur) {
                let ghost before = views(out@);
                let ghost piece = cur@;
                out.push(cur);
                assert(views(out@) =~= before.push(piece));
                cur = Vec::new();
                assert(cur@ =~= seq![]);
            }
        } else {
            cur.push(c);
        }
        k += 1;
    }
    assert(s@.take(s.len() as int) =~= s@);
    if cur.len() > 0 {
        let ghost before = views(out@);
        let ghost piece = cur@;
        out.push(cur);
        assert(views(out@) =~= before.push(piece));
    }
    out
}

fn first_ws_exec(v: &Vec<char>, from: usize) -> (r: usize)
    requires
        from <= v.len(),
    ensures
        r as int == first_ws(v@, from as int),
        from <= r <= v.len(),
{
    let mut k: usize = from;
    while k < v.len() && !ws(v[k])
        invariant
            from <= k <= v.len(),
            first_ws(v@, from as int) == first_ws(v@, k as int),
        decreases v.len() - k,
    {
        k += 1;
    }
    k
}

fn first_non_ws_exec(v: &Vec<char>, from: usize) -> (r: usize)
    requires
        from <= v.len(),
    ensures
        r as int == first_non_ws(v@, from as int),
        from <= r <= v.len(),
{
    let mut k: usize = from;
    while k < v.len() && ws(v[k])
        invariant
            from <= k <= v.len(),
            first_non_ws(v@, from as int) == first_non_ws(v@, k as int),
        decreases v.len() - k,
    {
        k += 1;
    }
    k
}

fn no_ws_exec(v: &Vec<char>) -> (r: bool)
    ensures
        r == no_ws(v@),
{
    let mut k: usize = 0;
    while k < v.len()
        invariant
            k <= v.len(),
            forall|m: int| 0 <= m < k ==> !is_ws(#[trigger] v@[m]),
        decreases v.len() - k,
    {
        if ws(v[k]) {
            return false;
        }
        k += 1;
    }
    true
}

fn hyphen_range_exec(s: &Vec<char>) -> (r: Option<(Vec<char>, Vec<char>)>)
    ensures
        match r {
            Some((lo, hi)) => hyphen_range(s@) == Some((lo@, hi@)),
            None => hyphen_range(s@) is None,
        },
{
    let t = trim_chars(s);
    let i = first_ws_exec(&t, 0);
    let j = first_non_ws_exec(&t, i);
    if !(0 < i && i < j && j < t.len() && t[j] == '-') {
        return None;
    }
    let k = first_non_ws_exec(&t, j + 1);
    if !(j + 1 < k && k < t.len()) {
        return None;
    }
    let hi = slice_chars(&t, k, t.len());
    if !no_ws_exec(&hi) {
        return None;
    }
    Some((slice_chars(&t, 0, i), hi))
}

fn expand_lower_exec(lo: &Vec<char>) -> (r: Result<Version, String>)
    ensures
        match r {
            Ok(v) => expand_lower(lo@) == Ok::<VersionModel, Seq<char>>(v@),
            Err(m) => expand_lower(lo@) == Err::<VersionModel, Seq<char>>(m@),
        },
{
    match norm(&pad_partial_exec(&before_char_exec(lo, '+'))) {
        Ok(v) => Ok(v),
        Err(e) => Err(e.message()),
    }
}

fn expand_upper_exec(hi: &Vec<char>) -> (r: Result<Version, String>)
    ensures
        match r {
            Ok(v) => expand_upper(hi@) == Ok::<VersionModel, Seq<char>>(v@),
            Err(m) => expand_upper(hi@) == Err::<VersionModel, Seq<char>>(m@),
        },
{
    let mut segs = partial_segments_exec(&before_char_exec(hi, '+'));
    if segs.len() == 0 {
        return Err(to_string(hi));
    }
    pad_to_four_exec(&mut segs, &to_chars("9999999"));
    match norm(&join_chars(&segs, &to_chars("."))) {
        Ok(v) => Ok(v),
        Err(e) => Err(e.message()),
    }
}

/// Once a prefix of a list fails, the list fails the same way.
proof fn lemma_collect_atoms_prefix(toks: Seq<Seq<char>>, k: int, o: Outcome)
    requires
        0 <= k <= toks.len(),
        collect_atoms(toks.take(k)) == Err::<Seq<ConstraintModel>, Outcome>(o),
    ensures
        collect_atoms(toks) == Err::<Seq<ConstraintModel>, Outcome>(o),
    decreases toks.len() - k,
{
    if k < toks.len() {
        assert(toks.take(k + 1).drop_last() =~= toks.take(k));
        lemma_collect_atoms_prefix(toks, k + 1, o);
    } else {
        assert(toks.take(k) =~= toks);
    }
}

proof fn lemma_collect_alternatives_prefix(alts: Seq<Seq<char>>, k: int, o: Outcome)
    requires
        0 <= k <= alts.len(),
        collect_alternatives(alts.take(k)) == Err::<Seq<ConstraintModel>, Outcome>(o),
    ensures
        collect_alternatives(alts) == Err::<Seq<ConstraintModel>, Outcome>(o),
    decreases alts.len() - k,
{
    if k < alts.len() {
        assert(alts.take(k + 1).drop_last() =~= alts.take(k));
        lemma_collect_alternatives_prefix(alts, k + 1, o);
    } else {
        assert(alts.take(k) =~= alts);
    }
}

proof fn lemma_models_push(cs: Seq<Constraint>, c: Constraint)
    ensures
        models_of(cs.push(c)) == models_of(cs).push(c.model()),
{
    assert(cs.push(c).subrange(0, cs.len() as int) =~= cs);
}

#[verifier::rlimit(30)]
#[verifier::spinoff_prover]
fn atoms_exec(toks: &Vec<Vec<char>>) -> (r: Result<Vec<Constraint>, Fault>)
    ensures
        match r {
            Ok(cs) => collect_atoms(views(toks@)) == Ok::<Seq<ConstraintModel>, Outcome>(models_of(cs@)),
            Err(f) => match collect_atoms(views(toks@)) {
                Err(o) => fault_reports(f, o),
                Ok(_) => false,
            },
        },
{
    let ghost tv = views(toks@);
    let mut cs: Vec<Constraint> = Vec::new();
    let mut k: usize = 0;
    while k < toks.len()
        invariant
            k <= toks.len(),
            tv == views(toks@),
            collect_atoms(tv.take(k as int)) == Ok::<Seq<ConstraintModel>, Outcome>(models_of(cs@)),
        decreases toks.len() - k,
    {
        assert(tv.take(k + 1).drop_last() =~= tv.take(k as int));
        assert(tv.take(k + 1).last() == toks@[k as int]@);
        match atom_exec(&toks[k]) {
            Ok(c) => {
                proof {
                    lemma_models_push(cs@, c);
                }
                cs.push(c);
            },
            Err(f) => {
                proof {
                    let o = atom_outcome(toks@[k as int]@);
                    assert(collect_atoms(tv.take(k + 1)) == Err::<Seq<ConstraintModel>, Outcome>(o));
                    lemma_collect_atoms_prefix(tv, k + 1, o);
                }
                return Err(f);
            },
        }
        k += 1;
    }
    assert(tv.take(toks.len() as int) =~= tv);
    Ok(cs)
}

fn intersection_exec(s: &Vec<char>) -> (r: Result<Constraint, Fault>)
    ensures
        reports(r, intersection_outcome(s@)),
{
    proof {
        reveal(intersection_outcome);
    }
    match hyphen_range_exec(s) {
        Some((lo, hi)) => match expand_lower_exec(&lo) {
            Err(m) => Err(Fault::Invalid(m)),
            Ok(l) => match expand_upper_exec(&hi) {
                Err(m) => Err(Fault::Invalid(m)),
                Ok(h) => Ok(range_constraint(l, false, h, true)),
            },
        },
        None => {
            let toks = tokens_exec(s);
            match atoms_exec(&toks) {
                Err(f) => Err(f),
                Ok(cs) => {
                    proof {
                        lemma_models_of(cs@);
                    }
                    if cs.len() == 0 {
                        Err(Fault::Invalid(to_string(s)))
                    } else if cs.len() == 1 {
                        let mut cs = cs;
                        let c = cs.pop().unwrap();
                        Ok(c)
                    } else {
                        Ok(Constraint::And(cs))
                    }
                },
            }
        },
    }
}

#[verifier::rlimit(30)]
#[verifier::spinoff_prover]
fn alternatives_exec(alts: &Vec<Vec<char>>) -> (r: Result<Vec<Constraint>, Fault>)
    ensures
        match r {
            Ok(cs) => collect_alternatives(views(alts@)) == Ok::<Seq<ConstraintModel>, Outcome>(models_of(cs@)),
            Err(f) => match collect_alternatives(views(alts@)) {
                Err(o) => fault_reports(f, o),
                Ok(_) => false,
            },
        },
{
    let ghost av = views(alts@);
    let mut cs: Vec<Constraint> = Vec::new();
    let mut k: usize = 0;
    while k < alts.len()
        invariant
            k <= alts.len(),
            av == views(alts@),
            collect_alternatives(av.take(k as int)) == Ok::<Seq<ConstraintModel>, Outcome>(models_of(cs@)),
        decreases alts.len() - k,
    {
        assert(av.take(k + 1).drop_last() =~= av.take(k as int));
        assert(av.take(k + 1).last() == alts@[k as int]@);
        match intersection_exec(&alts[k]) {
            Ok(c) => {
                proof {
                    lemma_models_push(cs@, c);
                }
                cs.push(c);
            },
            Err(f) => {
                proof {
                    let o = intersection_outcome(alts@[k as int]@);
                    assert(collect_alternatives(av.take(k + 1)) == Err::<Seq<ConstraintModel>, Outcome>(o));
                    lemma_collect_alternatives_prefix(av, k + 1, o);
                }
                return Err(f);
            },
        }
        k += 1;
    }
    assert(av.take(alts.len() as int) =~= av);
    Ok(cs)
}

#[verifier::rlimit(30)]
#[verifier::spinoff_prover]
fn parse_full(input: &str) -> (r: Result<Constraint, Fault>)
    ensures
        reports(r, parse_outcome(input@)),
{
    let raw = to_chars(input);
    let t = trim_chars(&raw);
    if t.len() == 0 {
        return Err(Fault::Invalid(to_string(&raw)));
    }
    let alts = nonempty_parts_exec(&trimmed_exec(&split_chars(&t, '|')));
    if alts.len() == 0 {
        return Err(Fault::Invalid(to_string(&raw)));
    }
    let cs = match alternatives_exec(&alts) {
        Ok(cs) => cs,
        Err(f) => return Err(f),
    };
    proof {
        lemma_models_of(cs@);
    }
    if cs.len() == 1 {
        let mut cs = cs;
        let c = cs.pop().unwrap();
        Ok(c)
    } else {
        Ok(Constraint::Or(cs))
    }
}

impl Constraint {
    /// Parse a Composer constraint string.
    ///
    /// Inputs on which a bound would need a `u32` segment above
    /// `4294967295` (such as `^4294967295`) are left out; see
    /// [`Constraint::checked_parse`].
    pub fn parse(input: &str) -> (r: Result<Constraint, ParseError>)
        requires
            !(parse_outcome(input@) is Overflow),
        ensures
            match r {
                Ok(c) => parse_outcome(input@) == Outcome::Built(c.model()),
                Err(ParseError::Invalid(m)) => parse_outcome(input@) == Outcome::Invalid(m@),
            },
    {
        match parse_full(input) {
            Ok(c) => Ok(c),
            Err(Fault::Invalid(m)) => Err(ParseError::Invalid(m)),
            Err(Fault::Overflow) => {
                proof {
                    assert(false);
                }
                Err(ParseError::Invalid(to_string(&to_chars(input))))
            },
        }
    }

    /// [`Constraint::parse`] on any input: `None` where a bound would
    /// overflow `u32`.
    pub fn checked_parse(input: &str) -> (r: Option<Result<Constraint, ParseError>>)
        ensures
            match r {
                None => parse_outcome(input@) is Overflow,
                Some(Ok(c)) => parse_outcome(input@) == Outcome::Built(c.model()),
                Some(Err(ParseError::Invalid(m))) => parse_outcome(input@) == Outcome::Invalid(m@),
            },
    {
        match parse_full(input) {
            Ok(c) => Some(Ok(c)),
            Err(Fault::Invalid(m)) => Some(Err(ParseError::Invalid(m))),
            Err(Fault::Overflow) => None,
        }
    }
}

} // verus!
