//! The version grammar: the modifier tail (`-beta2`, `.RC1-dev`, ...),
//! the classical `X.Y.Z.W` form and the date form, stated as spec
//! functions over characters and matched by verified scanners.
//!
//! The accepted languages and the captured parts are those of Composer's
//! two anchored version patterns (case-insensitive, `\d` = Unicode
//! decimal digit): a maximal run is taken wherever the pattern is greedy,
//! and a keyword is the first listed alternative that fits.

use vstd::prelude::*;
use crate::text::{
    all_ascii_digits, all_udigits, ascii_digit, chars_eq, ci_eq, ci_prefix_at, concat,
    find_from, has_ws, index_from, is_ascii_digit, is_udigit, is_ws, lower, lower_chars,
    slice_chars, split, split_chars, to_chars, to_lower_char, udigit, views, ws,
};

verus! {

pub open spec fn is_sep3(c: char) -> bool {
    c == '.' || c == '_' || c == '-'
}

pub open spec fn is_dot_dash(c: char) -> bool {
    c == '.' || c == '-'
}

pub open spec fn is_date_sep(c: char) -> bool {
    c == '.' || c == ':' || c == '-' || c == '_'
}

/// The keyword alternatives of the modifier, in the order they are tried.
pub open spec fn keyword_list() -> Seq<Seq<char>> {
    seq!["stable"@, "rc"@, "beta"@, "b"@, "alpha"@, "a"@, "patch"@, "pl"@, "p"@]
}

/// Index (from `k` on) of the first keyword that fits at `i`.
pub open spec fn first_keyword(s: Seq<char>, i: int, k: int) -> Option<int>
    decreases 9 - k,
{
    if k < 0 || k >= 9 {
        None
    } else if ci_prefix_at(s, i, keyword_list()[k]) {
        Some(k)
    } else {
        first_keyword(s, i, k + 1)
    }
}

/// End of the greedy number tail `([.-]?\d+)*` starting at `e`.
pub open spec fn tail_end(s: Seq<char>, e: int) -> int
    decreases s.len() - e,
{
    if e < 0 || e >= s.len() {
        e
    } else if is_udigit(s[e]) {
        tail_end(s, e + 1)
    } else if e + 1 < s.len() && is_dot_dash(s[e]) && is_udigit(s[e + 1]) {
        tail_end(s, e + 2)
    } else {
        e
    }
}

/// `([.-]?dev)?` spanning all of `r`.
pub open spec fn dev_tail_ok(r: Seq<char>) -> bool {
    r.len() == 0 || (r.len() == 3 && ci_prefix_at(r, 0, "dev"@)) || (r.len() == 4
        && is_dot_dash(r[0]) && ci_prefix_at(r, 1, "dev"@))
}

/// The modifier `(?:[._-]?(?:(KW)((?:[.-]?\d+)*)?)?)?([.-]?dev)?` matched
/// against all of `r`: the keyword as written, its number tail, and
/// whether a `dev` tail is present.
pub open spec fn modifier(r: Seq<char>) -> Option<(Option<Seq<char>>, Seq<char>, bool)> {
    let i: int = if r.len() > 0 && is_sep3(r[0]) {
        1
    } else {
        0
    };
    match first_keyword(r, i, 0) {
        Some(k) => {
            let j = i + keyword_list()[k].len();
            let e = tail_end(r, j);
            if dev_tail_ok(r.subrange(e, r.len() as int)) {
                Some((Some(r.subrange(i, j)), r.subrange(j, e), e < r.len()))
            } else {
                None
            }
        },
        None => if dev_tail_ok(r.subrange(i, r.len() as int)) {
            Some((None, seq![], i < r.len()))
        } else {
            None
        },
    }
}

pub struct ModifierParts {
    pub keyword: Option<Vec<char>>,
    pub tail: Vec<char>,
    pub dev: bool,
}

impl ModifierParts {
    pub open spec fn model(&self) -> (Option<Seq<char>>, Seq<char>, bool) {
        (
            match self.keyword {
                Some(k) => Some(k@),
                None => None,
            },
            self.tail@,
            self.dev,
        )
    }
}

pub fn ci_eq_char(c: char, p: char) -> (r: bool)
    ensures
        r == ci_eq(c, p),
{
    c == p || (('a' <= p && p <= 'z') && 'A' <= c && c <= 'Z' && to_lower_char(c) == p) || (p
        == 's' && c == '\u{17f}')
}

pub fn ci_prefix(s: &Vec<char>, i: usize, p: &Vec<char>) -> (r: bool)
    ensures
        r == ci_prefix_at(s@, i as int, p@),
{
    if i > s.len() || p.len() > s.len() - i {
        return false;
    }
    let mut k: usize = 0;
    while k < p.len()
        invariant
            k <= p.len(),
            i + p.len() <= s.len(),
            forall|m: int| 0 <= m < k ==> ci_eq(#[trigger] s@[i + m], p@[m]),
        decreases p.len() - k,
    {
        if !ci_eq_char(s[i + k], p[k]) {
            return false;
        }
        k += 1;
    }
    true
}

pub fn keyword_vec(k: usize) -> (r: Vec<char>)
    requires
        k < 9,
    ensures
        r@ == keyword_list()[k as int],
{
    if k == 0 {
        to_chars("stable")
    } else if k == 1 {
        to_chars("rc")
    } else if k == 2 {
        to_chars("beta")
    } else if k == 3 {
        to_chars("b")
    } else if k == 4 {
        to_chars("alpha")
    } else if k == 5 {
        to_chars("a")
    } else if k == 6 {
        to_chars("patch")
    } else if k == 7 {
        to_chars("pl")
    } else {
        to_chars("p")
    }
}

pub fn first_keyword_exec(s: &Vec<char>, i: usize) -> (r: Option<(usize, usize)>)
    ensures
        match r {
            Some((k, len)) => first_keyword(s@, i as int, 0) == Some(k as int) && len
                == keyword_list()[k as int].len() && i + len <= s.len(),
            None => first_keyword(s@, i as int, 0) is None,
        },
{
    let mut k: usize = 0;
    while k < 9
        invariant
            k <= 9,
            first_keyword(s@, i as int, 0) == first_keyword(s@, i as int, k as int),
        decreases 9 - k,
    {
        let w = keyword_vec(k);
        if ci_prefix(s, i, &w) {
            return Some((k, w.len()));
        }
        k += 1;
    }
    None
}

pub fn tail_end_exec(s: &Vec<char>, e: usize) -> (r: usize)
    requires
        e <= s.len(),
    ensures
        r == tail_end(s@, e as int),
        e <= r <= s.len(),
{
    let mut k = e;
    loop
        invariant
            e <= k <= s.len(),
            tail_end(s@, e as int) == tail_end(s@, k as int),
        decreases s.len() - k,
    {
        if k < s.len() && udigit(s[k]) {
            k += 1;
        } else if k < s.len() && k + 1 < s.len() && (s[k] == '.' || s[k] == '-') && udigit(s[k + 1]) {
            k += 2;
        } else {
            return k;
        }
    }
}

pub fn dev_tail_exec(s: &Vec<char>, e: usize) -> (r: bool)
    requires
        e <= s.len(),
    ensures
        r == dev_tail_ok(s@.subrange(e as int, s@.len() as int)),
{
    let rest = slice_chars(s, e, s.len());
    let dev = to_chars("dev");
    if rest.len() == 0 {
        true
    } else if rest.len() == 3 {
        ci_prefix(&rest, 0, &dev)
    } else if rest.len() == 4 {
        (rest[0] == '.' || rest[0] == '-') && ci_prefix(&rest, 1, &dev)
    } else {
        false
    }
}

/// The modifier parts of `r`, or `None` when `r` is not a modifier.
pub fn modifier_exec(r: &Vec<char>) -> (out: Option<ModifierParts>)
    ensures
        match out {
            Some(m) => modifier(r@) == Some(m.model()),
            None => modifier(r@) is None,
        },
{
    let i: usize = if r.len() > 0 && (r[0] == '.' || r[0] == '_' || r[0] == '-') {
        1
    } else {
        0
    };
    match first_keyword_exec(r, i) {
        Some((_k, klen)) => {
            let j = i + klen;
            let e = tail_end_exec(r, j);
            if dev_tail_exec(r, e) {
                Some(
                    ModifierParts {
                        keyword: Some(slice_chars(r, i, j)),
                        tail: slice_chars(r, j, e),
                        dev: e < r.len(),
                    },
                )
            } else {
                None
            }
        },
        None => {
            if dev_tail_exec(r, i) {
                Some(ModifierParts { keyword: None, tail: Vec::new(), dev: i < r.len() })
            } else {
                None
            }
        },
    }
}

/// Position after an optional leading `v`/`V`.
pub open spec fn v_skip(t: Seq<char>) -> int {
    if t.len() > 0 && (t[0] == 'v' || t[0] == 'V') {
        1
    } else {
        0
    }
}

/// End of the run of Unicode decimal digits starting at `i`.
pub open spec fn udigit_end(t: Seq<char>, i: int) -> int
    decreases t.len() - i,
{
    if 0 <= i < t.len() && is_udigit(t[i]) {
        udigit_end(t, i + 1)
    } else {
        i
    }
}

/// End of an optional `\.\d+` group at `i` (`i` itself when absent).
pub open spec fn dot_group_end(t: Seq<char>, i: int) -> int {
    if 0 <= i && i + 1 < t.len() && t[i] == '.' && is_udigit(t[i + 1]) {
        udigit_end(t, i + 1)
    } else {
        i
    }
}

/// The digits of the optional group between `a` and `b`, `"0"` when absent.
pub open spec fn group_or_zero(t: Seq<char>, a: int, b: int) -> Seq<char> {
    if b == a {
        "0"@
    } else {
        t.subrange(a + 1, b)
    }
}

/// The classical form `v?(\d{1,5})(\.\d+)?(\.\d+)?(\.\d+)?` followed by
/// a modifier, spanning all of `t`: the four segments (missing ones are
/// `"0"`) and the modifier parts.
pub open spec fn classical(t: Seq<char>) -> Option<(Seq<Seq<char>>, (Option<Seq<char>>, Seq<char>, bool))> {
    let i0 = v_skip(t);
    let i1 = udigit_end(t, i0);
    if i1 == i0 || i1 - i0 > 5 {
        None
    } else {
        let i2 = dot_group_end(t, i1);
        let i3 = dot_group_end(t, i2);
        let i4 = dot_group_end(t, i3);
        match modifier(t.subrange(i4, t.len() as int)) {
            Some(m) => Some(
                (
                    seq![
                        t.subrange(i0, i1),
                        group_or_zero(t, i1, i2),
                        group_or_zero(t, i2, i3),
                        group_or_zero(t, i3, i4),
                    ],
                    m,
                ),
            ),
            None => None,
        }
    }
}

/// End of the maximal run of digits and separators each followed by a
/// digit, from `e` on: the only span a date body can take.
pub open spec fn date_run_end(t: Seq<char>, e: int) -> int
    decreases t.len() - e,
{
    if 0 <= e < t.len() && is_udigit(t[e]) {
        date_run_end(t, e + 1)
    } else if 0 <= e && e + 1 < t.len() && is_date_sep(t[e]) && is_udigit(t[e + 1]) {
        date_run_end(t, e + 2)
    } else {
        e
    }
}

/// Whether `p[i..]` is `(?:[.:\-_]?\d{2}){n}(?:[.:\-_]?\d{1,3}){m}` with
/// `twos + n` in `1..=6` and `shorts + m` in `0..=2`.
pub open spec fn date_tail(p: Seq<char>, i: int, twos: nat, shorts: nat) -> bool
    decreases p.len() - i,
{
    if i < 0 || i >= p.len() {
        twos >= 1
    } else {
        let j = if is_date_sep(p[i]) {
            i + 1
        } else {
            i
        };
        (shorts == 0 && twos < 6 && j + 2 <= p.len() && is_udigit(p[j]) && is_udigit(p[j + 1])
            && date_tail(p, j + 2, twos + 1, 0)) || (twos >= 1 && shorts < 2 && j + 1
            <= p.len() && is_udigit(p[j]) && (date_tail(p, j + 1, twos, shorts + 1) || (j + 2
            <= p.len() && is_udigit(p[j + 1]) && (date_tail(p, j + 2, twos, shorts + 1) || (j
            + 3 <= p.len() && is_udigit(p[j + 2]) && date_tail(p, j + 3, twos, shorts + 1))))))
    }
}

/// `\d{4}(?:[.:\-_]?\d{2}){1,6}(?:[.:\-_]?\d{1,3}){0,2}` spanning all of `b`.
pub open spec fn date_body_ok(b: Seq<char>) -> bool {
    b.len() >= 4 && is_udigit(b[0]) && is_udigit(b[1]) && is_udigit(b[2]) && is_udigit(b[3])
        && date_tail(b, 4, 0, 0)
}

/// The date form (`YYYYMMDD`, `YYYY.MM.DD`, `2010-01-02-10-20-30.0.3`, ...)
/// followed by a modifier, spanning all of `t`: the date body and the
/// modifier parts.
pub open spec fn date(t: Seq<char>) -> Option<(Seq<char>, (Option<Seq<char>>, Seq<char>, bool))> {
    let i0 = v_skip(t);
    let e = date_run_end(t, i0);
    if date_body_ok(t.subrange(i0, e)) {
        match modifier(t.subrange(e, t.len() as int)) {
            Some(m) => Some((t.subrange(i0, e), m)),
            None => None,
        }
    } else {
        None
    }
}

/// Split a date body into its runs of ASCII digits (any other character
/// separates, empty runs are dropped).
pub open spec fn date_segments_from(s: Seq<char>, cur: Seq<char>, out: Seq<Seq<char>>) -> Seq<Seq<char>>
    decreases s.len(),
{
    if s.len() == 0 {
        if cur.len() > 0 {
            out.push(cur)
        } else {
            out
        }
    } else if is_ascii_digit(s[0]) {
        date_segments_from(s.drop_first(), cur.push(s[0]), out)
    } else if cur.len() > 0 {
        date_segments_from(s.drop_first(), seq![], out.push(cur))
    } else {
        date_segments_from(s.drop_first(), cur, out)
    }
}

pub open spec fn date_segments(s: Seq<char>) -> Seq<Seq<char>> {
    date_segments_from(s, seq![], seq![])
}

pub fn v_skip_exec(t: &Vec<char>) -> (r: usize)
    ensures
        r == v_skip(t@),
        r <= t.len(),
{
    if t.len() > 0 && (t[0] == 'v' || t[0] == 'V') {
        1
    } else {
        0
    }
}

pub fn udigit_end_exec(t: &Vec<char>, i: usize) -> (r: usize)
    requires
        i <= t.len(),
    ensures
        r == udigit_end(t@, i as int),
        i <= r <= t.len(),
{
    let mut k = i;
    while k < t.len() && udigit(t[k])
        invariant
            i <= k <= t.len(),
            udigit_end(t@, i as int) == udigit_end(t@, k as int),
        decreases t.len() - k,
    {
        k += 1;
    }
    k
}

pub fn dot_group_end_exec(t: &Vec<char>, i: usize) -> (r: usize)
    requires
        i <= t.len(),
    ensures
        r == dot_group_end(t@, i as int),
        i <= r <= t.len(),
        r != i ==> i + 1 <= r,
{
    if i < t.len() && i + 1 < t.len() && t[i] == '.' && udigit(t[i + 1]) {
        udigit_end_exec(t, i + 1)
    } else {
        i
    }
}

pub fn group_or_zero_exec(t: &Vec<char>, a: usize, b: usize) -> (r: Vec<char>)
    requires
        a <= b <= t.len(),
        b != a ==> a + 1 <= b,
    ensures
        r@ == group_or_zero(t@, a as int, b as int),
{
    if b == a {
        to_chars("0")
    } else {
        slice_chars(t, a + 1, b)
    }
}

pub struct ClassicalParts {
    pub segments: Vec<Vec<char>>,
    pub modifier: ModifierParts,
}

/// Match the classical form against all of `t`.
pub fn classical_exec(t: &Vec<char>) -> (r: Option<ClassicalParts>)
    ensures
        match r {
            Some(c) => classical(t@) == Some((views(c.segments@), c.modifier.model())),
            None => classical(t@) is None,
        },
{
    let i0 = v_skip_exec(t);
    let i1 = udigit_end_exec(t, i0);
    if i1 == i0 || i1 - i0 > 5 {
        return None;
    }
    let i2 = dot_group_end_exec(t, i1);
    let i3 = dot_group_end_exec(t, i2);
    let i4 = dot_group_end_exec(t, i3);
    let rest = slice_chars(t, i4, t.len());
    match modifier_exec(&rest) {
        Some(m) => {
            let mut segs: Vec<Vec<char>> = Vec::new();
            segs.push(slice_chars(t, i0, i1));
            segs.push(group_or_zero_exec(t, i1, i2));
            segs.push(group_or_zero_exec(t, i2, i3));
            segs.push(group_or_zero_exec(t, i3, i4));
            assert(views(segs@) =~= seq![
                t@.subrange(i0 as int, i1 as int),
                group_or_zero(t@, i1 as int, i2 as int),
                group_or_zero(t@, i2 as int, i3 as int),
                group_or_zero(t@, i3 as int, i4 as int),
            ]);
            Some(ClassicalParts { segments: segs, modifier: m })
        },
        None => None,
    }
}

pub fn date_run_end_exec(t: &Vec<char>, e: usize) -> (r: usize)
    requires
        e <= t.len(),
    ensures
        r == date_run_end(t@, e as int),
        e <= r <= t.len(),
{
    let mut k = e;
    loop
        invariant
            e <= k <= t.len(),
            date_run_end(t@, e as int) == date_run_end(t@, k as int),
        decreases t.len() - k,
    {
        if k < t.len() && udigit(t[k]) {
            k += 1;
        } else if k < t.len() && k + 1 < t.len() && (t[k] == '.' || t[k] == ':' || t[k] == '-'
            || t[k] == '_') && udigit(t[k + 1]) {
            k += 2;
        } else {
            return k;
        }
    }
}

pub fn date_tail_exec(p: &Vec<char>, i: usize, twos: usize, shorts: usize) -> (r: bool)
    requires
        i <= p.len(),
        twos <= 6,
        shorts <= 2,
    ensures
        r == date_tail(p@, i as int, twos as nat, shorts as nat),
    decreases p.len() - i,
{
    if i >= p.len() {
        return twos >= 1;
    }
    let c = p[i];
    let j: usize = if c == '.' || c == ':' || c == '-' || c == '_' {
        i + 1
    } else {
        i
    };
    if shorts == 0 && twos < 6 && p.len() - j >= 2 && udigit(p[j]) && udigit(p[j + 1]) {
        if date_tail_exec(p, j + 2, twos + 1, 0) {
            return true;
        }
    }
    if twos >= 1 && shorts < 2 && p.len() - j >= 1 && udigit(p[j]) {
        if date_tail_exec(p, j + 1, twos, shorts + 1) {
            return true;
        }
        if p.len() - j >= 2 && udigit(p[j + 1]) {
            if date_tail_exec(p, j + 2, twos, shorts + 1) {
                return true;
            }
            if p.len() - j >= 3 && udigit(p[j + 2]) {
                return date_tail_exec(p, j + 3, twos, shorts + 1);
            }
        }
    }
    false
}

pub fn date_body_exec(b: &Vec<char>) -> (r: bool)
    ensures
        r == date_body_ok(b@),
{
    b.len() >= 4 && udigit(b[0]) && udigit(b[1]) && udigit(b[2]) && udigit(b[3])
        && date_tail_exec(b, 4, 0, 0)
}

pub struct DateParts {
    pub body: Vec<char>,
    pub modifier: ModifierParts,
}

/// Match the date form against all of `t`.
pub fn date_exec(t: &Vec<char>) -> (r: Option<DateParts>)
    ensures
        match r {
            Some(d) => date(t@) == Some((d.body@, d.modifier.model())),
            None => date(t@) is None,
        },
{
    let i0 = v_skip_exec(t);
    let e = date_run_end_exec(t, i0);
    let body = slice_chars(t, i0, e);
    if !date_body_exec(&body) {
        return None;
    }
    let rest = slice_chars(t, e, t.len());
    match modifier_exec(&rest) {
        Some(m) => Some(DateParts { body, modifier: m }),
        None => None,
    }
}

/// Runs of ASCII digits in a date body.
pub fn date_segments_exec(s: &Vec<char>) -> (r: Vec<Vec<char>>)
    ensures
        views(r@) == date_segments(s@),
{
    let mut out: Vec<Vec<char>> = Vec::new();
    let mut cur: Vec<char> = Vec::new();
    let mut k: usize = 0;
    assert(s@.subrange(0, s@.len() as int) =~= s@);
    assert(views(out@) =~= seq![]);
    assert(cur@ =~= seq![]);
    while k < s.len()
        invariant
            k <= s.len(),
            date_segments(s@) == date_segments_from(
                s@.subrange(k as int, s@.len() as int),
                cur@,
                views(out@),
            ),
        decreases s.len() - k,
    {
        let ghost rest = s@.subrange(k as int, s@.len() as int);
        assert(rest.drop_first() =~= s@.subrange(k + 1, s@.len() as int));
        let c = s[k];
        if ascii_digit(c) {
            cur.push(c);
        } else if cur.len() > 0 {
            let ghost old_out = views(out@);
            let piece = cur;
            out.push(piece);
            cur = Vec::new();
            assert(views(out@) =~= old_out.push(piece@));
            assert(cur@ =~= seq![]);
        }
        k += 1;
    }
    if cur.len() > 0 {
        let ghost old_out = views(out@);
        let piece = cur;
        out.push(piece);
        assert(views(out@) =~= old_out.push(piece@));
    }
    out
}

/// End of the run of characters that are neither whitespace nor `,`.
pub open spec fn name_end(s: Seq<char>, i: int) -> int
    decreases s.len() - i,
{
    if 0 <= i < s.len() && !is_ws(s[i]) && s[i] != ',' {
        name_end(s, i + 1)
    } else {
        i
    }
}

/// End of the run of whitespace starting at `i`.
pub open spec fn ws_end(s: Seq<char>, i: int) -> int
    decreases s.len() - i,
{
    if 0 <= i < s.len() && is_ws(s[i]) {
        ws_end(s, i + 1)
    } else {
        i
    }
}

/// The left side of an alias `left as right`
/// (`^([^,\s]+)\s+as\s+([^,\s]+)$`).
pub open spec fn alias_left(s: Seq<char>) -> Option<Seq<char>> {
    let p = name_end(s, 0);
    let q = ws_end(s, p);
    let r = ws_end(s, q + 2);
    if p >= 1 && q > p && q + 2 <= s.len() && s[q] == 'a' && s[q + 1] == 's' && r > q + 2 && r
        < s.len() && name_end(s, r) == s.len() {
        Some(s.subrange(0, p))
    } else {
        None
    }
}

pub proof fn lemma_name_end(s: Seq<char>, i: int)
    requires
        0 <= i <= s.len(),
    ensures
        i <= name_end(s, i) <= s.len(),
    decreases s.len() - i,
{
    if i < s.len() && !is_ws(s[i]) && s[i] != ',' {
        lemma_name_end(s, i + 1);
    }
}

pub proof fn lemma_alias_left_shorter(s: Seq<char>)
    ensures
        alias_left(s) matches Some(l) ==> l.len() < s.len(),
{
    lemma_name_end(s, 0);
}

pub fn name_end_exec(s: &Vec<char>, i: usize) -> (r: usize)
    requires
        i <= s.len(),
    ensures
        r == name_end(s@, i as int),
        i <= r <= s.len(),
{
    let mut k = i;
    while k < s.len() && !ws(s[k]) && s[k] != ','
        invariant
            i <= k <= s.len(),
            name_end(s@, i as int) == name_end(s@, k as int),
        decreases s.len() - k,
    {
        k += 1;
    }
    k
}

pub fn ws_end_exec(s: &Vec<char>, i: usize) -> (r: usize)
    requires
        i <= s.len(),
    ensures
        r == ws_end(s@, i as int),
        i <= r <= s.len(),
{
    let mut k = i;
    while k < s.len() && ws(s[k])
        invariant
            i <= k <= s.len(),
            ws_end(s@, i as int) == ws_end(s@, k as int),
        decreases s.len() - k,
    {
        k += 1;
    }
    k
}

pub fn alias_left_exec(s: &Vec<char>) -> (r: Option<Vec<char>>)
    ensures
        match r {
            Some(l) => alias_left(s@) == Some(l@),
            None => alias_left(s@) is None,
        },
{
    let p = name_end_exec(s, 0);
    let q = ws_end_exec(s, p);
    if p >= 1 && q > p && q < s.len() && q + 1 < s.len() && s[q] == 'a' && s[q + 1] == 's' {
        let r = ws_end_exec(s, q + 2);
        if r > q + 2 && r < s.len() && name_end_exec(s, r) == s.len() {
            return Some(slice_chars(s, 0, p));
        }
    }
    None
}

/// The stability keywords an `@flag` suffix may name, in pattern order.
pub open spec fn flag_list() -> Seq<Seq<char>> {
    seq!["stable"@, "rc"@, "beta"@, "alpha"@, "dev"@]
}

/// Length of the first flag keyword that `s` ends with, right after an `@`.
pub open spec fn flag_suffix(s: Seq<char>, k: int) -> Option<int>
    decreases 5 - k,
{
    if k < 0 || k >= 5 {
        None
    } else if s.len() >= flag_list()[k].len() + 1 && s[s.len() - flag_list()[k].len() - 1] == '@'
        && ci_prefix_at(s, s.len() - flag_list()[k].len(), flag_list()[k]) {
        Some(flag_list()[k].len() as int)
    } else {
        flag_suffix(s, k + 1)
    }
}

/// Drop a trailing `@stable` / `@RC` / `@beta` / `@alpha` / `@dev` flag
/// (case-insensitive).
pub open spec fn strip_flag(s: Seq<char>) -> Seq<char> {
    match flag_suffix(s, 0) {
        Some(n) => s.subrange(0, s.len() - n - 1),
        None => s,
    }
}

pub fn flag_vec(k: usize) -> (r: Vec<char>)
    requires
        k < 5,
    ensures
        r@ == flag_list()[k as int],
{
    if k == 0 {
        to_chars("stable")
    } else if k == 1 {
        to_chars("rc")
    } else if k == 2 {
        to_chars("beta")
    } else if k == 3 {
        to_chars("alpha")
    } else {
        to_chars("dev")
    }
}

pub fn strip_flag_exec(s: &Vec<char>) -> (r: Vec<char>)
    ensures
        r@ == strip_flag(s@),
{
    let mut k: usize = 0;
    while k < 5
        invariant
            k <= 5,
            flag_suffix(s@, 0) == flag_suffix(s@, k as int),
        decreases 5 - k,
    {
        let w = flag_vec(k);
        if s.len() > w.len() && s[s.len() - w.len() - 1] == '@' && ci_prefix(
            s,
            s.len() - w.len(),
            &w,
        ) {
            return slice_chars(s, 0, s.len() - w.len() - 1);
        }
        k += 1;
    }
    s.clone()
}

/// The branch name of `dev-<name>` (`^(?i)dev-(.+)$`, where `.` is any
/// character but a newline).
pub open spec fn dev_prefix(s: Seq<char>) -> Option<Seq<char>> {
    if s.len() >= 5 && ci_prefix_at(s, 0, "dev-"@) && !s.subrange(4, s.len() as int).contains('\n') {
        Some(s.subrange(4, s.len() as int))
    } else {
        None
    }
}

pub fn dev_prefix_exec(s: &Vec<char>) -> (r: Option<Vec<char>>)
    ensures
        match r {
            Some(b) => dev_prefix(s@) == Some(b@),
            None => dev_prefix(s@) is None,
        },
{
    if s.len() >= 5 && ci_prefix(s, 0, &to_chars("dev-")) {
        let body = slice_chars(s, 4, s.len());
        let nl = find_from(&body, '\n', 0);
        if nl >= body.len() {
            return Some(body);
        } else {
            assert(body@[nl as int] == '\n');
            return None;
        }
    }
    None
}

/// Whether `s` (ASCII lower-cased) starts with `dev-`.
pub open spec fn starts_dev_dash(s: Seq<char>) -> bool {
    s.len() >= 4 && lower(s).subrange(0, 4) == "dev-"@
}

pub fn starts_dev_dash_exec(s: &Vec<char>) -> (r: bool)
    ensures
        r == starts_dev_dash(s@),
{
    if s.len() < 4 {
        return false;
    }
    let l = lower_chars(s);
    let head = slice_chars(&l, 0, 4);
    chars_eq(&head, &to_chars("dev-"))
}

/// The text the numeric forms are matched against: `+build` metadata is
/// dropped unless the text is a `dev-` branch or the metadata is empty or
/// holds whitespace.
pub open spec fn numeric_candidate(c: Seq<char>) -> Seq<char> {
    if starts_dev_dash(c) {
        c
    } else {
        let idx = index_from(c, '+', 0);
        if idx < c.len() {
            let tail = c.subrange(idx + 1, c.len() as int);
            if tail.len() == 0 || has_ws(tail) {
                c
            } else {
                c.subrange(0, idx)
            }
        } else {
            c
        }
    }
}

pub fn has_ws_exec(s: &Vec<char>) -> (r: bool)
    ensures
        r == has_ws(s@),
{
    let mut k: usize = 0;
    while k < s.len()
        invariant
            k <= s.len(),
            forall|m: int| 0 <= m < k ==> !is_ws(s@[m]),
        decreases s.len() - k,
    {
        if ws(s[k]) {
            return true;
        }
        k += 1;
    }
    false
}

pub fn numeric_candidate_exec(c: &Vec<char>) -> (r: Vec<char>)
    ensures
        r@ == numeric_candidate(c@),
{
    if starts_dev_dash_exec(c) {
        return c.clone();
    }
    let idx = find_from(c, '+', 0);
    if idx < c.len() {
        let tail = slice_chars(c, idx + 1, c.len());
        if tail.len() == 0 || has_ws_exec(&tail) {
            c.clone()
        } else {
            slice_chars(c, 0, idx)
        }
    } else {
        c.clone()
    }
}

pub open spec fn is_wildcard(p: Seq<char>) -> bool {
    p == "x"@ || p == "X"@ || p == "*"@
}

/// One `.`-separated part of a numeric branch: digits or a lone wildcard.
pub open spec fn branch_part_ok(p: Seq<char>) -> bool {
    (p.len() > 0 && all_udigits(p)) || (p.len() == 1 && (p[0] == 'x' || p[0] == 'X' || p[0]
        == '*'))
}

/// `^(\d+)(\.(?:\d+|[xX*]))*$`.
pub open spec fn numeric_branch(b: Seq<char>) -> bool {
    let parts = split(b, '.');
    parts[0].len() > 0 && all_udigits(parts[0]) && forall|i: int|
        1 <= i < parts.len() ==> branch_part_ok(#[trigger] parts[i])
}

/// `^v?(\d+)(\.(?:\d+|[xX*]))*-dev$`.
pub open spec fn branch_alias_form(s: Seq<char>) -> bool {
    let start: int = if s.len() > 0 && s[0] == 'v' {
        1
    } else {
        0
    };
    s.len() >= 4 && s.subrange(s.len() - 4, s.len() as int) == "-dev"@ && start <= s.len() - 4
        && numeric_branch(s.subrange(start, s.len() - 4))
}

pub fn all_udigits_exec(p: &Vec<char>) -> (r: bool)
    ensures
        r == all_udigits(p@),
{
    let mut k: usize = 0;
    while k < p.len()
        invariant
            k <= p.len(),
            forall|m: int| 0 <= m < k ==> is_udigit(#[trigger] p@[m]),
        decreases p.len() - k,
    {
        if !udigit(p[k]) {
            return false;
        }
        k += 1;
    }
    true
}

pub fn all_ascii_digits_exec(p: &Vec<char>) -> (r: bool)
    ensures
        r == all_ascii_digits(p@),
{
    let mut k: usize = 0;
    while k < p.len()
        invariant
            k <= p.len(),
            forall|m: int| 0 <= m < k ==> is_ascii_digit(#[trigger] p@[m]),
        decreases p.len() - k,
    {
        if !ascii_digit(p[k]) {
            return false;
        }
        k += 1;
    }
    true
}

pub fn is_wildcard_exec(p: &Vec<char>) -> (r: bool)
    ensures
        r == is_wildcard(p@),
{
    proof {
        reveal_strlit("x");
        reveal_strlit("X");
        reveal_strlit("*");
    }
    if p.len() == 1 && (p[0] == 'x' || p[0] == 'X' || p[0] == '*') {
        assert(p@ =~= "x"@ || p@ =~= "X"@ || p@ =~= "*"@);
        true
    } else {
        assert(p@.len() != 1 ==> p@ != "x"@);
        false
    }
}

pub fn numeric_branch_exec(b: &Vec<char>) -> (r: bool)
    ensures
        r == numeric_branch(b@),
{
    let parts = split_chars(b, '.');
    proof {
        crate::text::lemma_split_nonempty(b@, '.');
    }
    assert(parts@.len() >= 1);
    if !(parts[0].len() > 0 && all_udigits_exec(&parts[0])) {
        return false;
    }
    let mut k: usize = 1;
    while k < parts.len()
        invariant
            1 <= k <= parts.len(),
            views(parts@) == split(b@, '.'),
            forall|i: int| 1 <= i < k ==> branch_part_ok(#[trigger] views(parts@)[i]),
        decreases parts.len() - k,
    {
        let p = &parts[k];
        let ok = (p.len() > 0 && all_udigits_exec(p)) || (p.len() == 1 && (p[0] == 'x' || p[0]
            == 'X' || p[0] == '*'));
        if !ok {
            assert(!branch_part_ok(views(parts@)[k as int]));
            return false;
        }
        k += 1;
    }
    true
}

pub fn branch_alias_form_exec(s: &Vec<char>) -> (r: bool)
    ensures
        r == branch_alias_form(s@),
{
    if s.len() < 4 {
        return false;
    }
    let tail = slice_chars(s, s.len() - 4, s.len());
    if !chars_eq(&tail, &to_chars("-dev")) {
        return false;
    }
    let start: usize = if s[0] == 'v' {
        1
    } else {
        0
    };
    if start > s.len() - 4 {
        return false;
    }
    numeric_branch_exec(&slice_chars(s, start, s.len() - 4))
}

/// A numeric segment: one or more Unicode decimal digits.
pub open spec fn digit_segment(p: Seq<char>) -> bool {
    p.len() > 0 && all_udigits(p)
}

/// An ASCII digit is a decimal digit.
pub proof fn lemma_ascii_digits_are_digits(p: Seq<char>)
    requires
        all_ascii_digits(p),
    ensures
        all_udigits(p),
{
    assert forall|k: int| 0 <= k < p.len() implies is_udigit(#[trigger] p[k]) by {
        assert(is_ascii_digit(p[k]));
    }
}

proof fn lemma_udigit_end(t: Seq<char>, i: int)
    requires
        0 <= i,
    ensures
        i <= udigit_end(t, i),
        udigit_end(t, i) <= t.len() || udigit_end(t, i) == i,
        forall|k: int| i <= k < udigit_end(t, i) ==> is_udigit(#[trigger] t[k]),
    decreases t.len() - i,
{
    if 0 <= i < t.len() && is_udigit(t[i]) {
        lemma_udigit_end(t, i + 1);
    }
}

proof fn lemma_group_segment(t: Seq<char>, a: int)
    requires
        0 <= a <= t.len(),
    ensures
        a <= dot_group_end(t, a) <= t.len(),
        digit_segment(group_or_zero(t, a, dot_group_end(t, a))),
{
    reveal_strlit("0");
    if a + 1 < t.len() && t[a] == '.' && is_udigit(t[a + 1]) {
        lemma_udigit_end(t, a + 1);
        lemma_udigit_end(t, a + 2);
        let b = udigit_end(t, a + 1);
        assert(b >= a + 2);
        let seg = t.subrange(a + 1, b);
        assert forall|k: int| 0 <= k < seg.len() implies is_udigit(#[trigger] seg[k]) by {
            assert(seg[k] == t[a + 1 + k]);
        }
    } else {
        assert(is_udigit("0"@[0]));
    }
}

/// The classical form's segments are four numeric segments.
pub proof fn lemma_classical_segments(t: Seq<char>)
    ensures
        classical(t) matches Some((segs, _)) ==> segs.len() == 4 && forall|i: int|
            0 <= i < 4 ==> digit_segment(#[trigger] segs[i]),
{
    let i0 = v_skip(t);
    lemma_udigit_end(t, i0);
    let i1 = udigit_end(t, i0);
    if !(i1 == i0 || i1 - i0 > 5) {
        lemma_group_segment(t, i1);
        let i2 = dot_group_end(t, i1);
        lemma_group_segment(t, i2);
        let i3 = dot_group_end(t, i2);
        lemma_group_segment(t, i3);
        let s0 = t.subrange(i0, i1);
        assert forall|k: int| 0 <= k < s0.len() implies is_udigit(#[trigger] s0[k]) by {
            assert(s0[k] == t[i0 + k]);
        }
    }
}

proof fn lemma_date_segments_from(s: Seq<char>, cur: Seq<char>, out: Seq<Seq<char>>)
    requires
        all_ascii_digits(cur),
        forall|i: int| 0 <= i < out.len() ==> digit_segment(#[trigger] out[i]),
    ensures
        forall|i: int|
            0 <= i < date_segments_from(s, cur, out).len() ==> digit_segment(
                #[trigger] date_segments_from(s, cur, out)[i],
            ),
    decreases s.len(),
{
    lemma_ascii_digits_are_digits(cur);
    if s.len() == 0 {
        if cur.len() > 0 {
            let o2 = out.push(cur);
            assert forall|i: int| 0 <= i < o2.len() implies digit_segment(#[trigger] o2[i]) by {
                if i < out.len() {
                    assert(o2[i] == out[i]);
                }
            }
        }
    } else if is_ascii_digit(s[0]) {
        let c2 = cur.push(s[0]);
        assert forall|k: int| 0 <= k < c2.len() implies is_ascii_digit(#[trigger] c2[k]) by {
            if k < cur.len() {
                assert(c2[k] == cur[k]);
            }
        }
        lemma_date_segments_from(s.drop_first(), c2, out);
        assert(date_segments_from(s, cur, out) == date_segments_from(s.drop_first(), c2, out));
    } else if cur.len() > 0 {
        let o2 = out.push(cur);
        assert forall|i: int| 0 <= i < o2.len() implies digit_segment(#[trigger] o2[i]) by {
            if i < out.len() {
                assert(o2[i] == out[i]);
            }
        }
        lemma_date_segments_from(s.drop_first(), seq![], o2);
        assert(date_segments_from(s, cur, out) == date_segments_from(s.drop_first(), seq![], o2));
    } else {
        lemma_date_segments_from(s.drop_first(), cur, out);
        assert(date_segments_from(s, cur, out) == date_segments_from(s.drop_first(), cur, out));
    }
}

/// A date body's segments are numeric segments.
pub proof fn lemma_date_segments(s: Seq<char>)
    ensures
        forall|i: int| 0 <= i < date_segments(s).len() ==> digit_segment(#[trigger] date_segments(s)[i]),
{
    lemma_date_segments_from(s, seq![], seq![]);
}

proof fn lemma_date_segments_from_len(s: Seq<char>, cur: Seq<char>, out: Seq<Seq<char>>)
    ensures
        date_segments_from(s, cur, out).len() >= out.len(),
        (cur.len() > 0 || exists|k: int| 0 <= k < s.len() && is_ascii_digit(#[trigger] s[k]))
            ==> date_segments_from(s, cur, out).len() > out.len(),
    decreases s.len(),
{
    if s.len() == 0 {
    } else if is_ascii_digit(s[0]) {
        lemma_date_segments_from_len(s.drop_first(), cur.push(s[0]), out);
    } else if cur.len() > 0 {
        lemma_date_segments_from_len(s.drop_first(), seq![], out.push(cur));
    } else {
        lemma_date_segments_from_len(s.drop_first(), cur, out);
        if exists|k: int| 0 <= k < s.len() && is_ascii_digit(#[trigger] s[k]) {
            let k = choose|k: int| 0 <= k < s.len() && is_ascii_digit(#[trigger] s[k]);
            assert(s.drop_first()[k - 1] == s[k]);
        }
    }
}

/// A date body with an ASCII digit has at least one segment.
pub proof fn lemma_date_segments_nonempty(s: Seq<char>)
    requires
        exists|k: int| 0 <= k < s.len() && is_ascii_digit(#[trigger] s[k]),
    ensures
        date_segments(s).len() > 0,
{
    lemma_date_segments_from_len(s, seq![], seq![]);
}

} // verus!
