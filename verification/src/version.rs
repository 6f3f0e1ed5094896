//! Composer-flavored versions: parse/normalize, stability, comparison.
//!
//! Two flavors share one type. Numeric versions keep their segments as
//! written (leading zeros survive in the normalized text) and compare by
//! the numeric value of each segment; branch versions (`dev-<name>`) sort
//! below every numeric version.

use vstd::prelude::*;
use std::cmp::Ordering;
use crate::grammar::{
    modifier, modifier_exec, starts_dev_dash, starts_dev_dash_exec,
    is_dot_dash, is_sep3,
    alias_left, alias_left_exec, branch_alias_form, branch_alias_form_exec, classical,
    classical_exec, date, date_exec, date_segments, date_segments_exec, dev_prefix,
    dev_prefix_exec, is_wildcard, is_wildcard_exec, lemma_alias_left_shorter, numeric_branch,
    numeric_branch_exec, numeric_candidate, numeric_candidate_exec, strip_flag, strip_flag_exec,
    digit_segment, lemma_ascii_digits_are_digits, lemma_classical_segments, lemma_date_segments,
    lemma_date_segments_nonempty,
};
use crate::stability::Stability;
use crate::text::{
    ends_with, ends_with_exec, is_ws, trim_start, trim_end,
    ascii_digit, is_ascii_digit,     all_ascii_digits, append, chars_eq, concat, dec, dec_chars, find_from, index_from, join,
    join_chars, lower, lower_chars, parse_uint, parse_uint_exec, slice_chars, split, split_chars,
    string_chars, to_chars, to_string, trim, trim_chars, views, debug_quoted, debug_text,
};

verus! {

/// Stability suffix of a numeric version.
#[derive(Debug, Clone, PartialEq, Eq, Hash)]
pub enum Suffix {
    /// No suffix.
    Stable,
    /// `-patchN`; still stable.
    Patch(u16),
    /// `-RC<num>`, `-beta<num>`, `-alpha<num>`; `num` is the canonical
    /// number tail appended after the keyword (`""`, `"0"`, `"3.1"`, ...).
    Prerelease { stability: Stability, num: String },
    /// Bare `-dev`.
    Dev,
    /// A prerelease followed by `-dev` (`-RC1-dev`).
    PrereleaseDev { stability: Stability, num: String },
    /// `-patch<num>-dev`.
    PatchDev(u16),
}

#[derive(Debug, Clone, PartialEq, Eq, Hash)]
pub enum VersionKind {
    /// One or more decimal segments (kept as written) and a suffix.
    Numeric { segments_raw: Vec<String>, suffix: Suffix },
    /// A branch, name as written.
    Branch(String),
}

#[derive(Debug, Clone, PartialEq, Eq, Hash)]
pub struct Version {
    pub kind: VersionKind,
    /// The canonical normalized text.
    pub normalized: String,
}

#[derive(Debug, Clone, PartialEq, Eq)]
pub enum ParseError {
    Invalid(String),
}

/// Comparison operator of [`Version::compare`].
#[derive(Debug, Clone, Copy, PartialEq, Eq, Structural)]
pub enum CmpOp {
    Gt,
    Ge,
    Lt,
    Le,
    Eq,
    Ne,
}

pub ghost enum SuffixModel {
    Stable,
    Patch(u16),
    Prerelease(Stability, Seq<char>),
    Dev,
    PrereleaseDev(Stability, Seq<char>),
    PatchDev(u16),
}

pub ghost enum KindModel {
    Numeric(Seq<Seq<char>>, SuffixModel),
    Branch(Seq<char>),
}

pub ghost struct VersionModel {
    pub kind: KindModel,
    pub normalized: Seq<char>,
}

pub open spec fn string_views(v: Seq<String>) -> Seq<Seq<char>> {
    v.map_values(|s: String| s@)
}

impl View for Suffix {
    type V = SuffixModel;

    open spec fn view(&self) -> SuffixModel {
        match self {
            Suffix::Stable => SuffixModel::Stable,
            Suffix::Patch(n) => SuffixModel::Patch(*n),
            Suffix::Prerelease { stability, num } => SuffixModel::Prerelease(*stability, num@),
            Suffix::Dev => SuffixModel::Dev,
            Suffix::PrereleaseDev { stability, num } => SuffixModel::PrereleaseDev(*stability, num@),
            Suffix::PatchDev(n) => SuffixModel::PatchDev(*n),
        }
    }
}

impl View for VersionKind {
    type V = KindModel;

    open spec fn view(&self) -> KindModel {
        match self {
            VersionKind::Numeric { segments_raw, suffix } => KindModel::Numeric(
                string_views(segments_raw@),
                suffix@,
            ),
            VersionKind::Branch(b) => KindModel::Branch(b@),
        }
    }
}

impl View for Version {
    type V = VersionModel;

    open spec fn view(&self) -> VersionModel {
        VersionModel { kind: self.kind@, normalized: self.normalized@ }
    }
}

// ---- rendering ----------------------------------------------------------

/// The text a suffix appends to the joined segments.
pub open spec fn suffix_text(s: SuffixModel) -> Seq<char> {
    match s {
        SuffixModel::Stable => seq![],
        SuffixModel::Patch(n) => "-patch"@ + dec(n as nat),
        SuffixModel::Prerelease(st, num) => "-"@ + st.keyword() + num,
        SuffixModel::Dev => "-dev"@,
        SuffixModel::PrereleaseDev(st, num) => "-"@ + st.keyword() + num + "-dev"@,
        SuffixModel::PatchDev(n) => "-patch"@ + dec(n as nat) + "-dev"@,
    }
}

/// Normalized text of a numeric version: segments joined by `.`, then the suffix.
pub open spec fn render(segs: Seq<Seq<char>>, suf: SuffixModel) -> Seq<char> {
    join(segs, "."@) + suffix_text(suf)
}

pub open spec fn numeric_model(segs: Seq<Seq<char>>, suf: SuffixModel) -> VersionModel {
    VersionModel { kind: KindModel::Numeric(segs, suf), normalized: render(segs, suf) }
}

pub open spec fn suffix_stability(s: SuffixModel) -> Stability {
    match s {
        SuffixModel::Stable | SuffixModel::Patch(_) => Stability::Stable,
        SuffixModel::Prerelease(st, _) => st,
        SuffixModel::Dev | SuffixModel::PrereleaseDev(_, _) | SuffixModel::PatchDev(_) => Stability::Dev,
    }
}

pub open spec fn kind_stability(k: KindModel) -> Stability {
    match k {
        KindModel::Numeric(_, suf) => suffix_stability(suf),
        KindModel::Branch(_) => Stability::Dev,
    }
}

impl Suffix {
    pub fn stability(&self) -> (r: Stability)
        ensures
            r == suffix_stability(self@),
    {
        match self {
            Self::Stable | Self::Patch(_) => Stability::Stable,
            Self::Prerelease { stability, .. } => *stability,
            Self::Dev | Self::PrereleaseDev { .. } | Self::PatchDev(_) => Stability::Dev,
        }
    }
}

pub fn suffix_text_exec(s: &Suffix) -> (r: Vec<char>)
    ensures
        r@ == suffix_text(s@),
{
    match s {
        Suffix::Stable => Vec::new(),
        Suffix::Patch(n) => concat(&to_chars("-patch"), &dec_chars(*n as u64)),
        Suffix::Prerelease { stability, num } => {
            let a = concat(&to_chars("-"), &to_chars(stability.as_str()));
            concat(&a, &string_chars(num))
        },
        Suffix::Dev => to_chars("-dev"),
        Suffix::PrereleaseDev { stability, num } => {
            let a = concat(&to_chars("-"), &to_chars(stability.as_str()));
            let b = concat(&a, &string_chars(num));
            concat(&b, &to_chars("-dev"))
        },
        Suffix::PatchDev(n) => {
            let a = concat(&to_chars("-patch"), &dec_chars(*n as u64));
            concat(&a, &to_chars("-dev"))
        },
    }
}

pub fn render_exec(segs: &Vec<Vec<char>>, s: &Suffix) -> (r: Vec<char>)
    ensures
        r@ == render(views(segs@), s@),
{
    let j = join_chars(segs, &to_chars("."));
    concat(&j, &suffix_text_exec(s))
}

/// The segments as `String`s.
pub fn strings_of(v: &Vec<Vec<char>>) -> (r: Vec<String>)
    ensures
        string_views(r@) == views(v@),
{
    let mut out: Vec<String> = Vec::new();
    let mut k: usize = 0;
    while k < v.len()
        invariant
            k <= v.len(),
            string_views(out@) =~= views(v@).take(k as int),
        decreases v.len() - k,
    {
        let s = to_string(&v[k]);
        let ghost old_out = out@;
        out.push(s);
        assert(out@ == old_out.push(s));
        assert(string_views(old_out).len() == old_out.len());
        assert(old_out.len() == k);
        assert(s@ == v@[k as int]@);
        assert(string_views(out@)[k as int] == views(v@)[k as int]);
        assert(string_views(out@).len() == k + 1);
        assert(forall|m: int| 0 <= m < k ==> string_views(out@)[m] == string_views(old_out)[m]);
        assert(string_views(out@) =~= views(v@).take(k + 1));
        k += 1;
    }
    assert(views(v@).take(v.len() as int) =~= views(v@));
    out
}

/// The segments as character vectors.
pub fn chars_of_strings(v: &Vec<String>) -> (r: Vec<Vec<char>>)
    ensures
        views(r@) == string_views(v@),
{
    let mut out: Vec<Vec<char>> = Vec::new();
    let mut k: usize = 0;
    while k < v.len()
        invariant
            k <= v.len(),
            views(out@) =~= string_views(v@).take(k as int),
        decreases v.len() - k,
    {
        let s = string_chars(&v[k]);
        let ghost old_out = out@;
        out.push(s);
        assert(out@ == old_out.push(s));
        assert(views(old_out).len() == old_out.len());
        assert(old_out.len() == k);
        assert(s@ == v@[k as int]@);
        assert(views(out@)[k as int] == string_views(v@)[k as int]);
        assert(forall|m: int| 0 <= m < k ==> views(out@)[m] == views(old_out)[m]);
        assert(views(out@) =~= string_views(v@).take(k + 1));
        k += 1;
    }
    assert(string_views(v@).take(v.len() as int) =~= string_views(v@));
    out
}

impl Suffix {
    /// A copy with the same view.
    pub(crate) fn copied(&self) -> (r: Suffix)
        ensures
            r@ == self@,
    {
        match self {
            Suffix::Stable => Suffix::Stable,
            Suffix::Patch(n) => Suffix::Patch(*n),
            Suffix::Prerelease { stability, num } => Suffix::Prerelease { stability: *stability, num: num.clone() },
            Suffix::Dev => Suffix::Dev,
            Suffix::PrereleaseDev { stability, num } => Suffix::PrereleaseDev { stability: *stability, num: num.clone() },
            Suffix::PatchDev(n) => Suffix::PatchDev(*n),
        }
    }
}

impl Version {
    /// A copy with the same view.
    pub(crate) fn copied(&self) -> (r: Version)
        ensures
            r@ == self@,
    {
        let kind = match &self.kind {
            VersionKind::Numeric { segments_raw, suffix } => VersionKind::Numeric {
                segments_raw: strings_of(&chars_of_strings(segments_raw)),
                suffix: suffix.copied(),
            },
            VersionKind::Branch(b) => VersionKind::Branch(b.clone()),
        };
        Version { kind, normalized: self.normalized.clone() }
    }
}

pub fn numeric_version(segs: &Vec<Vec<char>>, suffix: Suffix) -> (r: Version)
    ensures
        r@ == numeric_model(views(segs@), suffix@),
{
    let normalized = to_string(&render_exec(segs, &suffix));
    Version { kind: VersionKind::Numeric { segments_raw: strings_of(segs), suffix }, normalized }
}

// ---- modifier -> suffix ---------------------------------------------------

/// Canonical rendering of a raw number tail: one leading `.`/`-`/`_` is
/// dropped, then ASCII digits (and, once a digit was kept, `.`/`-`) are
/// kept up to the first other character.
pub open spec fn canon_tail(t: Seq<char>, stripped: bool, out: Seq<char>) -> Seq<char>
    decreases t.len(),
{
    if t.len() == 0 {
        out
    } else {
        let ch = t[0];
        if !stripped && is_sep3(ch) {
            canon_tail(t.drop_first(), true, out)
        } else if is_ascii_digit(ch) {
            canon_tail(t.drop_first(), true, out.push(ch))
        } else if out.len() > 0 && is_dot_dash(ch) {
            canon_tail(t.drop_first(), stripped, out.push(ch))
        } else {
            out
        }
    }
}

pub open spec fn canonical_number_tail(t: Seq<char>) -> Seq<char> {
    canon_tail(t, false, seq![])
}

/// `num.parse::<u16>().unwrap_or(0)`.
pub open spec fn u16_or_zero(num: Seq<char>) -> u16 {
    match parse_uint(num, 65535) {
        Some(v) => v as u16,
        None => 0,
    }
}

/// The suffix a modifier (keyword, number tail, `dev` flag) denotes; an
/// unknown keyword is an error carrying the keyword as written.
pub open spec fn modifier_suffix(kw: Option<Seq<char>>, tail: Seq<char>, dev: bool) -> Result<SuffixModel, Seq<char>> {
    match kw {
        None => Ok(
            if dev {
                SuffixModel::Dev
            } else {
                SuffixModel::Stable
            },
        ),
        Some(k) => {
            let l = lower(k);
            let num = canonical_number_tail(tail);
            if l == "stable"@ {
                Ok(
                    if dev {
                        SuffixModel::Dev
                    } else {
                        SuffixModel::Stable
                    },
                )
            } else if l == "patch"@ || l == "pl"@ || l == "p"@ {
                Ok(
                    if dev {
                        SuffixModel::PatchDev(u16_or_zero(num))
                    } else {
                        SuffixModel::Patch(u16_or_zero(num))
                    },
                )
            } else {
                let st = if l == "rc"@ {
                    Some(Stability::Rc)
                } else if l == "beta"@ || l == "b"@ {
                    Some(Stability::Beta)
                } else if l == "alpha"@ || l == "a"@ {
                    Some(Stability::Alpha)
                } else {
                    None
                };
                match st {
                    Some(st) => Ok(
                        if dev {
                            SuffixModel::PrereleaseDev(st, num)
                        } else {
                            SuffixModel::Prerelease(st, num)
                        },
                    ),
                    None => Err(k),
                }
            }
        },
    }
}

pub fn canonical_number_tail_exec(t: &Vec<char>) -> (r: Vec<char>)
    ensures
        r@ == canonical_number_tail(t@),
{
    let mut out: Vec<char> = Vec::new();
    let mut stripped = false;
    let mut k: usize = 0;
    assert(t@.subrange(0, t@.len() as int) =~= t@);
    assert(out@ =~= seq![]);
    while k < t.len()
        invariant
            k <= t.len(),
            canonical_number_tail(t@) == canon_tail(t@.subrange(k as int, t@.len() as int), stripped, out@),
        decreases t.len() - k,
    {
        let ghost rest = t@.subrange(k as int, t@.len() as int);
        assert(rest.drop_first() =~= t@.subrange(k + 1, t@.len() as int));
        let ch = t[k];
        if !stripped && (ch == '.' || ch == '-' || ch == '_') {
            stripped = true;
        } else if ascii_digit(ch) {
            out.push(ch);
            stripped = true;
        } else if out.len() > 0 && (ch == '.' || ch == '-') {
            out.push(ch);
        } else {
            return out;
        }
        k += 1;
    }
    out
}

pub fn u16_or_zero_exec(num: &Vec<char>) -> (r: u16)
    ensures
        r == u16_or_zero(num@),
{
    match parse_uint_exec(num, 65535) {
        Some(v) => v as u16,
        None => 0,
    }
}

pub fn chars_are(l: &Vec<char>, w: &str) -> (r: bool)
    ensures
        r == (l@ == w@),
{
    chars_eq(l, &to_chars(w))
}

pub fn modifier_suffix_exec(kw: &Option<Vec<char>>, tail: &Vec<char>, dev: bool) -> (r: Result<Suffix, ParseError>)
    ensures
        match r {
            Ok(s) => modifier_suffix(
                match kw {
                    Some(k) => Some(k@),
                    None => None,
                },
                tail@,
                dev,
            ) == Ok::<SuffixModel, Seq<char>>(s@),
            Err(ParseError::Invalid(m)) => modifier_suffix(
                match kw {
                    Some(k) => Some(k@),
                    None => None,
                },
                tail@,
                dev,
            ) == Err::<SuffixModel, Seq<char>>(m@),
        },
{
    match kw {
        None => Ok(
            if dev {
                Suffix::Dev
            } else {
                Suffix::Stable
            },
        ),
        Some(k) => {
            let l = lower_chars(k);
            let num = canonical_number_tail_exec(tail);
            if chars_are(&l, "stable") {
                Ok(
                    if dev {
                        Suffix::Dev
                    } else {
                        Suffix::Stable
                    },
                )
            } else if chars_are(&l, "patch") || chars_are(&l, "pl") || chars_are(&l, "p") {
                let n = u16_or_zero_exec(&num);
                Ok(
                    if dev {
                        Suffix::PatchDev(n)
                    } else {
                        Suffix::Patch(n)
                    },
                )
            } else {
                let st = if chars_are(&l, "rc") {
                    Some(Stability::Rc)
                } else if chars_are(&l, "beta") || chars_are(&l, "b") {
                    Some(Stability::Beta)
                } else if chars_are(&l, "alpha") || chars_are(&l, "a") {
                    Some(Stability::Alpha)
                } else {
                    None
                };
                match st {
                    Some(st) => {
                        let num = to_string(&num);
                        Ok(
                            if dev {
                                Suffix::PrereleaseDev { stability: st, num }
                            } else {
                                Suffix::Prerelease { stability: st, num }
                            },
                        )
                    },
                    None => Err(ParseError::Invalid(to_string(k))),
                }
            }
        },
    }
}

// ---- branch aliases -------------------------------------------------------

/// Drop one leading `v` or `V`.
pub open spec fn strip_v(s: Seq<char>) -> Seq<char> {
    if s.len() > 0 && (s[0] == 'v' || s[0] == 'V') {
        s.drop_first()
    } else {
        s
    }
}

pub open spec fn nines() -> Seq<char> {
    "9999999"@
}

/// A wildcard part becomes `9999999`; any other part is kept.
pub open spec fn wild_to_nines(p: Seq<char>) -> Seq<char> {
    if is_wildcard(p) {
        nines()
    } else {
        p
    }
}

/// Pad to four segments with `9999999`.
pub open spec fn pad_nines(segs: Seq<Seq<char>>) -> Seq<Seq<char>> {
    if segs.len() >= 4 {
        segs
    } else {
        segs + Seq::new((4 - segs.len()) as nat, |_i: int| nines())
    }
}

/// The body of a branch alias: the text between the `v` and the `-dev`.
pub open spec fn alias_body(s: Seq<char>) -> Seq<char> {
    strip_v(s).subrange(0, strip_v(s).len() - 4)
}

/// The segments a branch alias `N.x-dev` / `N.M.x-dev` / ... normalizes
/// to: wildcards become `9999999`, padded to four. `None` unless the text
/// has the alias form, at least one wildcard, and only ASCII-digit or
/// wildcard parts.
pub open spec fn branch_alias_segments(s: Seq<char>) -> Option<Seq<Seq<char>>> {
    let parts = split(alias_body(s), '.');
    if branch_alias_form(s) && (forall|i: int|
        0 <= i < parts.len() ==> is_wildcard(#[trigger] parts[i]) || (parts[i].len() > 0
            && all_ascii_digits(parts[i]))) && (exists|i: int|
        0 <= i < parts.len() && is_wildcard(#[trigger] parts[i])) {
        Some(pad_nines(parts.map_values(|p: Seq<char>| wild_to_nines(p))))
    } else {
        None
    }
}

pub fn strip_v_exec(s: &Vec<char>) -> (r: Vec<char>)
    ensures
        r@ == strip_v(s@),
{
    if s.len() > 0 && (s[0] == 'v' || s[0] == 'V') {
        let r = slice_chars(s, 1, s.len());
        assert(r@ =~= s@.drop_first());
        r
    } else {
        s.clone()
    }
}

pub fn pad_nines_exec(segs: &mut Vec<Vec<char>>)
    ensures
        views(final(segs)@) == pad_nines(views(old(segs)@)),
{
    let ghost start = views(segs@);
    while segs.len() < 4
        invariant
            start.len() <= segs.len() <= 4 || (start.len() >= 4 && segs.len() == start.len()),
            views(segs@) =~= start + Seq::new((segs.len() - start.len()) as nat, |_i: int| nines()),
        decreases 4 - segs.len(),
    {
        let ghost old_v = views(segs@);
        segs.push(to_chars("9999999"));
        assert(views(segs@) =~= old_v.push(nines()));
    }
    assert(views(segs@) =~= pad_nines(start));
}

/// Map wildcard parts to `9999999`.
pub fn wild_parts_exec(parts: &Vec<Vec<char>>) -> (r: Vec<Vec<char>>)
    ensures
        views(r@) == views(parts@).map_values(|p: Seq<char>| wild_to_nines(p)),
{
    let mut out: Vec<Vec<char>> = Vec::new();
    let mut k: usize = 0;
    while k < parts.len()
        invariant
            k <= parts.len(),
            views(out@) =~= views(parts@).map_values(|p: Seq<char>| wild_to_nines(p)).take(k as int),
        decreases parts.len() - k,
    {
        let piece = if is_wildcard_exec(&parts[k]) {
            to_chars("9999999")
        } else {
            parts[k].clone()
        };
        let ghost old_out = out@;
        out.push(piece);
        assert(out@ == old_out.push(piece));
        assert(views(old_out).len() == old_out.len());
        assert(views(out@)[k as int] == views(parts@).map_values(|p: Seq<char>| wild_to_nines(p))[k as int]);
        assert(forall|m: int| 0 <= m < k ==> views(out@)[m] == views(old_out)[m]);
        assert(views(out@) =~= views(parts@).map_values(|p: Seq<char>| wild_to_nines(p)).take(k + 1));
        k += 1;
    }
    assert(views(parts@).map_values(|p: Seq<char>| wild_to_nines(p)).take(parts.len() as int) =~= views(parts@).map_values(|p: Seq<char>| wild_to_nines(p)));
    out
}

pub fn branch_alias_segments_exec(s: &Vec<char>) -> (r: Option<Vec<Vec<char>>>)
    ensures
        match r {
            Some(v) => branch_alias_segments(s@) == Some(views(v@)),
            None => branch_alias_segments(s@) is None,
        },
{
    let st = strip_v_exec(s);
    if !branch_alias_form_exec(s) {
        return None;
    }
    assert(st@.len() >= 4) by {
        reveal_strlit("-dev");
    }
    let body = slice_chars(&st, 0, st.len() - 4);
    let parts = split_chars(&body, '.');
    let mut k: usize = 0;
    let mut had = false;
    while k < parts.len()
        invariant
            k <= parts.len(),
            views(parts@) == split(alias_body(s@), '.'),
            forall|i: int|
                0 <= i < k ==> is_wildcard(#[trigger] views(parts@)[i]) || (views(parts@)[i].len()
                    > 0 && all_ascii_digits(views(parts@)[i])),
            had <==> exists|i: int| 0 <= i < k && is_wildcard(#[trigger] views(parts@)[i]),
        decreases parts.len() - k,
    {
        if is_wildcard_exec(&parts[k]) {
            had = true;
        } else if !(parts[k].len() > 0 && crate::grammar::all_ascii_digits_exec(&parts[k])) {
            assert(!(is_wildcard(views(parts@)[k as int]) || (views(parts@)[k as int].len() > 0
                && all_ascii_digits(views(parts@)[k as int]))));
            return None;
        }
        k += 1;
    }
    if !had {
        return None;
    }
    let mut segs = wild_parts_exec(&parts);
    pad_nines_exec(&mut segs);
    Some(segs)
}

// ---- parse --------------------------------------------------------------

/// The text before the first `#`.
pub open spec fn before_hash(s: Seq<char>) -> Seq<char> {
    s.subrange(0, index_from(s, '#', 0))
}

pub open spec fn is_default_branch_name(c: Seq<char>) -> bool {
    c == "master"@ || c == "trunk"@ || c == "default"@
}

/// Normalization of an already trimmed, alias-free text `c1`; `s` is the
/// text an error reports.
pub open spec fn parse_cleaned(s: Seq<char>, c1: Seq<char>) -> Result<VersionModel, Seq<char>> {
    let c2 = strip_flag(c1);
    let c3 = if is_default_branch_name(c2) {
        "dev-"@ + c2
    } else {
        c2
    };
    match branch_alias_segments(c3) {
        Some(segs) => Ok(numeric_model(segs, SuffixModel::Dev)),
        None => {
            let cand = numeric_candidate(c3);
            match classical(cand) {
                Some((segs, m)) => match modifier_suffix(m.0, m.1, m.2) {
                    Ok(suf) => Ok(numeric_model(segs, suf)),
                    Err(e) => Err(e),
                },
                None => match date(cand) {
                    Some((body, m)) => match modifier_suffix(m.0, m.1, m.2) {
                        Ok(suf) => Ok(numeric_model(date_segments(body), suf)),
                        Err(e) => Err(e),
                    },
                    None => match dev_prefix(c3) {
                        Some(b) => Ok(
                            VersionModel { kind: KindModel::Branch(b), normalized: "dev-"@ + b },
                        ),
                        None => Err(s),
                    },
                },
            }
        },
    }
}

pub proof fn lemma_trim_len(s: Seq<char>)
    ensures
        crate::text::trim_start(s).len() <= s.len(),
        trim(s).len() <= s.len(),
    decreases s.len(),
{
    lemma_trim_start_len(s);
    lemma_trim_end_len(crate::text::trim_start(s));
}

pub proof fn lemma_trim_start_len(s: Seq<char>)
    ensures
        crate::text::trim_start(s).len() <= s.len(),
    decreases s.len(),
{
    if s.len() > 0 && crate::text::is_ws(s[0]) {
        lemma_trim_start_len(s.drop_first());
    }
}

pub proof fn lemma_trim_end_len(s: Seq<char>)
    ensures
        crate::text::trim_end(s).len() <= s.len(),
    decreases s.len(),
{
    if s.len() > 0 && crate::text::is_ws(s.last()) {
        lemma_trim_end_len(s.drop_last());
    }
}

/// `VersionParser::normalize`: the normalized version of `s`, or the
/// text an `Invalid` error carries.
pub open spec fn normalize(s: Seq<char>) -> Result<VersionModel, Seq<char>>
    decreases s.len(),
{
    let raw = trim(s);
    if raw.len() == 0 {
        Err(s)
    } else {
        let c1 = trim(before_hash(raw));
        match alias_left(c1) {
            Some(left) => {
                proof {
                    lemma_trim_len(s);
                    crate::text::lemma_index_from(raw, '#', 0);
                    lemma_trim_len(before_hash(raw));
                    lemma_alias_left_shorter(c1);
                }
                normalize(left)
            },
            None => parse_cleaned(s, c1),
        }
    }
}

pub fn parse_cleaned_exec(s: &Vec<char>, c1: &Vec<char>) -> (r: Result<Version, ParseError>)
    ensures
        match r {
            Ok(v) => parse_cleaned(s@, c1@) == Ok::<VersionModel, Seq<char>>(v@),
            Err(ParseError::Invalid(m)) => parse_cleaned(s@, c1@) == Err::<VersionModel, Seq<char>>(m@),
        },
{
    let c2 = strip_flag_exec(c1);
    let c3 = if chars_are(&c2, "master") || chars_are(&c2, "trunk") || chars_are(&c2, "default") {
        concat(&to_chars("dev-"), &c2)
    } else {
        c2
    };
    if let Some(segs) = branch_alias_segments_exec(&c3) {
        return Ok(numeric_version(&segs, Suffix::Dev));
    }
    let cand = numeric_candidate_exec(&c3);
    if let Some(parts) = classical_exec(&cand) {
        let suf = modifier_suffix_exec(&parts.modifier.keyword, &parts.modifier.tail, parts.modifier.dev)?;
        return Ok(numeric_version(&parts.segments, suf));
    }
    if let Some(parts) = date_exec(&cand) {
        let suf = modifier_suffix_exec(&parts.modifier.keyword, &parts.modifier.tail, parts.modifier.dev)?;
        let segs = date_segments_exec(&parts.body);
        return Ok(numeric_version(&segs, suf));
    }
    match dev_prefix_exec(&c3) {
        Some(b) => {
            let normalized = to_string(&concat(&to_chars("dev-"), &b));
            Ok(Version { kind: VersionKind::Branch(to_string(&b)), normalized })
        },
        None => Err(ParseError::Invalid(to_string(s))),
    }
}

pub fn before_hash_exec(s: &Vec<char>) -> (r: Vec<char>)
    ensures
        r@ == before_hash(s@),
{
    let i = find_from(s, '#', 0);
    slice_chars(s, 0, i)
}

pub fn normalize_exec(s: &Vec<char>) -> (r: Result<Version, ParseError>)
    ensures
        match r {
            Ok(v) => normalize(s@) == Ok::<VersionModel, Seq<char>>(v@),
            Err(ParseError::Invalid(m)) => normalize(s@) == Err::<VersionModel, Seq<char>>(m@),
        },
    decreases s@.len(),
{
    let raw = trim_chars(s);
    if raw.len() == 0 {
        return Err(ParseError::Invalid(to_string(s)));
    }
    let c1 = trim_chars(&before_hash_exec(&raw));
    match alias_left_exec(&c1) {
        Some(left) => {
            proof {
                lemma_trim_len(s@);
                crate::text::lemma_index_from(raw@, '#', 0);
                lemma_trim_len(before_hash(raw@));
                lemma_alias_left_shorter(c1@);
            }
            normalize_exec(&left)
        },
        None => parse_cleaned_exec(s, &c1),
    }
}

impl Version {
    /// Parse a Composer version string into its normalized form
    /// (`VersionParser::normalize`).
    pub fn parse(s: &str) -> (r: Result<Self, ParseError>)
        ensures
            match r {
                Ok(v) => normalize(s@) == Ok::<VersionModel, Seq<char>>(v@),
                Err(ParseError::Invalid(m)) => normalize(s@) == Err::<VersionModel, Seq<char>>(m@),
            },
    {
        normalize_exec(&to_chars(s))
    }
}

/// The text of a version error: `invalid version: "<input>"`.
pub open spec fn version_message(m: Seq<char>) -> Seq<char> {
    "invalid version: "@ + debug_text(m)
}

impl ParseError {
    /// The error's rendering, `invalid version: "<input>"`.
    pub fn message(&self) -> (r: String)
        ensures
            match self {
                ParseError::Invalid(m) => r@ == version_message(m@),
            },
    {
        match self {
            ParseError::Invalid(m) => {
                let d = debug_quoted(m);
                to_string(&concat(&to_chars("invalid version: "), &string_chars(&d)))
            },
        }
    }
}

// ---- ordering -------------------------------------------------------------

pub open spec fn max_u64() -> nat {
    18446744073709551615
}

/// Value of one segment for ordering: the `u64` it parses to; an all-digit
/// segment too large for `u64` saturates to `u64::MAX`; anything else is 0.
pub open spec fn seg_value(s: Seq<char>) -> nat {
    match parse_uint(s, max_u64()) {
        Some(v) => v,
        None => if s.len() > 0 && all_ascii_digits(s) {
            max_u64()
        } else {
            0
        },
    }
}

/// Value of the `i`-th segment (missing segments are 0).
pub open spec fn seg_at(segs: Seq<Seq<char>>, i: int) -> nat {
    if 0 <= i < segs.len() {
        seg_value(segs[i])
    } else {
        0
    }
}

/// -1, 0 or 1 as `x` is below, equal to or above `y`.
pub open spec fn sign_of(x: nat, y: nat) -> int {
    if x < y {
        -1
    } else if x > y {
        1
    } else {
        0
    }
}

/// Segment-wise comparison from index `i` on.
pub open spec fn segments_sign(a: Seq<Seq<char>>, b: Seq<Seq<char>>, i: int) -> int
    decreases a.len() + b.len() - i,
{
    if i < 0 || (i >= a.len() && i >= b.len()) {
        0
    } else if sign_of(seg_at(a, i), seg_at(b, i)) != 0 {
        sign_of(seg_at(a, i), seg_at(b, i))
    } else {
        segments_sign(a, b, i + 1)
    }
}

/// End of the run of ASCII digits starting at `i`.
pub open spec fn ascii_digit_end(s: Seq<char>, i: int) -> int
    decreases s.len() - i,
{
    if 0 <= i < s.len() && is_ascii_digit(s[i]) {
        ascii_digit_end(s, i + 1)
    } else {
        i
    }
}

/// The leading integer of a number tail (`"2.1-3"` -> 2), 0 when it has
/// none or it overflows `u16`.
pub open spec fn leading_int(num: Seq<char>) -> nat {
    match parse_uint(num.subrange(0, ascii_digit_end(num, 0)), 65535) {
        Some(v) => v,
        None => 0,
    }
}

/// (tier, n) sort key of a suffix; a higher tier is newer.
pub open spec fn suffix_rank(s: SuffixModel) -> (nat, nat) {
    match s {
        SuffixModel::Dev => (0, 0),
        SuffixModel::PrereleaseDev(st, num) => match st {
            Stability::Alpha => (1, leading_int(num)),
            Stability::Beta => (3, leading_int(num)),
            Stability::Rc => (5, leading_int(num)),
            _ => (0, leading_int(num)),
        },
        SuffixModel::Prerelease(st, num) => match st {
            Stability::Alpha => (2, leading_int(num)),
            Stability::Beta => (4, leading_int(num)),
            Stability::Rc => (6, leading_int(num)),
            _ => (0, leading_int(num)),
        },
        SuffixModel::PatchDev(n) => (0, n as nat),
        SuffixModel::Stable => (7, 0),
        SuffixModel::Patch(n) => (7, n as nat),
    }
}

pub open spec fn rank_sign(x: (nat, nat), y: (nat, nat)) -> int {
    if x.0 != y.0 {
        sign_of(x.0, y.0)
    } else {
        sign_of(x.1, y.1)
    }
}

/// The version order as -1 / 0 / 1: numeric versions by segments, then
/// by suffix rank; every branch below every numeric version; two branches
/// equal.
pub open spec fn version_sign(a: KindModel, b: KindModel) -> int {
    match (a, b) {
        (KindModel::Numeric(sa, xa), KindModel::Numeric(sb, xb)) => {
            let s = segments_sign(sa, sb, 0);
            if s != 0 {
                s
            } else {
                rank_sign(suffix_rank(xa), suffix_rank(xb))
            }
        },
        (KindModel::Branch(_), KindModel::Numeric(_, _)) => -1,
        (KindModel::Numeric(_, _), KindModel::Branch(_)) => 1,
        (KindModel::Branch(_), KindModel::Branch(_)) => 0,
    }
}

pub open spec fn ordering_of(sign: int) -> Ordering {
    if sign < 0 {
        Ordering::Less
    } else if sign > 0 {
        Ordering::Greater
    } else {
        Ordering::Equal
    }
}

pub fn seg_value_exec(s: &String) -> (r: u64)
    ensures
        r as nat == seg_value(s@),
{
    let c = string_chars(s);
    match parse_uint_exec(&c, u64::MAX) {
        Some(v) => v,
        None => {
            if c.len() > 0 && crate::grammar::all_ascii_digits_exec(&c) {
                u64::MAX
            } else {
                0
            }
        },
    }
}

pub fn sign_u64(x: u64, y: u64) -> (r: i8)
    ensures
        r as int == sign_of(x as nat, y as nat),
{
    if x < y {
        -1
    } else if x > y {
        1
    } else {
        0
    }
}

pub fn segments_sign_exec(a: &Vec<String>, b: &Vec<String>) -> (r: i8)
    ensures
        r as int == segments_sign(string_views(a@), string_views(b@), 0),
{
    let ghost sa = string_views(a@);
    let ghost sb = string_views(b@);
    let n = if a.len() > b.len() {
        a.len()
    } else {
        b.len()
    };
    let mut i: usize = 0;
    while i < n
        invariant
            i <= n,
            n == a.len() || n == b.len(),
            a.len() <= n && b.len() <= n,
            sa == string_views(a@),
            sb == string_views(b@),
            segments_sign(sa, sb, 0) == segments_sign(sa, sb, i as int),
        decreases n - i,
    {
        let va = if i < a.len() {
            seg_value_exec(&a[i])
        } else {
            0
        };
        let vb = if i < b.len() {
            seg_value_exec(&b[i])
        } else {
            0
        };
        assert(va as nat == seg_at(sa, i as int));
        assert(vb as nat == seg_at(sb, i as int));
        let s = sign_u64(va, vb);
        if s != 0 {
            return s;
        }
        i += 1;
    }
    0
}

pub fn ascii_digit_end_exec(s: &Vec<char>, i: usize) -> (r: usize)
    requires
        i <= s.len(),
    ensures
        r == ascii_digit_end(s@, i as int),
        i <= r <= s.len(),
{
    let mut k = i;
    while k < s.len() && ascii_digit(s[k])
        invariant
            i <= k <= s.len(),
            ascii_digit_end(s@, i as int) == ascii_digit_end(s@, k as int),
        decreases s.len() - k,
    {
        k += 1;
    }
    k
}

pub fn leading_int_exec(num: &String) -> (r: u16)
    ensures
        r as nat == leading_int(num@),
{
    let c = string_chars(num);
    let e = ascii_digit_end_exec(&c, 0);
    match parse_uint_exec(&slice_chars(&c, 0, e), 65535) {
        Some(v) => v as u16,
        None => 0,
    }
}

pub fn suffix_rank_exec(s: &Suffix) -> (r: (u8, u16))
    ensures
        (r.0 as nat, r.1 as nat) == suffix_rank(s@),
{
    match s {
        Suffix::Dev => (0, 0),
        Suffix::PrereleaseDev { stability, num } => match stability {
            Stability::Alpha => (1, leading_int_exec(num)),
            Stability::Beta => (3, leading_int_exec(num)),
            Stability::Rc => (5, leading_int_exec(num)),
            _ => (0, leading_int_exec(num)),
        },
        Suffix::Prerelease { stability, num } => match stability {
            Stability::Alpha => (2, leading_int_exec(num)),
            Stability::Beta => (4, leading_int_exec(num)),
            Stability::Rc => (6, leading_int_exec(num)),
            _ => (0, leading_int_exec(num)),
        },
        Suffix::PatchDev(n) => (0, *n),
        Suffix::Stable => (7, 0),
        Suffix::Patch(n) => (7, *n),
    }
}

pub fn version_sign_exec(a: &VersionKind, b: &VersionKind) -> (r: i8)
    ensures
        r as int == version_sign(a@, b@),
{
    match (a, b) {
        (
            VersionKind::Numeric { segments_raw: sa, suffix: xa },
            VersionKind::Numeric { segments_raw: sb, suffix: xb },
        ) => {
            let s = segments_sign_exec(sa, sb);
            if s != 0 {
                s
            } else {
                let ra = suffix_rank_exec(xa);
                let rb = suffix_rank_exec(xb);
                if ra.0 != rb.0 {
                    sign_u64(ra.0 as u64, rb.0 as u64)
                } else {
                    sign_u64(ra.1 as u64, rb.1 as u64)
                }
            }
        },
        (VersionKind::Branch(_), VersionKind::Numeric { .. }) => -1,
        (VersionKind::Numeric { .. }, VersionKind::Branch(_)) => 1,
        (VersionKind::Branch(_), VersionKind::Branch(_)) => 0,
    }
}

/// Whether `op` holds between two versions under Composer's comparator:
/// two branches are comparable only when they are the same branch, which
/// then satisfies `==`, `>=` and `<=`; two different branches satisfy no
/// operator, not even `!=`. Otherwise the version order decides.
pub open spec fn compare_holds(a: KindModel, op: CmpOp, b: KindModel) -> bool {
    match (a, b) {
        (KindModel::Branch(x), KindModel::Branch(y)) => match op {
            CmpOp::Eq => x == y,
            CmpOp::Ne => false,
            CmpOp::Ge | CmpOp::Le => x == y,
            _ => false,
        },
        _ => {
            let s = version_sign(a, b);
            match op {
                CmpOp::Gt => s > 0,
                CmpOp::Ge => s >= 0,
                CmpOp::Lt => s < 0,
                CmpOp::Le => s <= 0,
                CmpOp::Eq => s == 0,
                CmpOp::Ne => s != 0,
            }
        },
    }
}

impl Version {
    /// Total order of versions (segments by value, then suffix rank;
    /// branches below numerics; two branches equal).
    pub fn cmp(&self, other: &Version) -> (r: Ordering)
        ensures
            r == ordering_of(version_sign(self.kind@, other.kind@)),
    {
        let s = version_sign_exec(&self.kind, &other.kind);
        if s < 0 {
            Ordering::Less
        } else if s > 0 {
            Ordering::Greater
        } else {
            Ordering::Equal
        }
    }

    /// Composer's comparator.
    pub fn compare(&self, op: CmpOp, other: &Version) -> (r: bool)
        ensures
            r == compare_holds(self.kind@, op, other.kind@),
    {
        if let (VersionKind::Branch(a), VersionKind::Branch(b)) = (&self.kind, &other.kind) {
            let same = chars_eq(&string_chars(a), &string_chars(b));
            return match (op, same) {
                (CmpOp::Eq, same) => same,
                (CmpOp::Ne, _) => false,
                (CmpOp::Ge, true) | (CmpOp::Le, true) => true,
                _ => false,
            };
        }
        let s = version_sign_exec(&self.kind, &other.kind);
        match op {
            CmpOp::Gt => s > 0,
            CmpOp::Ge => s >= 0,
            CmpOp::Lt => s < 0,
            CmpOp::Le => s <= 0,
            CmpOp::Eq => s == 0,
            CmpOp::Ne => s != 0,
        }
    }

    /// Stability of the version: branches are `dev`; numeric versions take
    /// their suffix's stability.
    pub fn stability(&self) -> (r: Stability)
        ensures
            r == kind_stability(self.kind@),
    {
        match &self.kind {
            VersionKind::Numeric { suffix, .. } => suffix.stability(),
            VersionKind::Branch(_) => Stability::Dev,
        }
    }

    /// The same numeric body with another suffix; `None` for a branch.
    pub fn with_suffix(&self, suffix: Suffix) -> (r: Option<Version>)
        ensures
            match self.kind@ {
                KindModel::Numeric(segs, _) => r matches Some(v) && v@ == numeric_model(segs, suffix@),
                KindModel::Branch(_) => r is None,
            },
    {
        match &self.kind {
            VersionKind::Numeric { segments_raw, .. } => {
                let segs = chars_of_strings(segments_raw);
                Some(numeric_version(&segs, suffix))
            },
            VersionKind::Branch(_) => None,
        }
    }
}

// ---- branch names, alias prefixes, stability of a raw string -------------

/// `VersionParser::normalizeBranch`: a numeric/wildcard branch name
/// normalizes like a branch alias (wildcards and missing segments become
/// `9999999`, suffix `-dev`); any other name becomes `dev-<name>`.
pub open spec fn normalize_branch_text(b: Seq<char>) -> Seq<char> {
    let st = strip_v(b);
    if numeric_branch(st) {
        render(pad_nines(split(st, '.').map_values(|p: Seq<char>| wild_to_nines(p))), SuffixModel::Dev)
    } else {
        "dev-"@ + b
    }
}

/// Index of the first wildcard part at or after `i` (the length when none).
pub open spec fn first_wildcard(parts: Seq<Seq<char>>, i: int) -> int
    decreases parts.len() - i,
{
    if i < 0 || i >= parts.len() {
        parts.len() as int
    } else if is_wildcard(parts[i]) {
        i
    } else {
        first_wildcard(parts, i + 1)
    }
}

/// `VersionParser::parseNumericAliasPrefix`: for `1.x-dev` / `1.2-dev` /
/// `1.2.x-dev` the numeric parts before the first wildcard, joined and
/// followed by `.` (`""` when a wildcard comes first); `None` when the
/// text does not end in `-dev` or a part before the first wildcard is not
/// all ASCII digits.
pub open spec fn numeric_alias_prefix(b: Seq<char>) -> Option<Seq<char>> {
    let st = strip_v(b);
    if !ends_with(st, "-dev"@) {
        None
    } else {
        let parts = split(st.subrange(0, st.len() - 4), '.');
        let w = first_wildcard(parts, 0);
        if exists|i: int| 0 <= i < w && !(#[trigger] parts[i].len() > 0 && all_ascii_digits(parts[i])) {
            None
        } else {
            let out = join(parts.take(w), "."@);
            if out.len() > 0 {
                Some(out.push('.'))
            } else if w >= parts.len() {
                None
            } else {
                Some(seq![])
            }
        }
    }
}

/// The modifier found by the unanchored `(?i)MOD(?:\+.*)?$` search at the
/// leftmost start `p` where it matches: its keyword and `dev` flag.
pub open spec fn stability_search(low: Seq<char>, p: int) -> (Option<Seq<char>>, bool)
    decreases low.len() - p,
{
    if p < 0 || p >= low.len() {
        (None, false)
    } else {
        let q = index_from(low, '+', p);
        let cont_ok = q >= low.len() || !low.subrange(q + 1, low.len() as int).contains('\n');
        match modifier(low.subrange(p, q)) {
            Some(m) => if cont_ok {
                (m.0, m.2)
            } else {
                stability_search(low, p + 1)
            },
            None => stability_search(low, p + 1),
        }
    }
}

/// `VersionParser::parseStability`.
pub open spec fn stability_of_text(v: Seq<char>) -> Stability {
    let c = trim(before_hash(trim(v)));
    let low = lower(c);
    if starts_dev_dash(c) || ends_with(low, "-dev"@) {
        Stability::Dev
    } else {
        let (kw, dev) = stability_search(low, 0);
        if dev {
            Stability::Dev
        } else {
            match kw {
                Some(k) => if k == "beta"@ || k == "b"@ {
                    Stability::Beta
                } else if k == "alpha"@ || k == "a"@ {
                    Stability::Alpha
                } else if k == "rc"@ {
                    Stability::Rc
                } else {
                    Stability::Stable
                },
                None => Stability::Stable,
            }
        }
    }
}

pub open spec fn default_branch_text(s: Seq<char>) -> Seq<char> {
    if s == "dev-master"@ || s == "dev-default"@ || s == "dev-trunk"@ {
        "9999999-dev"@
    } else {
        s
    }
}

/// Whether a string (trimmed) has the branch-alias form `N.x-dev`.
pub fn is_branch_alias(s: &str) -> (r: bool)
    ensures
        r == branch_alias_form(trim(s@)),
{
    branch_alias_form_exec(&trim_chars(&to_chars(s)))
}

pub fn first_wildcard_exec(parts: &Vec<Vec<char>>) -> (r: usize)
    ensures
        r as int == first_wildcard(views(parts@), 0),
        r <= parts.len(),
{
    let mut k: usize = 0;
    while k < parts.len() && !is_wildcard_exec(&parts[k])
        invariant
            k <= parts.len(),
            first_wildcard(views(parts@), 0) == first_wildcard(views(parts@), k as int),
        decreases parts.len() - k,
    {
        k += 1;
    }
    k
}

pub fn stability_search_exec(low: &Vec<char>) -> (r: (Option<Vec<char>>, bool))
    ensures
        (match r.0 {
            Some(k) => Some(k@),
            None => None,
        }, r.1) == stability_search(low@, 0),
{
    let mut p: usize = 0;
    while p < low.len()
        invariant
            p <= low.len(),
            stability_search(low@, 0) == stability_search(low@, p as int),
        decreases low.len() - p,
    {
        let q = find_from(low, '+', p);
        let cont_ok = q >= low.len() || find_from(low, '\n', q + 1) >= low.len();
        proof {
            if q < low.len() {
                crate::text::lemma_index_from(low@, '\n', q + 1);
                let rest = low@.subrange(q + 1, low@.len() as int);
                if rest.contains('\n') {
                    let w = choose|w: int| 0 <= w < rest.len() && rest[w] == '\n';
                    assert(low@[q + 1 + w] == '\n');
                }
                if index_from(low@, '\n', q + 1) < low@.len() {
                    assert(rest[index_from(low@, '\n', q + 1) - q - 1] == '\n');
                }
            }
        }
        if cont_ok {
            let piece = slice_chars(low, p, q);
            match modifier_exec(&piece) {
                Some(m) => {
                    return (m.keyword, m.dev);
                },
                None => {},
            }
        }
        p += 1;
    }
    (None, false)
}

impl Version {
    /// `VersionParser::parseNumericAliasPrefix`.
    pub fn parse_numeric_alias_prefix(branch: &str) -> (r: Option<String>)
        ensures
            match r {
                Some(s) => numeric_alias_prefix(branch@) == Some(s@),
                None => numeric_alias_prefix(branch@) is None,
            },
    {
        let st = strip_v_exec(&to_chars(branch));
        if !ends_with_exec(&st, &to_chars("-dev")) {
            return None;
        }
        assert(st@.len() >= 4) by {
            reveal_strlit("-dev");
        }
        let parts = split_chars(&slice_chars(&st, 0, st.len() - 4), '.');
        let ghost sp = split(st@.subrange(0, st@.len() - 4), '.');
        assert(views(parts@) == sp);
        let w = first_wildcard_exec(&parts);
        let mut k: usize = 0;
        let mut prefix: Vec<Vec<char>> = Vec::new();
        while k < w
            invariant
                k <= w <= parts.len(),
                views(parts@) == sp,
                sp == split(strip_v(branch@).subrange(0, strip_v(branch@).len() - 4), '.'),
                w as int == first_wildcard(sp, 0),
                views(prefix@) =~= views(parts@).take(k as int),
                forall|i: int| 0 <= i < k ==> #[trigger] views(parts@)[i].len() > 0 && all_ascii_digits(views(parts@)[i]),
            decreases w - k,
        {
            if !(parts[k].len() > 0 && crate::grammar::all_ascii_digits_exec(&parts[k])) {
                assert(!(sp[k as int].len() > 0 && all_ascii_digits(sp[k as int])));
                assert(exists|i: int| 0 <= i < w && !(#[trigger] sp[i].len() > 0 && all_ascii_digits(sp[i])));
                return None;
            }
            let piece = parts[k].clone();
            let ghost old_p = prefix@;
            prefix.push(piece);
            assert(prefix@ == old_p.push(piece));
            assert(views(old_p).len() == old_p.len());
            assert(views(prefix@)[k as int] == views(parts@)[k as int]);
            assert(forall|m: int| 0 <= m < k ==> views(prefix@)[m] == views(old_p)[m]);
            assert(views(prefix@) =~= views(parts@).take(k + 1));
            k += 1;
        }
        let mut out = join_chars(&prefix, &to_chars("."));
        if out.len() > 0 {
            out.push('.');
            Some(to_string(&out))
        } else if w >= parts.len() {
            None
        } else {
            Some(String::new())
        }
    }

    /// `VersionParser::normalizeBranch`.
    pub fn normalize_branch(branch: &str) -> (r: String)
        ensures
            r@ == normalize_branch_text(branch@),
    {
        let b = to_chars(branch);
        let st = strip_v_exec(&b);
        if numeric_branch_exec(&st) {
            let parts = split_chars(&st, '.');
            let mut segs = wild_parts_exec(&parts);
            pad_nines_exec(&mut segs);
            to_string(&render_exec(&segs, &Suffix::Dev))
        } else {
            to_string(&concat(&to_chars("dev-"), &b))
        }
    }

    /// `VersionParser::parseStability`.
    pub fn parse_stability(version: &str) -> (r: Stability)
        ensures
            r == stability_of_text(version@),
    {
        let c = trim_chars(&before_hash_exec(&trim_chars(&to_chars(version))));
        let low = lower_chars(&c);
        if starts_dev_dash_exec(&c) || ends_with_exec(&low, &to_chars("-dev")) {
            return Stability::Dev;
        }
        let (kw, dev) = stability_search_exec(&low);
        if dev {
            return Stability::Dev;
        }
        match kw {
            Some(k) => {
                if chars_are(&k, "beta") || chars_are(&k, "b") {
                    Stability::Beta
                } else if chars_are(&k, "alpha") || chars_are(&k, "a") {
                    Stability::Alpha
                } else if chars_are(&k, "rc") {
                    Stability::Rc
                } else {
                    Stability::Stable
                }
            },
            None => Stability::Stable,
        }
    }

    /// `normalizeDefaultBranch`: `dev-master` / `dev-default` / `dev-trunk`
    /// become `9999999-dev`; anything else is returned unchanged.
    pub fn normalize_default_branch(normalized: &str) -> (r: String)
        ensures
            r@ == default_branch_text(normalized@),
    {
        let s = to_chars(normalized);
        if chars_are(&s, "dev-master") || chars_are(&s, "dev-default") || chars_are(&s, "dev-trunk") {
            to_string(&to_chars("9999999-dev"))
        } else {
            to_string(&s)
        }
    }
}

// ---- laws of the version order ----------------------------------------------------

/// Segment-wise comparison from `i` up to (excluding) `n`.
pub open spec fn sign_upto(a: Seq<Seq<char>>, b: Seq<Seq<char>>, i: int, n: int) -> int
    decreases n - i,
{
    if i >= n {
        0
    } else if sign_of(seg_at(a, i), seg_at(b, i)) != 0 {
        sign_of(seg_at(a, i), seg_at(b, i))
    } else {
        sign_upto(a, b, i + 1, n)
    }
}

proof fn lemma_sign_upto_beyond(a: Seq<Seq<char>>, b: Seq<Seq<char>>, i: int, n: int)
    requires
        i >= a.len(),
        i >= b.len(),
    ensures
        sign_upto(a, b, i, n) == 0,
    decreases n - i,
{
    if i < n {
        lemma_sign_upto_beyond(a, b, i + 1, n);
    }
}

/// Comparing up to any bound past both lengths is the segment comparison.
proof fn lemma_segments_sign_upto(a: Seq<Seq<char>>, b: Seq<Seq<char>>, i: int, n: int)
    requires
        0 <= i,
        n >= a.len(),
        n >= b.len(),
    ensures
        segments_sign(a, b, i) == sign_upto(a, b, i, n),
    decreases a.len() + b.len() - i,
{
    if i >= a.len() && i >= b.len() {
        lemma_sign_upto_beyond(a, b, i, n);
    } else if sign_of(seg_at(a, i), seg_at(b, i)) == 0 {
        lemma_segments_sign_upto(a, b, i + 1, n);
    }
}

proof fn lemma_sign_upto_laws(a: Seq<Seq<char>>, b: Seq<Seq<char>>, c: Seq<Seq<char>>, i: int, n: int)
    ensures
        sign_upto(a, a, i, n) == 0,
        sign_upto(a, b, i, n) == -sign_upto(b, a, i, n),
        sign_upto(a, b, i, n) <= 0 && sign_upto(b, c, i, n) <= 0 ==> sign_upto(a, c, i, n) <= 0,
        -1 <= sign_upto(a, b, i, n) <= 1,
    decreases n - i,
{
    if i < n {
        lemma_sign_upto_laws(a, b, c, i + 1, n);
    }
}

/// The version order is a total preorder: every version compares equal
/// to itself, swapping two versions reverses their order, and the order
/// is transitive.
pub proof fn law_version_order(a: KindModel, b: KindModel, c: KindModel)
    ensures
        version_sign(a, a) == 0,
        version_sign(a, b) == -version_sign(b, a),
        version_sign(a, b) <= 0 && version_sign(b, c) <= 0 ==> version_sign(a, c) <= 0,
{
    match (a, b, c) {
        (KindModel::Numeric(sa, _), KindModel::Numeric(sb, _), KindModel::Numeric(sc, _)) => {
            let n: int = (sa.len() + sb.len() + sc.len()) as int;
            lemma_segments_sign_upto(sa, sa, 0, n);
            lemma_segments_sign_upto(sa, sb, 0, n);
            lemma_segments_sign_upto(sb, sa, 0, n);
            lemma_segments_sign_upto(sb, sc, 0, n);
            lemma_segments_sign_upto(sa, sc, 0, n);
            lemma_segments_sign_upto(sc, sb, 0, n);
            lemma_segments_sign_upto(sc, sa, 0, n);
            lemma_sign_upto_laws(sa, sb, sc, 0, n);
            lemma_sign_upto_laws(sb, sc, sa, 0, n);
            lemma_sign_upto_laws(sc, sa, sb, 0, n);
            lemma_sign_upto_laws(sc, sb, sa, 0, n);
            lemma_sign_upto_laws(sb, sa, sc, 0, n);
            lemma_sign_upto_laws(sa, sc, sb, 0, n);
        },
        _ => {
            match a {
                KindModel::Numeric(sa, _) => {
                    lemma_segments_sign_upto(sa, sa, 0, sa.len() as int);
                    lemma_sign_upto_laws(sa, sa, sa, 0, sa.len() as int);
                },
                _ => {},
            }
            match (a, b) {
                (KindModel::Numeric(sa, _), KindModel::Numeric(sb, _)) => {
                    let n: int = (sa.len() + sb.len()) as int;
                    lemma_segments_sign_upto(sa, sb, 0, n);
                    lemma_segments_sign_upto(sb, sa, 0, n);
                    lemma_sign_upto_laws(sa, sb, sb, 0, n);
                },
                _ => {},
            }
            match (b, c) {
                (KindModel::Numeric(sb, _), KindModel::Numeric(sc, _)) => {
                    let n: int = (sb.len() + sc.len()) as int;
                    lemma_segments_sign_upto(sb, sc, 0, n);
                    lemma_sign_upto_laws(sb, sc, sc, 0, n);
                },
                _ => {},
            }
            match (a, c) {
                (KindModel::Numeric(sa, _), KindModel::Numeric(sc, _)) => {
                    let n: int = (sa.len() + sc.len()) as int;
                    lemma_segments_sign_upto(sa, sc, 0, n);
                    lemma_sign_upto_laws(sa, sc, sc, 0, n);
                },
                _ => {},
            }
        },
    }
}

/// How the comparator's operators relate: `a > b` is `b < a`, `a >= b`
/// is `b <= a`, `==` and `!=` are symmetric, `>=` (`<=`) is `>` (`<`) or
/// `==`; `!=` is the negation of `==` unless both are branches, which
/// never satisfy `!=`.
pub proof fn law_compare_operators(a: KindModel, b: KindModel)
    ensures
        compare_holds(a, CmpOp::Gt, b) == compare_holds(b, CmpOp::Lt, a),
        compare_holds(a, CmpOp::Ge, b) == compare_holds(b, CmpOp::Le, a),
        compare_holds(a, CmpOp::Eq, b) == compare_holds(b, CmpOp::Eq, a),
        compare_holds(a, CmpOp::Ne, b) == compare_holds(b, CmpOp::Ne, a),
        !(a is Branch && b is Branch) ==> compare_holds(a, CmpOp::Ne, b) == !compare_holds(
            a,
            CmpOp::Eq,
            b,
        ),
        (a is Branch && b is Branch) ==> !compare_holds(a, CmpOp::Ne, b),
        compare_holds(a, CmpOp::Ge, b) == (compare_holds(a, CmpOp::Gt, b) || compare_holds(
            a,
            CmpOp::Eq,
            b,
        )),
        compare_holds(a, CmpOp::Le, b) == (compare_holds(a, CmpOp::Lt, b) || compare_holds(
            a,
            CmpOp::Eq,
            b,
        )),
{
    law_version_order(a, b, b);
}

/// A branch alias's segments are numeric segments.
proof fn lemma_branch_alias_segments(s: Seq<char>)
    ensures
        branch_alias_segments(s) matches Some(segs) ==> segs.len() >= 4 && forall|i: int|
            0 <= i < segs.len() ==> digit_segment(#[trigger] segs[i]),
{
    reveal_strlit("9999999");
    let n = nines();
    assert forall|k: int| 0 <= k < n.len() implies crate::text::is_udigit(#[trigger] n[k]) by {}
    if let Some(segs) = branch_alias_segments(s) {
        let parts = split(alias_body(s), '.');
        let mapped = parts.map_values(|p: Seq<char>| wild_to_nines(p));
        assert forall|i: int| 0 <= i < mapped.len() implies digit_segment(#[trigger] mapped[i]) by {
            if !is_wildcard(parts[i]) {
                lemma_ascii_digits_are_digits(parts[i]);
            }
        }
        assert forall|i: int| 0 <= i < segs.len() implies digit_segment(#[trigger] segs[i]) by {
            if i >= mapped.len() {
                assert(segs[i] == n);
            }
        }
    }
}

/// The date body `normalize` reads from `s`, where `s` normalizes by the
/// date form.
pub open spec fn date_body_read(s: Seq<char>) -> Option<Seq<char>>
    decreases s.len(),
{
    let raw = trim(s);
    if raw.len() == 0 {
        None
    } else {
        let c1 = trim(before_hash(raw));
        match alias_left(c1) {
            Some(left) => {
                proof {
                    lemma_trim_len(s);
                    crate::text::lemma_index_from(raw, '#', 0);
                    lemma_trim_len(before_hash(raw));
                    lemma_alias_left_shorter(c1);
                }
                date_body_read(left)
            },
            None => {
                let c2 = strip_flag(c1);
                let c3 = if is_default_branch_name(c2) {
                    "dev-"@ + c2
                } else {
                    c2
                };
                let cand = numeric_candidate(c3);
                if branch_alias_segments(c3) is Some || classical(cand) is Some {
                    None
                } else {
                    match date(cand) {
                        Some((body, _m)) => Some(body),
                        None => None,
                    }
                }
            },
        }
    }
}

/// Whether a text holds an ASCII digit.
pub open spec fn has_ascii_digit(t: Seq<char>) -> bool {
    exists|k: int| 0 <= k < t.len() && is_ascii_digit(#[trigger] t[k])
}

/// Every parsed version is a branch whose normalized text is
/// `dev-<name>`, or a numeric version whose segments are runs of decimal
/// digits and whose normalized text is those segments joined by `.`,
/// then its suffix's text. A numeric version has at least one segment,
/// except one read by the date form from a body written without any
/// ASCII digit (digits of other scripts only), which has none.
pub proof fn law_parsed_shape(s: Seq<char>)
    ensures
        normalize(s) matches Ok(v) ==> match v.kind {
            KindModel::Branch(b) => v.normalized == "dev-"@ + b,
            KindModel::Numeric(g, x) => v.normalized == render(g, x) && (forall|i: int|
                0 <= i < g.len() ==> digit_segment(#[trigger] g[i])) && (g.len() > 0 || (
            date_body_read(s) matches Some(d) && !has_ascii_digit(d))),
        },
    decreases s.len(),
{
    let raw = trim(s);
    if raw.len() > 0 {
        let c1 = trim(before_hash(raw));
        if let Some(left) = alias_left(c1) {
            lemma_trim_len(s);
            crate::text::lemma_index_from(raw, '#', 0);
            lemma_trim_len(before_hash(raw));
            lemma_alias_left_shorter(c1);
            law_parsed_shape(left);
        } else {
            let c2 = strip_flag(c1);
            let c3 = if is_default_branch_name(c2) {
                "dev-"@ + c2
            } else {
                c2
            };
            lemma_branch_alias_segments(c3);
            let cand = numeric_candidate(c3);
            lemma_classical_segments(cand);
            if let Some((body, m)) = date(cand) {
                lemma_date_segments(body);
                if has_ascii_digit(body) {
                    lemma_date_segments_nonempty(body);
                }
            }
        }
    }
}

/// For the same segments, suffixes sort `dev < alpha-dev < alpha <
/// beta-dev < beta < RC-dev < RC < stable`, whatever their numbers, and a
/// patch release sorts at or above the plain release.
pub proof fn law_suffix_order(g: Seq<Seq<char>>, n: Seq<char>, m: Seq<char>, p: u16)
    ensures
        version_sign(KindModel::Numeric(g, SuffixModel::Dev), KindModel::Numeric(g, SuffixModel::PrereleaseDev(Stability::Alpha, n))) < 0,
        version_sign(KindModel::Numeric(g, SuffixModel::PrereleaseDev(Stability::Alpha, n)), KindModel::Numeric(g, SuffixModel::Prerelease(Stability::Alpha, m))) < 0,
        version_sign(KindModel::Numeric(g, SuffixModel::Prerelease(Stability::Alpha, n)), KindModel::Numeric(g, SuffixModel::PrereleaseDev(Stability::Beta, m))) < 0,
        version_sign(KindModel::Numeric(g, SuffixModel::PrereleaseDev(Stability::Beta, n)), KindModel::Numeric(g, SuffixModel::Prerelease(Stability::Beta, m))) < 0,
        version_sign(KindModel::Numeric(g, SuffixModel::Prerelease(Stability::Beta, n)), KindModel::Numeric(g, SuffixModel::PrereleaseDev(Stability::Rc, m))) < 0,
        version_sign(KindModel::Numeric(g, SuffixModel::PrereleaseDev(Stability::Rc, n)), KindModel::Numeric(g, SuffixModel::Prerelease(Stability::Rc, m))) < 0,
        version_sign(KindModel::Numeric(g, SuffixModel::Prerelease(Stability::Alpha, n)), KindModel::Numeric(g, SuffixModel::Prerelease(Stability::Beta, m))) < 0,
        version_sign(KindModel::Numeric(g, SuffixModel::Prerelease(Stability::Beta, n)), KindModel::Numeric(g, SuffixModel::Prerelease(Stability::Rc, m))) < 0,
        version_sign(KindModel::Numeric(g, SuffixModel::Prerelease(Stability::Rc, n)), KindModel::Numeric(g, SuffixModel::Stable)) < 0,
        version_sign(KindModel::Numeric(g, SuffixModel::Stable), KindModel::Numeric(g, SuffixModel::Patch(p))) <= 0,
{
    let a = KindModel::Numeric(g, SuffixModel::Stable);
    law_version_order(a, a, a);
    assert(segments_sign(g, g, 0) == 0);
}

/// A version's stability is the one its suffix writes: a prerelease's
/// normalized suffix is `-` and the keyword of its stability, then its
/// number; a version whose suffix ends in `-dev` is `dev`; a plain or
/// patch release is stable.
pub proof fn law_stability_named_by_suffix(g: Seq<Seq<char>>, suf: SuffixModel)
    ensures
        match suf {
            SuffixModel::Prerelease(st, num) => (st == Stability::Alpha || st == Stability::Beta || st
                == Stability::Rc) ==> suffix_text(suf) == "-"@ + kind_stability(
                KindModel::Numeric(g, suf),
            ).keyword() + num,
            SuffixModel::Stable | SuffixModel::Patch(_) => kind_stability(KindModel::Numeric(g, suf))
                == Stability::Stable,
            _ => kind_stability(KindModel::Numeric(g, suf)) == Stability::Dev && suffix_text(suf).len()
                >= 4 && suffix_text(suf).subrange(suffix_text(suf).len() - 4, suffix_text(suf).len() as int)
                == "-dev"@,
        },
{
    reveal_strlit("-dev");
    let t = suffix_text(suf);
    match suf {
        SuffixModel::Dev => {
            assert(t.subrange(t.len() - 4, t.len() as int) =~= "-dev"@);
        },
        SuffixModel::PrereleaseDev(st, num) => {
            let pre = "-"@ + st.keyword() + num;
            assert(t == pre + "-dev"@);
            assert(t.subrange(t.len() - 4, t.len() as int) =~= "-dev"@);
        },
        SuffixModel::PatchDev(k) => {
            let pre = "-patch"@ + dec(k as nat);
            assert(t == pre + "-dev"@);
            assert(t.subrange(t.len() - 4, t.len() as int) =~= "-dev"@);
        },
        _ => {},
    }
}

} // verus!
