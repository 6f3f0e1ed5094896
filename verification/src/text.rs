//! Character-level helpers shared by the parsers: the Unicode
//! `White_Space` and decimal-digit classes, ASCII case mapping,
//! trimming, splitting, joining and conversions between `&str`,
//! `String` and `Vec<char>`.

use vstd::prelude::*;

verus! {

/// Unicode `White_Space`: the set `char::is_whitespace` tests, written
/// `\s` in the grammar notation.
pub open spec fn is_ws(c: char) -> bool {
    ('\t' <= c && c <= '\r') || c == ' ' || c == '\u{85}' || c == '\u{a0}' || c == '\u{1680}'
        || ('\u{2000}' <= c && c <= '\u{200a}') || c == '\u{2028}' || c == '\u{2029}'
        || c == '\u{202f}' || c == '\u{205f}' || c == '\u{3000}'
}

pub fn ws(c: char) -> (r: bool)
    ensures
        r == is_ws(c),
{
    ('\t' <= c && c <= '\r') || c == ' ' || c == '\u{85}' || c == '\u{a0}' || c == '\u{1680}'
        || ('\u{2000}' <= c && c <= '\u{200a}') || c == '\u{2028}' || c == '\u{2029}'
        || c == '\u{202f}' || c == '\u{205f}' || c == '\u{3000}'
}

/// Unicode general category `Nd` (Unicode 16): the digits written `\d`
/// in the grammar notation.
pub open spec fn is_udigit(c: char) -> bool {
    ('\u{30}' <= c && c <= '\u{39}') ||
        ('\u{660}' <= c && c <= '\u{669}') ||
        ('\u{6f0}' <= c && c <= '\u{6f9}') ||
        ('\u{7c0}' <= c && c <= '\u{7c9}') ||
        ('\u{966}' <= c && c <= '\u{96f}') ||
        ('\u{9e6}' <= c && c <= '\u{9ef}') ||
        ('\u{a66}' <= c && c <= '\u{a6f}') ||
        ('\u{ae6}' <= c && c <= '\u{aef}') ||
        ('\u{b66}' <= c && c <= '\u{b6f}') ||
        ('\u{be6}' <= c && c <= '\u{bef}') ||
        ('\u{c66}' <= c && c <= '\u{c6f}') ||
        ('\u{ce6}' <= c && c <= '\u{cef}') ||
        ('\u{d66}' <= c && c <= '\u{d6f}') ||
        ('\u{de6}' <= c && c <= '\u{def}') ||
        ('\u{e50}' <= c && c <= '\u{e59}') ||
        ('\u{ed0}' <= c && c <= '\u{ed9}') ||
        ('\u{f20}' <= c && c <= '\u{f29}') ||
        ('\u{1040}' <= c && c <= '\u{1049}') ||
        ('\u{1090}' <= c && c <= '\u{1099}') ||
        ('\u{17e0}' <= c && c <= '\u{17e9}') ||
        ('\u{1810}' <= c && c <= '\u{1819}') ||
        ('\u{1946}' <= c && c <= '\u{194f}') ||
        ('\u{19d0}' <= c && c <= '\u{19d9}') ||
        ('\u{1a80}' <= c && c <= '\u{1a89}') ||
        ('\u{1a90}' <= c && c <= '\u{1a99}') ||
        ('\u{1b50}' <= c && c <= '\u{1b59}') ||
        ('\u{1bb0}' <= c && c <= '\u{1bb9}') ||
        ('\u{1c40}' <= c && c <= '\u{1c49}') ||
        ('\u{1c50}' <= c && c <= '\u{1c59}') ||
        ('\u{a620}' <= c && c <= '\u{a629}') ||
        ('\u{a8d0}' <= c && c <= '\u{a8d9}') ||
        ('\u{a900}' <= c && c <= '\u{a909}') ||
        ('\u{a9d0}' <= c && c <= '\u{a9d9}') ||
        ('\u{a9f0}' <= c && c <= '\u{a9f9}') ||
        ('\u{aa50}' <= c && c <= '\u{aa59}') ||
        ('\u{abf0}' <= c && c <= '\u{abf9}') ||
        ('\u{ff10}' <= c && c <= '\u{ff19}') ||
        ('\u{104a0}' <= c && c <= '\u{104a9}') ||
        ('\u{10d30}' <= c && c <= '\u{10d39}') ||
        ('\u{10d40}' <= c && c <= '\u{10d49}') ||
        ('\u{11066}' <= c && c <= '\u{1106f}') ||
        ('\u{110f0}' <= c && c <= '\u{110f9}') ||
        ('\u{11136}' <= c && c <= '\u{1113f}') ||
        ('\u{111d0}' <= c && c <= '\u{111d9}') ||
        ('\u{112f0}' <= c && c <= '\u{112f9}') ||
        ('\u{11450}' <= c && c <= '\u{11459}') ||
        ('\u{114d0}' <= c && c <= '\u{114d9}') ||
        ('\u{11650}' <= c && c <= '\u{11659}') ||
        ('\u{116c0}' <= c && c <= '\u{116c9}') ||
        ('\u{116d0}' <= c && c <= '\u{116e3}') ||
        ('\u{11730}' <= c && c <= '\u{11739}') ||
        ('\u{118e0}' <= c && c <= '\u{118e9}') ||
        ('\u{11950}' <= c && c <= '\u{11959}') ||
        ('\u{11bf0}' <= c && c <= '\u{11bf9}') ||
        ('\u{11c50}' <= c && c <= '\u{11c59}') ||
        ('\u{11d50}' <= c && c <= '\u{11d59}') ||
        ('\u{11da0}' <= c && c <= '\u{11da9}') ||
        ('\u{11f50}' <= c && c <= '\u{11f59}') ||
        ('\u{16130}' <= c && c <= '\u{16139}') ||
        ('\u{16a60}' <= c && c <= '\u{16a69}') ||
        ('\u{16ac0}' <= c && c <= '\u{16ac9}') ||
        ('\u{16b50}' <= c && c <= '\u{16b59}') ||
        ('\u{16d70}' <= c && c <= '\u{16d79}') ||
        ('\u{1ccf0}' <= c && c <= '\u{1ccf9}') ||
        ('\u{1d7ce}' <= c && c <= '\u{1d7ff}') ||
        ('\u{1e140}' <= c && c <= '\u{1e149}') ||
        ('\u{1e2f0}' <= c && c <= '\u{1e2f9}') ||
        ('\u{1e4f0}' <= c && c <= '\u{1e4f9}') ||
        ('\u{1e5f1}' <= c && c <= '\u{1e5fa}') ||
        ('\u{1e950}' <= c && c <= '\u{1e959}') ||
        ('\u{1fbf0}' <= c && c <= '\u{1fbf9}')
}

pub fn udigit(c: char) -> (r: bool)
    ensures
        r == is_udigit(c),
{
    ('\u{30}' <= c && c <= '\u{39}') ||
        ('\u{660}' <= c && c <= '\u{669}') ||
        ('\u{6f0}' <= c && c <= '\u{6f9}') ||
        ('\u{7c0}' <= c && c <= '\u{7c9}') ||
        ('\u{966}' <= c && c <= '\u{96f}') ||
        ('\u{9e6}' <= c && c <= '\u{9ef}') ||
        ('\u{a66}' <= c && c <= '\u{a6f}') ||
        ('\u{ae6}' <= c && c <= '\u{aef}') ||
        ('\u{b66}' <= c && c <= '\u{b6f}') ||
        ('\u{be6}' <= c && c <= '\u{bef}') ||
        ('\u{c66}' <= c && c <= '\u{c6f}') ||
        ('\u{ce6}' <= c && c <= '\u{cef}') ||
        ('\u{d66}' <= c && c <= '\u{d6f}') ||
        ('\u{de6}' <= c && c <= '\u{def}') ||
        ('\u{e50}' <= c && c <= '\u{e59}') ||
        ('\u{ed0}' <= c && c <= '\u{ed9}') ||
        ('\u{f20}' <= c && c <= '\u{f29}') ||
        ('\u{1040}' <= c && c <= '\u{1049}') ||
        ('\u{1090}' <= c && c <= '\u{1099}') ||
        ('\u{17e0}' <= c && c <= '\u{17e9}') ||
        ('\u{1810}' <= c && c <= '\u{1819}') ||
        ('\u{1946}' <= c && c <= '\u{194f}') ||
        ('\u{19d0}' <= c && c <= '\u{19d9}') ||
        ('\u{1a80}' <= c && c <= '\u{1a89}') ||
        ('\u{1a90}' <= c && c <= '\u{1a99}') ||
        ('\u{1b50}' <= c && c <= '\u{1b59}') ||
        ('\u{1bb0}' <= c && c <= '\u{1bb9}') ||
        ('\u{1c40}' <= c && c <= '\u{1c49}') ||
        ('\u{1c50}' <= c && c <= '\u{1c59}') ||
        ('\u{a620}' <= c && c <= '\u{a629}') ||
        ('\u{a8d0}' <= c && c <= '\u{a8d9}') ||
        ('\u{a900}' <= c && c <= '\u{a909}') ||
        ('\u{a9d0}' <= c && c <= '\u{a9d9}') ||
        ('\u{a9f0}' <= c && c <= '\u{a9f9}') ||
        ('\u{aa50}' <= c && c <= '\u{aa59}') ||
        ('\u{abf0}' <= c && c <= '\u{abf9}') ||
        ('\u{ff10}' <= c && c <= '\u{ff19}') ||
        ('\u{104a0}' <= c && c <= '\u{104a9}') ||
        ('\u{10d30}' <= c && c <= '\u{10d39}') ||
        ('\u{10d40}' <= c && c <= '\u{10d49}') ||
        ('\u{11066}' <= c && c <= '\u{1106f}') ||
        ('\u{110f0}' <= c && c <= '\u{110f9}') ||
        ('\u{11136}' <= c && c <= '\u{1113f}') ||
        ('\u{111d0}' <= c && c <= '\u{111d9}') ||
        ('\u{112f0}' <= c && c <= '\u{112f9}') ||
        ('\u{11450}' <= c && c <= '\u{11459}') ||
        ('\u{114d0}' <= c && c <= '\u{114d9}') ||
        ('\u{11650}' <= c && c <= '\u{11659}') ||
        ('\u{116c0}' <= c && c <= '\u{116c9}') ||
        ('\u{116d0}' <= c && c <= '\u{116e3}') ||
        ('\u{11730}' <= c && c <= '\u{11739}') ||
        ('\u{118e0}' <= c && c <= '\u{118e9}') ||
        ('\u{11950}' <= c && c <= '\u{11959}') ||
        ('\u{11bf0}' <= c && c <= '\u{11bf9}') ||
        ('\u{11c50}' <= c && c <= '\u{11c59}') ||
        ('\u{11d50}' <= c && c <= '\u{11d59}') ||
        ('\u{11da0}' <= c && c <= '\u{11da9}') ||
        ('\u{11f50}' <= c && c <= '\u{11f59}') ||
        ('\u{16130}' <= c && c <= '\u{16139}') ||
        ('\u{16a60}' <= c && c <= '\u{16a69}') ||
        ('\u{16ac0}' <= c && c <= '\u{16ac9}') ||
        ('\u{16b50}' <= c && c <= '\u{16b59}') ||
        ('\u{16d70}' <= c && c <= '\u{16d79}') ||
        ('\u{1ccf0}' <= c && c <= '\u{1ccf9}') ||
        ('\u{1d7ce}' <= c && c <= '\u{1d7ff}') ||
        ('\u{1e140}' <= c && c <= '\u{1e149}') ||
        ('\u{1e2f0}' <= c && c <= '\u{1e2f9}') ||
        ('\u{1e4f0}' <= c && c <= '\u{1e4f9}') ||
        ('\u{1e5f1}' <= c && c <= '\u{1e5fa}') ||
        ('\u{1e950}' <= c && c <= '\u{1e959}') ||
        ('\u{1fbf0}' <= c && c <= '\u{1fbf9}')
}

pub open spec fn is_ascii_digit(c: char) -> bool {
    '0' <= c && c <= '9'
}

pub fn ascii_digit(c: char) -> (r: bool)
    ensures
        r == is_ascii_digit(c),
{
    '0' <= c && c <= '9'
}

pub open spec fn is_ascii_alnum(c: char) -> bool {
    is_ascii_digit(c) || ('a' <= c && c <= 'z') || ('A' <= c && c <= 'Z')
}

/// `char::to_ascii_lowercase`.
pub open spec fn lower_char(c: char) -> char {
    if 'A' <= c && c <= 'Z' {
        (((c as u8) + 32) as u8) as char
    } else {
        c
    }
}

pub fn to_lower_char(c: char) -> (r: char)
    ensures
        r == lower_char(c),
{
    if 'A' <= c && c <= 'Z' {
        ((c as u8) + 32) as char
    } else {
        c
    }
}

/// `str::to_ascii_lowercase`.
pub open spec fn lower(s: Seq<char>) -> Seq<char> {
    s.map_values(|c: char| lower_char(c))
}

/// Case-insensitive match of `c` against the lowercase pattern character
/// `p`, under Unicode simple case folding (`(?i)` in the grammar notation): a
/// letter matches its two ASCII cases, and `s` also matches U+017F.
pub open spec fn ci_eq(c: char, p: char) -> bool {
    c == p || (('a' <= p && p <= 'z') && lower_char(c) == p && 'A' <= c && c <= 'Z')
        || (p == 's' && c == '\u{17f}')
}

pub open spec fn ci_prefix_at(s: Seq<char>, i: int, p: Seq<char>) -> bool {
    0 <= i && i + p.len() <= s.len() && forall|k: int| 0 <= k < p.len() ==> ci_eq(#[trigger] s[i + k], p[k])
}

pub open spec fn all_ascii_digits(s: Seq<char>) -> bool {
    forall|k: int| 0 <= k < s.len() ==> is_ascii_digit(#[trigger] s[k])
}

pub open spec fn all_udigits(s: Seq<char>) -> bool {
    forall|k: int| 0 <= k < s.len() ==> is_udigit(#[trigger] s[k])
}

pub open spec fn no_ws(s: Seq<char>) -> bool {
    forall|k: int| 0 <= k < s.len() ==> !is_ws(#[trigger] s[k])
}

pub open spec fn has_ws(s: Seq<char>) -> bool {
    exists|k: int| 0 <= k < s.len() && is_ws(#[trigger] s[k])
}

/// `str::trim_start` (Unicode whitespace).
pub open spec fn trim_start(s: Seq<char>) -> Seq<char>
    decreases s.len(),
{
    if s.len() > 0 && is_ws(s[0]) {
        trim_start(s.drop_first())
    } else {
        s
    }
}

/// `str::trim_end` (Unicode whitespace).
pub open spec fn trim_end(s: Seq<char>) -> Seq<char>
    decreases s.len(),
{
    if s.len() > 0 && is_ws(s.last()) {
        trim_end(s.drop_last())
    } else {
        s
    }
}

/// `str::trim`.
pub open spec fn trim(s: Seq<char>) -> Seq<char> {
    trim_end(trim_start(s))
}

/// Index of the first `c` at or after `i`, or `s.len()` when there is none.
pub open spec fn index_from(s: Seq<char>, c: char, i: int) -> int
    decreases s.len() - i,
{
    if i < 0 || i >= s.len() {
        s.len() as int
    } else if s[i] == c {
        i
    } else {
        index_from(s, c, i + 1)
    }
}

pub proof fn lemma_index_from(s: Seq<char>, c: char, i: int)
    requires
        0 <= i,
    ensures
        i <= index_from(s, c, i) <= s.len() || (i > s.len() && index_from(s, c, i) == s.len()),
        index_from(s, c, i) < s.len() ==> s[index_from(s, c, i)] == c,
        forall|k: int| i <= k < index_from(s, c, i) ==> s[k] != c,
    decreases s.len() - i,
{
    if i < s.len() && s[i] != c {
        lemma_index_from(s, c, i + 1);
    }
}

/// `str::split(c)`: the pieces between occurrences of `c` (at least one).
pub open spec fn split(s: Seq<char>, c: char) -> Seq<Seq<char>>
    decreases s.len(),
{
    let i = index_from(s, c, 0);
    proof {
        lemma_index_from(s, c, 0);
    }
    if i >= s.len() {
        seq![s]
    } else {
        seq![s.subrange(0, i)] + split(s.subrange(i + 1, s.len() as int), c)
    }
}

/// `[..].join(sep)` over a list of pieces.
pub open spec fn join(parts: Seq<Seq<char>>, sep: Seq<char>) -> Seq<char>
    decreases parts.len(),
{
    if parts.len() == 0 {
        seq![]
    } else if parts.len() == 1 {
        parts[0]
    } else {
        join(parts.drop_last(), sep) + sep + parts.last()
    }
}

/// Numeric value of a string of ASCII digits.
pub open spec fn digits_value(s: Seq<char>) -> nat
    decreases s.len(),
{
    if s.len() == 0 {
        0
    } else {
        digits_value(s.drop_last()) * 10 + ((s.last() as u32) - 48) as nat
    }
}

/// Decimal rendering of a natural number (no leading zeros; `0` is `"0"`).
pub open spec fn dec(n: nat) -> Seq<char>
    decreases n,
{
    if n < 10 {
        seq![((n + 48) as u8) as char]
    } else {
        dec(n / 10).push((((n % 10) + 48) as u8) as char)
    }
}

pub proof fn lemma_index_from_sub(s: Seq<char>, c: char, a: int, k: int)
    requires
        0 <= a <= s.len(),
        0 <= k,
    ensures
        index_from(s.subrange(a, s.len() as int), c, k) + a == index_from(s, c, a + k),
    decreases s.len() - a - k,
{
    if a + k < s.len() && s[a + k] != c {
        lemma_index_from_sub(s, c, a, k + 1);
    }
}

/// The characters of a string slice.
pub fn to_chars(s: &str) -> (r: Vec<char>)
    ensures
        r@ == s@,
{
    let mut out: Vec<char> = Vec::new();
    for c in it: s.chars()
        invariant
            out@ == it.seq().take(it.index() as int),
            it.seq() == s@,
    {
        out.push(c);
    }
    out
}

/// `String` made of the given characters.
///
/// Calls std's `FromIterator<&char> for String`; the contract claims the
/// resulting string holds exactly those characters, in order.
#[verifier::external_body]
pub(crate) fn to_string(v: &Vec<char>) -> (r: String)
    ensures
        r@ == v@,
{
    v.iter().collect()
}

pub fn string_chars(s: &String) -> (r: Vec<char>)
    ensures
        r@ == s@,
{
    to_chars(s.as_str())
}

pub fn slice_chars(v: &Vec<char>, i: usize, j: usize) -> (r: Vec<char>)
    requires
        i <= j <= v.len(),
    ensures
        r@ == v@.subrange(i as int, j as int),
{
    let mut out: Vec<char> = Vec::new();
    let mut k: usize = i;
    while k < j
        invariant
            i <= k <= j <= v.len(),
            out@ == v@.subrange(i as int, k as int),
        decreases j - k,
    {
        out.push(v[k]);
        k += 1;
        assert(out@ =~= v@.subrange(i as int, k as int));
    }
    out
}

pub fn append(a: &mut Vec<char>, b: &Vec<char>)
    ensures
        final(a)@ == old(a)@ + b@,
{
    let mut k: usize = 0;
    let ghost a0 = a@;
    while k < b.len()
        invariant
            k <= b.len(),
            a@ == a0 + b@.subrange(0, k as int),
        decreases b.len() - k,
    {
        a.push(b[k]);
        k += 1;
        assert(a@ =~= a0 + b@.subrange(0, k as int));
    }
    assert(b@.subrange(0, b@.len() as int) =~= b@);
}

pub fn concat(a: &Vec<char>, b: &Vec<char>) -> (r: Vec<char>)
    ensures
        r@ == a@ + b@,
{
    let mut r = a.clone();
    assert(r@ == a@);
    append(&mut r, b);
    r
}

pub fn chars_eq(a: &Vec<char>, b: &Vec<char>) -> (r: bool)
    ensures
        r == (a@ == b@),
{
    if a.len() != b.len() {
        return false;
    }
    let mut k: usize = 0;
    while k < a.len()
        invariant
            k <= a.len() == b.len(),
            forall|m: int| 0 <= m < k ==> a@[m] == b@[m],
        decreases a.len() - k,
    {
        if a[k] != b[k] {
            return false;
        }
        k += 1;
    }
    assert(a@ =~= b@);
    true
}

pub proof fn lemma_trim_start_step(s: Seq<char>, i: int)
    requires
        0 <= i < s.len(),
        is_ws(s[i]),
    ensures
        trim_start(s.subrange(i, s.len() as int)) == trim_start(s.subrange(i + 1, s.len() as int)),
{
    assert(s.subrange(i, s.len() as int).drop_first() =~= s.subrange(i + 1, s.len() as int));
}

pub proof fn lemma_trim_end_step(s: Seq<char>, j: int)
    requires
        0 < j <= s.len(),
        is_ws(s[j - 1]),
    ensures
        trim_end(s.subrange(0, j)) == trim_end(s.subrange(0, j - 1)),
{
    assert(s.subrange(0, j).drop_last() =~= s.subrange(0, j - 1));
}

/// `str::trim` on a character vector.
pub fn trim_chars(v: &Vec<char>) -> (r: Vec<char>)
    ensures
        r@ == trim(v@),
{
    let mut i: usize = 0;
    assert(v@.subrange(0, v@.len() as int) =~= v@);
    while i < v.len() && ws(v[i])
        invariant
            i <= v.len(),
            trim_start(v@) == trim_start(v@.subrange(i as int, v@.len() as int)),
        decreases v.len() - i,
    {
        proof {
            lemma_trim_start_step(v@, i as int);
        }
        i += 1;
    }
    let ghost t = v@.subrange(i as int, v@.len() as int);
    assert(trim_start(v@) == t);
    let mut j: usize = v.len();
    assert(t.subrange(0, t.len() as int) =~= t);
    while j > i && ws(v[j - 1])
        invariant
            i <= j <= v.len(),
            t == v@.subrange(i as int, v@.len() as int),
            trim_end(t) == trim_end(t.subrange(0, j - i)),
        decreases j,
    {
        proof {
            lemma_trim_end_step(t, j - i);
        }
        j -= 1;
    }
    let r = slice_chars(v, i, j);
    assert(r@ =~= t.subrange(0, j - i));
    r
}

/// `str::trim_end` on a character vector.
pub fn trim_end_chars(v: &Vec<char>) -> (r: Vec<char>)
    ensures
        r@ == trim_end(v@),
{
    let mut j: usize = v.len();
    assert(v@.subrange(0, v@.len() as int) =~= v@);
    while j > 0 && ws(v[j - 1])
        invariant
            j <= v.len(),
            trim_end(v@) == trim_end(v@.subrange(0, j as int)),
        decreases j,
    {
        proof {
            lemma_trim_end_step(v@, j as int);
        }
        j -= 1;
    }
    slice_chars(v, 0, j)
}

/// Index of the first `c` at or after `from` (the length when there is none).
pub fn find_from(v: &Vec<char>, c: char, from: usize) -> (r: usize)
    ensures
        r == index_from(v@, c, from as int),
        from <= v.len() ==> from <= r <= v.len(),
        r < v.len() ==> v@[r as int] == c,
        forall|k: int| from <= k < r ==> v@[k] != c,
{
    proof {
        lemma_index_from(v@, c, from as int);
    }
    if from >= v.len() {
        return v.len();
    }
    let mut k: usize = from;
    while k < v.len() && v[k] != c
        invariant
            from <= k <= v.len(),
            index_from(v@, c, from as int) == index_from(v@, c, k as int),
        decreases v.len() - k,
    {
        k += 1;
    }
    k
}

pub open spec fn views(v: Seq<Vec<char>>) -> Seq<Seq<char>> {
    v.map_values(|x: Vec<char>| x@)
}

/// `str::split(c)` on a character vector.
pub fn split_chars(v: &Vec<char>, c: char) -> (r: Vec<Vec<char>>)
    ensures
        views(r@) == split(v@, c),
{
    let mut out: Vec<Vec<char>> = Vec::new();
    let mut start: usize = 0;
    assert(v@.subrange(0, v@.len() as int) =~= v@);
    loop
        invariant
            start <= v.len(),
            views(out@) + split(v@.subrange(start as int, v@.len() as int), c) == split(v@, c),
        decreases v.len() - start,
    {
        let ghost rest = v@.subrange(start as int, v@.len() as int);
        let i = find_from(v, c, start);
        proof {
            lemma_index_from_sub(v@, c, start as int, 0);
            lemma_index_from(rest, c, 0);
        }
        if i >= v.len() {
            let piece = slice_chars(v, start, v.len());
            let ghost old_out = views(out@);
            out.push(piece);
            assert(views(out@) =~= old_out + seq![piece@]);
            assert(split(rest, c) == seq![rest]);
            return out;
        }
        let piece = slice_chars(v, start, i);
        let ghost old_out = views(out@);
        out.push(piece);
        assert(views(out@) =~= old_out + seq![piece@]);
        assert(rest.subrange(0, i - start) =~= piece@);
        assert(rest.subrange(i - start + 1, rest.len() as int) =~= v@.subrange(i + 1, v@.len() as int));
        assert(split(rest, c) == seq![piece@] + split(v@.subrange(i + 1, v@.len() as int), c));
        start = i + 1;
    }
}

/// `pieces.join(sep)`.
pub fn join_chars(parts: &Vec<Vec<char>>, sep: &Vec<char>) -> (r: Vec<char>)
    ensures
        r@ == join(views(parts@), sep@),
{
    let mut out: Vec<char> = Vec::new();
    let mut k: usize = 0;
    while k < parts.len()
        invariant
            k <= parts.len(),
            out@ == join(views(parts@).take(k as int), sep@),
        decreases parts.len() - k,
    {
        let ghost prev = views(parts@).take(k as int);
        if k > 0 {
            append(&mut out, sep);
        }
        append(&mut out, &parts[k]);
        proof {
            let nxt = views(parts@).take(k + 1);
            assert(nxt.drop_last() =~= prev);
            if k == 0 {
                assert(out@ =~= nxt[0]);
            }
        }
        k += 1;
    }
    assert(views(parts@).take(parts.len() as int) =~= views(parts@));
    out
}

pub fn lower_chars(v: &Vec<char>) -> (r: Vec<char>)
    ensures
        r@ == lower(v@),
{
    let mut out: Vec<char> = Vec::new();
    let mut k: usize = 0;
    while k < v.len()
        invariant
            k <= v.len(),
            out@ =~= lower(v@.subrange(0, k as int)),
        decreases v.len() - k,
    {
        out.push(to_lower_char(v[k]));
        k += 1;
        assert(out@ =~= lower(v@.subrange(0, k as int)));
    }
    assert(v@.subrange(0, v@.len() as int) =~= v@);
    out
}

/// Decimal digits of `n`.
pub fn dec_chars(n: u64) -> (r: Vec<char>)
    ensures
        r@ == dec(n as nat),
    decreases n,
{
    if n < 10 {
        let d = ((n as u8) + 48) as char;
        let mut v: Vec<char> = Vec::new();
        v.push(d);
        assert(v@ =~= dec(n as nat));
        v
    } else {
        let mut v = dec_chars(n / 10);
        let d = (((n % 10) as u8) + 48) as char;
        v.push(d);
        v
    }
}

pub proof fn lemma_split_nonempty(s: Seq<char>, c: char)
    ensures
        split(s, c).len() >= 1,
    decreases s.len(),
{
    lemma_index_from(s, c, 0);
    let i = index_from(s, c, 0);
    if i < s.len() {
        lemma_split_nonempty(s.subrange(i + 1, s.len() as int), c);
    }
}

/// `str::parse::<uN>()` for a type whose largest value is `max`: an
/// optional `+`, then at least one ASCII digit, with no overflow.
pub open spec fn parse_uint(s: Seq<char>, max: nat) -> Option<nat> {
    let d = if s.len() > 0 && s[0] == '+' {
        s.drop_first()
    } else {
        s
    };
    if d.len() > 0 && all_ascii_digits(d) && digits_value(d) <= max {
        Some(digits_value(d))
    } else {
        None
    }
}

pub proof fn lemma_digits_value_prefix(s: Seq<char>, k: int)
    requires
        0 <= k <= s.len(),
        all_ascii_digits(s),
    ensures
        digits_value(s.subrange(0, k)) <= digits_value(s),
    decreases s.len(),
{
    if k < s.len() {
        let p = s.drop_last();
        assert(all_ascii_digits(p)) by {
            assert forall|m: int| 0 <= m < p.len() implies is_ascii_digit(#[trigger] p[m]) by {
                assert(p[m] == s[m]);
            }
        }
        lemma_digits_value_prefix(p, k);
        assert(p.subrange(0, k) =~= s.subrange(0, k));
    } else {
        assert(s.subrange(0, k) =~= s);
    }
}

/// `str::parse::<uN>()` where `max` is the type's largest value.
pub fn parse_uint_exec(s: &Vec<char>, max: u64) -> (r: Option<u64>)
    ensures
        match r {
            Some(v) => parse_uint(s@, max as nat) == Some(v as nat),
            None => parse_uint(s@, max as nat) is None,
        },
{
    let start: usize = if s.len() > 0 && s[0] == '+' {
        1
    } else {
        0
    };
    let ghost d = if s@.len() > 0 && s@[0] == '+' {
        s@.drop_first()
    } else {
        s@
    };
    assert(d =~= s@.subrange(start as int, s@.len() as int));
    if start >= s.len() {
        return None;
    }
    let mut acc: u64 = 0;
    let mut k: usize = start;
    assert(d.subrange(0, 0) =~= seq![]);
    while k < s.len()
        invariant
            start <= k <= s.len(),
            d =~= s@.subrange(start as int, s@.len() as int),
            d == (if s@.len() > 0 && s@[0] == '+' {
                s@.drop_first()
            } else {
                s@
            }),
            forall|m: int| start <= m < k ==> is_ascii_digit(#[trigger] s@[m]),
            acc as nat == digits_value(d.subrange(0, k - start)),
            acc <= max,
        decreases s.len() - k,
    {
        let c = s[k];
        if !ascii_digit(c) {
            assert(!is_ascii_digit(d[k - start]));
            assert(!all_ascii_digits(d));
            return None;
        }
        let dv: u64 = ((c as u32) - 48) as u64;
        let ghost pre = d.subrange(0, k - start);
        let ghost nxt = d.subrange(0, k - start + 1);
        assert(nxt.drop_last() =~= pre);
        assert(nxt.last() == c);
        let big: u128 = (acc as u128) * 10 + (dv as u128);
        if big > (max as u128) {
            proof {
                if all_ascii_digits(d) {
                    lemma_digits_value_prefix(d, k - start + 1);
                    assert(digits_value(nxt) == digits_value(pre) * 10 + dv);
                    assert(digits_value(d) > max);
                }
            }
            return None;
        }
        acc = big as u64;
        k += 1;
    }
    assert(d.subrange(0, (s.len() - start) as int) =~= d);
    Some(acc)
}

pub open spec fn ends_with(s: Seq<char>, suffix: Seq<char>) -> bool {
    s.len() >= suffix.len() && s.subrange(s.len() - suffix.len(), s.len() as int) == suffix
}

pub fn ends_with_exec(s: &Vec<char>, suffix: &Vec<char>) -> (r: bool)
    ensures
        r == ends_with(s@, suffix@),
{
    if s.len() < suffix.len() {
        return false;
    }
    chars_eq(&slice_chars(s, s.len() - suffix.len(), s.len()), suffix)
}


/// The text before the first `c` (all of it when `c` does not occur):
/// the left side of `str::split_once(c)`, or the whole text.
pub open spec fn before_char(s: Seq<char>, c: char) -> Seq<char> {
    s.subrange(0, index_from(s, c, 0))
}

pub fn before_char_exec(v: &Vec<char>, c: char) -> (r: Vec<char>)
    ensures
        r@ == before_char(v@, c),
{
    let i = find_from(v, c, 0);
    slice_chars(v, 0, i)
}

/// The pieces that are not empty, in order.
pub open spec fn nonempty_parts(ps: Seq<Seq<char>>) -> Seq<Seq<char>>
    decreases ps.len(),
{
    if ps.len() == 0 {
        seq![]
    } else if ps.last().len() == 0 {
        nonempty_parts(ps.drop_last())
    } else {
        nonempty_parts(ps.drop_last()).push(ps.last())
    }
}

pub fn nonempty_parts_exec(ps: &Vec<Vec<char>>) -> (r: Vec<Vec<char>>)
    ensures
        views(r@) == nonempty_parts(views(ps@)),
{
    let mut out: Vec<Vec<char>> = Vec::new();
    let mut k: usize = 0;
    while k < ps.len()
        invariant
            k <= ps.len(),
            views(out@) == nonempty_parts(views(ps@).take(k as int)),
        decreases ps.len() - k,
    {
        let ghost nxt = views(ps@).take(k + 1);
        assert(nxt.drop_last() =~= views(ps@).take(k as int));
        assert(nxt.last() == ps@[k as int]@);
        if ps[k].len() > 0 {
            let ghost before = views(out@);
            out.push(ps[k].clone());
            assert(views(out@) =~= before.push(ps@[k as int]@));
        }
        k += 1;
    }
    assert(views(ps@).take(ps.len() as int) =~= views(ps@));
    out
}

/// Each piece trimmed.
pub open spec fn trimmed(ps: Seq<Seq<char>>) -> Seq<Seq<char>> {
    ps.map_values(|p: Seq<char>| trim(p))
}

pub fn trimmed_exec(ps: &Vec<Vec<char>>) -> (r: Vec<Vec<char>>)
    ensures
        views(r@) == trimmed(views(ps@)),
{
    let mut out: Vec<Vec<char>> = Vec::new();
    let mut k: usize = 0;
    while k < ps.len()
        invariant
            k <= ps.len(),
            views(out@) =~= trimmed(views(ps@)).take(k as int),
        decreases ps.len() - k,
    {
        let ghost before = views(out@);
        out.push(trim_chars(&ps[k]));
        assert(views(out@) =~= before.push(trim(ps@[k as int]@)));
        k += 1;
    }
    assert(trimmed(views(ps@)).take(ps.len() as int) =~= trimmed(views(ps@)));
    out
}

/// Pad a list of pieces with `fill` up to four pieces.
pub open spec fn pad_to_four(segs: Seq<Seq<char>>, fill: Seq<char>) -> Seq<Seq<char>> {
    if segs.len() >= 4 {
        segs
    } else {
        segs + Seq::new((4 - segs.len()) as nat, |_i: int| fill)
    }
}

pub fn pad_to_four_exec(segs: &mut Vec<Vec<char>>, fill: &Vec<char>)
    ensures
        views(final(segs)@) == pad_to_four(views(old(segs)@), fill@),
{
    let ghost start = views(segs@);
    while segs.len() < 4
        invariant
            start.len() <= segs.len() <= 4 || (start.len() >= 4 && segs.len() == start.len()),
            views(segs@) =~= start + Seq::new((segs.len() - start.len()) as nat, |_i: int| fill@),
        decreases 4 - segs.len(),
    {
        let ghost old_v = views(segs@);
        let f = fill.clone();
        segs.push(f);
        assert(views(segs@) =~= old_v.push(fill@));
    }
    assert(views(segs@) =~= pad_to_four(start, fill@));
}

// What `format!("{:?}", s)` renders for a string with characters `s`.
pub uninterp spec fn debug_text(s: Seq<char>) -> Seq<char>;

/// `format!("{:?}", s)`: std's `Debug` rendering of a `str` (the text in
/// double quotes with quotes, backslashes and unprintable characters
/// escaped). The contract states only that the rendering depends on the
/// string's characters alone; the escaping rules are left unstated.
#[verifier::external_body]
pub(crate) fn debug_quoted(s: &String) -> (r: String)
    ensures
        r@ == debug_text(s@),
{
    format!("{:?}", s)
}

// ---- trimming and splitting, by index ---------------------------------------------

/// How many leading characters `trim_start` drops.
pub open spec fn ws_prefix_len(y: Seq<char>) -> int
    decreases y.len(),
{
    if y.len() > 0 && is_ws(y[0]) {
        1 + ws_prefix_len(y.drop_first())
    } else {
        0
    }
}

/// How many characters `trim_end` keeps.
pub open spec fn trim_end_len(y: Seq<char>) -> int
    decreases y.len(),
{
    if y.len() > 0 && is_ws(y.last()) {
        trim_end_len(y.drop_last())
    } else {
        y.len() as int
    }
}

pub proof fn lemma_ws_prefix_len(y: Seq<char>)
    ensures
        0 <= ws_prefix_len(y) <= y.len(),
        trim_start(y) == y.subrange(ws_prefix_len(y), y.len() as int),
        forall|m: int| 0 <= m < ws_prefix_len(y) ==> is_ws(#[trigger] y[m]),
        ws_prefix_len(y) < y.len() ==> !is_ws(y[ws_prefix_len(y)]),
    decreases y.len(),
{
    if y.len() > 0 && is_ws(y[0]) {
        let d = y.drop_first();
        lemma_ws_prefix_len(d);
        assert forall|m: int| 0 <= m < ws_prefix_len(y) implies is_ws(#[trigger] y[m]) by {
            if m > 0 {
                assert(y[m] == d[m - 1]);
            }
        }
        assert(d.subrange(ws_prefix_len(d), d.len() as int) =~= y.subrange(ws_prefix_len(y), y.len() as int));
    } else {
        assert(y.subrange(0, y.len() as int) =~= y);
    }
}

pub proof fn lemma_ws_prefix_len_unique(y: Seq<char>, k: int)
    requires
        0 <= k <= y.len(),
        forall|m: int| 0 <= m < k ==> is_ws(#[trigger] y[m]),
        k < y.len() ==> !is_ws(y[k]),
    ensures
        ws_prefix_len(y) == k,
{
    lemma_ws_prefix_len(y);
    let t = ws_prefix_len(y);
    if t < k {
        assert(is_ws(y[t]));
    } else if t > k {
        assert(is_ws(y[k]));
    }
}

pub proof fn lemma_trim_end_len(y: Seq<char>)
    ensures
        0 <= trim_end_len(y) <= y.len(),
        trim_end(y) == y.subrange(0, trim_end_len(y)),
        forall|m: int| trim_end_len(y) <= m < y.len() ==> is_ws(#[trigger] y[m]),
        trim_end_len(y) > 0 ==> !is_ws(y[trim_end_len(y) - 1]),
    decreases y.len(),
{
    if y.len() > 0 && is_ws(y.last()) {
        let d = y.drop_last();
        lemma_trim_end_len(d);
        assert forall|m: int| trim_end_len(y) <= m < y.len() implies is_ws(#[trigger] y[m]) by {
            if m < y.len() - 1 {
                assert(y[m] == d[m]);
            }
        }
        assert(d.subrange(0, trim_end_len(d)) =~= y.subrange(0, trim_end_len(y)));
        if trim_end_len(y) > 0 {
            assert(y[trim_end_len(y) - 1] == d[trim_end_len(d) - 1]);
        }
    } else {
        assert(y.subrange(0, y.len() as int) =~= y);
    }
}

pub proof fn lemma_trim_end_len_unique(y: Seq<char>, k: int)
    requires
        0 <= k <= y.len(),
        forall|m: int| k <= m < y.len() ==> is_ws(#[trigger] y[m]),
        k > 0 ==> !is_ws(y[k - 1]),
    ensures
        trim_end_len(y) == k,
{
    lemma_trim_end_len(y);
    let t = trim_end_len(y);
    if t < k {
        assert(is_ws(y[k - 1]));
    } else if t > k {
        assert(is_ws(y[t - 1]));
    }
}

/// Trimming a text with a non-blank character keeps a non-blank text.
pub proof fn lemma_trim_nonempty(x: Seq<char>)
    ensures
        trim(x).len() > 0 <==> exists|m: int| 0 <= m < x.len() && !is_ws(#[trigger] x[m]),
{
    lemma_ws_prefix_len(x);
    let s = ws_prefix_len(x);
    let ts = trim_start(x);
    lemma_trim_end_len(ts);
    if exists|m: int| 0 <= m < x.len() && !is_ws(#[trigger] x[m]) {
        let m = choose|m: int| 0 <= m < x.len() && !is_ws(#[trigger] x[m]);
        assert(s <= m);
        assert(ts[0] == x[s]);
        assert(trim_end_len(ts) > 0);
    } else {
        if s < x.len() {
            assert(!is_ws(x[s]));
        }
        assert(ts.len() == 0);
    }
}

/// `trim_start` and `trim_end` commute.
pub proof fn lemma_trim_commute(y: Seq<char>)
    ensures
        trim_start(trim_end(y)) == trim_end(trim_start(y)),
{
    lemma_ws_prefix_len(y);
    lemma_trim_end_len(y);
    let s = ws_prefix_len(y);
    let e = trim_end_len(y);
    let te = trim_end(y);
    let ts = trim_start(y);
    lemma_ws_prefix_len(te);
    lemma_trim_end_len(ts);
    if s < e {
        assert forall|m: int| 0 <= m < s implies is_ws(#[trigger] te[m]) by {
            assert(te[m] == y[m]);
        }
        assert(te[s] == y[s]);
        lemma_ws_prefix_len_unique(te, s);
        assert forall|m: int| e - s <= m < ts.len() implies is_ws(#[trigger] ts[m]) by {
            assert(ts[m] == y[m + s]);
        }
        assert(ts[e - s - 1] == y[e - 1]);
        lemma_trim_end_len_unique(ts, e - s);
        assert(te.subrange(s, te.len() as int) =~= ts.subrange(0, e - s));
    } else {
        if e > 0 {
            assert(!is_ws(y[e - 1]));
            assert(false);
        }
        if s < y.len() {
            assert(!is_ws(y[s]));
            assert(is_ws(y[s]));
        }
        assert(te.len() == 0);
        assert(ts.len() == 0);
        lemma_ws_prefix_len_unique(te, 0);
        lemma_trim_end_len_unique(ts, 0);
        assert(te.subrange(0, 0) =~= ts.subrange(0, 0));
    }
}

/// Trimming twice trims once.
pub proof fn lemma_trim_idempotent(y: Seq<char>)
    ensures
        trim(trim(y)) == trim(y),
        trim_end(trim_end(y)) == trim_end(y),
{
    let t = trim(y);
    lemma_ws_prefix_len(y);
    let ts = trim_start(y);
    lemma_trim_end_len(ts);
    lemma_trim_end_len(y);
    let te = trim_end(y);
    lemma_trim_end_len(te);
    lemma_trim_end_len_unique(te, te.len() as int);
    assert(te.subrange(0, te.len() as int) =~= te);
    if t.len() > 0 {
        assert(ts[0] == y[ws_prefix_len(y)]);
        assert(t[0] == ts[0]);
        assert(!is_ws(t[0]));
        lemma_ws_prefix_len_unique(t, 0);
        lemma_ws_prefix_len(t);
        assert(t.subrange(0, t.len() as int) =~= t);
        assert(t[t.len() - 1] == ts[trim_end_len(ts) - 1]);
        lemma_trim_end_len_unique(t, t.len() as int);
        lemma_trim_end_len(t);
    } else {
        lemma_ws_prefix_len(t);
        lemma_trim_end_len(t);
    }
}

/// `trim_start` of a text whose first part holds a non-blank character.
pub proof fn lemma_trim_start_concat(x: Seq<char>, y: Seq<char>)
    requires
        exists|m: int| 0 <= m < x.len() && !is_ws(#[trigger] x[m]),
    ensures
        trim_start(x + y) == trim_start(x) + y,
{
    lemma_ws_prefix_len(x);
    let s = ws_prefix_len(x);
    let m = choose|m: int| 0 <= m < x.len() && !is_ws(#[trigger] x[m]);
    assert(s <= m);
    assert forall|k: int| 0 <= k < s implies is_ws(#[trigger] (x + y)[k]) by {
        assert((x + y)[k] == x[k]);
    }
    assert((x + y)[s] == x[s]);
    lemma_ws_prefix_len_unique(x + y, s);
    lemma_ws_prefix_len(x + y);
    assert((x + y).subrange(s, (x + y).len() as int) =~= x.subrange(s, x.len() as int) + y);
}

/// `trim_end` of a text whose last part holds a non-blank character.
pub proof fn lemma_trim_end_concat(x: Seq<char>, y: Seq<char>)
    requires
        exists|m: int| 0 <= m < y.len() && !is_ws(#[trigger] y[m]),
    ensures
        trim_end(x + y) == x + trim_end(y),
{
    lemma_trim_end_len(y);
    let e = trim_end_len(y);
    let m = choose|m: int| 0 <= m < y.len() && !is_ws(#[trigger] y[m]);
    assert(m < e);
    let z = x + y;
    assert forall|k: int| x.len() + e <= k < z.len() implies is_ws(#[trigger] z[k]) by {
        assert(z[k] == y[k - x.len()]);
    }
    assert(z[x.len() + e - 1] == y[e - 1]);
    lemma_trim_end_len_unique(z, x.len() + e);
    lemma_trim_end_len(z);
    assert(z.subrange(0, x.len() + e) =~= x + y.subrange(0, e));
}

/// A trailing blank does not change what `trim` gives.
pub proof fn lemma_trim_drops_trailing_blank(x: Seq<char>, c: char)
    requires
        is_ws(c),
    ensures
        trim_end(x.push(c)) == trim_end(x),
{
    assert(x.push(c).drop_last() =~= x);
}

/// Splitting a text without the separator gives the text itself.
pub proof fn lemma_split_none(x: Seq<char>, c: char)
    requires
        !x.contains(c),
    ensures
        split(x, c) == seq![x],
{
    lemma_index_from(x, c, 0);
}

/// Splitting `x c y`, with no `c` in `x`, gives `x` then the pieces of `y`.
pub proof fn lemma_split_cons(x: Seq<char>, c: char, y: Seq<char>)
    requires
        !x.contains(c),
    ensures
        split(x + seq![c] + y, c) == seq![x] + split(y, c),
{
    let z = x + seq![c] + y;
    lemma_index_from(z, c, 0);
    let i = index_from(z, c, 0);
    assert(z[x.len() as int] == c);
    if i < x.len() {
        assert(z[i] == x[i]);
    }
    assert(i == x.len());
    assert(z.subrange(0, i) =~= x);
    assert(z.subrange(i + 1, z.len() as int) =~= y);
}

/// Trimming adds no character: what a text lacks, its trimmed forms lack.
pub proof fn lemma_trim_lacks(x: Seq<char>, c: char)
    requires
        !x.contains(c),
    ensures
        !trim_start(x).contains(c),
        !trim_end(x).contains(c),
        !trim(x).contains(c),
{
    lemma_ws_prefix_len(x);
    lemma_trim_end_len(x);
    let ts = trim_start(x);
    lemma_trim_end_len(ts);
    let p = ws_prefix_len(x);
    let te = trim_end(x);
    let t = trim(x);
    assert forall|i: int| 0 <= i < ts.len() implies ts[i] != c by {
        assert(ts[i] == x[i + p]);
    }
    assert forall|i: int| 0 <= i < te.len() implies te[i] != c by {
        assert(te[i] == x[i]);
    }
    assert forall|i: int| 0 <= i < t.len() implies t[i] != c by {
        assert(t[i] == ts[i]);
    }
}

} // verus!
