//! Reading JSON text (RFC 8259) into the JSON model: whitespace, the
//! literals, numbers, strings with their escapes (surrogate pairs joined,
//! lone surrogates refused), arrays and objects. Integers read as
//! `Json::Integer`; a number with a fraction or an exponent reads as
//! `Json::Float` of its text.
//!
//! The encoder's output is the UTF-8 encoding of such a text, and reading
//! that text gives back the value encoded, for values without floats
//! (`law_encoding_reads_back`).

use vstd::prelude::*;
use vstd::seq_lib::lemma_concat_associative;
use crate::json::Json;
use crate::php_json::{
    ascii_bytes, ascii_chars, close, colon, enc, enc_entries, enc_items, escape_char, escape_str,
    int_text, lead, lemma_ascii_concat, lemma_ascii_utf8, lemma_escape_char_ascii,
    lemma_u_escape_ascii, lemma_utf8_str_concat, quoted, spaces, utf8, utf8_str, Mode, hex, u_escape,
};
use crate::text::{dec, digits_value, is_ascii_digit};

verus! {

/// JSON's insignificant whitespace: space, tab, line feed, carriage return.
pub open spec fn json_ws(c: char) -> bool {
    c == ' ' || c == '\t' || c == '\n' || c == '\r'
}

/// The text after its leading whitespace.
pub open spec fn skip_ws(t: Seq<char>) -> Seq<char>
    decreases t.len(),
{
    if t.len() > 0 && json_ws(t[0]) {
        skip_ws(t.drop_first())
    } else {
        t
    }
}

pub proof fn lemma_skip_ws_len(t: Seq<char>)
    ensures
        skip_ws(t).len() <= t.len(),
    decreases t.len(),
{
    if t.len() > 0 && json_ws(t[0]) {
        lemma_skip_ws_len(t.drop_first());
    }
}

/// The value of a hexadecimal digit, either case.
pub open spec fn hex_value(c: char) -> Option<nat> {
    if '0' <= c && c <= '9' {
        Some((c as nat - 48) as nat)
    } else if 'a' <= c && c <= 'f' {
        Some((c as nat - 87) as nat)
    } else if 'A' <= c && c <= 'F' {
        Some((c as nat - 55) as nat)
    } else {
        None
    }
}

/// The value of the four hexadecimal digits at `i`.
pub open spec fn hex4(t: Seq<char>, i: int) -> Option<nat> {
    if 0 <= i && i + 4 <= t.len() {
        match (hex_value(t[i]), hex_value(t[i + 1]), hex_value(t[i + 2]), hex_value(t[i + 3])) {
            (Some(a), Some(b), Some(c), Some(d)) => Some(a * 4096 + b * 256 + c * 16 + d),
            _ => None,
        }
    } else {
        None
    }
}

/// The character with code point `n`.
pub open spec fn char_of(n: nat) -> char {
    n as char
}

pub proof fn lemma_char_of(c: char)
    ensures
        char_of(c as nat) == c,
{
}

/// The character a one-letter escape `\e` stands for.
pub open spec fn short_escape(e: char) -> Option<char> {
    if e == '"' || e == '\\' || e == '/' {
        Some(e)
    } else if e == 'b' {
        Some('\u{8}')
    } else if e == 'f' {
        Some('\u{c}')
    } else if e == 'n' {
        Some('\n')
    } else if e == 'r' {
        Some('\r')
    } else if e == 't' {
        Some('\t')
    } else {
        None
    }
}

/// The rest of a string after its opening quote: its characters, appended
/// to `acc`, and the text after its closing quote.
pub open spec fn read_string(t: Seq<char>, acc: Seq<char>) -> Option<(Seq<char>, Seq<char>)>
    decreases t.len(),
{
    if t.len() == 0 {
        None
    } else if t[0] == '"' {
        Some((acc, t.drop_first()))
    } else if t[0] == '\\' {
        if t.len() < 2 {
            None
        } else if short_escape(t[1]) is Some {
            read_string(t.subrange(2, t.len() as int), acc.push(short_escape(t[1])->0))
        } else if t[1] == 'u' && hex4(t, 2) is Some {
            let h = hex4(t, 2)->0;
            if 0xD800 <= h && h < 0xDC00 {
                if t.len() >= 12 && t[6] == '\\' && t[7] == 'u' && hex4(t, 8) is Some && 0xDC00
                    <= hex4(t, 8)->0 && hex4(t, 8)->0 < 0xE000 {
                    let l = hex4(t, 8)->0;
                    read_string(
                        t.subrange(12, t.len() as int),
                        acc.push(char_of((0x10000 + (h - 0xD800) * 1024 + (l - 0xDC00)) as nat)),
                    )
                } else {
                    None
                }
            } else if 0xDC00 <= h && h < 0xE000 {
                None
            } else {
                read_string(t.subrange(6, t.len() as int), acc.push(char_of(h)))
            }
        } else {
            None
        }
    } else if (t[0] as nat) < 0x20 {
        None
    } else {
        read_string(t.drop_first(), acc.push(t[0]))
    }
}

/// Where the run of ASCII digits from `i` ends.
pub open spec fn digits_end(t: Seq<char>, i: int) -> int
    decreases t.len() - i,
{
    if 0 <= i < t.len() && is_ascii_digit(t[i]) {
        digits_end(t, i + 1)
    } else {
        i
    }
}

/// Where a number's fraction and exponent, from `i`, end; `None` when one
/// is begun and has no digit.
pub open spec fn number_tail_end(t: Seq<char>, i: int) -> Option<int> {
    let f = if i < t.len() && t[i] == '.' {
        let e = digits_end(t, i + 1);
        if e == i + 1 {
            -1
        } else {
            e
        }
    } else {
        i
    };
    if f < 0 {
        None
    } else if f < t.len() && (t[f] == 'e' || t[f] == 'E') {
        let s = if f + 1 < t.len() && (t[f + 1] == '+' || t[f + 1] == '-') {
            f + 2
        } else {
            f + 1
        };
        let e = digits_end(t, s);
        if e == s {
            None
        } else {
            Some(e)
        }
    } else {
        Some(f)
    }
}

/// A number at the start of `t`: `-`, then `0` or digits not starting
/// with `0`, then an optional fraction and exponent.
pub open spec fn read_number(t: Seq<char>) -> Option<(Json, Seq<char>)> {
    let i = if t.len() > 0 && t[0] == '-' {
        1int
    } else {
        0int
    };
    let e = digits_end(t, i);
    if e == i || (t[i] == '0' && e > i + 1) {
        None
    } else {
        match number_tail_end(t, e) {
            None => None,
            Some(f) => if f == e {
                let v = digits_value(t.subrange(i, e));
                Some((Json::Integer(if i == 1 { -(v as int) } else { v as int }), t.subrange(e, t.len() as int)))
            } else {
                Some((Json::Float(t.subrange(0, f)), t.subrange(f, t.len() as int)))
            },
        }
    }
}

/// A value at the start of `t` (after whitespace), and the text after it.
pub open spec fn read_value(t: Seq<char>) -> Option<(Json, Seq<char>)>
    decreases t.len(), 0int,
{
    let u = skip_ws(t);
    proof {
        lemma_skip_ws_len(t);
    }
    if u.len() == 0 {
        None
    } else if u[0] == 'n' || u[0] == 't' || u[0] == 'f' {
        if u.len() >= 4 && u.subrange(0, 4) == seq!['n', 'u', 'l', 'l'] {
            Some((Json::Null, u.subrange(4, u.len() as int)))
        } else if u.len() >= 4 && u.subrange(0, 4) == seq!['t', 'r', 'u', 'e'] {
            Some((Json::Bool(true), u.subrange(4, u.len() as int)))
        } else if u.len() >= 5 && u.subrange(0, 5) == seq!['f', 'a', 'l', 's', 'e'] {
            Some((Json::Bool(false), u.subrange(5, u.len() as int)))
        } else {
            None
        }
    } else if u[0] == '"' {
        match read_string(u.drop_first(), seq![]) {
            Some((s, r)) => Some((Json::Str(s), r)),
            None => None,
        }
    } else if u[0] == '[' {
        let w = skip_ws(u.drop_first());
        proof {
            lemma_skip_ws_len(u.drop_first());
        }
        if w.len() > 0 && w[0] == ']' {
            Some((Json::Array(seq![]), w.drop_first()))
        } else {
            read_elements(u.drop_first(), seq![])
        }
    } else if u[0] == '{' {
        let w = skip_ws(u.drop_first());
        proof {
            lemma_skip_ws_len(u.drop_first());
        }
        if w.len() > 0 && w[0] == '}' {
            Some((Json::Object(seq![]), w.drop_first()))
        } else {
            read_members(u.drop_first(), seq![])
        }
    } else {
        read_number(u)
    }
}

/// The elements of an array after its `[`, appended to `acc`, up to and
/// including its `]`.
pub open spec fn read_elements(t: Seq<char>, acc: Seq<Json>) -> Option<(Json, Seq<char>)>
    decreases t.len(), 1int,
{
    match read_value(t) {
        None => None,
        Some((v, r)) => if r.len() <= t.len() {
            let w = skip_ws(r);
            proof {
                lemma_skip_ws_len(r);
            }
            if w.len() > 0 && w[0] == ',' {
                read_elements(w.drop_first(), acc.push(v))
            } else if w.len() > 0 && w[0] == ']' {
                Some((Json::Array(acc.push(v)), w.drop_first()))
            } else {
                None
            }
        } else {
            None
        },
    }
}

/// The members of an object after its `{`, appended to `acc`, up to and
/// including its `}`.
pub open spec fn read_members(t: Seq<char>, acc: Seq<(Seq<char>, Json)>) -> Option<(Json, Seq<char>)>
    decreases t.len(), 1int,
{
    let u = skip_ws(t);
    proof {
        lemma_skip_ws_len(t);
    }
    if u.len() > 0 && u[0] == '"' {
        match read_string(u.drop_first(), seq![]) {
            None => None,
            Some((k, r1)) => if r1.len() < t.len() {
                let w = skip_ws(r1);
                proof {
                    lemma_skip_ws_len(r1);
                }
                if w.len() > 0 && w[0] == ':' {
                    match read_value(w.drop_first()) {
                        None => None,
                        Some((v, r2)) => if r2.len() < t.len() {
                            let x = skip_ws(r2);
                            proof {
                                lemma_skip_ws_len(r2);
                            }
                            if x.len() > 0 && x[0] == ',' {
                                read_members(x.drop_first(), acc.push((k, v)))
                            } else if x.len() > 0 && x[0] == '}' {
                                Some((Json::Object(acc.push((k, v))), x.drop_first()))
                            } else {
                                None
                            }
                        } else {
                            None
                        },
                    }
                } else {
                    None
                }
            } else {
                None
            },
        }
    } else {
        None
    }
}

/// Reading a whole JSON text: one value with only whitespace around it.
pub open spec fn read_json(t: Seq<char>) -> Option<Json> {
    match read_value(t) {
        Some((v, r)) => if skip_ws(r).len() == 0 {
            Some(v)
        } else {
            None
        },
        None => None,
    }
}

// ---- the encoder's output as text ---------------------------------------------------

/// How one character of a string is written, as characters: the
/// character itself where the output carries it as raw UTF-8, else the
/// ASCII escape.
pub open spec fn escape_text(c: char, mode: Mode) -> Seq<char> {
    let cp = c as nat;
    if mode == Mode::Pretty && cp >= 0x80 && cp != 0x2028 && cp != 0x2029 {
        seq![c]
    } else {
        ascii_chars(escape_char(c, mode))
    }
}

/// The characters of a string, each written as `escape_text` writes it.
pub open spec fn str_text(s: Seq<char>, mode: Mode) -> Seq<char>
    decreases s.len(),
{
    if s.len() == 0 {
        seq![]
    } else {
        escape_text(s[0], mode) + str_text(s.drop_first(), mode)
    }
}

pub open spec fn quoted_text(s: Seq<char>, mode: Mode) -> Seq<char> {
    seq!['"'] + str_text(s, mode) + seq!['"']
}

/// The text of a value nested `depth` levels deep.
pub open spec fn enc_text(j: Json, mode: Mode, depth: nat) -> Seq<char>
    decreases j, 0int,
{
    match j {
        Json::Integer(i) => int_text(i),
        Json::Float(t) => t,
        Json::Str(s) => quoted_text(s, mode),
        Json::Array(items) => if items.len() == 0 {
            seq!['[', ']']
        } else {
            seq!['['] + items_text(items, 0, mode, depth) + ascii_chars(close(mode, depth)) + seq![']']
        },
        Json::Object(es) => if es.len() == 0 {
            seq!['{', '}']
        } else {
            seq!['{'] + entries_text(es, 0, mode, depth) + ascii_chars(close(mode, depth)) + seq!['}']
        },
        _ => ascii_chars(enc(j, mode, depth)),
    }
}

/// The members of an array from the `k`-th on, each with what goes before it.
pub open spec fn items_text(items: Seq<Json>, k: int, mode: Mode, depth: nat) -> Seq<char>
    decreases items, items.len() - k,
{
    if 0 <= k < items.len() {
        ascii_chars(lead(k, mode, depth)) + enc_text(items[k], mode, depth + 1) + items_text(
            items,
            k + 1,
            mode,
            depth,
        )
    } else {
        seq![]
    }
}

/// The entries of an object from the `k`-th on.
pub open spec fn entries_text(es: Seq<(Seq<char>, Json)>, k: int, mode: Mode, depth: nat) -> Seq<char>
    decreases es, es.len() - k,
{
    if 0 <= k < es.len() {
        proof {
            assert(decreases_to!(es => es[k]));
        }
        ascii_chars(lead(k, mode, depth)) + quoted_text(es[k].0, mode) + ascii_chars(colon(mode))
            + enc_text(es[k].1, mode, depth + 1) + entries_text(es, k + 1, mode, depth)
    } else {
        seq![]
    }
}

// ---- the text is what the encoder writes, in UTF-8 ------------------------------------

proof fn lemma_utf8_one(c: char)
    ensures
        utf8_str(seq![c]) == utf8(c),
{
    let one = seq![c];
    let none: Seq<char> = seq![];
    assert(one.drop_last() =~= none);
    assert(utf8_str(none) == Seq::<u8>::empty());
    assert(utf8_str(one) =~= utf8(c));
}

proof fn lemma_escape_text_utf8(c: char, mode: Mode)
    ensures
        utf8_str(escape_text(c, mode)) == escape_char(c, mode),
{
    let cp = c as nat;
    if mode == Mode::Pretty && cp >= 0x80 && cp != 0x2028 && cp != 0x2029 {
        lemma_utf8_one(c);
    } else {
        if mode == Mode::Hash {
            lemma_escape_char_ascii(c);
        } else {
            lemma_u_escape_ascii(cp);
            assert(ascii_bytes(escape_char(c, mode)));
        }
        lemma_ascii_utf8(escape_char(c, mode));
    }
}

proof fn lemma_str_text_utf8(p: Seq<char>, s: Seq<char>, mode: Mode)
    ensures
        escape_str(p, mode) + utf8_str(str_text(s, mode)) == escape_str(p + s, mode),
    decreases s.len(),
{
    if s.len() == 0 {
        assert(p + s =~= p);
        assert(utf8_str(str_text(s, mode)) =~= Seq::<u8>::empty());
        assert(escape_str(p, mode) + Seq::<u8>::empty() =~= escape_str(p, mode));
    } else {
        let p2 = p.push(s[0]);
        assert(p2.drop_last() =~= p);
        assert(p2 + s.drop_first() =~= p + s);
        lemma_str_text_utf8(p2, s.drop_first(), mode);
        lemma_escape_text_utf8(s[0], mode);
        lemma_utf8_str_concat(escape_text(s[0], mode), str_text(s.drop_first(), mode));
        assert(escape_str(p2, mode) == escape_str(p, mode) + escape_char(s[0], mode));
        assert(escape_str(p, mode) + utf8_str(str_text(s, mode)) =~= escape_str(p2, mode) + utf8_str(
            str_text(s.drop_first(), mode),
        ));
    }
}

proof fn lemma_ascii_piece_utf8(b: Seq<u8>)
    requires
        ascii_bytes(b),
    ensures
        utf8_str(ascii_chars(b)) == b,
{
    lemma_ascii_utf8(b);
}

proof fn lemma_quoted_text_utf8(s: Seq<char>, mode: Mode)
    ensures
        utf8_str(quoted_text(s, mode)) == quoted(s, mode),
{
    let none: Seq<char> = seq![];
    lemma_str_text_utf8(none, s, mode);
    assert(none + s =~= s);
    assert(escape_str(none, mode) =~= Seq::<u8>::empty());
    assert(Seq::<u8>::empty() + utf8_str(str_text(s, mode)) =~= utf8_str(str_text(s, mode)));
    lemma_utf8_one('"');
    lemma_utf8_str_concat(seq!['"'], str_text(s, mode));
    lemma_utf8_str_concat(seq!['"'] + str_text(s, mode), seq!['"']);
    assert(utf8('"') =~= seq![34u8]);
}

proof fn lemma_layout_ascii(i: int, mode: Mode, depth: nat)
    ensures
        ascii_bytes(lead(i, mode, depth)),
        ascii_bytes(close(mode, depth)),
        ascii_bytes(colon(mode)),
{
    assert(ascii_bytes(spaces(depth + 1)));
    assert(ascii_bytes(spaces(depth)));
    lemma_ascii_concat(seq![10u8], spaces(depth + 1));
    lemma_ascii_concat(seq![10u8], spaces(depth));
    let a: Seq<u8> = if i > 0 {
        seq![44u8]
    } else {
        seq![]
    };
    let b: Seq<u8> = if mode == Mode::Pretty {
        seq![10u8] + spaces(depth + 1)
    } else {
        seq![]
    };
    assert(ascii_bytes(a));
    assert(ascii_bytes(b));
    lemma_ascii_concat(a, b);
    assert(lead(i, mode, depth) == a + b);
    assert(ascii_bytes(close(mode, depth)));
    assert(ascii_bytes(colon(mode)));
}

proof fn lemma_enc_text_utf8(j: Json, mode: Mode, depth: nat)
    ensures
        utf8_str(enc_text(j, mode, depth)) == enc(j, mode, depth),
    decreases j, 0int,
{
    match j {
        Json::Integer(i) => {},
        Json::Float(t) => {},
        Json::Str(s) => lemma_quoted_text_utf8(s, mode),
        Json::Array(xs) => {
            if xs.len() > 0 {
                lemma_items_text_utf8(xs, 0, mode, depth);
                assert(xs.take(0) =~= Seq::<Json>::empty());
                lemma_layout_ascii(0, mode, depth);
                lemma_ascii_piece_utf8(close(mode, depth));
                lemma_utf8_one('[');
                lemma_utf8_one(']');
                let a = seq!['['];
                let b = items_text(xs, 0, mode, depth);
                let c = ascii_chars(close(mode, depth));
                lemma_utf8_str_concat(a, b);
                lemma_utf8_str_concat(a + b, c);
                lemma_utf8_str_concat(a + b + c, seq![']']);
                assert(utf8('[') =~= seq![91u8]);
                assert(utf8(']') =~= seq![93u8]);
                assert(enc_items(xs.take(0), mode, depth) =~= Seq::<u8>::empty());
                assert(Seq::<u8>::empty() + utf8_str(b) =~= utf8_str(b));
            } else {
                lemma_ascii_piece_utf8(seq![91u8, 93u8]);
                assert(ascii_chars(seq![91u8, 93u8]) =~= seq!['[', ']']);
            }
        },
        Json::Object(es) => {
            if es.len() > 0 {
                lemma_entries_text_utf8(es, 0, mode, depth);
                lemma_layout_ascii(0, mode, depth);
                lemma_ascii_piece_utf8(close(mode, depth));
                lemma_utf8_one('{');
                lemma_utf8_one('}');
                let a = seq!['{'];
                let b = entries_text(es, 0, mode, depth);
                let c = ascii_chars(close(mode, depth));
                lemma_utf8_str_concat(a, b);
                lemma_utf8_str_concat(a + b, c);
                lemma_utf8_str_concat(a + b + c, seq!['}']);
                assert(utf8('{') =~= seq![123u8]);
                assert(utf8('}') =~= seq![125u8]);
                assert(enc_entries(es.take(0), mode, depth) =~= Seq::<u8>::empty());
                assert(es.take(0) =~= Seq::<(Seq<char>, Json)>::empty());
                assert(Seq::<u8>::empty() + utf8_str(b) =~= utf8_str(b));
            } else {
                lemma_ascii_piece_utf8(seq![123u8, 125u8]);
                assert(ascii_chars(seq![123u8, 125u8]) =~= seq!['{', '}']);
            }
        },
        Json::Null => lemma_ascii_piece_utf8(enc(j, mode, depth)),
        Json::Bool(b) => lemma_ascii_piece_utf8(enc(j, mode, depth)),
    }
}

proof fn lemma_items_text_utf8(xs: Seq<Json>, k: int, mode: Mode, depth: nat)
    requires
        0 <= k <= xs.len(),
    ensures
        enc_items(xs.take(k), mode, depth) + utf8_str(items_text(xs, k, mode, depth)) == enc_items(
            xs,
            mode,
            depth,
        ),
    decreases xs, xs.len() - k,
{
    if k == xs.len() {
        assert(xs.take(k) =~= xs);
        assert(utf8_str(items_text(xs, k, mode, depth)) =~= Seq::<u8>::empty());
        assert(enc_items(xs, mode, depth) + Seq::<u8>::empty() =~= enc_items(xs, mode, depth));
    } else {
        lemma_items_text_utf8(xs, k + 1, mode, depth);
        lemma_enc_text_utf8(xs[k], mode, depth + 1);
        lemma_layout_ascii(k, mode, depth);
        lemma_ascii_piece_utf8(lead(k, mode, depth));
        let a = ascii_chars(lead(k, mode, depth));
        let b = enc_text(xs[k], mode, depth + 1);
        let c = items_text(xs, k + 1, mode, depth);
        lemma_utf8_str_concat(a, b);
        lemma_utf8_str_concat(a + b, c);
        assert(xs.take(k + 1).drop_last() =~= xs.take(k));
        assert(xs.take(k + 1).last() == xs[k]);
        assert(enc_items(xs.take(k + 1), mode, depth) == enc_items(xs.take(k), mode, depth) + lead(
            k,
            mode,
            depth,
        ) + enc(xs[k], mode, depth + 1));
        assert(enc_items(xs.take(k), mode, depth) + utf8_str(items_text(xs, k, mode, depth))
            =~= enc_items(xs.take(k + 1), mode, depth) + utf8_str(c));
    }
}

#[verifier::rlimit(40)]
#[verifier::spinoff_prover]
proof fn lemma_entries_text_utf8(es: Seq<(Seq<char>, Json)>, k: int, mode: Mode, depth: nat)
    requires
        0 <= k <= es.len(),
    ensures
        enc_entries(es.take(k), mode, depth) + utf8_str(entries_text(es, k, mode, depth))
            == enc_entries(es, mode, depth),
    decreases es, es.len() - k,
{
    if k == es.len() {
        assert(es.take(k) =~= es);
        assert(utf8_str(entries_text(es, k, mode, depth)) =~= Seq::<u8>::empty());
        assert(enc_entries(es, mode, depth) + Seq::<u8>::empty() =~= enc_entries(es, mode, depth));
    } else {
        assert(decreases_to!(es => es[k]));
        lemma_entries_text_utf8(es, k + 1, mode, depth);
        lemma_enc_text_utf8(es[k].1, mode, depth + 1);
        lemma_quoted_text_utf8(es[k].0, mode);
        lemma_layout_ascii(k, mode, depth);
        lemma_ascii_piece_utf8(lead(k, mode, depth));
        lemma_ascii_piece_utf8(colon(mode));
        let a = ascii_chars(lead(k, mode, depth));
        let q = quoted_text(es[k].0, mode);
        let cl = ascii_chars(colon(mode));
        let b = enc_text(es[k].1, mode, depth + 1);
        let c = entries_text(es, k + 1, mode, depth);
        lemma_utf8_str_concat(a, q);
        lemma_utf8_str_concat(a + q, cl);
        lemma_utf8_str_concat(a + q + cl, b);
        lemma_utf8_str_concat(a + q + cl + b, c);
        assert(es.take(k + 1).drop_last() =~= es.take(k));
        assert(es.take(k + 1).last() == es[k]);
        assert(enc_entries(es.take(k + 1), mode, depth) == enc_entries(es.take(k), mode, depth)
            + lead(k, mode, depth) + quoted(es[k].0, mode) + colon(mode) + enc(es[k].1, mode, depth + 1));
        assert(enc_entries(es.take(k), mode, depth) + utf8_str(entries_text(es, k, mode, depth))
            =~= enc_entries(es.take(k + 1), mode, depth) + utf8_str(c));
    }
}

// ---- reading back what the encoder writes -----------------------------------------

proof fn lemma_hex_digit(d: nat)
    requires
        d < 16,
    ensures
        hex_value((hex(d) as char)) == Some(d),
{
}

proof fn lemma_hex_recombine(x: u32)
    requires
        x < 65536,
    ensures
        (x / 4096) % 16 * 4096 + (x / 256) % 16 * 256 + (x / 16) % 16 * 16 + x % 16 == x,
{
    assert((x / 4096) % 16 * 4096 + (x / 256) % 16 * 256 + (x / 16) % 16 * 16 + x % 16 == x)
        by (bit_vector)
        requires
            x < 65536,
    ;
}

/// The text of `\uXXXX` for a code below 0x10000 reads back as that code.
proof fn lemma_read_u_escape(code: nat, tail: Seq<char>)
    requires
        code < 65536,
    ensures
        ({
            let t = ascii_chars(u_escape(code)) + tail;
            &&& t.len() == 6 + tail.len()
            &&& t[0] == '\\'
            &&& t[1] == 'u'
            &&& hex4(t, 2) == Some(code)
            &&& t.subrange(6, t.len() as int) == tail
        }),
{
    let t = ascii_chars(u_escape(code)) + tail;
    lemma_hex_digit((code / 4096) % 16);
    lemma_hex_digit((code / 256) % 16);
    lemma_hex_digit((code / 16) % 16);
    lemma_hex_digit(code % 16);
    assert(t[2] == hex((code / 4096) % 16) as char);
    assert(t[3] == hex((code / 256) % 16) as char);
    assert(t[4] == hex((code / 16) % 16) as char);
    assert(t[5] == hex(code % 16) as char);
    lemma_hex_recombine(code as u32);
    assert(t.subrange(6, t.len() as int) =~= tail);
}

proof fn lemma_surrogate_split(v: u32)
    requires
        v < 0x100000,
    ensures
        v / 1024 < 1024,
        v % 1024 < 1024,
        v / 1024 * 1024 + v % 1024 == v,
{
    assert(v / 1024 < 1024 && v % 1024 < 1024 && v / 1024 * 1024 + v % 1024 == v) by (bit_vector)
        requires
            v < 0x100000,
    ;
}

/// Reading a character's escape gives the character back.
#[verifier::rlimit(80)]
#[verifier::spinoff_prover]
proof fn lemma_read_escape(c: char, mode: Mode, tail: Seq<char>, acc: Seq<char>)
    ensures
        read_string(escape_text(c, mode) + tail, acc) == read_string(tail, acc.push(c)),
{
    let cp = c as nat;
    let t = escape_text(c, mode) + tail;
    if mode == Mode::Pretty && cp >= 0x80 && cp != 0x2028 && cp != 0x2029 {
        assert(t[0] == c);
        assert(t.drop_first() =~= tail);
    } else if c == '"' || c == '\\' || (c == '/' && mode == Mode::Hash) || cp == 8 || cp == 9
        || cp == 10 || cp == 12 || cp == 13 {
        let b = escape_char(c, mode);
        assert(b.len() == 2 && b[0] == 92u8);
        assert(t[0] == '\\');
        assert(t[1] == b[1] as char);
        if c == '"' {
            assert(b[1] == 34u8);
        } else if c == '\\' {
            assert(b[1] == 92u8);
        } else if c == '/' {
            assert(b[1] == 47u8);
        } else if cp == 8 {
            assert(b[1] == 98u8);
        } else if cp == 9 {
            assert(b[1] == 116u8);
        } else if cp == 10 {
            assert(b[1] == 110u8);
        } else if cp == 12 {
            assert(b[1] == 102u8);
        } else {
            assert(b[1] == 114u8);
        }
        assert(short_escape(t[1]) == Some(c));
        assert(t.subrange(2, t.len() as int) =~= tail);
    } else if c == '/' {
        assert(escape_char(c, mode) == seq![47u8]);
        assert(t[0] == '/');
        assert(t.drop_first() =~= tail);
    } else if cp < 0x20 || (mode == Mode::Pretty && (cp == 0x2028 || cp == 0x2029)) || (mode
        == Mode::Hash && 0x80 <= cp && cp <= 0xFFFF) {
        assert(escape_char(c, mode) == u_escape(cp));
        lemma_read_u_escape(cp, tail);
        assert(short_escape('u') is None);
        lemma_char_of(c);
    } else if cp < 0x80 {
        assert(escape_char(c, mode) == seq![cp as u8]);
        assert(t[0] == c);
        assert(t.drop_first() =~= tail);
    } else {
        assert(mode == Mode::Hash && cp > 0xFFFF);
        let v = (cp - 0x10000) as u32;
        lemma_surrogate_split(v);
        let h = (0xD800 + (cp - 0x10000) / 1024) as nat;
        let l = (0xDC00 + (cp - 0x10000) % 1024) as nat;
        assert(h == 0xD800 + v / 1024);
        assert(l == 0xDC00 + v % 1024);
        assert(escape_char(c, mode) == u_escape(h) + u_escape(l));
        assert(ascii_chars(u_escape(h) + u_escape(l)) =~= ascii_chars(u_escape(h)) + ascii_chars(u_escape(l)));
        let t2 = ascii_chars(u_escape(l)) + tail;
        assert(t =~= ascii_chars(u_escape(h)) + t2);
        lemma_read_u_escape(h, t2);
        lemma_read_u_escape(l, tail);
        assert(t.subrange(6, t.len() as int) == t2);
        assert(t[6] == t2[0] && t[7] == t2[1]);
        assert(t[8] == t2[2] && t[9] == t2[3] && t[10] == t2[4] && t[11] == t2[5]);
        assert(hex4(t, 8) == hex4(t2, 2));
        assert(short_escape('u') is None);
        assert(0x10000 + (h - 0xD800) * 1024 + (l - 0xDC00) == cp);
        lemma_char_of(c);
        assert(t.subrange(12, t.len() as int) =~= tail);
    }
}

/// Reading the characters of a string, written as the encoder writes them.
proof fn lemma_read_str_text(s: Seq<char>, mode: Mode, tail: Seq<char>, acc: Seq<char>)
    ensures
        read_string(str_text(s, mode) + tail, acc) == read_string(tail, acc + s),
    decreases s.len(),
{
    if s.len() == 0 {
        assert(str_text(s, mode) + tail =~= tail);
        assert(acc + s =~= acc);
    } else {
        let rest = s.drop_first();
        assert(str_text(s, mode) + tail =~= escape_text(s[0], mode) + (str_text(rest, mode) + tail));
        lemma_read_escape(s[0], mode, str_text(rest, mode) + tail, acc);
        lemma_read_str_text(rest, mode, tail, acc.push(s[0]));
        assert(acc.push(s[0]) + rest =~= acc + s);
    }
}

/// A quoted string, as the encoder writes it, reads back as the string.
proof fn lemma_read_quoted(s: Seq<char>, mode: Mode, rest: Seq<char>)
    ensures
        read_string((quoted_text(s, mode) + rest).drop_first(), seq![]) == Some((s, rest)),
{
    let none: Seq<char> = seq![];
    assert((quoted_text(s, mode) + rest).drop_first() =~= str_text(s, mode) + (seq!['"'] + rest));
    lemma_read_str_text(s, mode, seq!['"'] + rest, none);
    assert(none + s =~= s);
    assert((seq!['"'] + rest).drop_first() =~= rest);
}

proof fn lemma_dec(n: nat)
    ensures
        dec(n).len() >= 1,
        forall|k: int| 0 <= k < dec(n).len() ==> is_ascii_digit(#[trigger] dec(n)[k]),
        digits_value(dec(n)) == n,
        n >= 1 ==> dec(n)[0] != '0',
    decreases n,
{
    if n < 10 {
        let c = ((n + 48) as u8) as char;
        assert(dec(n) == seq![c]);
        assert(seq![c].drop_last() =~= Seq::<char>::empty());
        assert((c as u32) == n + 48);
        assert(digits_value(Seq::<char>::empty()) == 0);
        assert(digits_value(seq![c]) == digits_value(Seq::<char>::empty()) * 10 + ((c as u32) - 48) as nat);
    } else {
        lemma_dec(n / 10);
        let d = dec(n / 10);
        let c = (((n % 10) + 48) as u8) as char;
        assert(dec(n) == d.push(c));
        assert(d.push(c).drop_last() =~= d);
        assert((c as u32) == n % 10 + 48);
        assert forall|k: int| 0 <= k < d.push(c).len() implies is_ascii_digit(#[trigger] d.push(c)[k]) by {
            if k < d.len() {
                assert(d.push(c)[k] == d[k]);
            }
        }
        assert(d.push(c)[0] == d[0]);
        assert(n / 10 * 10 + n % 10 == n);
        assert(digits_value(d.push(c)) == digits_value(d) * 10 + ((c as u32) - 48) as nat);
    }
}

proof fn lemma_digits_end(t: Seq<char>, i: int, e: int)
    requires
        0 <= i <= e <= t.len(),
        forall|k: int| i <= k < e ==> is_ascii_digit(#[trigger] t[k]),
        e == t.len() || !is_ascii_digit(t[e]),
    ensures
        digits_end(t, i) == e,
    decreases e - i,
{
    if i < e {
        lemma_digits_end(t, i + 1, e);
    }
}

/// What may follow a value the encoder writes: nothing, or a `,`, a
/// closing bracket or a line break.
pub open spec fn ends_value(rest: Seq<char>) -> bool {
    rest.len() == 0 || rest[0] == ',' || rest[0] == ']' || rest[0] == '}' || rest[0] == '\n'
}

/// An integer, as the encoder writes it, reads back as that integer.
proof fn lemma_read_int(i: int, rest: Seq<char>)
    requires
        ends_value(rest),
    ensures
        read_number(int_text(i) + rest) == Some((Json::Integer(i), rest)),
{
    let n: nat = if i < 0 {
        (-i) as nat
    } else {
        i as nat
    };
    lemma_dec(n);
    let d = dec(n);
    let t = int_text(i) + rest;
    let s: int = if i < 0 {
        1
    } else {
        0
    };
    if i < 0 {
        assert(t =~= seq!['-'] + d + rest);
    } else {
        assert(t =~= d + rest);
    }
    let e = s + d.len();
    assert forall|k: int| s <= k < e implies is_ascii_digit(#[trigger] t[k]) by {
        assert(t[k] == d[k - s]);
    }
    if e < t.len() {
        assert(t[e] == rest[0]);
    }
    lemma_digits_end(t, s, e);
    assert(t[s] == d[0]);
    assert(t.subrange(s, e) =~= d);
    assert(t.subrange(e, t.len() as int) =~= rest);
    if s == 0 {
        assert(t[0] == d[0]);
        assert(is_ascii_digit(d[0]));
    }
}

/// The value holds no float: every number in it is an integer.
pub open spec fn float_free(j: Json) -> bool
    decreases j, 0int,
{
    match j {
        Json::Float(_) => false,
        Json::Array(xs) => items_float_free(xs, 0),
        Json::Object(es) => entries_float_free(es, 0),
        _ => true,
    }
}

pub open spec fn items_float_free(xs: Seq<Json>, k: int) -> bool
    decreases xs, xs.len() - k,
{
    if 0 <= k < xs.len() {
        float_free(xs[k]) && items_float_free(xs, k + 1)
    } else {
        true
    }
}

pub open spec fn entries_float_free(es: Seq<(Seq<char>, Json)>, k: int) -> bool
    decreases es, es.len() - k,
{
    if 0 <= k < es.len() {
        proof {
            assert(decreases_to!(es => es[k]));
        }
        float_free(es[k].1) && entries_float_free(es, k + 1)
    } else {
        true
    }
}

pub open spec fn all_json_ws(p: Seq<char>) -> bool {
    forall|k: int| 0 <= k < p.len() ==> json_ws(#[trigger] p[k])
}

proof fn lemma_skip_ws_prefix(p: Seq<char>, u: Seq<char>)
    requires
        all_json_ws(p),
    ensures
        skip_ws(p + u) == skip_ws(u),
    decreases p.len(),
{
    if p.len() > 0 {
        assert((p + u)[0] == p[0]);
        assert((p + u).drop_first() =~= p.drop_first() + u);
        assert forall|k: int| 0 <= k < p.drop_first().len() implies json_ws(#[trigger] p.drop_first()[k]) by {
            assert(p.drop_first()[k] == p[k + 1]);
        }
        lemma_skip_ws_prefix(p.drop_first(), u);
    } else {
        assert(p + u =~= u);
    }
}

/// The whitespace the layout writes: a line break and an indent in
/// `Pretty`, nothing in `Hash`.
pub open spec fn gap(mode: Mode, depth: nat) -> Seq<char> {
    ascii_chars(close(mode, depth))
}

proof fn lemma_gap(mode: Mode, depth: nat)
    ensures
        all_json_ws(gap(mode, depth)),
        mode == Mode::Pretty ==> gap(mode, depth).len() > 0 && gap(mode, depth)[0] == '\n',
        mode == Mode::Hash ==> gap(mode, depth).len() == 0,
{
    let g = gap(mode, depth);
    if mode == Mode::Pretty {
        assert forall|k: int| 0 <= k < g.len() implies json_ws(#[trigger] g[k]) by {
            if k > 0 {
                assert(close(mode, depth)[k] == 32u8);
            } else {
                assert(close(mode, depth)[k] == 10u8);
            }
        }
    }
}

proof fn lemma_lead_text(k: int, mode: Mode, depth: nat)
    ensures
        ascii_chars(lead(k, mode, depth)) == (if k > 0 {
            seq![',']
        } else {
            seq![]
        }) + gap(mode, depth + 1),
{
    let a: Seq<u8> = if k > 0 {
        seq![44u8]
    } else {
        seq![]
    };
    assert(lead(k, mode, depth) =~= a + close(mode, depth + 1));
    assert(ascii_chars(a + close(mode, depth + 1)) =~= ascii_chars(a) + gap(mode, depth + 1));
    if k > 0 {
        assert(ascii_chars(a) =~= seq![',']);
    } else {
        assert(ascii_chars(a) =~= Seq::<char>::empty());
    }
}

/// The whitespace after a colon: a space in `Pretty`.
pub open spec fn colon_gap(mode: Mode) -> Seq<char> {
    if mode == Mode::Pretty {
        seq![' ']
    } else {
        seq![]
    }
}

proof fn lemma_colon_text(mode: Mode)
    ensures
        ascii_chars(colon(mode)) == seq![':'] + colon_gap(mode),
        all_json_ws(colon_gap(mode)),
{
    assert(ascii_chars(colon(mode)) =~= seq![':'] + colon_gap(mode));
}

/// What a value's text starts with.
pub open spec fn starts_value(c: char) -> bool {
    c == 'n' || c == 't' || c == 'f' || c == '"' || c == '[' || c == '{' || c == '-' || is_ascii_digit(c)
}

proof fn lemma_enc_text_start(j: Json, mode: Mode, depth: nat)
    requires
        float_free(j),
    ensures
        enc_text(j, mode, depth).len() > 0,
        starts_value(enc_text(j, mode, depth)[0]),
{
    match j {
        Json::Integer(i) => {
            if i < 0 {
                lemma_dec((-i) as nat);
            } else {
                lemma_dec(i as nat);
            }
        },
        Json::Array(xs) => {},
        Json::Object(es) => {},
        Json::Str(s) => {},
        _ => {},
    }
}

/// A value, as the encoder writes it, after whitespace and before what
/// may follow it, reads back as the value.
proof fn lemma_read_value(j: Json, mode: Mode, depth: nat, pre: Seq<char>, rest: Seq<char>)
    requires
        float_free(j),
        all_json_ws(pre),
        ends_value(rest),
    ensures
        read_value(pre + enc_text(j, mode, depth) + rest) == Some((j, rest)),
    decreases j, 2int,
{
    let x = enc_text(j, mode, depth);
    let u = x + rest;
    assert(pre + x + rest =~= pre + u);
    lemma_skip_ws_prefix(pre, u);
    lemma_read_value_at(j, mode, depth, rest);
}

proof fn lemma_read_value_at(j: Json, mode: Mode, depth: nat, rest: Seq<char>)
    requires
        float_free(j),
        ends_value(rest),
    ensures
        read_value(enc_text(j, mode, depth) + rest) == Some((j, rest)),
    decreases j, 1int,
{
    let x = enc_text(j, mode, depth);
    let u = x + rest;
    lemma_enc_text_start(j, mode, depth);
    assert(u[0] == x[0]);
    assert(skip_ws(u) == u);
    match j {
        Json::Array(xs) => lemma_read_array(xs, mode, depth, rest),
        Json::Object(es) => lemma_read_object(es, mode, depth, rest),
        _ => lemma_read_scalar(j, mode, depth, rest),
    }
}

#[verifier::rlimit(40)]
#[verifier::spinoff_prover]
proof fn lemma_read_scalar(j: Json, mode: Mode, depth: nat, rest: Seq<char>)
    requires
        float_free(j),
        ends_value(rest),
        !(j is Array),
        !(j is Object),
    ensures
        read_value(enc_text(j, mode, depth) + rest) == Some((j, rest)),
{
    let x = enc_text(j, mode, depth);
    let u = x + rest;
    lemma_enc_text_start(j, mode, depth);
    assert(u[0] == x[0]);
    assert(skip_ws(u) == u);
    match j {
        Json::Null => {
            assert(x =~= seq!['n', 'u', 'l', 'l']);
            assert(u.subrange(0, 4) =~= seq!['n', 'u', 'l', 'l']);
            assert(u.subrange(4, u.len() as int) =~= rest);
        },
        Json::Bool(b) => {
            if b {
                assert(x =~= seq!['t', 'r', 'u', 'e']);
                assert(u.subrange(0, 4) =~= seq!['t', 'r', 'u', 'e']);
                assert(u.subrange(0, 4)[0] != seq!['n', 'u', 'l', 'l'][0]);
                assert(u.subrange(4, u.len() as int) =~= rest);
            } else {
                assert(x =~= seq!['f', 'a', 'l', 's', 'e']);
                assert(u.subrange(0, 5) =~= seq!['f', 'a', 'l', 's', 'e']);
                assert(u.subrange(0, 4)[0] != seq!['n', 'u', 'l', 'l'][0]);
                assert(u.subrange(0, 4)[0] != seq!['t', 'r', 'u', 'e'][0]);
                assert(u.subrange(5, u.len() as int) =~= rest);
            }
        },
        Json::Integer(i) => {
            lemma_read_int(i, rest);
        },
        Json::Str(s) => {
            lemma_read_quoted(s, mode, rest);
        },
        _ => {},
    }
}

#[verifier::rlimit(100)]
#[verifier::spinoff_prover]
proof fn lemma_read_array(xs: Seq<Json>, mode: Mode, depth: nat, rest: Seq<char>)
    requires
        float_free(Json::Array(xs)),
        ends_value(rest),
    ensures
        read_value(enc_text(Json::Array(xs), mode, depth) + rest) == Some((Json::Array(xs), rest)),
    decreases xs, xs.len() + 1,
{
    let x = enc_text(Json::Array(xs), mode, depth);
    let u = x + rest;
    assert(u[0] == '[');
    assert(skip_ws(u) == u);
    if xs.len() == 0 {
        assert(xs =~= Seq::<Json>::empty());
        assert(u.drop_first() =~= seq![']'] + rest);
        assert((seq![']'] + rest).drop_first() =~= rest);
    } else {
        let g1 = gap(mode, depth + 1);
        let g0 = gap(mode, depth);
        let inner = g1 + enc_text(xs[0], mode, depth + 1) + items_text(xs, 1, mode, depth) + g0
            + seq![']'] + rest;
        lemma_lead_text(0, mode, depth);
        assert(u.drop_first() =~= inner);
        lemma_gap(mode, depth + 1);
        assert(float_free(xs[0]));
        lemma_enc_text_start(xs[0], mode, depth + 1);
        let y = enc_text(xs[0], mode, depth + 1) + (items_text(xs, 1, mode, depth) + g0
            + seq![']'] + rest);
        assert(inner =~= g1 + y);
        lemma_skip_ws_prefix(g1, y);
        assert(y[0] == enc_text(xs[0], mode, depth + 1)[0]);
        assert(skip_ws(y) == y);
        lemma_read_elements(xs, 0, mode, depth, rest);
        assert(xs.take(0) =~= Seq::<Json>::empty());
    }
}

#[verifier::rlimit(40)]
#[verifier::spinoff_prover]
proof fn lemma_entries_step(es: Seq<(Seq<char>, Json)>, k: int, mode: Mode, depth: nat, after: Seq<char>)
    requires
        0 <= k < es.len(),
    ensures
        entries_text(es, k, mode, depth) + after == ascii_chars(lead(k, mode, depth)) + (quoted_text(
            es[k].0,
            mode,
        ) + (ascii_chars(colon(mode)) + (enc_text(es[k].1, mode, depth + 1) + (entries_text(
            es,
            k + 1,
            mode,
            depth,
        ) + after)))),
{
    let a = ascii_chars(lead(k, mode, depth));
    let q = quoted_text(es[k].0, mode);
    let c = ascii_chars(colon(mode));
    let v = enc_text(es[k].1, mode, depth + 1);
    let e = entries_text(es, k + 1, mode, depth);
    assert(entries_text(es, k, mode, depth) == a + q + c + v + e);
    lemma_concat_associative(a + q + c + v, e, after);
    lemma_concat_associative(a + q + c, v, e + after);
    lemma_concat_associative(a + q, c, v + (e + after));
    lemma_concat_associative(a, q, c + (v + (e + after)));
}

#[verifier::rlimit(100)]
#[verifier::spinoff_prover]
proof fn lemma_read_object(es: Seq<(Seq<char>, Json)>, mode: Mode, depth: nat, rest: Seq<char>)
    requires
        float_free(Json::Object(es)),
        ends_value(rest),
    ensures
        read_value(enc_text(Json::Object(es), mode, depth) + rest) == Some((Json::Object(es), rest)),
    decreases es, es.len() + 1,
{
    let x = enc_text(Json::Object(es), mode, depth);
    let u = x + rest;
    assert(u[0] == '{');
    assert(skip_ws(u) == u);
    if es.len() == 0 {
        assert(es =~= Seq::<(Seq<char>, Json)>::empty());
        assert(u.drop_first() =~= seq!['}'] + rest);
        assert((seq!['}'] + rest).drop_first() =~= rest);
    } else {
        let g1 = gap(mode, depth + 1);
        let g0 = gap(mode, depth);
        let after = g0 + (seq!['}'] + rest);
        let body = entries_text(es, 0, mode, depth);
        assert(x == seq!['{'] + body + g0 + seq!['}']);
        assert(u.drop_first() =~= body + after);
        lemma_entries_step(es, 0, mode, depth, after);
        lemma_lead_text(0, mode, depth);
        assert(ascii_chars(lead(0, mode, depth)) =~= g1);
        let y = quoted_text(es[0].0, mode) + (ascii_chars(colon(mode)) + (enc_text(es[0].1, mode, depth + 1)
            + (entries_text(es, 1, mode, depth) + after)));
        assert(u.drop_first() == g1 + y);
        lemma_gap(mode, depth + 1);
        lemma_skip_ws_prefix(g1, y);
        assert(y[0] == '"');
        assert(skip_ws(y) == y);
        lemma_read_members(es, 0, mode, depth, rest);
        assert(es.take(0) =~= Seq::<(Seq<char>, Json)>::empty());
    }
}

#[verifier::rlimit(40)]
#[verifier::spinoff_prover]
proof fn lemma_read_elements(xs: Seq<Json>, k: int, mode: Mode, depth: nat, rest: Seq<char>)
    requires
        0 <= k < xs.len(),
        items_float_free(xs, k),
    ensures
        read_elements(
            gap(mode, depth + 1) + enc_text(xs[k], mode, depth + 1) + items_text(xs, k + 1, mode, depth)
                + gap(mode, depth) + seq![']'] + rest,
            xs.take(k),
        ) == Some((Json::Array(xs), rest)),
    decreases xs, xs.len() - k,
{
    let g1 = gap(mode, depth + 1);
    let g0 = gap(mode, depth);
    let x = enc_text(xs[k], mode, depth + 1);
    let tail = items_text(xs, k + 1, mode, depth) + g0 + seq![']'] + rest;
    let t = gap(mode, depth + 1) + enc_text(xs[k], mode, depth + 1) + items_text(xs, k + 1, mode, depth)
        + gap(mode, depth) + seq![']'] + rest;
    assert(t =~= g1 + x + tail);
    lemma_gap(mode, depth + 1);
    lemma_gap(mode, depth);
    if k + 1 < xs.len() {
        lemma_lead_text(k + 1, mode, depth);
        let nxt = g1 + enc_text(xs[k + 1], mode, depth + 1) + items_text(xs, k + 2, mode, depth) + g0
            + seq![']'] + rest;
        assert(tail =~= seq![','] + nxt);
        assert(tail[0] == ',');
        lemma_read_value(xs[k], mode, depth + 1, g1, tail);
        assert(skip_ws(tail) == tail);
        assert(tail.drop_first() =~= nxt);
        lemma_read_elements(xs, k + 1, mode, depth, rest);
        assert(xs.take(k).push(xs[k]) =~= xs.take(k + 1));
    } else {
        assert(items_text(xs, k + 1, mode, depth) =~= Seq::<char>::empty());
        assert(tail =~= g0 + (seq![']'] + rest));
        assert(tail[0] == '\n' || tail[0] == ']');
        lemma_read_value(xs[k], mode, depth + 1, g1, tail);
        lemma_skip_ws_prefix(g0, seq![']'] + rest);
        assert((seq![']'] + rest).drop_first() =~= rest);
        assert(xs.take(k).push(xs[k]) =~= xs);
    }
}

#[verifier::rlimit(100)]
#[verifier::spinoff_prover]
proof fn lemma_read_members(es: Seq<(Seq<char>, Json)>, k: int, mode: Mode, depth: nat, rest: Seq<char>)
    requires
        0 <= k < es.len(),
        entries_float_free(es, k),
    ensures
        read_members(
            gap(mode, depth + 1) + (quoted_text(es[k].0, mode) + (ascii_chars(colon(mode)) + (enc_text(
                es[k].1,
                mode,
                depth + 1,
            ) + (entries_text(es, k + 1, mode, depth) + (gap(mode, depth) + (seq!['}'] + rest)))))),
            es.take(k),
        ) == Some((Json::Object(es), rest)),
    decreases es, es.len() - k,
{
    assert(decreases_to!(es => es[k]));
    let g1 = gap(mode, depth + 1);
    let g0 = gap(mode, depth);
    let after = g0 + (seq!['}'] + rest);
    let q = quoted_text(es[k].0, mode);
    let cl = ascii_chars(colon(mode));
    let v = enc_text(es[k].1, mode, depth + 1);
    let tail = entries_text(es, k + 1, mode, depth) + after;
    let r0 = cl + (v + tail);
    lemma_gap(mode, depth + 1);
    lemma_gap(mode, depth);
    lemma_skip_ws_prefix(g1, q + r0);
    assert((q + r0)[0] == '"');
    assert(skip_ws(q + r0) == q + r0);
    lemma_read_quoted(es[k].0, mode, r0);
    lemma_colon_text(mode);
    assert(r0 =~= seq![':'] + (colon_gap(mode) + v + tail));
    assert(r0[0] == ':');
    assert(skip_ws(r0) == r0);
    assert(r0.drop_first() =~= colon_gap(mode) + v + tail);
    assert(float_free(es[k].1));
    if k + 1 < es.len() {
        lemma_entries_step(es, k + 1, mode, depth, after);
        lemma_lead_text(k + 1, mode, depth);
        let nxt = g1 + (quoted_text(es[k + 1].0, mode) + (cl + (enc_text(es[k + 1].1, mode, depth + 1)
            + (entries_text(es, k + 2, mode, depth) + after))));
        assert(tail =~= seq![','] + nxt);
        assert(tail[0] == ',');
        lemma_read_value(es[k].1, mode, depth + 1, colon_gap(mode), tail);
        assert(skip_ws(tail) == tail);
        assert(tail.drop_first() =~= nxt);
        lemma_read_members(es, k + 1, mode, depth, rest);
        assert(es.take(k).push((es[k].0, es[k].1)) =~= es.take(k + 1));
    } else {
        assert(entries_text(es, k + 1, mode, depth) =~= Seq::<char>::empty());
        assert(tail =~= after);
        assert(tail[0] == '\n' || tail[0] == '}');
        lemma_read_value(es[k].1, mode, depth + 1, colon_gap(mode), tail);
        lemma_skip_ws_prefix(g0, seq!['}'] + rest);
        assert((seq!['}'] + rest).drop_first() =~= rest);
        assert(es.take(k).push((es[k].0, es[k].1)) =~= es);
    }
}

// ---- UTF-8 is read one way only ---------------------------------------------------

proof fn lemma_utf8_lead(c: char)
    ensures
        1 <= utf8(c).len() <= 4,
        utf8(c).len() == 1 <==> utf8(c)[0] < 0x80,
        utf8(c).len() == 2 <==> 0xC0 <= utf8(c)[0] < 0xE0,
        utf8(c).len() == 3 <==> 0xE0 <= utf8(c)[0] < 0xF0,
        utf8(c).len() == 4 <==> 0xF0 <= utf8(c)[0],
{
    let n = c as u32;
    assert(n <= 0x10FFFF);
    if n >= 0x80 && n < 0x800 {
        assert(0xC0 <= 0xC0 + n / 64 < 0xE0) by (bit_vector)
            requires
                0x80 <= n < 0x800,
        ;
    } else if n >= 0x800 && n < 0x10000 {
        assert(0xE0 <= 0xE0 + n / 4096 < 0xF0) by (bit_vector)
            requires
                0x800 <= n < 0x10000,
        ;
    } else if n >= 0x10000 {
        assert(0xF0 <= 0xF0 + n / 262144 < 0x100) by (bit_vector)
            requires
                0x10000 <= n <= 0x10FFFF,
        ;
    }
}

proof fn lemma_utf8_char_injective(c1: char, c2: char)
    requires
        utf8(c1) == utf8(c2),
    ensures
        c1 == c2,
{
    let n1 = c1 as u32;
    let n2 = c2 as u32;
    let b = utf8(c1);
    lemma_utf8_lead(c1);
    lemma_utf8_lead(c2);
    assert(n1 <= 0x10FFFF && n2 <= 0x10FFFF);
    if b.len() == 2 {
        assert(n1 / 64 == n2 / 64 && n1 % 64 == n2 % 64);
        assert(n1 == n2) by (bit_vector)
            requires
                n1 / 64 == n2 / 64 && n1 % 64 == n2 % 64,
        ;
    } else if b.len() == 3 {
        assert(n1 / 4096 == n2 / 4096 && (n1 / 64) % 64 == (n2 / 64) % 64 && n1 % 64 == n2 % 64);
        assert(n1 == n2) by (bit_vector)
            requires
                n1 < 0x10000 && n2 < 0x10000 && n1 / 4096 == n2 / 4096 && (n1 / 64) % 64 == (n2 / 64)
                    % 64 && n1 % 64 == n2 % 64,
        ;
    } else if b.len() == 4 {
        assert(n1 / 262144 == n2 / 262144 && (n1 / 4096) % 64 == (n2 / 4096) % 64 && (n1 / 64) % 64
            == (n2 / 64) % 64 && n1 % 64 == n2 % 64);
        assert(n1 == n2) by (bit_vector)
            requires
                n1 <= 0x10FFFF && n2 <= 0x10FFFF && n1 / 262144 == n2 / 262144 && (n1 / 4096) % 64
                    == (n2 / 4096) % 64 && (n1 / 64) % 64 == (n2 / 64) % 64 && n1 % 64 == n2 % 64,
        ;
    }
}

proof fn lemma_utf8_front(s: Seq<char>)
    requires
        s.len() > 0,
    ensures
        utf8_str(s) == utf8(s[0]) + utf8_str(s.drop_first()),
{
    assert(s =~= seq![s[0]] + s.drop_first());
    lemma_utf8_str_concat(seq![s[0]], s.drop_first());
    lemma_utf8_one(s[0]);
}

proof fn lemma_utf8_str_len(s: Seq<char>)
    ensures
        utf8_str(s).len() >= s.len(),
    decreases s.len(),
{
    if s.len() > 0 {
        lemma_utf8_str_len(s.drop_last());
        lemma_utf8_lead(s.last());
    }
}

/// Two texts with the same UTF-8 encoding are the same text.
pub proof fn lemma_utf8_injective(s: Seq<char>, t: Seq<char>)
    requires
        utf8_str(s) == utf8_str(t),
    ensures
        s == t,
    decreases s.len(),
{
    lemma_utf8_str_len(s);
    lemma_utf8_str_len(t);
    if s.len() == 0 {
        assert(t.len() == 0);
        assert(s =~= t);
    } else if t.len() == 0 {
        assert(false);
    } else {
        lemma_utf8_front(s);
        lemma_utf8_front(t);
        let a = utf8(s[0]);
        let b = utf8(t[0]);
        let x = utf8_str(s.drop_first());
        let y = utf8_str(t.drop_first());
        lemma_utf8_lead(s[0]);
        lemma_utf8_lead(t[0]);
        assert((a + x)[0] == a[0] && (b + y)[0] == b[0]);
        assert(a.len() == b.len());
        assert(a =~= (a + x).subrange(0, a.len() as int));
        assert(b =~= (b + y).subrange(0, b.len() as int));
        lemma_utf8_char_injective(s[0], t[0]);
        assert(x =~= (a + x).subrange(a.len() as int, (a + x).len() as int));
        assert(y =~= (b + y).subrange(b.len() as int, (b + y).len() as int));
        lemma_utf8_injective(s.drop_first(), t.drop_first());
        assert(s =~= seq![s[0]] + s.drop_first());
        assert(t =~= seq![t[0]] + t.drop_first());
    }
}

/// Encoding then reading gives the value back: for a value without
/// floats, the encoder's output in either mode is the UTF-8 encoding of a
/// JSON text (`enc_text`), and the text those bytes decode to, which is
/// that one and no other, reads as the value, entries in their order.
pub proof fn law_encoding_reads_back(j: Json, mode: Mode)
    requires
        float_free(j),
    ensures
        utf8_str(enc_text(j, mode, 0)) == enc(j, mode, 0),
        read_json(enc_text(j, mode, 0)) == Some(j),
        forall|t: Seq<char>| #[trigger] utf8_str(t) == enc(j, mode, 0) ==> read_json(t) == Some(j),
{
    assert forall|t: Seq<char>| #[trigger] utf8_str(t) == enc(j, mode, 0) implies read_json(t) == Some(j) by {
        lemma_enc_text_utf8(j, mode, 0);
        lemma_utf8_injective(t, enc_text(j, mode, 0));
        lemma_read_whole(j, mode);
    }
    lemma_read_whole(j, mode);
}

proof fn lemma_read_whole(j: Json, mode: Mode)
    requires
        float_free(j),
    ensures
        utf8_str(enc_text(j, mode, 0)) == enc(j, mode, 0),
        read_json(enc_text(j, mode, 0)) == Some(j),
{
    lemma_enc_text_utf8(j, mode, 0);
    let none: Seq<char> = seq![];
    lemma_read_value(j, mode, 0, none, none);
    assert(none + enc_text(j, mode, 0) + none =~= enc_text(j, mode, 0));
}

} // verus!
