//! PHP-compatible JSON encoding: byte-exact output of PHP's `json_encode`
//! for the two flag combinations Composer relies on.
//!
//! - [`Mode::Hash`]: `json_encode($d, 0)`, the byte stream of Composer's
//!   content hash. Compact, `/` escaped to `\/`, every code point at or
//!   above 0x80 escaped to lowercase `\uXXXX` (surrogate pairs above
//!   U+FFFF).
//! - [`Mode::Pretty`]: `json_encode($d, JSON_PRETTY_PRINT |
//!   JSON_UNESCAPED_SLASHES | JSON_UNESCAPED_UNICODE)`, Composer's file
//!   encoding. Four-space indent, raw `/`, raw UTF-8 except U+2028 and
//!   U+2029, which stay escaped.
//!
//! Both modes escape `"` and `\`, name 0x08, 0x09, 0x0A, 0x0C and 0x0D
//! (`\b \t \n \f \r`), write other control characters below 0x20 as
//! `\u00XX`, and leave 0x7F raw. Object keys are escaped like string
//! values and keep their order.

use vstd::prelude::*;
use crate::json::{
    entries_model, lemma_entries_model, lemma_values_model, values_model, Json, JsonMap,
    JsonNumber, JsonValue,
};
use crate::text::{dec, dec_chars, string_chars, to_chars};

verus! {

#[derive(Debug, Clone, Copy, PartialEq, Eq, Structural)]
pub enum Mode {
    /// `json_encode($d, 0)`: Composer's content-hash byte stream.
    Hash,
    /// `json_encode($d, JSON_PRETTY_PRINT | JSON_UNESCAPED_SLASHES |
    /// JSON_UNESCAPED_UNICODE)`: Composer's file-write encoding.
    Pretty,
}

/// A lowercase hexadecimal digit.
pub open spec fn hex(n: nat) -> u8 {
    if n < 10 {
        (n + 48) as u8
    } else {
        (n + 87) as u8
    }
}

/// `\uXXXX`: the low 16 bits of `code` in lowercase hex.
pub open spec fn u_escape(code: nat) -> Seq<u8> {
    seq![92u8, 117u8, hex((code / 4096) % 16), hex((code / 256) % 16), hex((code / 16) % 16), hex(code % 16)]
}

/// The UTF-8 encoding of a character.
pub open spec fn utf8(c: char) -> Seq<u8> {
    let n = c as nat;
    if n < 0x80 {
        seq![n as u8]
    } else if n < 0x800 {
        seq![(0xC0 + n / 64) as u8, (0x80 + n % 64) as u8]
    } else if n < 0x10000 {
        seq![(0xE0 + n / 4096) as u8, (0x80 + (n / 64) % 64) as u8, (0x80 + n % 64) as u8]
    } else {
        seq![
            (0xF0 + n / 262144) as u8,
            (0x80 + (n / 4096) % 64) as u8,
            (0x80 + (n / 64) % 64) as u8,
            (0x80 + n % 64) as u8,
        ]
    }
}

/// The UTF-8 encoding of a text.
pub open spec fn utf8_str(s: Seq<char>) -> Seq<u8>
    decreases s.len(),
{
    if s.len() == 0 {
        seq![]
    } else {
        utf8_str(s.drop_last()) + utf8(s.last())
    }
}

/// How one character of a string is written.
pub open spec fn escape_char(c: char, mode: Mode) -> Seq<u8> {
    let cp = c as nat;
    if c == '"' {
        seq![92u8, 34u8]
    } else if c == '\\' {
        seq![92u8, 92u8]
    } else if c == '/' {
        if mode == Mode::Hash {
            seq![92u8, 47u8]
        } else {
            seq![47u8]
        }
    } else if cp == 8 {
        seq![92u8, 98u8]
    } else if cp == 9 {
        seq![92u8, 116u8]
    } else if cp == 10 {
        seq![92u8, 110u8]
    } else if cp == 12 {
        seq![92u8, 102u8]
    } else if cp == 13 {
        seq![92u8, 114u8]
    } else if cp < 0x20 {
        u_escape(cp)
    } else if cp < 0x80 {
        seq![cp as u8]
    } else if mode == Mode::Hash {
        if cp <= 0xFFFF {
            u_escape(cp)
        } else {
            u_escape((0xD800 + (cp - 0x10000) / 1024) as nat) + u_escape((0xDC00 + (cp - 0x10000) % 1024) as nat)
        }
    } else if cp == 0x2028 || cp == 0x2029 {
        u_escape(cp)
    } else {
        utf8(c)
    }
}

pub open spec fn escape_str(s: Seq<char>, mode: Mode) -> Seq<u8>
    decreases s.len(),
{
    if s.len() == 0 {
        seq![]
    } else {
        escape_str(s.drop_last(), mode) + escape_char(s.last(), mode)
    }
}

/// A string in double quotes, escaped.
pub open spec fn quoted(s: Seq<char>, mode: Mode) -> Seq<u8> {
    seq![34u8] + escape_str(s, mode) + seq![34u8]
}

/// Decimal text of an integer, with a leading `-` when negative.
pub open spec fn int_text(i: int) -> Seq<char> {
    if i < 0 {
        seq!['-'] + dec((-i) as nat)
    } else {
        dec(i as nat)
    }
}

/// Four spaces per level.
pub open spec fn spaces(depth: nat) -> Seq<u8> {
    Seq::new(4 * depth, |_i: int| 32u8)
}

/// What goes before the `i`-th member of an array or object: a comma
/// after the first, and in `Pretty` a newline and the members' indent.
pub open spec fn lead(i: int, mode: Mode, depth: nat) -> Seq<u8> {
    (if i > 0 {
        seq![44u8]
    } else {
        seq![]
    }) + (if mode == Mode::Pretty {
        seq![10u8] + spaces(depth + 1)
    } else {
        seq![]
    })
}

/// What goes before the closing bracket: in `Pretty` a newline and the
/// container's own indent.
pub open spec fn close(mode: Mode, depth: nat) -> Seq<u8> {
    if mode == Mode::Pretty {
        seq![10u8] + spaces(depth)
    } else {
        seq![]
    }
}

pub open spec fn colon(mode: Mode) -> Seq<u8> {
    if mode == Mode::Pretty {
        seq![58u8, 32u8]
    } else {
        seq![58u8]
    }
}

/// The encoding of a value nested `depth` levels deep.
pub open spec fn enc(j: Json, mode: Mode, depth: nat) -> Seq<u8>
    decreases j,
{
    match j {
        Json::Null => seq![110u8, 117u8, 108u8, 108u8],
        Json::Bool(b) => if b {
            seq![116u8, 114u8, 117u8, 101u8]
        } else {
            seq![102u8, 97u8, 108u8, 115u8, 101u8]
        },
        Json::Integer(i) => utf8_str(int_text(i)),
        Json::Float(t) => utf8_str(t),
        Json::Str(s) => quoted(s, mode),
        Json::Array(items) => if items.len() == 0 {
            seq![91u8, 93u8]
        } else {
            seq![91u8] + enc_items(items, mode, depth) + close(mode, depth) + seq![93u8]
        },
        Json::Object(es) => if es.len() == 0 {
            seq![123u8, 125u8]
        } else {
            seq![123u8] + enc_entries(es, mode, depth) + close(mode, depth) + seq![125u8]
        },
    }
}

/// The members of an array, each one level deeper than the array.
pub open spec fn enc_items(items: Seq<Json>, mode: Mode, depth: nat) -> Seq<u8>
    decreases items,
{
    if items.len() == 0 {
        seq![]
    } else {
        enc_items(items.drop_last(), mode, depth) + lead(items.len() - 1, mode, depth) + enc(
            items.last(),
            mode,
            depth + 1,
        )
    }
}

/// The entries of an object: key, colon, value one level deeper.
pub open spec fn enc_entries(es: Seq<(Seq<char>, Json)>, mode: Mode, depth: nat) -> Seq<u8>
    decreases es,
{
    if es.len() == 0 {
        seq![]
    } else {
        proof {
            assert(decreases_to!(es => es[es.len() - 1]));
        }
        enc_entries(es.drop_last(), mode, depth) + lead(es.len() - 1, mode, depth) + quoted(
            es.last().0,
            mode,
        ) + colon(mode) + enc(es.last().1, mode, depth + 1)
    }
}

/// Nesting depth: 0 for a scalar, one more than the deepest member for
/// an array or object.
pub open spec fn height(j: Json) -> nat
    decreases j,
{
    match j {
        Json::Array(items) => 1 + items_height(items),
        Json::Object(es) => 1 + entries_height(es),
        _ => 0,
    }
}

pub open spec fn items_height(items: Seq<Json>) -> nat
    decreases items,
{
    if items.len() == 0 {
        0
    } else {
        let a = items_height(items.drop_last());
        let b = height(items.last());
        if a >= b {
            a
        } else {
            b
        }
    }
}

pub open spec fn entries_height(es: Seq<(Seq<char>, Json)>) -> nat
    decreases es,
{
    if es.len() == 0 {
        0
    } else {
        proof {
            assert(decreases_to!(es => es[es.len() - 1]));
        }
        let a = entries_height(es.drop_last());
        let b = height(es.last().1);
        if a >= b {
            a
        } else {
            b
        }
    }
}

pub proof fn lemma_items_height(items: Seq<Json>, i: int)
    requires
        0 <= i < items.len(),
    ensures
        height(items[i]) <= items_height(items),
    decreases items.len(),
{
    if i < items.len() - 1 {
        lemma_items_height(items.drop_last(), i);
        assert(items.drop_last()[i] == items[i]);
    }
}

pub proof fn lemma_entries_height(es: Seq<(Seq<char>, Json)>, i: int)
    requires
        0 <= i < es.len(),
    ensures
        height(es[i].1) <= entries_height(es),
    decreases es.len(),
{
    if i < es.len() - 1 {
        lemma_entries_height(es.drop_last(), i);
        assert(es.drop_last()[i] == es[i]);
    }
}

// ---- writers ------------------------------------------------------------------

fn hex_exec(n: u32) -> (r: u8)
    requires
        n < 16,
    ensures
        r == hex(n as nat),
{
    if n < 10 {
        (n + 48) as u8
    } else {
        (n + 87) as u8
    }
}

/// `\uXXXX` for the low 16 bits of `code`, lowercase hex.
fn write_unicode_escape(out: &mut Vec<u8>, code: u32)
    ensures
        final(out)@ == old(out)@ + u_escape(code as nat),
{
    let ghost start = out@;
    out.push(92u8);
    out.push(117u8);
    out.push(hex_exec((code / 4096) % 16));
    out.push(hex_exec((code / 256) % 16));
    out.push(hex_exec((code / 16) % 16));
    out.push(hex_exec(code % 16));
    assert(out@ =~= start + u_escape(code as nat));
}

/// One `\uXXXX` for a code point up to U+FFFF, else a UTF-16 surrogate
/// pair.
fn write_unicode_escape_full(out: &mut Vec<u8>, code: u32)
    requires
        code <= 0x10FFFF,
    ensures
        final(out)@ == old(out)@ + (if code <= 0xFFFF {
            u_escape(code as nat)
        } else {
            u_escape((0xD800 + (code - 0x10000) / 1024) as nat) + u_escape(
                (0xDC00 + (code - 0x10000) % 1024) as nat,
            )
        }),
{
    if code <= 0xFFFF {
        write_unicode_escape(out, code);
    } else {
        let ghost start = out@;
        let adjusted = code - 0x10000;
        let high = 0xd800 + adjusted / 1024;
        let low = 0xdc00 + adjusted % 1024;
        write_unicode_escape(out, high);
        write_unicode_escape(out, low);
        assert(out@ =~= start + u_escape(high as nat) + u_escape(low as nat));
    }
}

/// The UTF-8 bytes of `c`.
fn write_utf8(out: &mut Vec<u8>, c: char)
    ensures
        final(out)@ == old(out)@ + utf8(c),
{
    let ghost start = out@;
    let n = c as u32;
    assert(n as nat == c as nat);
    assert(n <= 0x10FFFF);
    if n < 0x80 {
        out.push(n as u8);
    } else if n < 0x800 {
        out.push((0xC0 + n / 64) as u8);
        out.push((0x80 + n % 64) as u8);
    } else if n < 0x10000 {
        out.push((0xE0 + n / 4096) as u8);
        out.push((0x80 + (n / 64) % 64) as u8);
        out.push((0x80 + n % 64) as u8);
    } else {
        out.push((0xF0 + n / 262144) as u8);
        out.push((0x80 + (n / 4096) % 64) as u8);
        out.push((0x80 + (n / 64) % 64) as u8);
        out.push((0x80 + n % 64) as u8);
    }
    assert(out@ =~= start + utf8(c));
}

/// The UTF-8 bytes of a text.
fn write_text(out: &mut Vec<u8>, t: &Vec<char>)
    ensures
        final(out)@ == old(out)@ + utf8_str(t@),
{
    let ghost start = out@;
    let mut k: usize = 0;
    while k < t.len()
        invariant
            k <= t.len(),
            out@ == start + utf8_str(t@.take(k as int)),
        decreases t.len() - k,
    {
        assert(t@.take(k + 1).drop_last() =~= t@.take(k as int));
        write_utf8(out, t[k]);
        k += 1;
        assert(out@ =~= start + utf8_str(t@.take(k as int)));
    }
    assert(t@.take(t.len() as int) =~= t@);
}

/// One character of a string value or key, escaped for `mode`.
fn write_char_escaped(out: &mut Vec<u8>, c: char, mode: Mode)
    ensures
        final(out)@ == old(out)@ + escape_char(c, mode),
{
    let ghost start = out@;
    let cp = c as u32;
    assert(cp as nat == c as nat);
    if c == '"' {
        out.push(92u8);
        out.push(34u8);
    } else if c == '\\' {
        out.push(92u8);
        out.push(92u8);
    } else if c == '/' {
        match mode {
            Mode::Hash => {
                out.push(92u8);
                out.push(47u8);
            },
            Mode::Pretty => out.push(47u8),
        }
    } else if cp == 8 {
        out.push(92u8);
        out.push(98u8);
    } else if cp == 9 {
        out.push(92u8);
        out.push(116u8);
    } else if cp == 10 {
        out.push(92u8);
        out.push(110u8);
    } else if cp == 12 {
        out.push(92u8);
        out.push(102u8);
    } else if cp == 13 {
        out.push(92u8);
        out.push(114u8);
    } else if cp < 0x20 {
        write_unicode_escape(out, cp);
    } else if cp < 0x80 {
        out.push(cp as u8);
    } else {
        match mode {
            Mode::Hash => write_unicode_escape_full(out, cp),
            Mode::Pretty => {
                if cp == 0x2028 || cp == 0x2029 {
                    write_unicode_escape(out, cp);
                } else {
                    write_utf8(out, c);
                }
            },
        }
    }
    assert(out@ =~= start + escape_char(c, mode));
}

/// A string in double quotes, each character escaped.
fn write_string(out: &mut Vec<u8>, s: &String, mode: Mode)
    ensures
        final(out)@ == old(out)@ + quoted(s@, mode),
{
    let ghost start = out@;
    let cs = string_chars(s);
    out.push(34u8);
    let mut k: usize = 0;
    while k < cs.len()
        invariant
            k <= cs.len(),
            out@ == start + seq![34u8] + escape_str(cs@.take(k as int), mode),
        decreases cs.len() - k,
    {
        assert(cs@.take(k + 1).drop_last() =~= cs@.take(k as int));
        write_char_escaped(out, cs[k], mode);
        k += 1;
        assert(out@ =~= start + seq![34u8] + escape_str(cs@.take(k as int), mode));
    }
    assert(cs@.take(cs.len() as int) =~= cs@);
    out.push(34u8);
    assert(out@ =~= start + quoted(s@, mode));
}

/// Decimal text of an integer.
fn int_text_exec(i: i64) -> (r: Vec<char>)
    ensures
        r@ == int_text(i as int),
{
    if i < 0 {
        let m: u64 = (-(i as i128)) as u64;
        let mut r: Vec<char> = Vec::new();
        r.push('-');
        let d = dec_chars(m);
        let mut k: usize = 0;
        while k < d.len()
            invariant
                k <= d.len(),
                r@ == seq!['-'] + d@.take(k as int),
            decreases d.len() - k,
        {
            r.push(d[k]);
            k += 1;
            assert(r@ =~= seq!['-'] + d@.take(k as int));
        }
        assert(d@.take(d.len() as int) =~= d@);
        r
    } else {
        dec_chars(i as u64)
    }
}

/// A number: integers in plain decimal, floats as their rendered text.
fn write_number(out: &mut Vec<u8>, n: &JsonNumber)
    ensures
        final(out)@ == old(out)@ + match n {
            JsonNumber::Int(i) => utf8_str(int_text(*i as int)),
            JsonNumber::UInt(u) => utf8_str(int_text(*u as int)),
            JsonNumber::Float(t) => utf8_str(t@),
        },
{
    match n {
        JsonNumber::Int(i) => write_text(out, &int_text_exec(*i)),
        JsonNumber::UInt(u) => write_text(out, &dec_chars(*u)),
        JsonNumber::Float(t) => write_text(out, &string_chars(t)),
    }
}

/// Four spaces per level.
fn indent(out: &mut Vec<u8>, depth: usize)
    ensures
        final(out)@ == old(out)@ + spaces(depth as nat),
{
    let ghost start = out@;
    let mut k: usize = 0;
    while k < depth
        invariant
            k <= depth,
            out@ =~= start + spaces(k as nat),
        decreases depth - k,
    {
        out.push(32u8);
        out.push(32u8);
        out.push(32u8);
        out.push(32u8);
        k += 1;
        assert(out@ =~= start + spaces(k as nat));
    }
}

fn write_value(out: &mut Vec<u8>, v: &JsonValue, mode: Mode, depth: usize)
    requires
        depth + height(v.model()) <= usize::MAX,
    ensures
        final(out)@ == old(out)@ + enc(v.model(), mode, depth as nat),
    decreases v,
{
    let ghost start = out@;
    match v {
        JsonValue::Null => {
            out.push(110u8);
            out.push(117u8);
            out.push(108u8);
            out.push(108u8);
        },
        JsonValue::Bool(b) => {
            if *b {
                out.push(116u8);
                out.push(114u8);
                out.push(117u8);
                out.push(101u8);
            } else {
                out.push(102u8);
                out.push(97u8);
                out.push(108u8);
                out.push(115u8);
                out.push(101u8);
            }
        },
        JsonValue::Number(n) => write_number(out, n),
        JsonValue::String(s) => write_string(out, s, mode),
        JsonValue::Array(a) => write_array(out, a, mode, depth),
        JsonValue::Object(o) => write_object(out, o, mode, depth),
    }
    assert(out@ =~= start + enc(v.model(), mode, depth as nat));
}

#[verifier::rlimit(40)]
#[verifier::spinoff_prover]
fn write_array(out: &mut Vec<u8>, a: &Vec<JsonValue>, mode: Mode, depth: usize)
    requires
        depth + 1 + items_height(values_model(a@)) <= usize::MAX,
    ensures
        final(out)@ == old(out)@ + enc(Json::Array(values_model(a@)), mode, depth as nat),
    decreases a,
{
    let ghost start = out@;
    let ghost ms = values_model(a@);
    proof {
        lemma_values_model(a@);
    }
    if a.len() == 0 {
        out.push(91u8);
        out.push(93u8);
        assert(out@ =~= start + enc(Json::Array(ms), mode, depth as nat));
        return;
    }
    out.push(91u8);
    let mut k: usize = 0;
    while k < a.len()
        invariant
            k <= a.len(),
            ms == values_model(a@),
            ms.len() == a.len(),
            forall|i: int| 0 <= i < a.len() ==> #[trigger] ms[i] == a@[i].model(),
            depth + 1 + items_height(ms) <= usize::MAX,
            out@ == start + seq![91u8] + enc_items(ms.take(k as int), mode, depth as nat),
        decreases a.len() - k,
    {
        let ghost before = out@;
        assert(ms.take(k + 1).drop_last() =~= ms.take(k as int));
        assert(ms.take(k + 1).last() == a@[k as int].model());
        if k > 0 {
            out.push(44u8);
        }
        match mode {
            Mode::Pretty => {
                out.push(10u8);
                indent(out, depth + 1);
            },
            Mode::Hash => {},
        }
        assert(out@ =~= before + lead(k as int, mode, depth as nat));
        proof {
            lemma_items_height(ms, k as int);
        }
        write_value(out, &a[k], mode, depth + 1);
        k += 1;
        assert(out@ =~= start + seq![91u8] + enc_items(ms.take(k as int), mode, depth as nat));
    }
    assert(ms.take(a.len() as int) =~= ms);
    let ghost body = out@;
    match mode {
        Mode::Pretty => {
            out.push(10u8);
            indent(out, depth);
        },
        Mode::Hash => {},
    }
    out.push(93u8);
    assert(out@ =~= body + close(mode, depth as nat) + seq![93u8]);
    assert(out@ =~= start + enc(Json::Array(ms), mode, depth as nat));
}

#[verifier::rlimit(40)]
#[verifier::spinoff_prover]
fn write_object(out: &mut Vec<u8>, o: &JsonMap, mode: Mode, depth: usize)
    requires
        depth + 1 + entries_height(o.model()) <= usize::MAX,
    ensures
        final(out)@ == old(out)@ + enc(Json::Object(o.model()), mode, depth as nat),
    decreases o,
{
    let ghost start = out@;
    let ghost es = o.model();
    let ents = &o.entries;
    proof {
        lemma_entries_model(ents@);
    }
    if ents.len() == 0 {
        out.push(123u8);
        out.push(125u8);
        assert(out@ =~= start + enc(Json::Object(es), mode, depth as nat));
        return;
    }
    out.push(123u8);
    let mut k: usize = 0;
    while k < ents.len()
        invariant
            k <= ents.len(),
            ents == &o.entries,
            es == entries_model(ents@),
            es.len() == ents.len(),
            forall|i: int| 0 <= i < ents.len() ==> #[trigger] es[i] == (ents@[i].0@, ents@[i].1.model()),
            depth + 1 + entries_height(es) <= usize::MAX,
            out@ == start + seq![123u8] + enc_entries(es.take(k as int), mode, depth as nat),
        decreases ents.len() - k,
    {
        let ghost before = out@;
        assert(es.take(k + 1).drop_last() =~= es.take(k as int));
        assert(es.take(k + 1).last() == es[k as int]);
        if k > 0 {
            out.push(44u8);
        }
        match mode {
            Mode::Pretty => {
                out.push(10u8);
                indent(out, depth + 1);
            },
            Mode::Hash => {},
        }
        assert(out@ =~= before + lead(k as int, mode, depth as nat));
        let entry = &ents[k];
        write_string(out, &entry.0, mode);
        match mode {
            Mode::Pretty => {
                out.push(58u8);
                out.push(32u8);
            },
            Mode::Hash => out.push(58u8),
        }
        proof {
            lemma_entries_height(es, k as int);
        }
        write_value(out, &entry.1, mode, depth + 1);
        k += 1;
        assert(out@ =~= start + seq![123u8] + enc_entries(es.take(k as int), mode, depth as nat));
    }
    assert(es.take(ents.len() as int) =~= es);
    let ghost body = out@;
    match mode {
        Mode::Pretty => {
            out.push(10u8);
            indent(out, depth);
        },
        Mode::Hash => {},
    }
    out.push(125u8);
    assert(out@ =~= body + close(mode, depth as nat) + seq![125u8]);
    assert(out@ =~= start + enc(Json::Object(es), mode, depth as nat));
}

/// Encode a value to the bytes PHP's `json_encode` produces for `mode`.
///
/// Values nested deeper than `usize::MAX` levels cannot exist in memory
/// and are left out.
pub fn encode(value: &JsonValue, mode: Mode) -> (r: Vec<u8>)
    requires
        height(value.model()) <= usize::MAX,
    ensures
        r@ == enc(value.model(), mode, 0),
{
    let mut out: Vec<u8> = Vec::new();
    write_value(&mut out, value, mode, 0);
    assert(out@ =~= seq![] + enc(value.model(), mode, 0));
    out
}

// ---- `Hash` output is ASCII ----------------------------------------------------

pub open spec fn ascii_bytes(b: Seq<u8>) -> bool {
    forall|i: int| 0 <= i < b.len() ==> #[trigger] b[i] < 128
}

pub open spec fn ascii_text(t: Seq<char>) -> bool {
    forall|i: int| 0 <= i < t.len() ==> (#[trigger] t[i] as nat) < 128
}

/// Every float rendering inside the value is ASCII.
pub open spec fn ascii_floats(j: Json) -> bool
    decreases j,
{
    match j {
        Json::Float(t) => ascii_text(t),
        Json::Array(xs) => items_ascii_floats(xs),
        Json::Object(es) => entries_ascii_floats(es),
        _ => true,
    }
}

pub open spec fn items_ascii_floats(xs: Seq<Json>) -> bool
    decreases xs,
{
    if xs.len() == 0 {
        true
    } else {
        items_ascii_floats(xs.drop_last()) && ascii_floats(xs.last())
    }
}

pub open spec fn entries_ascii_floats(es: Seq<(Seq<char>, Json)>) -> bool
    decreases es,
{
    if es.len() == 0 {
        true
    } else {
        proof {
            assert(decreases_to!(es => es[es.len() - 1]));
        }
        entries_ascii_floats(es.drop_last()) && ascii_floats(es.last().1)
    }
}

pub proof fn lemma_ascii_concat(a: Seq<u8>, b: Seq<u8>)
    requires
        ascii_bytes(a),
        ascii_bytes(b),
    ensures
        ascii_bytes(a + b),
{
    assert forall|i: int| 0 <= i < (a + b).len() implies #[trigger] (a + b)[i] < 128 by {
        if i < a.len() {
            assert((a + b)[i] == a[i]);
        } else {
            assert((a + b)[i] == b[i - a.len()]);
        }
    }
}

pub proof fn lemma_u_escape_ascii(code: nat)
    ensures
        ascii_bytes(u_escape(code)),
{
    assert(ascii_bytes(u_escape(code)));
}

pub proof fn lemma_escape_char_ascii(c: char)
    ensures
        ascii_bytes(escape_char(c, Mode::Hash)),
{
    let cp = c as nat;
    if cp >= 0x80 && cp > 0xFFFF {
        lemma_u_escape_ascii((0xD800 + (cp - 0x10000) / 1024) as nat);
        lemma_u_escape_ascii((0xDC00 + (cp - 0x10000) % 1024) as nat);
        lemma_ascii_concat(
            u_escape((0xD800 + (cp - 0x10000) / 1024) as nat),
            u_escape((0xDC00 + (cp - 0x10000) % 1024) as nat),
        );
    } else {
        lemma_u_escape_ascii(cp);
    }
}

proof fn lemma_escape_str_ascii(s: Seq<char>)
    ensures
        ascii_bytes(escape_str(s, Mode::Hash)),
    decreases s.len(),
{
    if s.len() > 0 {
        lemma_escape_str_ascii(s.drop_last());
        lemma_escape_char_ascii(s.last());
        lemma_ascii_concat(escape_str(s.drop_last(), Mode::Hash), escape_char(s.last(), Mode::Hash));
    }
}

proof fn lemma_quoted_ascii(s: Seq<char>)
    ensures
        ascii_bytes(quoted(s, Mode::Hash)),
{
    lemma_escape_str_ascii(s);
    lemma_ascii_concat(seq![34u8], escape_str(s, Mode::Hash));
    lemma_ascii_concat(seq![34u8] + escape_str(s, Mode::Hash), seq![34u8]);
}

proof fn lemma_utf8_str_ascii(t: Seq<char>)
    requires
        ascii_text(t),
    ensures
        ascii_bytes(utf8_str(t)),
    decreases t.len(),
{
    if t.len() > 0 {
        let d = t.drop_last();
        assert forall|i: int| 0 <= i < d.len() implies (#[trigger] d[i] as nat) < 128 by {
            assert(d[i] == t[i]);
        }
        lemma_utf8_str_ascii(d);
        assert((t.last() as nat) < 128);
        lemma_ascii_concat(utf8_str(d), utf8(t.last()));
    }
}

proof fn lemma_dec_ascii(n: nat)
    ensures
        ascii_text(dec(n)),
    decreases n,
{
    if n >= 10 {
        lemma_dec_ascii(n / 10);
        let d = dec(n / 10);
        let c = (((n % 10) + 48) as u8) as char;
        assert forall|i: int| 0 <= i < d.push(c).len() implies (#[trigger] d.push(c)[i] as nat) < 128 by {
            if i < d.len() {
                assert(d.push(c)[i] == d[i]);
            }
        }
    }
}

proof fn lemma_int_text_ascii(i: int)
    ensures
        ascii_text(int_text(i)),
{
    if i < 0 {
        lemma_dec_ascii((-i) as nat);
        let d = dec((-i) as nat);
        assert forall|k: int| 0 <= k < (seq!['-'] + d).len() implies (#[trigger] (seq!['-'] + d)[k] as nat) < 128 by {
            if k > 0 {
                assert((seq!['-'] + d)[k] == d[k - 1]);
            }
        }
    } else {
        lemma_dec_ascii(i as nat);
    }
}

proof fn lemma_enc_ascii(j: Json, depth: nat)
    requires
        ascii_floats(j),
    ensures
        ascii_bytes(enc(j, Mode::Hash, depth)),
    decreases j,
{
    match j {
        Json::Integer(i) => {
            lemma_int_text_ascii(i);
            lemma_utf8_str_ascii(int_text(i));
        },
        Json::Float(t) => lemma_utf8_str_ascii(t),
        Json::Str(s) => lemma_quoted_ascii(s),
        Json::Array(xs) => {
            if xs.len() > 0 {
                lemma_items_ascii(xs, depth);
                lemma_ascii_concat(seq![91u8], enc_items(xs, Mode::Hash, depth));
                assert(close(Mode::Hash, depth) =~= seq![]);
                assert(seq![91u8] + enc_items(xs, Mode::Hash, depth) + close(Mode::Hash, depth) =~= seq![91u8] + enc_items(xs, Mode::Hash, depth));
                lemma_ascii_concat(seq![91u8] + enc_items(xs, Mode::Hash, depth), seq![93u8]);
            }
        },
        Json::Object(es) => {
            if es.len() > 0 {
                lemma_entries_ascii(es, depth);
                lemma_ascii_concat(seq![123u8], enc_entries(es, Mode::Hash, depth));
                assert(close(Mode::Hash, depth) =~= seq![]);
                assert(seq![123u8] + enc_entries(es, Mode::Hash, depth) + close(Mode::Hash, depth) =~= seq![123u8] + enc_entries(es, Mode::Hash, depth));
                lemma_ascii_concat(seq![123u8] + enc_entries(es, Mode::Hash, depth), seq![125u8]);
            }
        },
        _ => {},
    }
}

proof fn lemma_lead_ascii(i: int, depth: nat)
    ensures
        ascii_bytes(lead(i, Mode::Hash, depth)),
{
    if i > 0 {
        assert(lead(i, Mode::Hash, depth) =~= seq![44u8]);
    } else {
        assert(lead(i, Mode::Hash, depth) =~= seq![]);
    }
}

proof fn lemma_items_ascii(xs: Seq<Json>, depth: nat)
    requires
        items_ascii_floats(xs),
    ensures
        ascii_bytes(enc_items(xs, Mode::Hash, depth)),
    decreases xs,
{
    if xs.len() > 0 {
        lemma_items_ascii(xs.drop_last(), depth);
        lemma_enc_ascii(xs.last(), depth + 1);
        lemma_lead_ascii(xs.len() - 1, depth);
        lemma_ascii_concat(enc_items(xs.drop_last(), Mode::Hash, depth), lead(xs.len() - 1, Mode::Hash, depth));
        lemma_ascii_concat(
            enc_items(xs.drop_last(), Mode::Hash, depth) + lead(xs.len() - 1, Mode::Hash, depth),
            enc(xs.last(), Mode::Hash, depth + 1),
        );
    }
}

proof fn lemma_entries_ascii(es: Seq<(Seq<char>, Json)>, depth: nat)
    requires
        entries_ascii_floats(es),
    ensures
        ascii_bytes(enc_entries(es, Mode::Hash, depth)),
    decreases es,
{
    if es.len() > 0 {
        let d = es.drop_last();
        let e = es.last();
        assert(decreases_to!(es => es[es.len() - 1]));
        lemma_entries_ascii(d, depth);
        lemma_enc_ascii(e.1, depth + 1);
        lemma_lead_ascii(es.len() - 1, depth);
        lemma_quoted_ascii(e.0);
        let p1 = enc_entries(d, Mode::Hash, depth) + lead(es.len() - 1, Mode::Hash, depth);
        lemma_ascii_concat(enc_entries(d, Mode::Hash, depth), lead(es.len() - 1, Mode::Hash, depth));
        lemma_ascii_concat(p1, quoted(e.0, Mode::Hash));
        assert(ascii_bytes(colon(Mode::Hash)));
        lemma_ascii_concat(p1 + quoted(e.0, Mode::Hash), colon(Mode::Hash));
        lemma_ascii_concat(p1 + quoted(e.0, Mode::Hash) + colon(Mode::Hash), enc(e.1, Mode::Hash, depth + 1));
    }
}

/// In `Hash` mode the output is pure ASCII: every character at or above
/// 0x80 is escaped as `\uXXXX`. Stated for values whose float renderings
/// are ASCII, as Rust's float formatting always is.
pub proof fn law_hash_output_is_ascii(j: Json)
    requires
        ascii_floats(j),
    ensures
        ascii_bytes(enc(j, Mode::Hash, 0)),
{
    lemma_enc_ascii(j, 0);
}

// ---- the output is UTF-8 ----------------------------------------------------------

/// The bytes are the UTF-8 encoding of some text.
pub open spec fn is_utf8(b: Seq<u8>) -> bool {
    exists|t: Seq<char>| #[trigger] utf8_str(t) == b
}

pub proof fn lemma_utf8_str_concat(s: Seq<char>, t: Seq<char>)
    ensures
        utf8_str(s + t) == utf8_str(s) + utf8_str(t),
    decreases t.len(),
{
    if t.len() == 0 {
        assert(s + t =~= s);
    } else {
        assert((s + t).drop_last() =~= s + t.drop_last());
        assert((s + t).last() == t.last());
        lemma_utf8_str_concat(s, t.drop_last());
    }
}

proof fn lemma_utf8_concat(a: Seq<u8>, b: Seq<u8>)
    requires
        is_utf8(a),
        is_utf8(b),
    ensures
        is_utf8(a + b),
{
    let s = choose|t: Seq<char>| #[trigger] utf8_str(t) == a;
    let t = choose|t: Seq<char>| #[trigger] utf8_str(t) == b;
    lemma_utf8_str_concat(s, t);
    assert(utf8_str(s + t) == a + b);
}

/// The characters whose codes are the given ASCII bytes.
pub open spec fn ascii_chars(b: Seq<u8>) -> Seq<char> {
    Seq::new(b.len(), |i: int| b[i] as char)
}

pub proof fn lemma_ascii_utf8(b: Seq<u8>)
    requires
        ascii_bytes(b),
    ensures
        utf8_str(ascii_chars(b)) == b,
        is_utf8(b),
    decreases b.len(),
{
    if b.len() > 0 {
        let d = b.drop_last();
        assert(ascii_bytes(d)) by {
            assert forall|i: int| 0 <= i < d.len() implies #[trigger] d[i] < 128 by {
                assert(d[i] == b[i]);
            }
        }
        lemma_ascii_utf8(d);
        assert(ascii_chars(b).drop_last() =~= ascii_chars(d));
        let last = b[b.len() - 1];
        assert(last < 128);
        assert(ascii_chars(b).last() == last as char);
        assert(((last as char) as nat) == last as nat);
        assert(utf8(last as char) =~= seq![last]);
        assert(b =~= d.push(last));
    } else {
        assert(ascii_chars(b) =~= seq![]);
        assert(b =~= seq![]);
    }
    assert(utf8_str(ascii_chars(b)) == b);
}

proof fn lemma_utf8_of_char(c: char)
    ensures
        is_utf8(utf8(c)),
{
    let one = seq![c];
    let none: Seq<char> = seq![];
    assert(one.drop_last() =~= none);
    assert(one.last() == c);
    assert(utf8_str(none) == Seq::<u8>::empty());
    assert(utf8_str(one) == utf8_str(none) + utf8(c));
    assert(utf8_str(one) =~= utf8(c));
}

proof fn lemma_text_utf8(t: Seq<char>)
    ensures
        is_utf8(utf8_str(t)),
{
}

proof fn lemma_escape_char_utf8(c: char, mode: Mode)
    ensures
        is_utf8(escape_char(c, mode)),
{
    let cp = c as nat;
    if mode == Mode::Hash {
        lemma_escape_char_ascii(c);
        lemma_ascii_utf8(escape_char(c, mode));
    } else if cp >= 0x80 && cp != 0x2028 && cp != 0x2029 {
        lemma_utf8_of_char(c);
    } else {
        lemma_u_escape_ascii(cp);
        lemma_ascii_utf8(escape_char(c, mode));
    }
}

proof fn lemma_escape_str_utf8(s: Seq<char>, mode: Mode)
    ensures
        is_utf8(escape_str(s, mode)),
    decreases s.len(),
{
    if s.len() > 0 {
        lemma_escape_str_utf8(s.drop_last(), mode);
        lemma_escape_char_utf8(s.last(), mode);
        lemma_utf8_concat(escape_str(s.drop_last(), mode), escape_char(s.last(), mode));
    } else {
        lemma_ascii_utf8(escape_str(s, mode));
    }
}

proof fn lemma_ascii_piece(b: Seq<u8>)
    requires
        ascii_bytes(b),
    ensures
        is_utf8(b),
{
    lemma_ascii_utf8(b);
}

proof fn lemma_quoted_utf8(s: Seq<char>, mode: Mode)
    ensures
        is_utf8(quoted(s, mode)),
{
    lemma_escape_str_utf8(s, mode);
    lemma_ascii_piece(seq![34u8]);
    lemma_utf8_concat(seq![34u8], escape_str(s, mode));
    lemma_utf8_concat(seq![34u8] + escape_str(s, mode), seq![34u8]);
}

proof fn lemma_layout_utf8(i: int, mode: Mode, depth: nat)
    ensures
        is_utf8(lead(i, mode, depth)),
        is_utf8(close(mode, depth)),
        is_utf8(colon(mode)),
{
    assert(ascii_bytes(spaces(depth + 1)));
    assert(ascii_bytes(spaces(depth)));
    assert(ascii_bytes(seq![10u8]));
    lemma_ascii_concat(seq![10u8], spaces(depth + 1));
    lemma_ascii_concat(seq![10u8], spaces(depth));
    let a: Seq<u8> = if i > 0 {
        seq![44u8]
    } else {
        seq![]
    };
    let b: Seq<u8> = if mode == Mode::Pretty {
        seq![10u8] + spaces(depth + 1)
    } else {
        seq![]
    };
    assert(ascii_bytes(a));
    assert(ascii_bytes(b));
    lemma_ascii_concat(a, b);
    assert(lead(i, mode, depth) == a + b);
    lemma_ascii_piece(lead(i, mode, depth));
    assert(ascii_bytes(close(mode, depth)));
    lemma_ascii_piece(close(mode, depth));
    assert(ascii_bytes(colon(mode)));
    lemma_ascii_piece(colon(mode));
}

proof fn lemma_enc_utf8(j: Json, mode: Mode, depth: nat)
    ensures
        is_utf8(enc(j, mode, depth)),
    decreases j,
{
    match j {
        Json::Integer(i) => lemma_text_utf8(int_text(i)),
        Json::Float(t) => lemma_text_utf8(t),
        Json::Str(s) => lemma_quoted_utf8(s, mode),
        Json::Array(xs) => {
            if xs.len() > 0 {
                lemma_items_utf8(xs, mode, depth);
                lemma_layout_utf8(0, mode, depth);
                lemma_ascii_piece(seq![91u8]);
                lemma_ascii_piece(seq![93u8]);
                lemma_utf8_concat(seq![91u8], enc_items(xs, mode, depth));
                lemma_utf8_concat(seq![91u8] + enc_items(xs, mode, depth), close(mode, depth));
                lemma_utf8_concat(seq![91u8] + enc_items(xs, mode, depth) + close(mode, depth), seq![93u8]);
            } else {
                lemma_ascii_piece(seq![91u8, 93u8]);
            }
        },
        Json::Object(es) => {
            if es.len() > 0 {
                lemma_entries_utf8(es, mode, depth);
                lemma_layout_utf8(0, mode, depth);
                lemma_ascii_piece(seq![123u8]);
                lemma_ascii_piece(seq![125u8]);
                lemma_utf8_concat(seq![123u8], enc_entries(es, mode, depth));
                lemma_utf8_concat(seq![123u8] + enc_entries(es, mode, depth), close(mode, depth));
                lemma_utf8_concat(seq![123u8] + enc_entries(es, mode, depth) + close(mode, depth), seq![125u8]);
            } else {
                lemma_ascii_piece(seq![123u8, 125u8]);
            }
        },
        Json::Null => lemma_ascii_piece(seq![110u8, 117u8, 108u8, 108u8]),
        Json::Bool(b) => {
            lemma_ascii_piece(seq![116u8, 114u8, 117u8, 101u8]);
            lemma_ascii_piece(seq![102u8, 97u8, 108u8, 115u8, 101u8]);
        },
    }
}

proof fn lemma_items_utf8(xs: Seq<Json>, mode: Mode, depth: nat)
    ensures
        is_utf8(enc_items(xs, mode, depth)),
    decreases xs,
{
    if xs.len() > 0 {
        lemma_items_utf8(xs.drop_last(), mode, depth);
        lemma_enc_utf8(xs.last(), mode, depth + 1);
        lemma_layout_utf8(xs.len() - 1, mode, depth);
        lemma_utf8_concat(enc_items(xs.drop_last(), mode, depth), lead(xs.len() - 1, mode, depth));
        lemma_utf8_concat(
            enc_items(xs.drop_last(), mode, depth) + lead(xs.len() - 1, mode, depth),
            enc(xs.last(), mode, depth + 1),
        );
    } else {
        lemma_ascii_piece(enc_items(xs, mode, depth));
    }
}

proof fn lemma_entries_utf8(es: Seq<(Seq<char>, Json)>, mode: Mode, depth: nat)
    ensures
        is_utf8(enc_entries(es, mode, depth)),
    decreases es,
{
    if es.len() > 0 {
        let d = es.drop_last();
        let e = es.last();
        assert(decreases_to!(es => es[es.len() - 1]));
        lemma_entries_utf8(d, mode, depth);
        lemma_enc_utf8(e.1, mode, depth + 1);
        lemma_layout_utf8(es.len() - 1, mode, depth);
        lemma_quoted_utf8(e.0, mode);
        let p1 = enc_entries(d, mode, depth) + lead(es.len() - 1, mode, depth);
        lemma_utf8_concat(enc_entries(d, mode, depth), lead(es.len() - 1, mode, depth));
        lemma_utf8_concat(p1, quoted(e.0, mode));
        lemma_utf8_concat(p1 + quoted(e.0, mode), colon(mode));
        lemma_utf8_concat(p1 + quoted(e.0, mode) + colon(mode), enc(e.1, mode, depth + 1));
    } else {
        lemma_ascii_piece(enc_entries(es, mode, depth));
    }
}

/// In both modes the output is valid UTF-8: the UTF-8 encoding of some
/// text.
pub proof fn law_output_is_utf8(j: Json, mode: Mode)
    ensures
        is_utf8(enc(j, mode, 0)),
{
    lemma_enc_utf8(j, mode, 0);
}

} // verus!
