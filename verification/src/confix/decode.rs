//! Decoding the payload a token spans: CBOR heads and scalars, and quoted text with escapes.
use vstd::prelude::*;

use super::cbor_scan::{be_nat, lemma_be_nat_bound, pow256};
use super::tree::RowNode;
use super::yaml_text::{is_float_range, is_float_text};
use super::{IoMemento, RowVec};
use crate::item::json::escape_text;
use vstd::utf8::{decode_utf8, valid_utf8};
use crate::text::{utf8_lossy, utf8_lossy_chars};

verus! {

// ── CBOR heads ──────────────────────────────────────────────────────────────

/// The argument width of additional information 24..=27.
pub open spec fn arg_width(ai: u8) -> int {
    if ai == 24 {
        1
    } else if ai == 25 {
        2
    } else if ai == 26 {
        4
    } else {
        8
    }
}

/// The head of the data item at `open`: `(major type, argument, payload start)`, or `None`
/// where `open` is past the end, the argument runs past the end, or the additional
/// information is 28 or more.
pub open spec fn head_of(src: Seq<u8>, open: int) -> Option<(u8, u64, int)> {
    if open < 0 || open >= src.len() {
        None
    } else {
        let initial = src[open];
        let major = initial / 32;
        let ai = initial % 32;
        if ai <= 23 {
            Some((major, ai as u64, open + 1))
        } else if ai > 27 {
            None
        } else if open + 1 + arg_width(ai) > src.len() {
            None
        } else {
            Some(
                (
                    major,
                    be_nat(src.subrange(open + 1, open + 1 + arg_width(ai))) as u64,
                    open + 1 + arg_width(ai),
                ),
            )
        }
    }
}

/// The payload bytes of a definite-length string item of major type `major` at `open`.
pub open spec fn cbor_payload(src: Seq<u8>, open: int, major: u8) -> Option<Seq<u8>> {
    match head_of(src, open) {
        Some((m, v, p)) => if m != major || v > usize::MAX || p + v > src.len() {
            None
        } else {
            Some(src.subrange(p, p + v))
        },
        None => None,
    }
}

/// Bytes read one character per byte (`U+0000..=U+00FF`).
pub open spec fn latin1(bytes: Seq<u8>) -> Seq<char> {
    bytes.map_values(|b: u8| b as char)
}

/// The text of a CBOR text-string item at `open`, one character per payload byte.
pub open spec fn cbor_text(src: Seq<u8>, open: int) -> Option<Seq<char>> {
    match cbor_payload(src, open, 3) {
        Some(b) => Some(latin1(b)),
        None => None,
    }
}

/// The payload of a CBOR byte-string item at `open`.
pub open spec fn cbor_bytes(src: Seq<u8>, open: int) -> Option<Seq<u8>> {
    cbor_payload(src, open, 2)
}

/// The integer of a CBOR integer item at `open` (major type 0 or 1), where it fits an `i64`.
pub open spec fn cbor_long(src: Seq<u8>, open: int) -> Option<i64> {
    match head_of(src, open) {
        Some((m, v, p)) => if v > i64::MAX as u64 {
            None
        } else if m == 0 {
            Some(v as i64)
        } else if m == 1 {
            Some((-1 - v) as i64)
        } else {
            None
        },
        None => None,
    }
}

/// The `f64` bit pattern that exactly represents the `f32` with bit pattern `b`; a NaN
/// keeps its sign and payload and becomes quiet.
pub open spec fn widen_f32(b: u32) -> u64 {
    let sign = ((b >> 31u32) as u64) << 63u64;
    let exp = ((b >> 23u32) & 0xff) as u64;
    let frac = (b & 0x7f_ffff) as u64;
    if exp == 0xff {
        if frac == 0 {
            sign | 0x7ff0_0000_0000_0000
        } else {
            sign | 0x7ff8_0000_0000_0000 | (frac << 29u64)
        }
    } else if exp == 0 {
        if frac == 0 {
            sign
        } else {
            let p = high_bit(frac);
            sign | (((p + 874) as u64) << 52u64) | (((frac - pow2(p)) as u64) << ((52 - p) as u64))
        }
    } else {
        sign | (((exp + 896) as u64) << 52u64) | (frac << 29u64)
    }
}

/// `2^k`.
pub open spec fn pow2(k: nat) -> nat
    decreases k,
{
    if k == 0 {
        1
    } else {
        2 * pow2((k - 1) as nat)
    }
}

/// The position of the highest set bit of a positive value.
pub open spec fn high_bit(v: u64) -> nat
    decreases v,
{
    if v <= 1 {
        0
    } else {
        1 + high_bit(v / 2)
    }
}

/// The `f64` bit pattern of a CBOR single- or double-precision float item at `open`.
pub open spec fn cbor_float(src: Seq<u8>, open: int) -> Option<u64> {
    if open < 0 || open >= src.len() || src[open] / 32 != 7 {
        None
    } else if src[open] % 32 == 26 {
        if open + 5 > src.len() {
            None
        } else {
            Some(widen_f32(be_nat(src.subrange(open + 1, open + 5)) as u32))
        }
    } else if src[open] % 32 == 27 {
        if open + 9 > src.len() {
            None
        } else {
            Some(be_nat(src.subrange(open + 1, open + 9)) as u64)
        }
    } else {
        None
    }
}

// ── text spans ──────────────────────────────────────────────────────────────

/// A hexadecimal digit's value.
pub open spec fn hex_value(c: char) -> Option<u32> {
    if '0' <= c <= '9' {
        Some((c as u32 - 48) as u32)
    } else if 'a' <= c <= 'f' {
        Some((c as u32 - 87) as u32)
    } else if 'A' <= c <= 'F' {
        Some((c as u32 - 55) as u32)
    } else {
        None
    }
}

/// The value of a run of hexadecimal digits.
pub open spec fn hex_run(cs: Seq<char>) -> Option<u32>
    decreases cs.len(),
{
    if cs.len() == 0 {
        Some(0)
    } else {
        match (hex_run(cs.drop_last()), hex_value(cs.last())) {
            (Some(a), Some(d)) => Some((a * 16 + d) as u32),
            _ => None,
        }
    }
}

/// Four characters read as an unsigned hexadecimal number the way `u32::from_str_radix`
/// reads them: an optional leading `+`, then digits only.
pub open spec fn hex4(cs: Seq<char>) -> Option<u32> {
    if cs.len() > 0 && cs[0] == '+' {
        hex_run(cs.drop_first())
    } else {
        hex_run(cs)
    }
}

/// The character of a `\u` escape: the scalar value, or U+FFFD for a surrogate.
pub open spec fn escape_char(h: u32) -> char {
    if h <= 0xD7FF || (0xE000 <= h && h <= 0x10FFFF) {
        h as char
    } else {
        '\u{FFFD}'
    }
}

/// The characters from position `i` on with JSON escapes resolved: `\"`, `\\`, `\/`,
/// `\n`, `\t`, `\r`, `\b`, `\f`, and `\uXXXX`; a backslash before anything else, or at
/// the end, stays as it is.
pub open spec fn unescape_from(cs: Seq<char>, i: int) -> Seq<char>
    decreases cs.len() - i,
{
    if i < 0 || i >= cs.len() {
        seq![]
    } else if cs[i] != '\\' || i + 1 >= cs.len() {
        seq![cs[i]] + unescape_from(cs, i + 1)
    } else {
        let c = cs[i + 1];
        if c == '"' || c == '\\' || c == '/' {
            seq![c] + unescape_from(cs, i + 2)
        } else if c == 'n' {
            seq!['\n'] + unescape_from(cs, i + 2)
        } else if c == 't' {
            seq!['\t'] + unescape_from(cs, i + 2)
        } else if c == 'r' {
            seq!['\r'] + unescape_from(cs, i + 2)
        } else if c == 'b' {
            seq!['\u{8}'] + unescape_from(cs, i + 2)
        } else if c == 'f' {
            seq!['\u{c}'] + unescape_from(cs, i + 2)
        } else if c == 'u' && i + 5 < cs.len() && hex4(cs.subrange(i + 2, i + 6)) is Some {
            seq![escape_char(hex4(cs.subrange(i + 2, i + 6)).unwrap())] + unescape_from(cs, i + 6)
        } else {
            seq!['\\'] + unescape_from(cs, i + 1)
        }
    }
}

/// Resolving escapes from position `i + j` of `cs` reads only what follows: it is resolving
/// them from position `i` of `cs` with its first `j` characters dropped.
proof fn lemma_unescape_shift(cs: Seq<char>, j: int, i: int)
    requires
        0 <= j <= cs.len(),
        0 <= i,
    ensures
        unescape_from(cs, i + j) == unescape_from(cs.skip(j), i),
    decreases cs.len() - i - j,
{
    let ds = cs.skip(j);
    if i + j < cs.len() {
        assert(ds[i] == cs[i + j]);
        if cs[i + j] != '\\' || i + j + 1 >= cs.len() {
            lemma_unescape_shift(cs, j, i + 1);
        } else {
            assert(ds[i + 1] == cs[i + j + 1]);
            lemma_unescape_shift(cs, j, i + 1);
            lemma_unescape_shift(cs, j, i + 2);
            if i + j + 5 < cs.len() {
                assert(cs.subrange(i + j + 2, i + j + 6) =~= ds.subrange(i + 2, i + 6));
                lemma_unescape_shift(cs, j, i + 6);
            }
        }
    }
}

/// JSON escaping distributes over concatenation.
proof fn lemma_escape_text_concat(a: Seq<char>, b: Seq<char>)
    ensures
        escape_text(a + b) == escape_text(a) + escape_text(b),
    decreases b.len(),
{
    if b.len() == 0 {
        assert(a + b =~= a);
        assert(escape_text(a) + escape_text(b) =~= escape_text(a));
    } else {
        let c = b.last();
        assert((a + b).drop_last() =~= a + b.drop_last());
        assert((a + b).last() == c);
        lemma_escape_text_concat(a, b.drop_last());
        assert(escape_text(a) + escape_text(b) =~= escape_text(a) + escape_text(b.drop_last())
            + crate::item::json::escape_char(c));
    }
}

/// Decoding the UTF-8 bytes of JSON-escaped text gives the text back (see
/// `decode_text_span`): each quote, backslash, newline, carriage return and tab that
/// escaping wrote as a backslash pair decodes to that one character.
pub proof fn lemma_decode_escaped_bytes(t: Seq<char>)
    ensures
        vstd::utf8::valid_utf8(vstd::utf8::encode_utf8(escape_text(t))),
        unescape_from(decode_utf8(vstd::utf8::encode_utf8(escape_text(t))), 0) == t,
{
    vstd::utf8::encode_utf8_valid_utf8(escape_text(t));
    vstd::utf8::encode_utf8_decode_utf8(escape_text(t));
    lemma_unescape_escape_text(t);
}

/// Resolving the escapes of JSON-escaped text gives the text back: each quote,
/// backslash, newline, carriage return and tab that escaping wrote as a backslash pair
/// decodes to that one character, and every other character stands for itself.
pub proof fn lemma_unescape_escape_text(t: Seq<char>)
    ensures
        unescape_from(escape_text(t), 0) == t,
    decreases t.len(),
{
    if t.len() > 0 {
        let c = t[0];
        let rest = t.drop_first();
        assert(t =~= seq![c] + rest);
        lemma_escape_text_concat(seq![c], rest);
        assert(seq![c].drop_last() =~= Seq::<char>::empty());
        assert(seq![c].last() == c);
        assert(escape_text(Seq::<char>::empty()) =~= Seq::<char>::empty());
        assert(escape_text(seq![c]) == escape_text(seq![c].drop_last()) + crate::item::json::escape_char(c));
        assert(escape_text(seq![c]) =~= crate::item::json::escape_char(c));
        let e = crate::item::json::escape_char(c);
        let cs = e + escape_text(rest);
        lemma_unescape_escape_text(rest);
        lemma_unescape_shift(cs, e.len() as int, 0);
        assert(cs.skip(e.len() as int) =~= escape_text(rest));
        if c == '"' || c == '\\' || c == '\n' || c == '\r' || c == '\t' {
            assert(e.len() == 2);
            assert(cs[0] == '\\');
            lemma_unescape_shift(cs, 2, 0);
        } else {
            assert(e == seq![c]);
            assert(cs[0] == c);
            lemma_unescape_shift(cs, 1, 0);
        }
        assert(unescape_from(cs, 0) =~= seq![c] + rest);
    }
}

/// The text of the window `open..=close` (clipped to the source): its bytes decoded as
/// UTF-8 with `from_utf8_lossy`, escapes resolved. Empty where the window is empty or
/// starts past the end.
pub open spec fn text_span(src: Seq<u8>, open: int, close: int) -> Seq<char> {
    if close < open || open >= src.len() {
        seq![]
    } else {
        let end = if close < src.len() - 1 {
            close
        } else {
            src.len() - 1
        };
        unescape_from(utf8_lossy(src.subrange(open, end + 1)), 0)
    }
}

/// The bytes of the window `open..=close`, clipped to the source.
pub open spec fn span_bytes(src: Seq<u8>, open: int, close: int) -> Seq<u8> {
    if close < open || open >= src.len() {
        seq![]
    } else {
        let end = if close < src.len() - 1 {
            close
        } else {
            src.len() - 1
        };
        src.subrange(open, end + 1)
    }
}

/// The byte at `i`, or `d` past the end.
pub open spec fn byte_or(src: Seq<u8>, i: int, d: u8) -> u8 {
    if 0 <= i < src.len() {
        src[i]
    } else {
        d
    }
}

/// The wrapping decimal value of the digits at `i..=close`, accumulated onto `acc`; a byte
/// past the end counts as `0`, any other byte as its distance from `0`.
pub open spec fn digits_from(src: Seq<u8>, i: int, close: int, acc: i64) -> i64
    decreases close + 1 - i,
{
    if i > close {
        acc
    } else {
        let b = byte_or(src, i, 0x30);
        let d = vstd::wrapping::u8_specs::wrapping_sub(b, 0x30) as i64;
        digits_from(
            src,
            i + 1,
            close,
            vstd::wrapping::i64_specs::wrapping_add(vstd::wrapping::i64_specs::wrapping_mul(acc, 10), d),
        )
    }
}

/// The integer of the text `open..=close`: an optional leading `-`, then digits, with
/// wrapping arithmetic.
pub open spec fn span_long_of(src: Seq<u8>, open: int, close: int) -> i64 {
    if open <= close && byte_or(src, open, 0x2d) == 0x2d {
        vstd::wrapping::i64_specs::wrapping_sub(0, digits_from(src, open + 1, close, 0))
    } else {
        digits_from(src, open, close, 0)
    }
}

// ── executable ──────────────────────────────────────────────────────────────

/// Read `width` big-endian bytes at `pos`.
pub(crate) fn read_be(src: &[u8], pos: usize, width: usize) -> (v: u64)
    requires
        width <= 8,
        pos + width <= src@.len(),
    ensures
        v == be_nat(src@.subrange(pos as int, pos + width)),
{
    let n = src.len();
    let mut v: u64 = 0;
    let mut k: usize = 0;
    while k < width
        invariant
            n == src@.len(),
            k <= width,
            width <= 8,
            pos + width <= src@.len(),
            v == be_nat(src@.subrange(pos as int, pos + k)),
        decreases width - k,
    {
        proof {
            lemma_be_nat_bound(src@.subrange(pos as int, pos + k));
            lemma_pow256_le7(k as nat);
            assert(src@.subrange(pos as int, pos + k + 1).drop_last() == src@.subrange(
                pos as int,
                pos + k,
            ));
            assert(v < 0x100000000000000u64);
        }
        v = v * 256 + src[pos + k] as u64;
        k = k + 1;
    }
    v
}

proof fn lemma_pow256_le7(k: nat)
    requires
        k < 8,
    ensures
        pow256(k) <= 0x100000000000000nat,
{
    reveal_with_fuel(pow256, 8);
}

/// The head of the item at `open` (see `head_of`).
fn cbor_head(src: &[u8], open: usize) -> (r: Option<(u8, u64, usize)>)
    ensures
        match r {
            Some((m, v, p)) => head_of(src@, open as int) == Some((m, v, p as int)),
            None => head_of(src@, open as int) is None,
        },
{
    let n = src.len();
    if open >= n {
        return None;
    }
    let initial = src[open];
    let major = initial / 32;
    let ai = initial % 32;
    if ai <= 23 {
        Some((major, ai as u64, open + 1))
    } else if ai > 27 {
        None
    } else {
        let width: usize = if ai == 24 {
            1
        } else if ai == 25 {
            2
        } else if ai == 26 {
            4
        } else {
            8
        };
        if n - open - 1 < width {
            return None;
        }
        let v = read_be(src, open + 1, width);
        Some((major, v, open + 1 + width))
    }
}

/// The payload of a definite-length string item (see `cbor_payload`).
fn cbor_payload_range(src: &[u8], open: usize, major: u8) -> (r: Option<(usize, usize)>)
    ensures
        match r {
            Some((a, b)) => a <= b <= src@.len() && cbor_payload(src@, open as int, major) == Some(
                src@.subrange(a as int, b as int),
            ),
            None => cbor_payload(src@, open as int, major) is None,
        },
{
    match cbor_head(src, open) {
        None => None,
        Some((m, v, p)) => {
            if m != major || v > usize::MAX as u64 {
                return None;
            }
            let len = v as usize;
            if p > src.len() || src.len() - p < len {
                return None;
            }
            Some((p, p + len))
        },
    }
}

/// The text of a CBOR text-string item, one character per byte (see `cbor_text`).
pub fn decode_cbor_text(src: &[u8], open: usize) -> (r: Option<String>)
    ensures
        match r {
            Some(s) => cbor_text(src@, open as int) == Some(s@),
            None => cbor_text(src@, open as int) is None,
        },
{
    match cbor_payload_range(src, open, 3) {
        None => None,
        Some((a, b)) => {
            let mut out = String::new();
            let mut i = a;
            while i < b
                invariant
                    a <= i <= b <= src@.len(),
                    out@ == latin1(src@.subrange(a as int, i as int)),
                decreases b - i,
            {
                out.push(src[i] as char);
                i = i + 1;
                assert(out@ =~= latin1(src@.subrange(a as int, i as int)));
            }
            Some(out)
        },
    }
}

/// The payload of a CBOR byte-string item (see `cbor_bytes`).
pub fn decode_cbor_bytes(src: &[u8], open: usize) -> (r: Option<Vec<u8>>)
    ensures
        match r {
            Some(v) => cbor_bytes(src@, open as int) == Some(v@),
            None => cbor_bytes(src@, open as int) is None,
        },
{
    match cbor_payload_range(src, open, 2) {
        None => None,
        Some((a, b)) => {
            let mut out: Vec<u8> = Vec::new();
            let mut i = a;
            while i < b
                invariant
                    a <= i <= b <= src@.len(),
                    out@ == src@.subrange(a as int, i as int),
                decreases b - i,
            {
                out.push(src[i]);
                i = i + 1;
            }
            Some(out)
        },
    }
}

/// The integer of a CBOR integer item (see `cbor_long`).
pub fn decode_cbor_long(src: &[u8], open: usize) -> (r: Option<i64>)
    ensures
        r == cbor_long(src@, open as int),
{
    match cbor_head(src, open) {
        None => None,
        Some((m, v, _)) => {
            if v > i64::MAX as u64 {
                None
            } else if m == 0 {
                Some(v as i64)
            } else if m == 1 {
                Some(-1 - v as i64)
            } else {
                None
            }
        },
    }
}

proof fn lemma_high_bit(v: u64)
    requires
        v >= 1,
    ensures
        pow2(high_bit(v)) <= v < 2 * pow2(high_bit(v)),
    decreases v,
{
    if v > 1 {
        lemma_high_bit(v / 2);
    }
}

proof fn lemma_pow2_mono(a: nat, b: nat)
    requires
        a <= b,
    ensures
        pow2(a) <= pow2(b),
    decreases b,
{
    if a < b {
        lemma_pow2_mono(a, (b - 1) as nat);
    }
}

/// The position of the highest set bit of `frac` and that power of two.
pub(crate) fn high_bit_exec(frac: u64) -> (r: (u64, u64))
    requires
        1 <= frac < 0x80_0000,
    ensures
        r.0 == high_bit(frac),
        r.1 == pow2(r.0 as nat),
        r.1 <= frac,
        r.0 < 23,
{
    let mut p: u64 = 0;
    let mut pw: u64 = 1;
    let mut v = frac;
    while v > 1
        invariant
            1 <= v <= frac,
            frac < 0x80_0000,
            high_bit(frac) == p + high_bit(v),
            pw == pow2(p as nat),
            pw * v <= frac,
            p < 23,
        decreases v,
    {
        assert((pw * 2) * (v / 2) <= pw * v) by (nonlinear_arith)
            requires
                v > 1,
        ;
        proof {
            lemma_high_bit(frac);
            lemma_pow2_mono((p + 1) as nat, high_bit(frac));
            if high_bit(frac) >= 23 {
                lemma_pow2_mono(23, high_bit(frac));
                reveal_with_fuel(pow2, 24);
            }
        }
        v = v / 2;
        p = p + 1;
        pw = pw * 2;
    }
    proof {
        lemma_high_bit(frac);
    }
    (p, pw)
}

/// The `f64` bit pattern of the value of a binary16 bit pattern, which it represents
/// exactly; every NaN widens to the positive quiet NaN `0x7ff8_0000_0000_0000`.
pub open spec fn widen_f16(b: u16) -> u64 {
    let sign = ((b >> 15u16) as u64) << 63u64;
    let exp = ((b >> 10u16) & 0x1f) as u64;
    let frac = (b & 0x3ff) as u64;
    if exp == 0x1f {
        if frac == 0 {
            sign | 0x7ff0_0000_0000_0000
        } else {
            0x7ff8_0000_0000_0000
        }
    } else if exp == 0 {
        if frac == 0 {
            sign
        } else {
            let p = high_bit(frac);
            sign | (((p + 999) as u64) << 52u64) | (((frac - pow2(p)) as u64) << ((52 - p) as u64))
        }
    } else {
        sign | (((exp + 1008) as u64) << 52u64) | (frac << 42u64)
    }
}

/// See `widen_f16`.
pub(crate) fn widen_f16_exec(b: u16) -> (r: u64)
    ensures
        r == widen_f16(b),
{
    let sign = ((b >> 15u16) as u64) << 63u64;
    let exp = ((b >> 10u16) & 0x1f) as u64;
    let frac = (b & 0x3ff) as u64;
    if exp == 0x1f {
        if frac == 0 {
            sign | 0x7ff0_0000_0000_0000
        } else {
            0x7ff8_0000_0000_0000
        }
    } else if exp == 0 {
        if frac == 0 {
            sign
        } else {
            assert(frac < 0x400) by (bit_vector)
                requires
                    frac == (b & 0x3ff) as u64,
            ;
            let (p, pw) = high_bit_exec(frac);
            sign | ((p + 999) << 52u64) | ((frac - pw) << (52 - p))
        }
    } else {
        assert(exp < 0x20) by (bit_vector)
            requires
                exp == ((b >> 10u16) & 0x1f) as u64,
        ;
        sign | ((exp + 1008) << 52u64) | (frac << 42u64)
    }
}

/// See `widen_f32`.
pub(crate) fn widen_f32_exec(b: u32) -> (r: u64)
    ensures
        r == widen_f32(b),
{
    let sign = ((b >> 31u32) as u64) << 63u64;
    let exp = ((b >> 23u32) & 0xff) as u64;
    let frac = (b & 0x7f_ffff) as u64;
    if exp == 0xff {
        if frac == 0 {
            sign | 0x7ff0_0000_0000_0000
        } else {
            sign | 0x7ff8_0000_0000_0000 | (frac << 29u64)
        }
    } else if exp == 0 {
        if frac == 0 {
            sign
        } else {
            assert(frac < 0x80_0000) by (bit_vector)
                requires
                    frac == (b & 0x7f_ffff) as u64,
            ;
            let (p, pw) = high_bit_exec(frac);
            sign | ((p + 874) << 52u64) | ((frac - pw) << (52 - p))
        }
    } else {
        sign | ((exp + 896) << 52u64) | (frac << 29u64)
    }
}

/// The `f64` bit pattern of a CBOR float item (see `cbor_float`).
pub fn decode_cbor_float(src: &[u8], open: usize) -> (r: Option<u64>)
    ensures
        r == cbor_float(src@, open as int),
{
    let n = src.len();
    if open >= n || src[open] / 32 != 7 {
        return None;
    }
    let ai = src[open] % 32;
    if ai == 26 {
        if n - open < 5 {
            return None;
        }
        let bits = read_be(src, open + 1, 4);
        proof {
            lemma_be_nat_bound(src@.subrange(open + 1, open + 5));
            reveal_with_fuel(pow256, 5);
        }
        Some(widen_f32_exec(bits as u32))
    } else if ai == 27 {
        if n - open < 9 {
            return None;
        }
        Some(read_be(src, open + 1, 8))
    } else {
        None
    }
}

/// A hexadecimal digit's value (see `hex_value`).
fn hex_value_exec(c: char) -> (r: Option<u32>)
    ensures
        r == hex_value(c),
{
    if '0' <= c && c <= '9' {
        Some(c as u32 - 48)
    } else if 'a' <= c && c <= 'f' {
        Some(c as u32 - 87)
    } else if 'A' <= c && c <= 'F' {
        Some(c as u32 - 55)
    } else {
        None
    }
}

/// The four characters at `start` read as `u32::from_str_radix(.., 16)` reads them
/// (see `hex4`).
fn hex4_exec(cs: &Vec<char>, start: usize) -> (r: Option<u32>)
    requires
        start + 4 <= cs@.len(),
    ensures
        r == hex4(cs@.subrange(start as int, start + 4)),
{
    let ghost s = cs@.subrange(start as int, start + 4);
    let n = cs.len();
    let first = if cs[start] == '+' {
        start + 1
    } else {
        start
    };
    let ghost body = if cs[start as int] == '+' {
        s.drop_first()
    } else {
        s
    };
    assert(body =~= cs@.subrange(first as int, start + 4));
    let mut acc: u32 = 0;
    let mut j = first;
    while j < start + 4
        invariant
            n == cs@.len(),
            hex4(cs@.subrange(start as int, start + 4)) == hex_run(cs@.subrange(first as int, start + 4)),
            start <= first <= j <= start + 4,
            start + 4 <= cs@.len(),
            j - first <= 4,
            hex_run(cs@.subrange(first as int, j as int)) == Some(acc),
            acc < pow16((j - first) as nat),
        decreases start + 4 - j,
    {
        let ghost pre = cs@.subrange(first as int, j as int);
        assert(cs@.subrange(first as int, j + 1).drop_last() =~= pre);
        match hex_value_exec(cs[j]) {
            None => {
                proof {
                    lemma_hex_run_none(cs@.subrange(first as int, start + 4), (j - first) as int);
                }
                return None;
            },
            Some(d) => {
                proof {
                    reveal_with_fuel(pow16, 5);
                    assert(pow16((j - first) as nat) <= 0x1000) by {
                        lemma_pow16_le((j - first) as nat);
                    }
                }
                acc = acc * 16 + d;
                j = j + 1;
            },
        }
    }
    Some(acc)
}

/// `16^k`.
pub open spec fn pow16(k: nat) -> nat
    decreases k,
{
    if k == 0 {
        1
    } else {
        16 * pow16((k - 1) as nat)
    }
}

proof fn lemma_pow16_le(k: nat)
    requires
        k < 4,
    ensures
        pow16(k) <= 0x1000,
{
    reveal_with_fuel(pow16, 5);
}

proof fn lemma_hex_run_none(s: Seq<char>, j: int)
    requires
        0 <= j < s.len(),
        hex_value(s[j]) is None,
    ensures
        hex_run(s) is None,
    decreases s.len(),
{
    if j < s.len() - 1 {
        lemma_hex_run_none(s.drop_last(), j);
    }
}

/// The text of the window `open..=close`: its bytes decoded as UTF-8 (ill-formed sequences
/// become U+FFFD), JSON escapes resolved (see `text_span`).
pub fn decode_text_span(src: &[u8], open: usize, close: usize) -> (r: String)
    ensures
        r@ == text_span(src@, open as int, close as int),
        open <= close && open < src@.len() && valid_utf8(span_bytes(src@, open as int, close as int))
            ==> r@ == unescape_from(decode_utf8(span_bytes(src@, open as int, close as int)), 0),
{
    let n = src.len();
    if close < open || open >= n {
        return String::new();
    }
    let end = if close < n - 1 {
        close
    } else {
        n - 1
    };
    let mut raw: Vec<u8> = Vec::new();
    let mut k = open;
    while k <= end
        invariant
            open <= k <= end + 1,
            end < n,
            n == src@.len(),
            raw@ == src@.subrange(open as int, k as int),
        decreases end + 1 - k,
    {
        raw.push(src[k]);
        k = k + 1;
    }
    let cs = utf8_lossy_chars(raw.as_slice());
    let len = cs.len();
    let mut out = String::new();
    let mut i: usize = 0;
    while i < len
        invariant
            i <= len,
            len == cs@.len(),
            out@ + unescape_from(cs@, i as int) == unescape_from(cs@, 0),
        decreases len - i,
    {
        let ghost before = out@;
        let ghost at = i as int;
        let c = cs[i];
        if c != '\\' || i + 1 >= len {
            out.push(c);
            i = i + 1;
        } else {
            let d = cs[i + 1];
            if d == '"' || d == '\\' || d == '/' {
                out.push(d);
                i = i + 2;
            } else if d == 'n' {
                out.push('\n');
                i = i + 2;
            } else if d == 't' {
                out.push('\t');
                i = i + 2;
            } else if d == 'r' {
                out.push('\r');
                i = i + 2;
            } else if d == 'b' {
                out.push('\u{8}');
                i = i + 2;
            } else if d == 'f' {
                out.push('\u{c}');
                i = i + 2;
            } else {
                let h = if d == 'u' && len - i > 5 {
                    hex4_exec(&cs, i + 2)
                } else {
                    None
                };
                match h {
                    Some(v) => {
                        let ch = match core::char::from_u32(v) {
                            Some(x) => x,
                            None => '\u{FFFD}',
                        };
                        out.push(ch);
                        i = i + 6;
                    },
                    None => {
                        out.push('\\');
                        i = i + 1;
                    },
                }
            }
        }
        proof {
            let step = out@.subrange(before.len() as int, out@.len() as int);
            assert(out@ =~= before + step);
            assert(unescape_from(cs@, at) == step + unescape_from(cs@, i as int));
            assert(out@ + unescape_from(cs@, i as int) =~= before + unescape_from(cs@, at));
        }
    }
    assert(unescape_from(cs@, len as int) =~= Seq::<char>::empty());
    assert(out@ =~= out@ + unescape_from(cs@, len as int));
    out
}

/// The wrapping integer of the text `open..=close` (see `span_long_of`).
pub fn span_long(src: &[u8], open: usize, close: usize) -> (r: i64)
    requires
        close < usize::MAX,
    ensures
        r == span_long_of(src@, open as int, close as int),
{
    let n = src.len();
    let mut v: i64 = 0;
    let mut i = open;
    let neg = open <= close && (if open < n {
        src[open]
    } else {
        0x2d
    }) == 0x2d;
    if neg {
        i = i + 1;
    }
    let ghost start = i as int;
    while i <= close
        invariant
            n == src@.len(),
            close < usize::MAX,
            start <= i <= close + 1 || (i == start && start > close),
            digits_from(src@, i as int, close as int, v) == digits_from(src@, start, close as int, 0),
        decreases close + 1 - i,
    {
        let b = if i < n {
            src[i]
        } else {
            0x30
        };
        let d = b.wrapping_sub(0x30) as i64;
        v = v.wrapping_mul(10).wrapping_add(d);
        i = i + 1;
    }
    if neg {
        0i64.wrapping_sub(v)
    } else {
        v
    }
}

// ── reification ─────────────────────────────────────────────────────────────

/// The value a token stands for.
#[derive(Clone, Debug, PartialEq)]
pub enum Value {
    Null,
    Bool(bool),
    Long(i64),
    /// A binary floating-point number, as the bit pattern of an `f64`.
    Double(u64),
    /// A decimal floating-point number, as text that Rust's `f64` parser accepts.
    Decimal(String),
    Text(String),
    Bytes(Vec<u8>),
    /// A container, by its number of child tokens.
    Kids(usize),
}

/// The model of a `Value`.
pub enum ValueView {
    Null,
    Bool(bool),
    Long(i64),
    Double(u64),
    Decimal(Seq<char>),
    Text(Seq<char>),
    Bytes(Seq<u8>),
    Kids(usize),
}

impl View for Value {
    type V = ValueView;

    open spec fn view(&self) -> ValueView {
        match self {
            Value::Null => ValueView::Null,
            Value::Bool(b) => ValueView::Bool(*b),
            Value::Long(l) => ValueView::Long(*l),
            Value::Double(d) => ValueView::Double(*d),
            Value::Decimal(t) => ValueView::Decimal(t@),
            Value::Text(t) => ValueView::Text(t@),
            Value::Bytes(b) => ValueView::Bytes(b@),
            Value::Kids(k) => ValueView::Kids(*k),
        }
    }
}

/// The window a byte-string token falls back to where its CBOR head does not decode:
/// `open..=hi` with `hi` the lesser of `open` and the clipped close.
pub open spec fn bytes_window_end(len: int, open: int, close: int) -> int {
    let end = if len == 0 {
        0
    } else if close < len - 1 {
        close
    } else {
        len - 1
    };
    if end < open {
        end
    } else {
        open
    }
}

/// A token can be reified against `src`: the fallbacks that slice or step past the span
/// stay in range.
pub open spec fn reifiable(row: RowNode, src: Seq<u8>) -> bool {
    &&& (row.tag == IoMemento::IoBytes && cbor_bytes(src, row.open as int) is None) ==> ({
        let hi = bytes_window_end(src.len() as int, row.open as int, row.close as int);
        row.open <= hi + 1 && hi < src.len()
    })
    &&& (row.tag == IoMemento::IoInt || (row.tag == IoMemento::IoLong && cbor_long(
        src,
        row.open as int,
    ) is None)) ==> row.close < usize::MAX
}

/// The value a token stands for: CBOR payloads where the token's head decodes as CBOR,
/// otherwise the text it spans (quoted text unquoted and unescaped, decimal text checked
/// against the `f64` grammar); a container stands for its number of children.
pub open spec fn reify_of(row: RowNode, src: Seq<u8>) -> ValueView {
    let open = row.open as int;
    let close = row.close as int;
    match row.tag {
        IoMemento::IoNothing => ValueView::Null,
        IoMemento::IoBoolean => {
            let b = byte_or(src, open, 0);
            if b == 0xf4 {
                ValueView::Bool(false)
            } else if b == 0xf5 {
                ValueView::Bool(true)
            } else {
                ValueView::Bool(b == 0x74)
            }
        },
        IoMemento::IoDouble => match cbor_float(src, open) {
            Some(f) => ValueView::Double(f),
            None => if is_float_text(span_bytes(src, open, close)) {
                ValueView::Decimal(latin1(span_bytes(src, open, close)))
            } else {
                ValueView::Null
            },
        },
        IoMemento::IoInt => ValueView::Long(span_long_of(src, open, close)),
        IoMemento::IoLong => match cbor_long(src, open) {
            Some(l) => ValueView::Long(l),
            None => ValueView::Long(span_long_of(src, open, close)),
        },
        IoMemento::IoString => match cbor_text(src, open) {
            Some(t) => ValueView::Text(t),
            None => ValueView::Text(
                text_span(
                    src,
                    open + 1,
                    if close >= 1 {
                        close - 1
                    } else {
                        0
                    },
                ),
            ),
        },
        IoMemento::IoBytes => match cbor_bytes(src, open) {
            Some(b) => ValueView::Bytes(b),
            None => ValueView::Bytes(
                src.subrange(open, bytes_window_end(src.len() as int, open, close) + 1),
            ),
        },
        IoMemento::IoObject | IoMemento::IoArray => ValueView::Kids(row.kids.len() as usize),
    }
}

/// Latin-1 text of the clipped window `open..=close`.
fn span_text(src: &[u8], open: usize, close: usize) -> (r: String)
    ensures
        r@ == latin1(span_bytes(src@, open as int, close as int)),
{
    let n = src.len();
    let mut out = String::new();
    if close < open || open >= n {
        return out;
    }
    let end = if close < n - 1 {
        close
    } else {
        n - 1
    };
    let mut i = open;
    while i <= end
        invariant
            open <= i <= end + 1,
            end < n,
            n == src@.len(),
            out@ == latin1(src@.subrange(open as int, i as int)),
        decreases end + 1 - i,
    {
        out.push(src[i] as char);
        i = i + 1;
        assert(out@ =~= latin1(src@.subrange(open as int, i as int)));
    }
    out
}

impl RowVec {
    /// Whether this token can be reified against `src` (see `reifiable`).
    pub fn can_reify(&self, src: &[u8]) -> (r: bool)
        ensures
            r == reifiable(self@, src@),
    {
        let n = src.len();
        let bytes_ok = if self.tag == IoMemento::IoBytes && decode_cbor_bytes(src, self.open).is_none() {
            let end: usize = if n == 0 {
                0
            } else if self.close < n - 1 {
                self.close
            } else {
                n - 1
            };
            let hi: usize = if end < self.open {
                end
            } else {
                self.open
            };
            (self.open == 0 || self.open - 1 <= hi) && hi < n
        } else {
            true
        };
        let long_ok = if self.tag == IoMemento::IoInt || (self.tag == IoMemento::IoLong
            && decode_cbor_long(src, self.open).is_none()) {
            self.close < usize::MAX
        } else {
            true
        };
        bytes_ok && long_ok
    }
}

impl RowVec {
    /// The value this token stands for (see `reify_of`).
    pub fn reify(&self, src: &[u8]) -> (v: Value)
        requires
            reifiable(self@, src@),
        ensures
            v@ == reify_of(self@, src@),
    {
        let n = src.len();
        match self.tag {
            IoMemento::IoNothing => Value::Null,
            IoMemento::IoBoolean => {
                let b = if self.open < n {
                    src[self.open]
                } else {
                    0
                };
                if b == 0xf4 {
                    Value::Bool(false)
                } else if b == 0xf5 {
                    Value::Bool(true)
                } else {
                    Value::Bool(b == 0x74)
                }
            },
            IoMemento::IoDouble => match decode_cbor_float(src, self.open) {
                Some(f) => Value::Double(f),
                None => {
                    let ok = if self.close < self.open || self.open >= n {
                        is_float_range(src, 0, 0)
                    } else {
                        let end = if self.close < n - 1 {
                            self.close
                        } else {
                            n - 1
                        };
                        is_float_range(src, self.open, end + 1)
                    };
                    proof {
                        if self.close < self.open || self.open >= n {
                            assert(src@.subrange(0, 0) =~= span_bytes(
                                src@,
                                self.open as int,
                                self.close as int,
                            ));
                        }
                    }
                    if ok {
                        Value::Decimal(span_text(src, self.open, self.close))
                    } else {
                        Value::Null
                    }
                },
            },
            IoMemento::IoInt => Value::Long(span_long(src, self.open, self.close)),
            IoMemento::IoLong => match decode_cbor_long(src, self.open) {
                Some(l) => Value::Long(l),
                None => Value::Long(span_long(src, self.open, self.close)),
            },
            IoMemento::IoString => match decode_cbor_text(src, self.open) {
                Some(t) => Value::Text(t),
                None => {
                    let c = if self.close >= 1 {
                        self.close - 1
                    } else {
                        0
                    };
                    if self.open >= n {
                        Value::Text(String::new())
                    } else {
                        Value::Text(decode_text_span(src, self.open + 1, c))
                    }
                },
            },
            IoMemento::IoBytes => match decode_cbor_bytes(src, self.open) {
                Some(b) => Value::Bytes(b),
                None => {
                    let end = if n == 0 {
                        0
                    } else if self.close < n - 1 {
                        self.close
                    } else {
                        n - 1
                    };
                    let hi = if end < self.open {
                        end
                    } else {
                        self.open
                    };
                    let mut out: Vec<u8> = Vec::new();
                    let mut k = self.open;
                    while k <= hi
                        invariant
                            self.open <= k <= hi + 1,
                            hi < n,
                            n == src@.len(),
                            out@ == src@.subrange(self.open as int, k as int),
                        decreases hi + 1 - k,
                    {
                        out.push(src[k]);
                        k = k + 1;
                    }
                    Value::Bytes(out)
                },
            },
            IoMemento::IoObject | IoMemento::IoArray => Value::Kids(self.kids.len()),
        }
    }
}

} // verus!
