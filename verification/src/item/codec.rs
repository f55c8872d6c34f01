//! The canonical CBOR encoder and the decoder of `Item`s.
use vstd::prelude::*;
use vstd::utf8::{decode_utf8, encode_utf8, valid_utf8};

use super::debug::{debug_of, push_debug};
use super::json::floats_view;
use super::{Item, ItemView};
use crate::confix::cbor_scan::be_nat;
use crate::confix::decode::{arg_width, widen_f16, widen_f32};
use crate::confix::decode::{read_be, widen_f16_exec, widen_f32_exec};
use crate::text::{decimal, decimal_exec, literal, utf8_error_text, utf8_string};
use vstd::string::StringExecFns;

verus! {

// ── the canonical encoding ──────────────────────────────────────────────────

/// The low `w` bytes of `v`, most significant first.
pub open spec fn be_bytes(v: nat, w: nat) -> Seq<u8>
    decreases w,
{
    if w == 0 {
        seq![]
    } else {
        be_bytes(v / 256, (w - 1) as nat).push((v % 256) as u8)
    }
}

/// A data-item head of major type `major` with argument `v`, in the shortest form: the
/// argument inline below 24, else in 1, 2, 4 or 8 following bytes.
pub open spec fn head(major: u8, v: u64) -> Seq<u8> {
    let mt = major as int * 32;
    if v <= 23 {
        seq![(mt + v) as u8]
    } else if v <= 0xff {
        seq![(mt + 24) as u8] + be_bytes(v as nat, 1)
    } else if v <= 0xffff {
        seq![(mt + 25) as u8] + be_bytes(v as nat, 2)
    } else if v <= 0xffff_ffff {
        seq![(mt + 26) as u8] + be_bytes(v as nat, 4)
    } else {
        seq![(mt + 27) as u8] + be_bytes(v as nat, 8)
    }
}

/// The encoding of a text string: its UTF-8 length as a major-type-3 head, then the bytes.
pub open spec fn text_bytes(s: Seq<char>) -> Seq<u8> {
    head(3, encode_utf8(s).len() as u64) + encode_utf8(s)
}

/// `a` sorts strictly before `b`: at the first differing byte `a` has the smaller one, or
/// `a` is a proper prefix of `b`.
pub open spec fn lex_lt(a: Seq<u8>, b: Seq<u8>) -> bool
    decreases a.len(),
{
    if a.len() == 0 {
        b.len() > 0
    } else if b.len() == 0 {
        false
    } else if a[0] != b[0] {
        a[0] < b[0]
    } else {
        lex_lt(a.drop_first(), b.drop_first())
    }
}

/// Where an entry with encoded key `k` goes into `s`, a sequence already sorted by key:
/// after every entry whose key does not sort after `k`.
pub open spec fn key_pos(s: Seq<(Seq<u8>, Seq<u8>)>, k: Seq<u8>) -> int
    decreases s.len(),
{
    if s.len() == 0 {
        0
    } else if lex_lt(k, s.last().0) {
        key_pos(s.drop_last(), k)
    } else {
        s.len() as int
    }
}

/// Encoded entries stably sorted by their encoded keys.
pub open spec fn sort_pairs(ps: Seq<(Seq<u8>, Seq<u8>)>) -> Seq<(Seq<u8>, Seq<u8>)>
    decreases ps.len(),
{
    if ps.len() == 0 {
        seq![]
    } else {
        let s = sort_pairs(ps.drop_last());
        s.insert(key_pos(s, ps.last().0), ps.last())
    }
}

/// The entries' bytes, each key followed by its value.
pub open spec fn concat_pairs(ps: Seq<(Seq<u8>, Seq<u8>)>) -> Seq<u8>
    decreases ps.len(),
{
    if ps.len() == 0 {
        seq![]
    } else {
        concat_pairs(ps.drop_last()) + ps.last().0 + ps.last().1
    }
}

/// The canonical encoding of an item.
pub open spec fn encode_item(x: ItemView) -> Seq<u8>
    decreases x, 0nat,
{
    match x {
        ItemView::Num(v) => if v >= 0 {
            head(0, v as u64)
        } else {
            head(1, (-1 - v) as u64)
        },
        ItemView::Str(s) => text_bytes(s),
        ItemView::Bin(b) => head(2, b.len() as u64) + b,
        ItemView::Arr(xs) => head(4, xs.len() as u64) + encode_all(xs, xs.len()),
        ItemView::Dict(es) => head(5, es.len() as u64) + concat_pairs(
            sort_pairs(entry_pairs(es, es.len())),
        ),
        ItemView::Bool(b) => seq![
            if b {
                0xf5u8
            } else {
                0xf4u8
            },
        ],
        ItemView::Nil => seq![0xf6u8],
        ItemView::Flt(f) => seq![0xfbu8] + be_bytes(f as nat, 8),
        ItemView::Tag(t, y) => head(6, t) + encode_item(*y),
    }
}

/// The encodings of the first `k` items, one after another.
pub open spec fn encode_all(xs: Seq<ItemView>, k: nat) -> Seq<u8>
    decreases xs, k,
{
    if k == 0 || k > xs.len() {
        seq![]
    } else {
        encode_all(xs, (k - 1) as nat) + encode_item(xs[k - 1])
    }
}

/// The first `k` entries, each as its encoded key and encoded value.
pub open spec fn entry_pairs(es: Seq<(Seq<char>, ItemView)>, k: nat) -> Seq<(Seq<u8>, Seq<u8>)>
    decreases es, k,
{
    if k == 0 || k > es.len() {
        seq![]
    } else {
        entry_pairs(es, (k - 1) as nat).push((text_bytes(es[k - 1].0), encode_item(es[k - 1].1)))
    }
}

// ── the encoder ─────────────────────────────────────────────────────────────

/// Appends the low `w` bytes of `v`, most significant first.
fn push_be(buf: &mut Vec<u8>, v: u64, w: usize)
    requires
        w <= 8,
    ensures
        final(buf)@ == old(buf)@ + be_bytes(v as nat, w as nat),
    decreases w,
{
    if w > 0 {
        push_be(buf, v / 256, w - 1);
        buf.push((v % 256) as u8);
    } else {
        assert(old(buf)@ + be_bytes(v as nat, 0) =~= old(buf)@);
    }
}

/// Appends the bytes of `bytes`.
fn push_all(buf: &mut Vec<u8>, bytes: &[u8])
    ensures
        final(buf)@ == old(buf)@ + bytes@,
{
    let mut i: usize = 0;
    while i < bytes.len()
        invariant
            i <= bytes@.len(),
            buf@ == old(buf)@ + bytes@.subrange(0, i as int),
        decreases bytes@.len() - i,
    {
        buf.push(bytes[i]);
        i = i + 1;
        assert(buf@ =~= old(buf)@ + bytes@.subrange(0, i as int));
    }
    assert(bytes@.subrange(0, i as int) =~= bytes@);
}

/// Appends the shortest head of major type `major` with argument `value`.
fn encode_head(buf: &mut Vec<u8>, major: u8, value: u64)
    requires
        major < 8,
    ensures
        final(buf)@ == old(buf)@ + head(major, value),
{
    let mt: u8 = major * 32;
    if value <= 23 {
        buf.push(mt + value as u8);
        assert(buf@ =~= old(buf)@ + head(major, value));
    } else if value <= 0xff {
        buf.push(mt + 24);
        push_be(buf, value, 1);
        assert(buf@ =~= old(buf)@ + head(major, value));
    } else if value <= 0xffff {
        buf.push(mt + 25);
        push_be(buf, value, 2);
        assert(buf@ =~= old(buf)@ + head(major, value));
    } else if value <= 0xffff_ffff {
        buf.push(mt + 26);
        push_be(buf, value, 4);
        assert(buf@ =~= old(buf)@ + head(major, value));
    } else {
        buf.push(mt + 27);
        push_be(buf, value, 8);
        assert(buf@ =~= old(buf)@ + head(major, value));
    }
}

/// Whether `a` sorts strictly before `b` (see `lex_lt`).
fn lex_lt_exec(a: &Vec<u8>, b: &Vec<u8>) -> (r: bool)
    ensures
        r == lex_lt(a@, b@),
{
    let mut i: usize = 0;
    assert(a@.skip(0) =~= a@);
    assert(b@.skip(0) =~= b@);
    while i < a.len() && i < b.len() && a[i] == b[i]
        invariant
            i <= a@.len(),
            i <= b@.len(),
            lex_lt(a@, b@) == lex_lt(a@.skip(i as int), b@.skip(i as int)),
        decreases a@.len() - i,
    {
        proof {
            assert(a@.skip(i as int).drop_first() =~= a@.skip(i + 1));
            assert(b@.skip(i as int).drop_first() =~= b@.skip(i + 1));
        }
        i = i + 1;
    }
    if i == a.len() {
        i < b.len()
    } else if i == b.len() {
        false
    } else {
        a[i] < b[i]
    }
}

/// The model of a vector of encoded entries.
pub open spec fn pairs_view(v: Seq<(Vec<u8>, Vec<u8>)>) -> Seq<(Seq<u8>, Seq<u8>)> {
    Seq::new(v.len(), |i: int| (v[i].0@, v[i].1@))
}

/// The canonical encoding of `item`.
pub fn encode(item: &Item) -> (r: Vec<u8>)
    ensures
        r@ == encode_item(item@),
{
    let mut buf: Vec<u8> = Vec::new();
    encode_into(item, &mut buf);
    assert(buf@ =~= encode_item(item@));
    buf
}

/// Appends the canonical encoding of `item`.
#[verifier::loop_isolation(false)]
pub fn encode_into(item: &Item, buf: &mut Vec<u8>)
    ensures
        final(buf)@ == old(buf)@ + encode_item(item@),
    decreases item,
{
    match item {
        Item::Num(v) => {
            if *v >= 0 {
                encode_head(buf, 0, *v as u64);
            } else {
                let m: i64 = -1 - *v;
                encode_head(buf, 1, m as u64);
            }
        },
        Item::Str(s) => {
            let bytes = s.as_str().as_bytes();
            encode_head(buf, 3, bytes.len() as u64);
            push_all(buf, bytes);
            assert(buf@ =~= old(buf)@ + encode_item(item@));
        },
        Item::Bin(b) => {
            encode_head(buf, 2, b.len() as u64);
            push_all(buf, b.as_slice());
            assert(buf@ =~= old(buf)@ + encode_item(item@));
        },
        Item::Arr(xs) => {
            let ghost xv = item@->Arr_0;
            encode_head(buf, 4, xs.len() as u64);
            let ghost start = buf@;
            let mut i: usize = 0;
            while i < xs.len()
                invariant
                    i <= xs@.len(),
                    xv.len() == xs@.len(),
                    forall|k: int| 0 <= k < xs@.len() ==> #[trigger] xv[k] == xs@[k]@,
                    buf@ == start + encode_all(xv, i as nat),
                decreases xs@.len() - i,
            {
                assert(xv[i as int] == xs@[i as int]@);
                encode_into(&xs[i], buf);
                i = i + 1;
                assert(buf@ =~= start + encode_all(xv, i as nat));
            }
            assert(buf@ =~= old(buf)@ + encode_item(item@));
        },
        Item::Dict(es) => {
            let ghost ev = item@->Dict_0;
            let mut sorted: Vec<(Vec<u8>, Vec<u8>)> = Vec::new();
            let mut i: usize = 0;
            while i < es.len()
                invariant
                    i <= es@.len(),
                    ev.len() == es@.len(),
                    forall|k: int| 0 <= k < es@.len() ==> #[trigger] ev[k] == (es@[k].0@, es@[k].1@),
                    pairs_view(sorted@) == sort_pairs(entry_pairs(ev, i as nat)),
                decreases es@.len() - i,
            {
                assert(ev[i as int] == (es@[i as int].0@, es@[i as int].1@));
                let mut kb: Vec<u8> = Vec::new();
                let kbytes = es[i].0.as_str().as_bytes();
                encode_head(&mut kb, 3, kbytes.len() as u64);
                push_all(&mut kb, kbytes);
                let mut vb: Vec<u8> = Vec::new();
                encode_into(&es[i].1, &mut vb);
                assert(kb@ =~= text_bytes(ev[i as int].0));
                assert(vb@ =~= encode_item(ev[i as int].1));
                let ghost s = pairs_view(sorted@);
                let mut p: usize = sorted.len();
                assert(s.take(p as int) =~= s);
                while p > 0 && lex_lt_exec(&kb, &sorted[p - 1].0)
                    invariant
                        p <= sorted@.len(),
                        s == pairs_view(sorted@),
                        key_pos(s, kb@) == key_pos(s.take(p as int), kb@),
                    decreases p,
                {
                    assert(s.take(p as int).drop_last() =~= s.take(p - 1));
                    assert(s.take(p as int).last() == s[p - 1]);
                    p = p - 1;
                }
                proof {
                    assert(s.take(p as int).len() == p);
                    if p > 0 {
                        assert(s.take(p as int).last() == s[p - 1]);
                    }
                    assert(key_pos(s.take(p as int), kb@) == p);
                    let ps = entry_pairs(ev, (i + 1) as nat);
                    assert(ps.drop_last() =~= entry_pairs(ev, i as nat));
                    assert(ps.last() == (kb@, vb@));
                }
                sorted.insert(p, (kb, vb));
                i = i + 1;
                assert(pairs_view(sorted@) =~= sort_pairs(entry_pairs(ev, i as nat)));
            }
            encode_head(buf, 5, es.len() as u64);
            let ghost start = buf@;
            let ghost sv = pairs_view(sorted@);
            let mut j: usize = 0;
            while j < sorted.len()
                invariant
                    j <= sorted@.len(),
                    sv == pairs_view(sorted@),
                    buf@ == start + concat_pairs(sv.take(j as int)),
                decreases sorted@.len() - j,
            {
                push_all(buf, sorted[j].0.as_slice());
                push_all(buf, sorted[j].1.as_slice());
                proof {
                    assert(sv.take(j + 1).drop_last() =~= sv.take(j as int));
                    assert(sv.take(j + 1).last() == sv[j as int]);
                }
                j = j + 1;
                assert(buf@ =~= start + concat_pairs(sv.take(j as int)));
            }
            proof {
                assert(sv.take(j as int) =~= sv);
            }
            assert(buf@ =~= old(buf)@ + encode_item(item@));
        },
        Item::Bool(v) => {
            buf.push(if *v { 0xf5 } else { 0xf4 });
            assert(buf@ =~= old(buf)@ + encode_item(item@));
        },
        Item::Nil => {
            buf.push(0xf6);
            assert(buf@ =~= old(buf)@ + encode_item(item@));
        },
        Item::Flt(v) => {
            buf.push(0xfb);
            push_be(buf, *v, 8);
            assert(buf@ =~= old(buf)@ + encode_item(item@));
        },
        Item::Tag(t, inner) => {
            encode_head(buf, 6, *t);
            encode_into(inner, buf);
            assert(buf@ =~= old(buf)@ + encode_item(item@));
        },
    }
}

// ── the decoder ─────────────────────────────────────────────────────────────

/// The message for input that ends inside an item.
pub open spec fn msg_eof() -> Seq<char> {
    "unexpected end of input"@
}

/// The message for an integer whose magnitude does not fit an `i64`.
pub open spec fn msg_too_large() -> Seq<char> {
    "u64 too large"@
}

/// The message for a length that does not fit a `usize`.
pub open spec fn msg_length() -> Seq<char> {
    "length too large"@
}

/// The message for an indefinite length on a major type that has none.
pub open spec fn msg_indefinite(major: u8) -> Seq<char> {
    "Indefinite length not supported for major type "@ + decimal(major as nat)
}

/// The message for additional information 28, 29 or 30.
pub open spec fn msg_additional(ai: u8) -> Seq<char> {
    "Invalid CBOR additional info: "@ + decimal(ai as nat)
}

/// The message for a major-type-7 item that is neither a boolean, null nor a float.
pub open spec fn msg_simple(ai: u8) -> Seq<char> {
    "Unknown CBOR simple value: "@ + decimal(ai as nat)
}

/// The message for text that is not UTF-8.
pub open spec fn msg_utf8(raw: Seq<u8>) -> Seq<char> {
    "invalid utf8: "@ + utf8_error_text(raw)
}

/// The message for a chunk of an indefinite byte string that is not a byte string.
pub open spec fn msg_bin_chunk() -> Seq<char> {
    "indefinite byte string chunk must be a byte string"@
}

/// The message for a chunk of an indefinite text string that is not text.
pub open spec fn msg_text_chunk() -> Seq<char> {
    "indefinite text chunk must be text"@
}

/// The key an item decodes to as a map key: its text where it is a text string, otherwise
/// its `Debug` text.
pub open spec fn key_of(x: ItemView, fl: Seq<(u64, Seq<char>)>) -> Seq<char> {
    match x {
        ItemView::Str(s) => s,
        _ => debug_of(x, fl),
    }
}

/// The argument of a head with additional information `ai` whose argument bytes start at
/// `p`, and where the item's payload starts.
pub open spec fn arg_of(d: Seq<u8>, p: int, ai: u8) -> Result<(u64, int), Seq<char>> {
    if ai <= 23 {
        Ok((ai as u64, p))
    } else if ai <= 27 {
        if p + arg_width(ai) > d.len() {
            Err(msg_eof())
        } else {
            Ok((be_nat(d.subrange(p, p + arg_width(ai))) as u64, p + arg_width(ai)))
        }
    } else {
        Err(msg_additional(ai))
    }
}

/// The item of major type 7 with additional information `ai` and argument `arg`.
pub open spec fn simple_of(ai: u8, arg: u64) -> Result<ItemView, Seq<char>> {
    if ai == 20 {
        Ok(ItemView::Bool(false))
    } else if ai == 21 {
        Ok(ItemView::Bool(true))
    } else if ai == 22 || ai == 23 {
        Ok(ItemView::Nil)
    } else if ai == 25 {
        Ok(ItemView::Flt(widen_f16(arg as u16)))
    } else if ai == 26 {
        Ok(ItemView::Flt(widen_f32(arg as u32)))
    } else if ai == 27 {
        Ok(ItemView::Flt(arg))
    } else {
        Err(msg_simple(ai))
    }
}

/// The item whose encoding starts at `p` in `d`, and where it ends; or the message of the
/// first error met. Indefinite lengths are read up to their break byte `0xff` and give
/// definite values (chunks of a string joined).
pub open spec fn dec_item(d: Seq<u8>, p: int, fl: Seq<(u64, Seq<char>)>) -> Result<(ItemView, int), Seq<char>>
    decreases d.len() - p, 0nat, 0nat,
{
    if p < 0 || p >= d.len() {
        Err(msg_eof())
    } else {
        let major = d[p] / 32;
        let ai = d[p] % 32;
        if ai == 31 {
            if major == 2 {
                dec_bin_chunks(d, p + 1, seq![], fl)
            } else if major == 3 {
                dec_text_chunks(d, p + 1, seq![], fl)
            } else if major == 4 {
                dec_items_until_break(d, p + 1, seq![], fl)
            } else if major == 5 {
                dec_entries_until_break(d, p + 1, seq![], fl)
            } else {
                Err(msg_indefinite(major))
            }
        } else {
            match arg_of(d, p + 1, ai) {
                Err(m) => Err(m),
                Ok((arg, q)) => if major == 0 {
                    if arg > i64::MAX {
                        Err(msg_too_large())
                    } else {
                        Ok((ItemView::Num(arg as i64), q))
                    }
                } else if major == 1 {
                    if arg > i64::MAX {
                        Err(msg_too_large())
                    } else {
                        Ok((ItemView::Num((-1 - arg) as i64), q))
                    }
                } else if major == 2 || major == 3 || major == 4 || major == 5 {
                    if arg > usize::MAX {
                        Err(msg_length())
                    } else if major == 2 || major == 3 {
                        if q + arg > d.len() {
                            Err(msg_eof())
                        } else if major == 2 {
                            Ok((ItemView::Bin(d.subrange(q, q + arg)), q + arg))
                        } else if valid_utf8(d.subrange(q, q + arg)) {
                            Ok((ItemView::Str(decode_utf8(d.subrange(q, q + arg))), q + arg))
                        } else {
                            Err(msg_utf8(d.subrange(q, q + arg)))
                        }
                    } else if major == 4 {
                        dec_items(d, q, arg as nat, seq![], fl)
                    } else {
                        dec_entries(d, q, arg as nat, seq![], fl)
                    }
                } else if major == 6 {
                    match dec_item(d, q, fl) {
                        Ok((x, e)) => Ok((ItemView::Tag(arg, Box::new(x)), e)),
                        Err(m) => Err(m),
                    }
                } else {
                    match simple_of(ai, arg) {
                        Ok(x) => Ok((x, q)),
                        Err(m) => Err(m),
                    }
                },
            }
        }
    }
}

/// Whether an item decoded at `p` ended at `e`, past `p` and within `d`. It always does
/// (see `lemma_dec_progress`); the decoders test it to make their progress evident.
pub open spec fn advanced(d: Seq<u8>, p: int, e: int) -> bool {
    p < e <= d.len()
}

/// `n` more array elements from `p` on, after those in `acc`.
pub open spec fn dec_items(d: Seq<u8>, p: int, n: nat, acc: Seq<ItemView>, fl: Seq<(u64, Seq<char>)>) -> Result<
    (ItemView, int),
    Seq<char>,
>
    decreases d.len() - p, 1nat, n,
{
    if n == 0 {
        Ok((ItemView::Arr(acc), p))
    } else {
        match dec_item(d, p, fl) {
            Err(m) => Err(m),
            Ok((x, e)) => if advanced(d, p, e) {
                dec_items(d, e, (n - 1) as nat, acc.push(x), fl)
            } else {
                Err(msg_eof())
            },
        }
    }
}

/// `n` more map entries from `p` on, after those in `acc`.
pub open spec fn dec_entries(
    d: Seq<u8>,
    p: int,
    n: nat,
    acc: Seq<(Seq<char>, ItemView)>, fl: Seq<(u64, Seq<char>)>,
) -> Result<(ItemView, int), Seq<char>>
    decreases d.len() - p, 1nat, n,
{
    if n == 0 {
        Ok((ItemView::Dict(acc), p))
    } else {
        match dec_item(d, p, fl) {
            Err(m) => Err(m),
            Ok((k, e1)) => if advanced(d, p, e1) {
                match dec_item(d, e1, fl) {
                    Err(m) => Err(m),
                    Ok((v, e2)) => if advanced(d, e1, e2) {
                        dec_entries(d, e2, (n - 1) as nat, acc.push((key_of(k, fl), v)), fl)
                    } else {
                        Err(msg_eof())
                    },
                }
            } else {
                Err(msg_eof())
            },
        }
    }
}

/// Array elements from `p` on up to the break byte, after those in `acc`.
pub open spec fn dec_items_until_break(d: Seq<u8>, p: int, acc: Seq<ItemView>, fl: Seq<(u64, Seq<char>)>) -> Result<
    (ItemView, int),
    Seq<char>,
>
    decreases d.len() - p, 1nat, 0nat,
{
    if p < 0 || p >= d.len() {
        Err(msg_eof())
    } else if d[p] == 0xff {
        Ok((ItemView::Arr(acc), p + 1))
    } else {
        match dec_item(d, p, fl) {
            Err(m) => Err(m),
            Ok((x, e)) => if advanced(d, p, e) {
                dec_items_until_break(d, e, acc.push(x), fl)
            } else {
                Err(msg_eof())
            },
        }
    }
}

/// Map entries from `p` on up to the break byte, after those in `acc`.
pub open spec fn dec_entries_until_break(
    d: Seq<u8>,
    p: int,
    acc: Seq<(Seq<char>, ItemView)>, fl: Seq<(u64, Seq<char>)>,
) -> Result<(ItemView, int), Seq<char>>
    decreases d.len() - p, 1nat, 0nat,
{
    if p < 0 || p >= d.len() {
        Err(msg_eof())
    } else if d[p] == 0xff {
        Ok((ItemView::Dict(acc), p + 1))
    } else {
        match dec_item(d, p, fl) {
            Err(m) => Err(m),
            Ok((k, e1)) => if advanced(d, p, e1) {
                match dec_item(d, e1, fl) {
                    Err(m) => Err(m),
                    Ok((v, e2)) => if advanced(d, e1, e2) {
                        dec_entries_until_break(d, e2, acc.push((key_of(k, fl), v)), fl)
                    } else {
                        Err(msg_eof())
                    },
                }
            } else {
                Err(msg_eof())
            },
        }
    }
}

/// Byte-string chunks from `p` on up to the break byte, joined after `acc`.
pub open spec fn dec_bin_chunks(d: Seq<u8>, p: int, acc: Seq<u8>, fl: Seq<(u64, Seq<char>)>) -> Result<
    (ItemView, int),
    Seq<char>,
>
    decreases d.len() - p, 1nat, 0nat,
{
    if p < 0 || p >= d.len() {
        Err(msg_eof())
    } else if d[p] == 0xff {
        Ok((ItemView::Bin(acc), p + 1))
    } else {
        match dec_item(d, p, fl) {
            Err(m) => Err(m),
            Ok((x, e)) => match x {
                ItemView::Bin(b) => if advanced(d, p, e) {
                    dec_bin_chunks(d, e, acc + b, fl)
                } else {
                    Err(msg_eof())
                },
                _ => Err(msg_bin_chunk()),
            },
        }
    }
}

/// Text chunks from `p` on up to the break byte, joined after `acc`.
pub open spec fn dec_text_chunks(d: Seq<u8>, p: int, acc: Seq<char>, fl: Seq<(u64, Seq<char>)>) -> Result<
    (ItemView, int),
    Seq<char>,
>
    decreases d.len() - p, 1nat, 0nat,
{
    if p < 0 || p >= d.len() {
        Err(msg_eof())
    } else if d[p] == 0xff {
        Ok((ItemView::Str(acc), p + 1))
    } else {
        match dec_item(d, p, fl) {
            Err(m) => Err(m),
            Ok((x, e)) => match x {
                ItemView::Str(t) => if advanced(d, p, e) {
                    dec_text_chunks(d, e, acc + t, fl)
                } else {
                    Err(msg_eof())
                },
                _ => Err(msg_text_chunk()),
            },
        }
    }
}

/// The item that `bytes` start with, or the message of the first error met; bytes after
/// the item are not read. A map key that is not a text string is named by its `Debug`
/// text, each float in it written as `floats` gives its bits.
pub open spec fn decode_item_with(bytes: Seq<u8>, floats: Seq<(u64, Seq<char>)>) -> Result<
    ItemView,
    Seq<char>,
> {
    match dec_item(bytes, 0, floats) {
        Ok((x, _)) => Ok(x),
        Err(m) => Err(m),
    }
}

/// The item that `bytes` start with (see `decode_item_with`), with no float texts at hand.
pub open spec fn decode_item(bytes: Seq<u8>) -> Result<ItemView, Seq<char>> {
    decode_item_with(bytes, seq![])
}

// ── decoding, executably ────────────────────────────────────────────────────

fn eof_error() -> (r: String)
    ensures
        r@ == msg_eof(),
{
    literal("unexpected end of input")
}

/// `prefix` followed by the decimal digits of `n`.
fn numbered(prefix: &str, n: u8) -> (r: String)
    ensures
        r@ == prefix@ + decimal(n as nat),
{
    let mut s = literal(prefix);
    let d = decimal_exec(n as u64);
    s.append(d.as_str());
    s
}

/// The bytes `data[a..b]`.
fn copy_range(data: &[u8], a: usize, b: usize) -> (v: Vec<u8>)
    requires
        a <= b <= data@.len(),
    ensures
        v@ == data@.subrange(a as int, b as int),
{
    let mut v: Vec<u8> = Vec::new();
    let mut i = a;
    while i < b
        invariant
            a <= i <= b,
            b <= data@.len(),
            v@ == data@.subrange(a as int, i as int),
        decreases b - i,
    {
        v.push(data[i]);
        i = i + 1;
        assert(v@ =~= data@.subrange(a as int, i as int));
    }
    v
}

/// The argument of a head (see `arg_of`).
fn read_arg(data: &[u8], p: usize, ai: u8) -> (r: Result<(u64, usize), String>)
    requires
        p <= data@.len(),
    ensures
        match arg_of(data@, p as int, ai) {
            Ok((a, q)) => r matches Ok((a2, q2)) && a2 == a && q2 == q,
            Err(m) => r matches Err(t) && t@ == m,
        },
{
    if ai <= 23 {
        Ok((ai as u64, p))
    } else if ai <= 27 {
        let w: usize = if ai == 24 {
            1
        } else if ai == 25 {
            2
        } else if ai == 26 {
            4
        } else {
            8
        };
        if w > data.len() - p {
            Err(eof_error())
        } else {
            let v = read_be(data, p, w);
            Ok((v, p + w))
        }
    } else {
        Err(numbered("Invalid CBOR additional info: ", ai))
    }
}

/// The item of major type 7 (see `simple_of`).
fn read_simple(ai: u8, arg: u64) -> (r: Result<Item, String>)
    ensures
        match simple_of(ai, arg) {
            Ok(x) => r matches Ok(it) && it@ == x,
            Err(m) => r matches Err(t) && t@ == m,
        },
{
    if ai == 20 {
        Ok(Item::Bool(false))
    } else if ai == 21 {
        Ok(Item::Bool(true))
    } else if ai == 22 || ai == 23 {
        Ok(Item::Nil)
    } else if ai == 25 {
        Ok(Item::Flt(widen_f16_exec(arg as u16)))
    } else if ai == 26 {
        Ok(Item::Flt(widen_f32_exec(arg as u32)))
    } else if ai == 27 {
        Ok(Item::Flt(arg))
    } else {
        Err(numbered("Unknown CBOR simple value: ", ai))
    }
}

/// The key a decoded item gives as a map key (see `key_of`).
fn key_string(x: Item, floats: &Vec<(u64, String)>) -> (r: String)
    ensures
        r@ == key_of(x@, floats_view(floats@)),
{
    match x {
        Item::Str(s) => s,
        other => {
            let mut sb = String::new();
            push_debug(&other, floats, &mut sb);
            sb
        },
    }
}

/// Decodes the item whose encoding starts at `p`, with where it ends (see `dec_item`).
fn read_item(data: &[u8], p: usize, floats: &Vec<(u64, String)>) -> (r: Result<(Item, usize), String>)
    ensures
        match dec_item(data@, p as int, floats_view(floats@)) {
            Ok((x, e)) => r matches Ok((it, q)) && it@ == x && q == e,
            Err(m) => r matches Err(t) && t@ == m,
        },
        r matches Ok((_, q)) ==> advanced(data@, p as int, q as int),
    decreases data@.len() - p, 0nat,
{
    if p >= data.len() {
        return Err(eof_error());
    }
    let major = data[p] / 32;
    let ai = data[p] % 32;
    if ai == 31 {
        if major == 2 {
            return read_bin_chunks(data, p + 1, floats);
        } else if major == 3 {
            return read_text_chunks(data, p + 1, floats);
        } else if major == 4 {
            return read_items_until_break(data, p + 1, floats);
        } else if major == 5 {
            return read_entries_until_break(data, p + 1, floats);
        } else {
            return Err(numbered("Indefinite length not supported for major type ", major));
        }
    }
    let (arg, q) = match read_arg(data, p + 1, ai) {
        Ok(v) => v,
        Err(m) => {
            return Err(m);
        },
    };
    if major == 0 {
        if arg > i64::MAX as u64 {
            Err(literal("u64 too large"))
        } else {
            Ok((Item::Num(arg as i64), q))
        }
    } else if major == 1 {
        if arg > i64::MAX as u64 {
            Err(literal("u64 too large"))
        } else {
            let a = arg as i64;
            Ok((Item::Num(-1 - a), q))
        }
    } else if major <= 5 {
        if arg > usize::MAX as u64 {
            return Err(literal("length too large"));
        }
        let n = arg as usize;
        if major == 2 || major == 3 {
            if n > data.len() - q {
                Err(eof_error())
            } else {
                let raw = copy_range(data, q, q + n);
                if major == 2 {
                    Ok((Item::Bin(raw), q + n))
                } else {
                    match utf8_string(raw) {
                        Ok(s) => Ok((Item::Str(s), q + n)),
                        Err(e) => {
                            let mut m = literal("invalid utf8: ");
                            m.append(e.as_str());
                            Err(m)
                        },
                    }
                }
            }
        } else if major == 4 {
            read_items(data, q, arg, floats)
        } else {
            read_entries(data, q, arg, floats)
        }
    } else if major == 6 {
        match read_item(data, q, floats) {
            Ok((x, e)) => Ok((Item::Tag(arg, Box::new(x)), e)),
            Err(m) => Err(m),
        }
    } else {
        match read_simple(ai, arg) {
            Ok(x) => Ok((x, q)),
            Err(m) => Err(m),
        }
    }
}

/// The models of a vector of items.
pub open spec fn items_view(v: Seq<Item>) -> Seq<ItemView> {
    v.map_values(|x: Item| x@)
}

/// The models of a vector of entries.
pub open spec fn entries_view(v: Seq<(String, Item)>) -> Seq<(Seq<char>, ItemView)> {
    v.map_values(|e: (String, Item)| (e.0@, e.1@))
}

proof fn lemma_arr_view(v: Vec<Item>)
    ensures
        Item::Arr(v)@ == ItemView::Arr(items_view(v@)),
{
    assert(Item::Arr(v)@->Arr_0 =~= items_view(v@));
}

proof fn lemma_dict_view(v: Vec<(String, Item)>)
    ensures
        Item::Dict(v)@ == ItemView::Dict(entries_view(v@)),
{
    assert(Item::Dict(v)@->Dict_0 =~= entries_view(v@));
}

/// `n` array elements from `p` on (see `dec_items`).
fn read_items(data: &[u8], p: usize, n: u64, floats: &Vec<(u64, String)>) -> (r: Result<(Item, usize), String>)
    requires
        p <= data@.len(),
    ensures
        match dec_items(data@, p as int, n as nat, seq![], floats_view(floats@)) {
            Ok((x, e)) => r matches Ok((it, q)) && it@ == x && q == e,
            Err(m) => r matches Err(t) && t@ == m,
        },
        r matches Ok((_, q)) ==> p <= q <= data@.len(),
    decreases data@.len() - p, 1nat,
{
    let mut items: Vec<Item> = Vec::new();
    let mut pos = p;
    let mut k = n;
    assert(items_view(items@) =~= seq![]);
    while k > 0
        invariant
            p <= pos <= data@.len(),
            dec_items(data@, p as int, n as nat, seq![], floats_view(floats@)) == dec_items(
                data@,
                pos as int,
                k as nat,
                items_view(items@), floats_view(floats@),
            ),
        decreases k,
    {
        match read_item(data, pos, floats) {
            Err(m) => {
                return Err(m);
            },
            Ok((x, e)) => {
                let ghost before = items_view(items@);
                items.push(x);
                assert(items_view(items@) =~= before.push(x@));
                pos = e;
                k = k - 1;
            },
        }
    }
    proof {
        lemma_arr_view(items);
    }
    Ok((Item::Arr(items), pos))
}

/// `n` map entries from `p` on (see `dec_entries`).
fn read_entries(data: &[u8], p: usize, n: u64, floats: &Vec<(u64, String)>) -> (r: Result<(Item, usize), String>)
    requires
        p <= data@.len(),
    ensures
        match dec_entries(data@, p as int, n as nat, seq![], floats_view(floats@)) {
            Ok((x, e)) => r matches Ok((it, q)) && it@ == x && q == e,
            Err(m) => r matches Err(t) && t@ == m,
        },
        r matches Ok((_, q)) ==> p <= q <= data@.len(),
    decreases data@.len() - p, 1nat,
{
    let mut entries: Vec<(String, Item)> = Vec::new();
    let mut pos = p;
    let mut k = n;
    assert(entries_view(entries@) =~= seq![]);
    while k > 0
        invariant
            p <= pos <= data@.len(),
            dec_entries(data@, p as int, n as nat, seq![], floats_view(floats@)) == dec_entries(
                data@,
                pos as int,
                k as nat,
                entries_view(entries@), floats_view(floats@),
            ),
        decreases k,
    {
        let (kx, e1) = match read_item(data, pos, floats) {
            Err(m) => {
                return Err(m);
            },
            Ok(v) => v,
        };
        let (vx, e2) = match read_item(data, e1, floats) {
            Err(m) => {
                return Err(m);
            },
            Ok(v) => v,
        };
        let key = key_string(kx, floats);
        let ghost before = entries_view(entries@);
        entries.push((key, vx));
        assert(entries_view(entries@) =~= before.push((key@, vx@)));
        pos = e2;
        k = k - 1;
    }
    proof {
        lemma_dict_view(entries);
    }
    Ok((Item::Dict(entries), pos))
}

/// Array elements from `p` on up to the break byte (see `dec_items_until_break`).
fn read_items_until_break(data: &[u8], p: usize, floats: &Vec<(u64, String)>) -> (r: Result<(Item, usize), String>)
    requires
        p <= data@.len(),
    ensures
        match dec_items_until_break(data@, p as int, seq![], floats_view(floats@)) {
            Ok((x, e)) => r matches Ok((it, q)) && it@ == x && q == e,
            Err(m) => r matches Err(t) && t@ == m,
        },
        r matches Ok((_, q)) ==> p < q <= data@.len(),
    decreases data@.len() - p, 1nat,
{
    let mut items: Vec<Item> = Vec::new();
    let mut pos = p;
    assert(items_view(items@) =~= seq![]);
    loop
        invariant
            p <= pos <= data@.len(),
            dec_items_until_break(data@, p as int, seq![], floats_view(floats@)) == dec_items_until_break(
                data@,
                pos as int,
                items_view(items@), floats_view(floats@),
            ),
        decreases data@.len() - pos,
    {
        if pos >= data.len() {
            return Err(eof_error());
        }
        if data[pos] == 0xff {
            proof {
                lemma_arr_view(items);
            }
            return Ok((Item::Arr(items), pos + 1));
        }
        match read_item(data, pos, floats) {
            Err(m) => {
                return Err(m);
            },
            Ok((x, e)) => {
                let ghost before = items_view(items@);
                items.push(x);
                assert(items_view(items@) =~= before.push(x@));
                pos = e;
            },
        }
    }
}

/// Map entries from `p` on up to the break byte (see `dec_entries_until_break`).
fn read_entries_until_break(data: &[u8], p: usize, floats: &Vec<(u64, String)>) -> (r: Result<(Item, usize), String>)
    requires
        p <= data@.len(),
    ensures
        match dec_entries_until_break(data@, p as int, seq![], floats_view(floats@)) {
            Ok((x, e)) => r matches Ok((it, q)) && it@ == x && q == e,
            Err(m) => r matches Err(t) && t@ == m,
        },
        r matches Ok((_, q)) ==> p < q <= data@.len(),
    decreases data@.len() - p, 1nat,
{
    let mut entries: Vec<(String, Item)> = Vec::new();
    let mut pos = p;
    assert(entries_view(entries@) =~= seq![]);
    loop
        invariant
            p <= pos <= data@.len(),
            dec_entries_until_break(data@, p as int, seq![], floats_view(floats@)) == dec_entries_until_break(
                data@,
                pos as int,
                entries_view(entries@), floats_view(floats@),
            ),
        decreases data@.len() - pos,
    {
        if pos >= data.len() {
            return Err(eof_error());
        }
        if data[pos] == 0xff {
            proof {
                lemma_dict_view(entries);
            }
            return Ok((Item::Dict(entries), pos + 1));
        }
        let (kx, e1) = match read_item(data, pos, floats) {
            Err(m) => {
                return Err(m);
            },
            Ok(v) => v,
        };
        let (vx, e2) = match read_item(data, e1, floats) {
            Err(m) => {
                return Err(m);
            },
            Ok(v) => v,
        };
        let key = key_string(kx, floats);
        let ghost before = entries_view(entries@);
        entries.push((key, vx));
        assert(entries_view(entries@) =~= before.push((key@, vx@)));
        pos = e2;
    }
}

/// Byte-string chunks from `p` on up to the break byte (see `dec_bin_chunks`).
fn read_bin_chunks(data: &[u8], p: usize, floats: &Vec<(u64, String)>) -> (r: Result<(Item, usize), String>)
    requires
        p <= data@.len(),
    ensures
        match dec_bin_chunks(data@, p as int, seq![], floats_view(floats@)) {
            Ok((x, e)) => r matches Ok((it, q)) && it@ == x && q == e,
            Err(m) => r matches Err(t) && t@ == m,
        },
        r matches Ok((_, q)) ==> p < q <= data@.len(),
    decreases data@.len() - p, 1nat,
{
    let mut out: Vec<u8> = Vec::new();
    let mut pos = p;
    loop
        invariant
            p <= pos <= data@.len(),
            dec_bin_chunks(data@, p as int, seq![], floats_view(floats@)) == dec_bin_chunks(data@, pos as int, out@, floats_view(floats@)),
        decreases data@.len() - pos,
    {
        if pos >= data.len() {
            return Err(eof_error());
        }
        if data[pos] == 0xff {
            return Ok((Item::Bin(out), pos + 1));
        }
        match read_item(data, pos, floats) {
            Err(m) => {
                return Err(m);
            },
            Ok((x, e)) => match x {
                Item::Bin(b) => {
                    push_all(&mut out, b.as_slice());
                    pos = e;
                },
                _ => {
                    return Err(literal("indefinite byte string chunk must be a byte string"));
                },
            },
        }
    }
}

/// Text chunks from `p` on up to the break byte (see `dec_text_chunks`).
fn read_text_chunks(data: &[u8], p: usize, floats: &Vec<(u64, String)>) -> (r: Result<(Item, usize), String>)
    requires
        p <= data@.len(),
    ensures
        match dec_text_chunks(data@, p as int, seq![], floats_view(floats@)) {
            Ok((x, e)) => r matches Ok((it, q)) && it@ == x && q == e,
            Err(m) => r matches Err(t) && t@ == m,
        },
        r matches Ok((_, q)) ==> p < q <= data@.len(),
    decreases data@.len() - p, 1nat,
{
    let mut out = String::new();
    let mut pos = p;
    loop
        invariant
            p <= pos <= data@.len(),
            dec_text_chunks(data@, p as int, seq![], floats_view(floats@)) == dec_text_chunks(data@, pos as int, out@, floats_view(floats@)),
        decreases data@.len() - pos,
    {
        if pos >= data.len() {
            return Err(eof_error());
        }
        if data[pos] == 0xff {
            return Ok((Item::Str(out), pos + 1));
        }
        match read_item(data, pos, floats) {
            Err(m) => {
                return Err(m);
            },
            Ok((x, e)) => match x {
                Item::Str(t) => {
                    out.append(t.as_str());
                    pos = e;
                },
                _ => {
                    return Err(literal("indefinite text chunk must be text"));
                },
            },
        }
    }
}

/// The float of a head at `i`: where `d[i]` is the head of a half, single or double float
/// whose argument `d` holds in full, the binary64 bits of that float (see `simple_of`).
pub open spec fn float_head(d: Seq<u8>, i: int) -> Option<u64> {
    let ai = d[i] % 32;
    if d[i] / 32 == 7 && 25 <= ai <= 27 {
        match arg_of(d, i + 1, ai) {
            Ok((arg, _)) => match simple_of(ai, arg) {
                Ok(ItemView::Flt(b)) => Some(b),
                _ => None,
            },
            Err(_) => None,
        }
    } else {
        None
    }
}

/// The floats of the heads at the first `k` positions of `d`, in order.
pub open spec fn float_heads_upto(d: Seq<u8>, k: int) -> Seq<u64>
    decreases k,
{
    if k <= 0 {
        seq![]
    } else {
        match float_head(d, k - 1) {
            Some(b) => float_heads_upto(d, k - 1).push(b),
            None => float_heads_upto(d, k - 1),
        }
    }
}

/// The floats of every position of `bytes` that reads as a float head, in order. Each
/// float that the decoder meets is read from such a head, so these are the bits whose
/// texts `decode_with` may look up.
pub fn float_heads(bytes: &[u8]) -> (r: Vec<u64>)
    ensures
        r@ == float_heads_upto(bytes@, bytes@.len() as int),
{
    let mut out: Vec<u64> = Vec::new();
    let mut i: usize = 0;
    while i < bytes.len()
        invariant
            i <= bytes@.len(),
            out@ == float_heads_upto(bytes@, i as int),
        decreases bytes@.len() - i,
    {
        let b = bytes[i];
        let ai = b % 32;
        if b / 32 == 7 && 25 <= ai && ai <= 27 {
            match read_arg(bytes, i + 1, ai) {
                Ok((arg, _)) => match read_simple(ai, arg) {
                    Ok(Item::Flt(f)) => {
                        out.push(f);
                    },
                    _ => {},
                },
                Err(_) => {},
            }
        }
        i = i + 1;
    }
    out
}

/// Decodes the item that `bytes` start with; indefinite lengths come out definite. A map
/// key that is not a text string is named by its `Debug` text, each float in it written
/// as `floats` gives its bits (the texts that `f64`'s `Debug` writes, see `float_heads`).
pub fn decode_with(bytes: &[u8], floats: &Vec<(u64, String)>) -> (r: Result<Item, String>)
    ensures
        match decode_item_with(bytes@, floats_view(floats@)) {
            Ok(x) => r matches Ok(it) && it@ == x,
            Err(m) => r matches Err(t) && t@ == m,
        },
{
    match read_item(bytes, 0, floats) {
        Ok((x, _)) => Ok(x),
        Err(m) => Err(m),
    }
}

/// Decodes the item that `bytes` start with (see `decode_with`), with no float texts at
/// hand: a float inside a map key that is not a text string is written as nothing.
pub fn decode(bytes: &[u8]) -> (r: Result<Item, String>)
    ensures
        match decode_item(bytes@) {
            Ok(x) => r matches Ok(it) && it@ == x,
            Err(m) => r matches Err(t) && t@ == m,
        },
{
    let none: Vec<(u64, String)> = Vec::new();
    assert(floats_view(none@) =~= seq![]);
    decode_with(bytes, &none)
}

} // verus!
