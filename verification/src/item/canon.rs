//! The canonical form of an item, and what decoding its encoding gives back.
use vstd::prelude::*;

use vstd::utf8::{encode_utf8, encode_utf8_decode_utf8, encode_utf8_valid_utf8};

use super::codec::{
    advanced, arg_of, concat_pairs, dec_entries, dec_item, dec_items, decode_item, decode_item_with, encode_all,
    encode_item, entry_pairs, head, key_of, key_pos, lex_lt, simple_of, sort_pairs, text_bytes,
    be_bytes,
};
use super::{all_eq, eq_dir, is_nan, item_eq, left_all, left_any, right_all, right_any, ItemView};
use crate::confix::cbor_scan::{be_nat, pow256};
use crate::confix::decode::arg_width;

verus! {

// ── ordering by key ─────────────────────────────────────────────────────────

/// Where an element with key `k` goes into `s`, a sequence already ordered by `key`:
/// after every element whose key does not sort after `k`.
pub open spec fn ins_pos<A>(s: Seq<A>, key: spec_fn(A) -> Seq<u8>, k: Seq<u8>) -> int
    decreases s.len(),
{
    if s.len() == 0 {
        0
    } else if lex_lt(k, key(s.last())) {
        ins_pos(s.drop_last(), key, k)
    } else {
        s.len() as int
    }
}

/// `s` stably ordered by `key` (elements with equal keys keep their order).
pub open spec fn sort_by_key<A>(s: Seq<A>, key: spec_fn(A) -> Seq<u8>) -> Seq<A>
    decreases s.len(),
{
    if s.len() == 0 {
        seq![]
    } else {
        let t = sort_by_key(s.drop_last(), key);
        t.insert(ins_pos(t, key, key(s.last())), s.last())
    }
}

proof fn lemma_ins_pos_range<A>(s: Seq<A>, key: spec_fn(A) -> Seq<u8>, k: Seq<u8>)
    ensures
        0 <= ins_pos(s, key, k) <= s.len(),
    decreases s.len(),
{
    if s.len() > 0 {
        lemma_ins_pos_range(s.drop_last(), key, k);
    }
}

proof fn lemma_ins_pos_map<A, B>(
    s: Seq<A>,
    k1: spec_fn(A) -> Seq<u8>,
    h: spec_fn(A) -> B,
    k2: spec_fn(B) -> Seq<u8>,
    k: Seq<u8>,
)
    requires
        forall|a: A| #[trigger] k2(h(a)) == k1(a),
    ensures
        ins_pos(s.map_values(h), k2, k) == ins_pos(s, k1, k),
    decreases s.len(),
{
    if s.len() > 0 {
        assert(s.map_values(h).drop_last() =~= s.drop_last().map_values(h));
        assert(k2(h(s.last())) == k1(s.last()));
        lemma_ins_pos_map(s.drop_last(), k1, h, k2, k);
    }
}

/// Ordering by key commutes with a map that keeps each element's key.
pub proof fn lemma_sort_map<A, B>(
    s: Seq<A>,
    k1: spec_fn(A) -> Seq<u8>,
    h: spec_fn(A) -> B,
    k2: spec_fn(B) -> Seq<u8>,
)
    requires
        forall|a: A| #[trigger] k2(h(a)) == k1(a),
    ensures
        sort_by_key(s.map_values(h), k2) == sort_by_key(s, k1).map_values(h),
    decreases s.len(),
{
    if s.len() > 0 {
        let sm = s.map_values(h);
        assert(sm.drop_last() =~= s.drop_last().map_values(h));
        lemma_sort_map(s.drop_last(), k1, h, k2);
        let t = sort_by_key(s.drop_last(), k1);
        lemma_ins_pos_map(t, k1, h, k2, k1(s.last()));
        assert(k2(h(s.last())) == k1(s.last()));
        lemma_ins_pos_range(t, k1, k1(s.last()));
        let p = ins_pos(t, k1, k1(s.last()));
        assert(t.map_values(h).insert(p, h(s.last())) =~= t.insert(p, s.last()).map_values(h));
    }
}

/// Ordering keeps the length, and every element of the result is an element of `s`.
pub proof fn lemma_sort_elements<A>(s: Seq<A>, key: spec_fn(A) -> Seq<u8>)
    ensures
        sort_by_key(s, key).len() == s.len(),
        forall|i: int|
            0 <= i < s.len() ==> exists|j: int| 0 <= j < s.len() && #[trigger] sort_by_key(s, key)[i] == s[j],
    decreases s.len(),
{
    if s.len() > 0 {
        let t = sort_by_key(s.drop_last(), key);
        lemma_sort_elements(s.drop_last(), key);
        lemma_ins_pos_range(t, key, key(s.last()));
        let p = ins_pos(t, key, key(s.last()));
        let r = t.insert(p, s.last());
        assert forall|i: int| 0 <= i < s.len() implies exists|j: int|
            0 <= j < s.len() && #[trigger] sort_by_key(s, key)[i] == s[j] by {
            if i < p {
                assert(r[i] == t[i]);
                let j = choose|j: int| 0 <= j < s.len() - 1 && t[i] == s.drop_last()[j];
                assert(r[i] == s[j]);
            } else if i == p {
                assert(r[i] == s[s.len() - 1]);
            } else {
                assert(r[i] == t[i - 1]);
                let j = choose|j: int| 0 <= j < s.len() - 1 && t[i - 1] == s.drop_last()[j];
                assert(r[i] == s[j]);
            }
        }
    }
}

/// The key of an encoded entry: its encoded key.
pub open spec fn pair_key() -> spec_fn((Seq<u8>, Seq<u8>)) -> Seq<u8> {
    |p: (Seq<u8>, Seq<u8>)| p.0
}

proof fn lemma_key_pos_is_ins_pos(s: Seq<(Seq<u8>, Seq<u8>)>, k: Seq<u8>)
    ensures
        key_pos(s, k) == ins_pos(s, pair_key(), k),
    decreases s.len(),
{
    if s.len() > 0 {
        lemma_key_pos_is_ins_pos(s.drop_last(), k);
    }
}

/// The encoder's order of encoded entries is the order by their encoded keys.
proof fn lemma_sort_pairs_by_key(ps: Seq<(Seq<u8>, Seq<u8>)>)
    ensures
        sort_pairs(ps) == sort_by_key(ps, pair_key()),
    decreases ps.len(),
{
    if ps.len() > 0 {
        lemma_sort_pairs_by_key(ps.drop_last());
        lemma_key_pos_is_ins_pos(sort_pairs(ps.drop_last()), ps.last().0);
    }
}

// ── the canonical form ──────────────────────────────────────────────────────

/// The key an entry is ordered by: the encoding of its key.
pub open spec fn entry_key() -> spec_fn((Seq<char>, ItemView)) -> Seq<u8> {
    |e: (Seq<char>, ItemView)| text_bytes(e.0)
}

/// An entry as the encoder writes it: its encoded key and encoded value.
pub open spec fn encoded_entry() -> spec_fn((Seq<char>, ItemView)) -> (Seq<u8>, Seq<u8>) {
    |e: (Seq<char>, ItemView)| (text_bytes(e.0), encode_item(e.1))
}

/// An entry with its value in canonical form.
pub open spec fn canon_entry() -> spec_fn((Seq<char>, ItemView)) -> (Seq<char>, ItemView) {
    |e: (Seq<char>, ItemView)| (e.0, canon(e.1))
}

/// The canonical form of an item: the entries of every map stably ordered by their
/// encoded keys, everything else as it is.
pub open spec fn canon(x: ItemView) -> ItemView
    decreases x, 0nat,
{
    match x {
        ItemView::Arr(xs) => ItemView::Arr(canon_items(xs, xs.len())),
        ItemView::Dict(es) => ItemView::Dict(sort_by_key(canon_entries(es, es.len()), entry_key())),
        ItemView::Tag(t, y) => ItemView::Tag(t, Box::new(canon(*y))),
        _ => x,
    }
}

/// The canonical forms of the first `k` items.
pub open spec fn canon_items(xs: Seq<ItemView>, k: nat) -> Seq<ItemView>
    decreases xs, k,
{
    if k == 0 || k > xs.len() {
        seq![]
    } else {
        canon_items(xs, (k - 1) as nat).push(canon(xs[k - 1]))
    }
}

/// The first `k` entries, each value in canonical form.
pub open spec fn canon_entries(es: Seq<(Seq<char>, ItemView)>, k: nat) -> Seq<(Seq<char>, ItemView)>
    decreases es, k,
{
    if k == 0 || k > es.len() {
        seq![]
    } else {
        canon_entries(es, (k - 1) as nat).push((es[k - 1].0, canon(es[k - 1].1)))
    }
}

/// Every length in the item (of a string's UTF-8 bytes, a byte string, an array, a map
/// and its keys) fits a `usize`, as in any item held in memory.
pub open spec fn fits(x: ItemView) -> bool
    decreases x, 0nat,
{
    match x {
        ItemView::Str(s) => encode_utf8(s).len() <= usize::MAX,
        ItemView::Bin(b) => b.len() <= usize::MAX,
        ItemView::Arr(xs) => xs.len() <= usize::MAX && fits_items(xs, xs.len()),
        ItemView::Dict(es) => es.len() <= usize::MAX && fits_entries(es, es.len()),
        ItemView::Tag(_, y) => fits(*y),
        _ => true,
    }
}

/// The first `k` items fit.
pub open spec fn fits_items(xs: Seq<ItemView>, k: nat) -> bool
    decreases xs, k,
{
    if k == 0 || k > xs.len() {
        true
    } else {
        fits_items(xs, (k - 1) as nat) && fits(xs[k - 1])
    }
}

/// The keys and values of the first `k` entries fit.
pub open spec fn fits_entries(es: Seq<(Seq<char>, ItemView)>, k: nat) -> bool
    decreases es, k,
{
    if k == 0 || k > es.len() {
        true
    } else {
        fits_entries(es, (k - 1) as nat) && encode_utf8(es[k - 1].0).len() <= usize::MAX && fits(
            es[k - 1].1,
        )
    }
}

proof fn lemma_fits_items(xs: Seq<ItemView>, k: nat, j: int)
    requires
        fits_items(xs, k),
        k <= xs.len(),
        0 <= j < k,
    ensures
        fits(xs[j]),
    decreases k,
{
    if j < k - 1 {
        lemma_fits_items(xs, (k - 1) as nat, j);
    }
}

proof fn lemma_fits_entries(es: Seq<(Seq<char>, ItemView)>, k: nat, j: int)
    requires
        fits_entries(es, k),
        k <= es.len(),
        0 <= j < k,
    ensures
        fits(es[j].1),
        encode_utf8(es[j].0).len() <= usize::MAX,
    decreases k,
{
    if j < k - 1 {
        lemma_fits_entries(es, (k - 1) as nat, j);
    }
}

proof fn lemma_canon_entries_map(es: Seq<(Seq<char>, ItemView)>, k: nat)
    requires
        k <= es.len(),
    ensures
        canon_entries(es, k) == es.take(k as int).map_values(canon_entry()),
    decreases k,
{
    if k > 0 {
        lemma_canon_entries_map(es, (k - 1) as nat);
        assert(es.take(k as int).map_values(canon_entry()) =~= es.take(k - 1).map_values(
            canon_entry(),
        ).push((es[k - 1].0, canon(es[k - 1].1))));
    } else {
        assert(es.take(0).map_values(canon_entry()) =~= Seq::<(Seq<char>, ItemView)>::empty());
    }
}

proof fn lemma_entry_pairs_map(es: Seq<(Seq<char>, ItemView)>, k: nat)
    requires
        k <= es.len(),
    ensures
        entry_pairs(es, k) == es.take(k as int).map_values(encoded_entry()),
    decreases k,
{
    if k > 0 {
        lemma_entry_pairs_map(es, (k - 1) as nat);
        assert(es.take(k as int).map_values(encoded_entry()) =~= es.take(k - 1).map_values(
            encoded_entry(),
        ).push((text_bytes(es[k - 1].0), encode_item(es[k - 1].1))));
    } else {
        assert(es.take(0).map_values(encoded_entry()) =~= Seq::<(Seq<u8>, Seq<u8>)>::empty());
    }
}

// ── decoding an encoding ────────────────────────────────────────────────────

proof fn lemma_be_roundtrip(v: nat, w: nat)
    requires
        v < pow256(w),
    ensures
        be_bytes(v, w).len() == w,
        be_nat(be_bytes(v, w)) == v,
    decreases w,
{
    if w > 0 {
        let pw = pow256((w - 1) as nat);
        assert(v / 256 < pw) by (nonlinear_arith)
            requires
                v < 256 * pw,
        ;
        lemma_be_roundtrip(v / 256, (w - 1) as nat);
        let t = be_bytes(v / 256, (w - 1) as nat);
        assert(be_bytes(v, w) == t.push((v % 256) as u8));
        assert(t.push((v % 256) as u8).drop_last() =~= t);
    }
}

proof fn lemma_head_wide(d: Seq<u8>, p: int, major: u8, v: u64, ai: u8, w: nat)
    requires
        major < 8,
        24 <= ai <= 27,
        arg_width(ai) == w,
        v < pow256(w),
        0 <= p,
        p + 1 + w <= d.len(),
        d.subrange(p, p + 1 + w) == seq![(major * 32 + ai) as u8] + be_bytes(v as nat, w),
    ensures
        d[p] / 32 == major,
        d[p] % 32 == ai,
        arg_of(d, p + 1, d[p] % 32) == Ok::<(u64, int), Seq<char>>((v, p + 1 + w)),
{
    lemma_be_roundtrip(v as nat, w);
    let h = seq![(major * 32 + ai) as u8] + be_bytes(v as nat, w);
    assert(d[p] == d.subrange(p, p + 1 + w)[0]);
    assert(h[0] == (major * 32 + ai) as u8);
    assert(d.subrange(p + 1, p + 1 + w) =~= h.subrange(1, 1 + w as int));
    assert(h.subrange(1, 1 + w as int) =~= be_bytes(v as nat, w));
}

/// The head of an encoding decodes to its major type and argument.
proof fn lemma_head_dec(d: Seq<u8>, p: int, major: u8, v: u64)
    requires
        major < 8,
        0 <= p,
        p + head(major, v).len() <= d.len(),
        d.subrange(p, p + head(major, v).len()) == head(major, v),
    ensures
        head(major, v).len() >= 1,
        d[p] / 32 == major,
        d[p] % 32 <= 27,
        arg_of(d, p + 1, d[p] % 32) == Ok::<(u64, int), Seq<char>>((v, p + head(major, v).len())),
{
    reveal_with_fuel(pow256, 9);
    if v <= 23 {
        assert(d[p] == d.subrange(p, p + 1)[0]);
    } else if v <= 0xff {
        lemma_be_roundtrip(v as nat, 1);
        lemma_head_wide(d, p, major, v, 24, 1);
    } else if v <= 0xffff {
        lemma_be_roundtrip(v as nat, 2);
        lemma_head_wide(d, p, major, v, 25, 2);
    } else if v <= 0xffff_ffff {
        lemma_be_roundtrip(v as nat, 4);
        lemma_head_wide(d, p, major, v, 26, 4);
    } else {
        lemma_be_roundtrip(v as nat, 8);
        lemma_head_wide(d, p, major, v, 27, 8);
    }
}

/// A text string's encoding decodes to the text.
proof fn lemma_dec_text(d: Seq<u8>, p: int, s: Seq<char>, fl: Seq<(u64, Seq<char>)>)
    requires
        encode_utf8(s).len() <= usize::MAX,
        0 <= p,
        p + text_bytes(s).len() <= d.len(),
        d.subrange(p, p + text_bytes(s).len()) == text_bytes(s),
    ensures
        dec_item(d, p, fl) == Ok::<(ItemView, int), Seq<char>>((ItemView::Str(s), p + text_bytes(s).len())),
        text_bytes(s).len() >= 1,
{
    let b = encode_utf8(s);
    let h = head(3, b.len() as u64);
    assert(d.subrange(p, p + h.len()) =~= text_bytes(s).subrange(0, h.len() as int));
    assert(text_bytes(s).subrange(0, h.len() as int) =~= h);
    lemma_head_dec(d, p, 3, b.len() as u64);
    let q = p + h.len();
    assert(d.subrange(q, q + b.len()) =~= text_bytes(s).subrange(h.len() as int, text_bytes(s).len() as int));
    assert(text_bytes(s).subrange(h.len() as int, text_bytes(s).len() as int) =~= b);
    encode_utf8_valid_utf8(s);
    encode_utf8_decode_utf8(s);
}

proof fn lemma_encode_all_prefix(xs: Seq<ItemView>, m: nat, n: nat)
    requires
        m <= n <= xs.len(),
    ensures
        encode_all(xs, m).len() <= encode_all(xs, n).len(),
        encode_all(xs, n).subrange(0, encode_all(xs, m).len() as int) == encode_all(xs, m),
    decreases n,
{
    if m < n {
        lemma_encode_all_prefix(xs, m, (n - 1) as nat);
        let a = encode_all(xs, (n - 1) as nat);
        assert(encode_all(xs, n) == a + encode_item(xs[n - 1]));
        assert((a + encode_item(xs[n - 1])).subrange(0, encode_all(xs, m).len() as int) =~= a.subrange(
            0,
            encode_all(xs, m).len() as int,
        ));
    } else {
        assert(encode_all(xs, n).subrange(0, encode_all(xs, n).len() as int) =~= encode_all(xs, n));
    }
}

proof fn lemma_concat_prefix(ps: Seq<(Seq<u8>, Seq<u8>)>, m: nat)
    requires
        m <= ps.len(),
    ensures
        concat_pairs(ps.take(m as int)).len() <= concat_pairs(ps).len(),
        concat_pairs(ps).subrange(0, concat_pairs(ps.take(m as int)).len() as int) == concat_pairs(
            ps.take(m as int),
        ),
    decreases ps.len(),
{
    if m < ps.len() {
        lemma_concat_prefix(ps.drop_last(), m);
        assert(ps.drop_last().take(m as int) =~= ps.take(m as int));
        let a = concat_pairs(ps.drop_last());
        assert(concat_pairs(ps) == a + ps.last().0 + ps.last().1);
        assert((a + ps.last().0 + ps.last().1).subrange(
            0,
            concat_pairs(ps.take(m as int)).len() as int,
        ) =~= a.subrange(0, concat_pairs(ps.take(m as int)).len() as int));
    } else {
        assert(ps.take(m as int) =~= ps);
        assert(concat_pairs(ps).subrange(0, concat_pairs(ps).len() as int) =~= concat_pairs(ps));
    }
}

/// Decoding the encoding of an item, wherever it stands in `d`, gives its canonical form
/// and ends right after it.
#[verifier::spinoff_prover]
proof fn lemma_dec_encoded(d: Seq<u8>, p: int, x: ItemView, fl: Seq<(u64, Seq<char>)>)
    requires
        fits(x),
        0 <= p,
        p + encode_item(x).len() <= d.len(),
        d.subrange(p, p + encode_item(x).len()) == encode_item(x),
    ensures
        encode_item(x).len() >= 1,
        dec_item(d, p, fl) == Ok::<(ItemView, int), Seq<char>>((canon(x), p + encode_item(x).len())),
    decreases x, 0nat,
{
    let e = encode_item(x);
    assert(d[p] == d.subrange(p, p + e.len())[0]);
    match x {
        ItemView::Num(v) => {
            if v >= 0 {
                lemma_head_dec(d, p, 0, v as u64);
            } else {
                lemma_head_dec(d, p, 1, (-1 - v) as u64);
            }
        },
        ItemView::Str(s) => {
            lemma_dec_text(d, p, s, fl);
        },
        ItemView::Bin(b) => {
            let h = head(2, b.len() as u64);
            assert(d.subrange(p, p + h.len()) =~= e.subrange(0, h.len() as int));
            assert(e.subrange(0, h.len() as int) =~= h);
            lemma_head_dec(d, p, 2, b.len() as u64);
            let q = p + h.len();
            assert(d.subrange(q, q + b.len()) =~= e.subrange(h.len() as int, e.len() as int));
            assert(e.subrange(h.len() as int, e.len() as int) =~= b);
        },
        ItemView::Arr(xs) => {
            let n = xs.len();
            let h = head(4, n as u64);
            let ea = encode_all(xs, n);
            assert(d.subrange(p, p + h.len()) =~= e.subrange(0, h.len() as int));
            assert(e.subrange(0, h.len() as int) =~= h);
            lemma_head_dec(d, p, 4, n as u64);
            let q = p + h.len();
            assert(d.subrange(q, q + ea.len()) =~= e.subrange(h.len() as int, e.len() as int));
            assert(e.subrange(h.len() as int, e.len() as int) =~= ea);
            lemma_dec_items_enc(d, q, xs, 0, fl);
            assert(canon_items(xs, 0) =~= Seq::<ItemView>::empty());
        },
        ItemView::Dict(es) => {
            lemma_dec_encoded_dict(d, p, es, fl);
        },
        ItemView::Bool(b) => {},
        ItemView::Nil => {},
        ItemView::Flt(f) => {
            reveal_with_fuel(pow256, 9);
            lemma_be_roundtrip(f as nat, 8);
            assert(d.subrange(p + 1, p + 9) =~= e.subrange(1, 9));
            assert(e.subrange(1, 9) =~= be_bytes(f as nat, 8));
        },
        ItemView::Tag(t, y) => {
            let h = head(6, t);
            let ey = encode_item(*y);
            assert(d.subrange(p, p + h.len()) =~= e.subrange(0, h.len() as int));
            assert(e.subrange(0, h.len() as int) =~= h);
            lemma_head_dec(d, p, 6, t);
            let q = p + h.len();
            assert(d.subrange(q, q + ey.len()) =~= e.subrange(h.len() as int, e.len() as int));
            assert(e.subrange(h.len() as int, e.len() as int) =~= ey);
            lemma_dec_encoded(d, q, *y, fl);
        },
    }
}

/// The map case of `lemma_dec_encoded`.
#[verifier::spinoff_prover]
proof fn lemma_dec_encoded_dict(d: Seq<u8>, p: int, es: Seq<(Seq<char>, ItemView)>, fl: Seq<(u64, Seq<char>)>)
    requires
        fits(ItemView::Dict(es)),
        0 <= p,
        p + encode_item(ItemView::Dict(es)).len() <= d.len(),
        d.subrange(p, p + encode_item(ItemView::Dict(es)).len()) == encode_item(ItemView::Dict(es)),
    ensures
        encode_item(ItemView::Dict(es)).len() >= 1,
        dec_item(d, p, fl) == Ok::<(ItemView, int), Seq<char>>(
            (canon(ItemView::Dict(es)), p + encode_item(ItemView::Dict(es)).len()),
        ),
    decreases es, (es.len() + 1) as nat,
{
    let x = ItemView::Dict(es);
    let e = encode_item(x);
    let n = es.len();
    let h = head(5, n as u64);
    let srt = sort_by_key(es, entry_key());
    let ps = srt.map_values(encoded_entry());
    let gs = srt.map_values(canon_entry());
    lemma_entry_pairs_map(es, n);
    assert(es.take(n as int) =~= es);
    lemma_sort_pairs_by_key(es.map_values(encoded_entry()));
    lemma_sort_map(es, entry_key(), encoded_entry(), pair_key());
    assert(sort_pairs(entry_pairs(es, n)) == ps);
    lemma_canon_entries_map(es, n);
    lemma_sort_map(es, entry_key(), canon_entry(), entry_key());
    assert(canon(x) == ItemView::Dict(gs));
    let cp = concat_pairs(ps);
    assert(e == h + cp);
    assert(d.subrange(p, p + h.len()) =~= e.subrange(0, h.len() as int));
    assert(e.subrange(0, h.len() as int) =~= h);
    lemma_head_dec(d, p, 5, n as u64);
    let q = p + h.len();
    assert(d.subrange(q, q + cp.len()) =~= e.subrange(h.len() as int, e.len() as int));
    assert(e.subrange(h.len() as int, e.len() as int) =~= cp);
    lemma_dec_entries_enc(d, q, es, 0, fl);
    assert(ps.take(0) =~= Seq::<(Seq<u8>, Seq<u8>)>::empty());
    assert(gs.take(0) =~= Seq::<(Seq<char>, ItemView)>::empty());
}

/// Decoding the encodings of the elements from the `k`-th on.
proof fn lemma_dec_items_enc(d: Seq<u8>, q: int, xs: Seq<ItemView>, k: nat, fl: Seq<(u64, Seq<char>)>)
    requires
        fits_items(xs, xs.len()),
        k <= xs.len(),
        0 <= q,
        q + encode_all(xs, xs.len()).len() <= d.len(),
        d.subrange(q, q + encode_all(xs, xs.len()).len()) == encode_all(xs, xs.len()),
    ensures
        dec_items(d, q + encode_all(xs, k).len(), (xs.len() - k) as nat, canon_items(xs, k), fl) == Ok::<
            (ItemView, int),
            Seq<char>,
        >((ItemView::Arr(canon_items(xs, xs.len())), q + encode_all(xs, xs.len()).len())),
    decreases xs, (xs.len() - k) as nat,
{
    let n = xs.len();
    if k < n {
        let ea = encode_all(xs, n);
        let e1 = encode_all(xs, k + 1);
        let e0 = encode_all(xs, k);
        lemma_encode_all_prefix(xs, k + 1, n);
        assert(e1 == e0 + encode_item(xs[k as int]));
        let a = q + e0.len();
        let b = a + encode_item(xs[k as int]).len();
        assert(d.subrange(a, b) =~= ea.subrange(e0.len() as int, e1.len() as int));
        assert(ea.subrange(e0.len() as int, e1.len() as int) =~= e1.subrange(
            e0.len() as int,
            e1.len() as int,
        ));
        assert(e1.subrange(e0.len() as int, e1.len() as int) =~= encode_item(xs[k as int]));
        lemma_fits_items(xs, n, k as int);
        lemma_dec_encoded(d, a, xs[k as int], fl);
        lemma_dec_items_enc(d, q, xs, k + 1, fl);
    } else {
        assert(k == n);
    }
}

/// Decoding the encoded entries, in key order, from the `k`-th on.
proof fn lemma_dec_entries_enc(d: Seq<u8>, q: int, es: Seq<(Seq<char>, ItemView)>, k: nat, fl: Seq<(u64, Seq<char>)>)
    requires
        fits_entries(es, es.len()),
        k <= es.len(),
        0 <= q,
        q + concat_pairs(sort_by_key(es, entry_key()).map_values(encoded_entry())).len() <= d.len(),
        d.subrange(q, q + concat_pairs(sort_by_key(es, entry_key()).map_values(encoded_entry())).len())
            == concat_pairs(sort_by_key(es, entry_key()).map_values(encoded_entry())),
    ensures
        dec_entries(
            d,
            q + concat_pairs(sort_by_key(es, entry_key()).map_values(encoded_entry()).take(
                k as int,
            )).len(),
            (es.len() - k) as nat,
            sort_by_key(es, entry_key()).map_values(canon_entry()).take(k as int), fl,
        ) == Ok::<(ItemView, int), Seq<char>>(
            (
                ItemView::Dict(sort_by_key(es, entry_key()).map_values(canon_entry())),
                q + concat_pairs(sort_by_key(es, entry_key()).map_values(encoded_entry())).len(),
            ),
        ),
    decreases es, (es.len() - k) as nat,
{
    let n = es.len();
    let srt = sort_by_key(es, entry_key());
    let ps = srt.map_values(encoded_entry());
    let gs = srt.map_values(canon_entry());
    lemma_sort_elements(es, entry_key());
    if k < n {
        let j = choose|j: int| 0 <= j < es.len() && srt[k as int] == es[j];
        lemma_fits_entries(es, n, j);
        let kk = k as int;
        let cp = concat_pairs(ps);
        let c0 = concat_pairs(ps.take(kk));
        let c1 = concat_pairs(ps.take(kk + 1));
        lemma_concat_prefix(ps, k + 1);
        assert(ps.take(kk + 1).drop_last() =~= ps.take(kk));
        assert(ps.take(kk + 1).last() == ps[kk]);
        let key = srt[kk].0;
        let val = srt[kk].1;
        assert(ps[kk] == (text_bytes(key), encode_item(val)));
        assert(c1 == c0 + text_bytes(key) + encode_item(val));
        let l0: int = c0.len() as int;
        let lt: int = text_bytes(key).len() as int;
        let l1: int = c1.len() as int;
        let a = q + l0;
        let a1 = a + lt;
        let a2 = q + l1;
        assert(d.subrange(a, a1) =~= cp.subrange(l0, l0 + lt));
        assert(cp.subrange(l0, l0 + lt) =~= c1.subrange(l0, l0 + lt));
        assert(c1.subrange(l0, l0 + lt) =~= text_bytes(key));
        assert(d.subrange(a1, a2) =~= cp.subrange(l0 + lt, l1));
        assert(cp.subrange(l0 + lt, l1) =~= c1.subrange(l0 + lt, l1));
        assert(c1.subrange(l0 + lt, l1) =~= encode_item(val));
        lemma_dec_text(d, a, key, fl);
        lemma_dec_encoded(d, a1, es[j].1, fl);
        assert(gs.take(kk + 1) =~= gs.take(kk).push((key, canon(val))));
        lemma_dec_entries_enc(d, q, es, k + 1, fl);
    } else {
        assert(ps.take(k as int) =~= ps);
        assert(gs.take(k as int) =~= gs);
    }
}

// ── the law ─────────────────────────────────────────────────────────────────

/// Decoding the canonical encoding of an item gives the item back in canonical form (each
/// map's entries stably ordered by their encoded keys), whatever float texts are at hand:
/// encoding loses nothing but the order of map entries.
pub proof fn lemma_decode_encode(x: ItemView, floats: Seq<(u64, Seq<char>)>)
    requires
        fits(x),
    ensures
        decode_item_with(encode_item(x), floats) == Ok::<ItemView, Seq<char>>(canon(x)),
        decode_item(encode_item(x)) == Ok::<ItemView, Seq<char>>(canon(x)),
{
    let e = encode_item(x);
    assert(e.subrange(0, e.len() as int) =~= e);
    lemma_dec_encoded(e, 0, x, floats);
    lemma_dec_encoded(e, 0, x, seq![]);
}

// ── the canonical form equals the item ─────────────────────────────────────

/// No float in the item is a NaN.
pub open spec fn nan_free(x: ItemView) -> bool
    decreases x, 0nat,
{
    match x {
        ItemView::Flt(f) => !is_nan(f),
        ItemView::Arr(xs) => nan_free_items(xs, xs.len()),
        ItemView::Dict(es) => nan_free_entries(es, es.len()),
        ItemView::Tag(_, y) => nan_free(*y),
        _ => true,
    }
}

/// The first `k` items hold no NaN.
pub open spec fn nan_free_items(xs: Seq<ItemView>, k: nat) -> bool
    decreases xs, k,
{
    if k == 0 || k > xs.len() {
        true
    } else {
        nan_free_items(xs, (k - 1) as nat) && nan_free(xs[k - 1])
    }
}

/// The values of the first `k` entries hold no NaN.
pub open spec fn nan_free_entries(es: Seq<(Seq<char>, ItemView)>, k: nat) -> bool
    decreases es, k,
{
    if k == 0 || k > es.len() {
        true
    } else {
        nan_free_entries(es, (k - 1) as nat) && nan_free(es[k - 1].1)
    }
}

proof fn lemma_nan_free_items(xs: Seq<ItemView>, k: nat, j: int)
    requires
        nan_free_items(xs, k),
        k <= xs.len(),
        0 <= j < k,
    ensures
        nan_free(xs[j]),
    decreases k,
{
    if j < k - 1 {
        lemma_nan_free_items(xs, (k - 1) as nat, j);
    }
}

proof fn lemma_nan_free_entries(es: Seq<(Seq<char>, ItemView)>, k: nat, j: int)
    requires
        nan_free_entries(es, k),
        k <= es.len(),
        0 <= j < k,
    ensures
        nan_free(es[j].1),
    decreases k,
{
    if j < k - 1 {
        lemma_nan_free_entries(es, (k - 1) as nat, j);
    }
}

proof fn lemma_canon_items_index(xs: Seq<ItemView>, k: nat)
    requires
        k <= xs.len(),
    ensures
        canon_items(xs, k).len() == k,
        forall|j: int| 0 <= j < k ==> #[trigger] canon_items(xs, k)[j] == canon(xs[j]),
    decreases k,
{
    if k > 0 {
        lemma_canon_items_index(xs, (k - 1) as nat);
    }
}

/// Ordering is onto: every element of `s` stands somewhere in the ordered sequence.
proof fn lemma_sort_onto<A>(s: Seq<A>, key: spec_fn(A) -> Seq<u8>)
    ensures
        forall|j: int|
            0 <= j < s.len() ==> exists|i: int|
                0 <= i < s.len() && sort_by_key(s, key)[i] == #[trigger] s[j],
    decreases s.len(),
{
    if s.len() > 0 {
        let t = sort_by_key(s.drop_last(), key);
        lemma_sort_onto(s.drop_last(), key);
        lemma_sort_elements(s.drop_last(), key);
        lemma_ins_pos_range(t, key, key(s.last()));
        let p = ins_pos(t, key, key(s.last()));
        let r = t.insert(p, s.last());
        assert(sort_by_key(s, key) == r);
        assert forall|j: int| 0 <= j < s.len() implies exists|i: int|
            0 <= i < s.len() && sort_by_key(s, key)[i] == #[trigger] s[j] by {
            if j == s.len() - 1 {
                assert(r[p] == s[j]);
                assert(0 <= p < s.len() && sort_by_key(s, key)[p] == s[j]);
            } else {
                assert(s.drop_last()[j] == s[j]);
                let i = choose|i: int| 0 <= i < s.len() - 1 && t[i] == #[trigger] s.drop_last()[j];
                if i < p {
                    assert(r[i] == t[i]);
                    assert(0 <= i < s.len() && sort_by_key(s, key)[i] == s[j]);
                } else {
                    assert(r[i + 1] == t[i]);
                    assert(0 <= i + 1 < s.len() && sort_by_key(s, key)[i + 1] == s[j]);
                }
            }
        }
    }
}

proof fn lemma_left_any_at(
    xs: Seq<(Seq<char>, ItemView)>,
    ys: Seq<(Seq<char>, ItemView)>,
    i: int,
    m: nat,
    j: int,
)
    requires
        0 <= i < xs.len(),
        m <= ys.len(),
        0 <= j < m,
        ys[j].0 == xs[i].0,
        eq_dir(xs[i].1, ys[j].1, true),
    ensures
        left_any(xs, ys, i, m),
    decreases m,
{
    if j < m - 1 {
        lemma_left_any_at(xs, ys, i, (m - 1) as nat, j);
    }
}

proof fn lemma_right_any_at(
    xs: Seq<(Seq<char>, ItemView)>,
    ys: Seq<(Seq<char>, ItemView)>,
    i: int,
    m: nat,
    j: int,
)
    requires
        0 <= i < ys.len(),
        m <= xs.len(),
        0 <= j < m,
        xs[j].0 == ys[i].0,
        eq_dir(xs[j].1, ys[i].1, false),
    ensures
        right_any(xs, ys, i, m),
    decreases m,
{
    if j < m - 1 {
        lemma_right_any_at(xs, ys, i, (m - 1) as nat, j);
    }
}

proof fn lemma_left_all_from(xs: Seq<(Seq<char>, ItemView)>, ys: Seq<(Seq<char>, ItemView)>, k: nat)
    requires
        k <= xs.len(),
        forall|i: int| 0 <= i < k ==> #[trigger] left_any(xs, ys, i, ys.len()),
    ensures
        left_all(xs, ys, k),
    decreases k,
{
    if k > 0 {
        lemma_left_all_from(xs, ys, (k - 1) as nat);
        assert(left_any(xs, ys, k - 1, ys.len()));
    }
}

proof fn lemma_right_all_from(xs: Seq<(Seq<char>, ItemView)>, ys: Seq<(Seq<char>, ItemView)>, k: nat)
    requires
        k <= ys.len(),
        forall|i: int| 0 <= i < k ==> #[trigger] right_any(xs, ys, i, xs.len()),
    ensures
        right_all(xs, ys, k),
    decreases k,
{
    if k > 0 {
        lemma_right_all_from(xs, ys, (k - 1) as nat);
        assert(right_any(xs, ys, k - 1, xs.len()));
    }
}

/// The canonical form of a NaN-free item equals it, read from either side.
proof fn lemma_canon_eq(x: ItemView, flip: bool)
    requires
        nan_free(x),
    ensures
        eq_dir(canon(x), x, flip),
    decreases x, 2nat, 0nat,
{
    match x {
        ItemView::Arr(xs) => {
            lemma_canon_items_index(xs, xs.len());
            lemma_canon_all_eq(xs, xs.len(), flip);
        },
        ItemView::Dict(es) => {
            lemma_canon_eq_dict(es, flip);
        },
        ItemView::Tag(t, y) => {
            lemma_canon_eq(*y, flip);
        },
        _ => {},
    }
}

/// The entries of a map's canonical form.
pub open spec fn canon_sorted(es: Seq<(Seq<char>, ItemView)>) -> Seq<(Seq<char>, ItemView)> {
    sort_by_key(es, entry_key()).map_values(canon_entry())
}

proof fn lemma_canon_eq_dict(es: Seq<(Seq<char>, ItemView)>, flip: bool)
    requires
        nan_free_entries(es, es.len()),
    ensures
        eq_dir(canon(ItemView::Dict(es)), ItemView::Dict(es), flip),
    decreases es, 1nat, 0nat,
{
    let n = es.len();
    lemma_canon_entries_map(es, n);
    assert(es.take(n as int) =~= es);
    lemma_sort_map(es, entry_key(), canon_entry(), entry_key());
    lemma_sort_elements(es, entry_key());
    assert(canon(ItemView::Dict(es)) == ItemView::Dict(canon_sorted(es)));
    if !flip {
        lemma_canon_left(es);
    } else {
        lemma_canon_right(es);
    }
}

#[verifier::spinoff_prover]
proof fn lemma_canon_left(es: Seq<(Seq<char>, ItemView)>)
    requires
        nan_free_entries(es, es.len()),
    ensures
        left_all(canon_sorted(es), es, es.len()),
    decreases es, 0nat, 0nat,
{
    let n = es.len();
    let srt = sort_by_key(es, entry_key());
    let gs = canon_sorted(es);
    lemma_sort_elements(es, entry_key());
    assert forall|i: int| 0 <= i < gs.len() implies #[trigger] left_any(gs, es, i, es.len()) by {
        let j = choose|j: int| 0 <= j < es.len() && srt[i] == es[j];
        lemma_nan_free_entries(es, n, j);
        lemma_canon_eq(es[j].1, true);
        assert(gs[i] == (es[j].0, canon(es[j].1)));
        lemma_left_any_at(gs, es, i, n, j);
    }
    lemma_left_all_from(gs, es, gs.len());
}

#[verifier::spinoff_prover]
proof fn lemma_canon_right(es: Seq<(Seq<char>, ItemView)>)
    requires
        nan_free_entries(es, es.len()),
    ensures
        right_all(canon_sorted(es), es, es.len()),
    decreases es, 0nat, 0nat,
{
    let n = es.len();
    let srt = sort_by_key(es, entry_key());
    let gs = canon_sorted(es);
    lemma_sort_elements(es, entry_key());
    lemma_sort_onto(es, entry_key());
    assert forall|j: int| 0 <= j < es.len() implies #[trigger] right_any(gs, es, j, gs.len()) by {
        let i = choose|i: int| 0 <= i < es.len() && srt[i] == #[trigger] es[j];
        lemma_nan_free_entries(es, n, j);
        lemma_canon_eq(es[j].1, false);
        assert(gs[i] == (es[j].0, canon(es[j].1)));
        lemma_right_any_at(gs, es, j, gs.len(), i);
    }
    lemma_right_all_from(gs, es, es.len());
}

proof fn lemma_canon_all_eq(xs: Seq<ItemView>, k: nat, flip: bool)
    requires
        k <= xs.len(),
        nan_free_items(xs, xs.len()),
        canon_items(xs, xs.len()).len() == xs.len(),
        forall|j: int| 0 <= j < xs.len() ==> #[trigger] canon_items(xs, xs.len())[j] == canon(xs[j]),
    ensures
        all_eq(canon_items(xs, xs.len()), xs, k, flip),
    decreases xs, 0nat, k,
{
    if k > 0 {
        lemma_canon_all_eq(xs, (k - 1) as nat, flip);
        lemma_nan_free_items(xs, xs.len(), k - 1);
        assert(canon_items(xs, xs.len())[k - 1] == canon(xs[k - 1]));
        lemma_canon_eq(xs[k - 1], flip);
    }
}

/// Decoding the canonical encoding of a NaN-free item gives back an item equal to it
/// (under the library's `==`, which ignores the order of map entries).
pub proof fn lemma_decode_encode_eq(x: ItemView)
    requires
        fits(x),
        nan_free(x),
    ensures
        decode_item(encode_item(x)) matches Ok(y) && item_eq(y, x),
{
    lemma_decode_encode(x, seq![]);
    lemma_canon_eq(x, false);
}

// ── entry order does not matter ─────────────────────────────────────────────

proof fn lemma_lex_irreflexive(a: Seq<u8>)
    ensures
        !lex_lt(a, a),
    decreases a.len(),
{
    if a.len() > 0 {
        lemma_lex_irreflexive(a.drop_first());
    }
}

proof fn lemma_lex_asymmetric(a: Seq<u8>, b: Seq<u8>)
    ensures
        lex_lt(a, b) ==> !lex_lt(b, a),
    decreases a.len(),
{
    if a.len() > 0 && b.len() > 0 && a[0] == b[0] {
        lemma_lex_asymmetric(a.drop_first(), b.drop_first());
    }
}

proof fn lemma_lex_transitive(a: Seq<u8>, b: Seq<u8>, c: Seq<u8>)
    requires
        lex_lt(a, b),
        lex_lt(b, c),
    ensures
        lex_lt(a, c),
    decreases a.len(),
{
    if a.len() > 0 && a[0] == b[0] && b[0] == c[0] {
        lemma_lex_transitive(a.drop_first(), b.drop_first(), c.drop_first());
    }
}

proof fn lemma_lex_total(a: Seq<u8>, b: Seq<u8>)
    ensures
        a == b || lex_lt(a, b) || lex_lt(b, a),
    decreases a.len(),
{
    if a.len() > 0 && b.len() > 0 && a[0] == b[0] {
        lemma_lex_total(a.drop_first(), b.drop_first());
        if a.drop_first() == b.drop_first() {
            assert(a =~= seq![a[0]] + a.drop_first());
            assert(b =~= seq![b[0]] + b.drop_first());
        }
    } else if a.len() == 0 && b.len() == 0 {
        assert(a =~= b);
    }
}

/// `s` is ordered by `key`: no element's key sorts before that of an earlier one.
pub open spec fn key_sorted<A>(s: Seq<A>, key: spec_fn(A) -> Seq<u8>) -> bool {
    forall|i: int, j: int| 0 <= i < j < s.len() ==> !lex_lt(#[trigger] key(s[j]), #[trigger] key(s[i]))
}

proof fn lemma_ins_pos_split<A>(s: Seq<A>, key: spec_fn(A) -> Seq<u8>, k: Seq<u8>)
    requires
        key_sorted(s, key),
    ensures
        0 <= ins_pos(s, key, k) <= s.len(),
        forall|j: int| 0 <= j < ins_pos(s, key, k) ==> !lex_lt(k, #[trigger] key(s[j])),
        forall|j: int| ins_pos(s, key, k) <= j < s.len() ==> lex_lt(k, #[trigger] key(s[j])),
    decreases s.len(),
{
    if s.len() > 0 {
        let d = s.drop_last();
        assert(key_sorted(d, key)) by {
            assert forall|i: int, j: int| 0 <= i < j < d.len() implies !lex_lt(
                #[trigger] key(d[j]),
                #[trigger] key(d[i]),
            ) by {
                assert(d[i] == s[i] && d[j] == s[j]);
            }
        }
        lemma_ins_pos_split(d, key, k);
        let last = s[s.len() - 1];
        if lex_lt(k, key(last)) {
            assert forall|j: int| ins_pos(s, key, k) <= j < s.len() implies lex_lt(k, #[trigger] key(s[j])) by {
                if j < s.len() - 1 {
                    assert(d[j] == s[j]);
                }
            }
            assert forall|j: int| 0 <= j < ins_pos(s, key, k) implies !lex_lt(k, #[trigger] key(s[j])) by {
                assert(d[j] == s[j]);
            }
        } else {
            assert forall|j: int| 0 <= j < ins_pos(s, key, k) implies !lex_lt(k, #[trigger] key(s[j])) by {
                if j < s.len() - 1 {
                    assert(!lex_lt(key(s[s.len() - 1]), key(s[j])));
                    lemma_lex_total(k, key(last));
                    if lex_lt(k, key(s[j])) {
                        if lex_lt(key(last), k) {
                            lemma_lex_transitive(key(last), k, key(s[j]));
                        }
                    }
                }
            }
        }
    }
}

/// Ordering by key gives a sequence ordered by key, with the same elements.
proof fn lemma_sort_sorted<A>(s: Seq<A>, key: spec_fn(A) -> Seq<u8>)
    ensures
        key_sorted(sort_by_key(s, key), key),
        sort_by_key(s, key).to_multiset() == s.to_multiset(),
    decreases s.len(),
{
    broadcast use vstd::seq_lib::group_to_multiset_ensures;

    if s.len() == 0 {
        assert(sort_by_key(s, key) =~= s);
    } else {
        lemma_sort_sorted(s.drop_last(), key);
        let t = sort_by_key(s.drop_last(), key);
        let x = s.last();
        lemma_ins_pos_split(t, key, key(x));
        let p = ins_pos(t, key, key(x));
        let r = t.insert(p, x);
        assert(s =~= s.drop_last().push(x));
        assert forall|i: int, j: int| 0 <= i < j < r.len() implies !lex_lt(
            #[trigger] key(r[j]),
            #[trigger] key(r[i]),
        ) by {
            if j < p {
                assert(r[i] == t[i] && r[j] == t[j]);
            } else if j == p {
                assert(r[i] == t[i] && r[j] == x);
            } else if i < p {
                assert(r[i] == t[i] && r[j] == t[j - 1]);
                assert(!lex_lt(key(x), key(t[i])));
                assert(lex_lt(key(x), key(t[j - 1])));
                lemma_lex_total(key(x), key(t[i]));
                if lex_lt(key(t[j - 1]), key(t[i])) {
                    lemma_lex_transitive(key(x), key(t[j - 1]), key(t[i]));
                }
            } else if i == p {
                assert(r[i] == x && r[j] == t[j - 1]);
                lemma_lex_asymmetric(key(x), key(t[j - 1]));
            } else {
                assert(r[i] == t[i - 1] && r[j] == t[j - 1]);
            }
        }
    }
}

/// Two sequences ordered by the same key, with the same elements, where elements with the
/// same key are equal, are equal.
proof fn lemma_key_sorted_unique<A>(x: Seq<A>, y: Seq<A>, key: spec_fn(A) -> Seq<u8>)
    requires
        key_sorted(x, key),
        key_sorted(y, key),
        x.to_multiset() == y.to_multiset(),
        forall|a: A, b: A| x.contains(a) && x.contains(b) && key(a) == key(b) ==> a == b,
    ensures
        x == y,
    decreases x.len(),
{
    broadcast use vstd::seq_lib::group_to_multiset_ensures;
    broadcast use vstd::multiset::group_multiset_axioms;

    assert(x.len() == y.len()) by {
        vstd::seq_lib::to_multiset_len(x);
        vstd::seq_lib::to_multiset_len(y);
    }
    if x.len() > 0 {
        assert(x.to_multiset().count(y[0]) > 0) by {
            assert(y.contains(y[0]));
        }
        assert(x.contains(y[0]));
        let i = choose|i: int| 0 <= i < x.len() && x[i] == y[0];
        assert(y.to_multiset().count(x[0]) > 0) by {
            assert(x.contains(x[0]));
        }
        assert(y.contains(x[0]));
        let j = choose|j: int| 0 <= j < y.len() && y[j] == x[0];
        if key(x[0]) != key(y[0]) {
            assert(x.contains(x[i]));
            assert(i != 0);
            assert(!lex_lt(key(x[i]), key(x[0])));
            lemma_lex_total(key(x[0]), key(x[i]));
            assert(j != 0);
            assert(!lex_lt(key(y[j]), key(y[0])));
            lemma_lex_total(key(y[0]), key(y[j]));
            lemma_lex_asymmetric(key(x[0]), key(y[0]));
        }
        assert(x.contains(x[0]) && x.contains(y[0]));
        assert(x[0] == y[0]);
        let x1 = x.drop_first();
        let y1 = y.drop_first();
        assert(x1 =~= x.remove(0));
        assert(y1 =~= y.remove(0));
        assert(x1.to_multiset() == y1.to_multiset());
        assert(key_sorted(x1, key)) by {
            assert forall|a: int, b: int| 0 <= a < b < x1.len() implies !lex_lt(
                #[trigger] key(x1[b]),
                #[trigger] key(x1[a]),
            ) by {
                assert(x1[a] == x[a + 1] && x1[b] == x[b + 1]);
            }
        }
        assert(key_sorted(y1, key)) by {
            assert forall|a: int, b: int| 0 <= a < b < y1.len() implies !lex_lt(
                #[trigger] key(y1[b]),
                #[trigger] key(y1[a]),
            ) by {
                assert(y1[a] == y[a + 1] && y1[b] == y[b + 1]);
            }
        }
        assert forall|a: A| x1.contains(a) implies x.contains(a) by {
            let w = choose|w: int| 0 <= w < x1.len() && x1[w] == a;
            assert(x[w + 1] == a);
        }
        lemma_key_sorted_unique(x1, y1, key);
        assert(x =~= seq![x[0]] + x1);
        assert(y =~= seq![y[0]] + y1);
    }
}

/// The encoding of a map does not depend on the order of its entries, as long as its keys
/// are distinct: two maps with the same entries encode to the same bytes.
pub proof fn lemma_encode_entry_order(es1: Seq<(Seq<char>, ItemView)>, es2: Seq<(Seq<char>, ItemView)>)
    requires
        fits(ItemView::Dict(es1)),
        es1.to_multiset() == es2.to_multiset(),
        forall|i: int, j: int| 0 <= i < j < es1.len() ==> es1[i].0 != es1[j].0,
    ensures
        encode_item(ItemView::Dict(es1)) == encode_item(ItemView::Dict(es2)),
{
    broadcast use vstd::seq_lib::group_to_multiset_ensures;

    let n = es1.len();
    assert(es2.len() == n) by {
        vstd::seq_lib::to_multiset_len(es1);
        vstd::seq_lib::to_multiset_len(es2);
    }
    let s1 = sort_by_key(es1, entry_key());
    let s2 = sort_by_key(es2, entry_key());
    lemma_sort_sorted(es1, entry_key());
    lemma_sort_sorted(es2, entry_key());
    lemma_sort_elements(es1, entry_key());
    lemma_sort_elements(es2, entry_key());
    // An encoded key determines the entry among those of `es1`.
    assert forall|a: (Seq<char>, ItemView), b: (Seq<char>, ItemView)|
        s1.contains(a) && s1.contains(b) && entry_key()(a) == entry_key()(b) implies a == b by {
        let ia = choose|ia: int| 0 <= ia < s1.len() && s1[ia] == a;
        let ib = choose|ib: int| 0 <= ib < s1.len() && s1[ib] == b;
        let ja = choose|ja: int| 0 <= ja < es1.len() && s1[ia] == es1[ja];
        let jb = choose|jb: int| 0 <= jb < es1.len() && s1[ib] == es1[jb];
        lemma_fits_entries(es1, n, ja);
        lemma_fits_entries(es1, n, jb);
        let d = text_bytes(a.0);
        assert(d.subrange(0, d.len() as int) =~= d);
        lemma_dec_text(d, 0, a.0, seq![]);
        lemma_dec_text(d, 0, b.0, seq![]);
        if ja != jb {
            if ja < jb {
                assert(es1[ja].0 != es1[jb].0);
            } else {
                assert(es1[jb].0 != es1[ja].0);
            }
        }
    }
    assert(s1 == s2) by {
        lemma_key_sorted_unique(s1, s2, entry_key());
    }
    lemma_entry_pairs_map(es1, n);
    lemma_entry_pairs_map(es2, n);
    assert(es1.take(n as int) =~= es1);
    assert(es2.take(n as int) =~= es2);
    lemma_sort_pairs_by_key(es1.map_values(encoded_entry()));
    lemma_sort_pairs_by_key(es2.map_values(encoded_entry()));
    lemma_sort_map(es1, entry_key(), encoded_entry(), pair_key());
    lemma_sort_map(es2, entry_key(), encoded_entry(), pair_key());
}

} // verus!
