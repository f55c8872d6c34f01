//! The `Item` metamodel shared by JSON, YAML and CBOR, and its canonical CBOR codec
//! (RFC 8949: map keys ordered by their encoded bytes, minimal-width heads, definite
//! lengths, floats as binary64).
use vstd::prelude::*;
use vstd::std_specs::cmp::PartialEqSpecImpl;
use vstd::utf8::encode_utf8;

pub mod canon;
pub mod codec;
pub mod debug;
pub mod json;

pub use self::codec::{decode, decode_with, encode, float_heads};
pub use self::json::{float_bits, render_json};

verus! {

/// A metamodel node.
#[derive(Debug)]
pub enum Item {
    /// A text string (CBOR major type 3).
    Str(String),
    /// A byte string (major type 2).
    Bin(Vec<u8>),
    /// A signed integer (major types 0 and 1).
    Num(i64),
    /// A binary64 float, by its bit pattern.
    Flt(u64),
    /// `true` or `false`.
    Bool(bool),
    /// `null`.
    Nil,
    /// Key/value entries; encoding orders them by their encoded keys, and equality does not
    /// depend on their order.
    Dict(Vec<(String, Item)>),
    /// An array.
    Arr(Vec<Item>),
    /// A tagged item (major type 6).
    Tag(u64, Box<Item>),
}

/// The model of an item.
pub enum ItemView {
    Str(Seq<char>),
    Bin(Seq<u8>),
    Num(i64),
    Flt(u64),
    Bool(bool),
    Nil,
    Dict(Seq<(Seq<char>, ItemView)>),
    Arr(Seq<ItemView>),
    Tag(u64, Box<ItemView>),
}

impl View for Item {
    type V = ItemView;

    open spec fn view(&self) -> ItemView {
        self.node()
    }
}

impl Item {
    /// The model of this item.
    pub open spec fn node(&self) -> ItemView
        decreases self,
    {
        match self {
            Item::Str(s) => ItemView::Str(s@),
            Item::Bin(b) => ItemView::Bin(b@),
            Item::Num(v) => ItemView::Num(*v),
            Item::Flt(f) => ItemView::Flt(*f),
            Item::Bool(b) => ItemView::Bool(*b),
            Item::Nil => ItemView::Nil,
            Item::Dict(es) => ItemView::Dict(
                Seq::new(
                    es@.len(),
                    |i: int|
                        if 0 <= i < es@.len() {
                            (es@[i].0@, es@[i].1.node())
                        } else {
                            (seq![], ItemView::Nil)
                        },
                ),
            ),
            Item::Arr(xs) => ItemView::Arr(
                Seq::new(
                    xs@.len(),
                    |i: int|
                        if 0 <= i < xs@.len() {
                            xs@[i].node()
                        } else {
                            ItemView::Nil
                        },
                ),
            ),
            Item::Tag(t, x) => ItemView::Tag(*t, Box::new(x.node())),
        }
    }
}

// ── equality ────────────────────────────────────────────────────────────────

/// A binary64 bit pattern is a NaN.
pub open spec fn is_nan(b: u64) -> bool {
    (b >> 52u64) & 0x7ff == 0x7ff && b & 0xf_ffff_ffff_ffff != 0
}

/// Binary64 equality on bit patterns: no NaN equals anything, both zeros are equal, and
/// otherwise the bits must agree.
pub open spec fn float_eq(a: u64, b: u64) -> bool {
    !is_nan(a) && !is_nan(b) && (a == b || (a & 0x7fff_ffff_ffff_ffff == 0 && b
        & 0x7fff_ffff_ffff_ffff == 0))
}

/// Item equality read from `a`'s side: `a == b` where `flip` is false, `b == a` where it
/// is true. Scalars compare by value (floats as binary64), arrays element by element, tags
/// by number and content; a map equals another of the same size when each entry of the
/// map on the left of `==` has an entry of the same key and equal value in the other.
pub open spec fn eq_dir(a: ItemView, b: ItemView, flip: bool) -> bool
    decreases a, 0nat, 0nat,
{
    match a {
        ItemView::Str(x) => match b {
            ItemView::Str(y) => x == y,
            _ => false,
        },
        ItemView::Bin(x) => match b {
            ItemView::Bin(y) => x == y,
            _ => false,
        },
        ItemView::Num(x) => match b {
            ItemView::Num(y) => x == y,
            _ => false,
        },
        ItemView::Flt(x) => match b {
            ItemView::Flt(y) => float_eq(x, y),
            _ => false,
        },
        ItemView::Bool(x) => match b {
            ItemView::Bool(y) => x == y,
            _ => false,
        },
        ItemView::Nil => b is Nil,
        ItemView::Arr(xs) => match b {
            ItemView::Arr(ys) => xs.len() == ys.len() && all_eq(xs, ys, xs.len(), flip),
            _ => false,
        },
        ItemView::Dict(xs) => match b {
            ItemView::Dict(ys) => xs.len() == ys.len() && if !flip {
                left_all(xs, ys, xs.len())
            } else {
                right_all(xs, ys, ys.len())
            },
            _ => false,
        },
        ItemView::Tag(t, x) => match b {
            ItemView::Tag(u, y) => t == u && eq_dir(*x, *y, flip),
            _ => false,
        },
    }
}

/// The first `k` elements of `xs` and `ys` are pairwise equal (read from `xs`'s side).
pub open spec fn all_eq(xs: Seq<ItemView>, ys: Seq<ItemView>, k: nat, flip: bool) -> bool
    decreases xs, 0nat, k,
{
    if k == 0 {
        true
    } else if k > xs.len() || k > ys.len() {
        false
    } else {
        all_eq(xs, ys, (k - 1) as nat, flip) && eq_dir(xs[k - 1], ys[k - 1], flip)
    }
}

/// Each of the first `k` entries of `xs` has a match in `ys`.
pub open spec fn left_all(xs: Seq<(Seq<char>, ItemView)>, ys: Seq<(Seq<char>, ItemView)>, k: nat) -> bool
    decreases xs, 1nat, k,
{
    if k == 0 {
        true
    } else if k > xs.len() {
        false
    } else {
        left_all(xs, ys, (k - 1) as nat) && left_any(xs, ys, k - 1, ys.len())
    }
}

/// Among the first `m` entries of `ys`, one has the key of `xs[i]` and a value equal to
/// it (`ys[j].1 == xs[i].1`).
pub open spec fn left_any(xs: Seq<(Seq<char>, ItemView)>, ys: Seq<(Seq<char>, ItemView)>, i: int, m: nat) -> bool
    decreases xs, 0nat, m,
{
    if m == 0 || i < 0 || i >= xs.len() || m > ys.len() {
        false
    } else {
        left_any(xs, ys, i, (m - 1) as nat) || (ys[m - 1].0 == xs[i].0 && eq_dir(xs[i].1, ys[m - 1].1, true))
    }
}

/// Each of the first `k` entries of `ys` has a match in `xs`.
pub open spec fn right_all(xs: Seq<(Seq<char>, ItemView)>, ys: Seq<(Seq<char>, ItemView)>, k: nat) -> bool
    decreases xs, 1nat, k,
{
    if k == 0 {
        true
    } else if k > ys.len() {
        false
    } else {
        right_all(xs, ys, (k - 1) as nat) && right_any(xs, ys, k - 1, xs.len())
    }
}

/// Among the first `m` entries of `xs`, one has the key of `ys[i]` and a value equal to
/// it (`xs[j].1 == ys[i].1`).
pub open spec fn right_any(xs: Seq<(Seq<char>, ItemView)>, ys: Seq<(Seq<char>, ItemView)>, i: int, m: nat) -> bool
    decreases xs, 0nat, m,
{
    if m == 0 || i < 0 || i >= ys.len() || m > xs.len() {
        false
    } else {
        right_any(xs, ys, i, (m - 1) as nat) || (xs[m - 1].0 == ys[i].0 && eq_dir(xs[m - 1].1, ys[i].1, false))
    }
}

/// Item equality (see `eq_dir`).
pub open spec fn item_eq(a: ItemView, b: ItemView) -> bool {
    eq_dir(a, b, false)
}

fn is_nan_exec(b: u64) -> (r: bool)
    ensures
        r == is_nan(b),
{
    (b >> 52u64) & 0x7ff == 0x7ff && b & 0xf_ffff_ffff_ffff != 0
}

fn float_eq_exec(a: u64, b: u64) -> (r: bool)
    ensures
        r == float_eq(a, b),
{
    !is_nan_exec(a) && !is_nan_exec(b) && (a == b || (a & 0x7fff_ffff_ffff_ffff == 0 && b
        & 0x7fff_ffff_ffff_ffff == 0))
}

proof fn lemma_all_eq_stops(xs: Seq<ItemView>, ys: Seq<ItemView>, k: nat, m: nat, flip: bool)
    requires
        k <= m,
        !all_eq(xs, ys, k, flip),
    ensures
        !all_eq(xs, ys, m, flip),
    decreases m - k,
{
    if k < m {
        lemma_all_eq_stops(xs, ys, k + 1, m, flip);
    }
}

proof fn lemma_left_all_stops(xs: Seq<(Seq<char>, ItemView)>, ys: Seq<(Seq<char>, ItemView)>, k: nat, m: nat)
    requires
        k <= m,
        !left_all(xs, ys, k),
    ensures
        !left_all(xs, ys, m),
    decreases m - k,
{
    if k < m {
        lemma_left_all_stops(xs, ys, k + 1, m);
    }
}

proof fn lemma_right_all_stops(xs: Seq<(Seq<char>, ItemView)>, ys: Seq<(Seq<char>, ItemView)>, k: nat, m: nat)
    requires
        k <= m,
        !right_all(xs, ys, k),
    ensures
        !right_all(xs, ys, m),
    decreases m - k,
{
    if k < m {
        lemma_right_all_stops(xs, ys, k + 1, m);
    }
}

proof fn lemma_left_any_mono(xs: Seq<(Seq<char>, ItemView)>, ys: Seq<(Seq<char>, ItemView)>, i: int, k: nat, m: nat)
    requires
        k <= m <= ys.len(),
        left_any(xs, ys, i, k),
    ensures
        left_any(xs, ys, i, m),
    decreases m - k,
{
    if k < m {
        lemma_left_any_mono(xs, ys, i, k + 1, m);
    }
}

proof fn lemma_right_any_mono(xs: Seq<(Seq<char>, ItemView)>, ys: Seq<(Seq<char>, ItemView)>, i: int, k: nat, m: nat)
    requires
        k <= m <= xs.len(),
        right_any(xs, ys, i, k),
    ensures
        right_any(xs, ys, i, m),
    decreases m - k,
{
    if k < m {
        lemma_right_any_mono(xs, ys, i, k + 1, m);
    }
}

/// Item equality read from `a`'s side (see `eq_dir`).
#[verifier::loop_isolation(false)]
fn eq_items(a: &Item, b: &Item, flip: bool) -> (r: bool)
    ensures
        r == eq_dir(a@, b@, flip),
    decreases a,
{
    match (a, b) {
        (Item::Str(x), Item::Str(y)) => x.eq(y),
        (Item::Bin(x), Item::Bin(y)) => {
            if x.len() != y.len() {
                return false;
            }
            let mut i: usize = 0;
            while i < x.len()
                invariant
                    i <= x@.len(),
                    x@.len() == y@.len(),
                    forall|k: int| 0 <= k < i ==> x@[k] == y@[k],
                decreases x@.len() - i,
            {
                if x[i] != y[i] {
                    return false;
                }
                i = i + 1;
            }
            assert(x@ =~= y@);
            true
        },
        (Item::Num(x), Item::Num(y)) => *x == *y,
        (Item::Flt(x), Item::Flt(y)) => float_eq_exec(*x, *y),
        (Item::Bool(x), Item::Bool(y)) => *x == *y,
        (Item::Nil, Item::Nil) => true,
        (Item::Arr(xs), Item::Arr(ys)) => {
            let ghost xv = a@->Arr_0;
            let ghost yv = b@->Arr_0;
            if xs.len() != ys.len() {
                return false;
            }
            let mut i: usize = 0;
            while i < xs.len()
                invariant
                    i <= xs@.len(),
                    xs@.len() == ys@.len(),
                    xv.len() == xs@.len(),
                    yv.len() == ys@.len(),
                    forall|k: int| 0 <= k < xs@.len() ==> #[trigger] xv[k] == xs@[k]@,
                    forall|k: int| 0 <= k < ys@.len() ==> #[trigger] yv[k] == ys@[k]@,
                    all_eq(xv, yv, i as nat, flip),
                decreases xs@.len() - i,
            {
                proof {
                    assert(xv[i as int] == xs@[i as int]@);
                    assert(yv[i as int] == ys@[i as int]@);
                }
                if !eq_items(&xs[i], &ys[i], flip) {
                    proof {
                        lemma_all_eq_stops(xv, yv, (i + 1) as nat, xv.len(), flip);
                    }
                    return false;
                }
                i = i + 1;
            }
            true
        },
        (Item::Dict(xs), Item::Dict(ys)) => {
            let ghost xv = a@->Dict_0;
            let ghost yv = b@->Dict_0;
            if xs.len() != ys.len() {
                return false;
            }
            let n = xs.len();
            let mut i: usize = 0;
            while i < n
                invariant
                    i <= n,
                    n == xs@.len(),
                    n == ys@.len(),
                    xv.len() == n,
                    yv.len() == n,
                    forall|k: int| 0 <= k < n ==> #[trigger] xv[k] == (xs@[k].0@, xs@[k].1@),
                    forall|k: int| 0 <= k < n ==> #[trigger] yv[k] == (ys@[k].0@, ys@[k].1@),
                    !flip ==> left_all(xv, yv, i as nat),
                    flip ==> right_all(xv, yv, i as nat),
                decreases n - i,
            {
                let mut found = false;
                let mut j: usize = 0;
                while j < n && !found
                    invariant
                        j <= n,
                        i < n,
                        n == xs@.len(),
                        n == ys@.len(),
                        xv.len() == n,
                        yv.len() == n,
                        forall|k: int| 0 <= k < n ==> #[trigger] xv[k] == (xs@[k].0@, xs@[k].1@),
                        forall|k: int| 0 <= k < n ==> #[trigger] yv[k] == (ys@[k].0@, ys@[k].1@),
                        !flip && !found ==> !left_any(xv, yv, i as int, j as nat),
                        !flip && found ==> left_any(xv, yv, i as int, n as nat),
                        flip && !found ==> !right_any(xv, yv, i as int, j as nat),
                        flip && found ==> right_any(xv, yv, i as int, n as nat),
                    decreases n - j + (if found {
                        0int
                    } else {
                        1int
                    }),
                {
                    proof {
                        assert(xv[i as int] == (xs@[i as int].0@, xs@[i as int].1@));
                        assert(yv[i as int] == (ys@[i as int].0@, ys@[i as int].1@));
                        assert(xv[j as int] == (xs@[j as int].0@, xs@[j as int].1@));
                        assert(yv[j as int] == (ys@[j as int].0@, ys@[j as int].1@));
                    }
                    let hit = if !flip {
                        ys[j].0 == xs[i].0 && eq_items(&xs[i].1, &ys[j].1, true)
                    } else {
                        xs[j].0 == ys[i].0 && eq_items(&xs[j].1, &ys[i].1, false)
                    };
                    if hit {
                        proof {
                            if !flip {
                                lemma_left_any_mono(xv, yv, i as int, (j + 1) as nat, n as nat);
                            } else {
                                lemma_right_any_mono(xv, yv, i as int, (j + 1) as nat, n as nat);
                            }
                        }
                        found = true;
                    } else {
                        j = j + 1;
                    }
                }
                if !found {
                    proof {
                        if !flip {
                            lemma_left_all_stops(xv, yv, (i + 1) as nat, n as nat);
                        } else {
                            lemma_right_all_stops(xv, yv, (i + 1) as nat, n as nat);
                        }
                    }
                    return false;
                }
                i = i + 1;
            }
            true
        },
        (Item::Tag(t, x), Item::Tag(u, y)) => *t == *u && eq_items(x, y, flip),
        _ => false,
    }
}

impl Item {
    /// A deep copy of this item.
    #[verifier::loop_isolation(false)]
    pub fn deep_clone(&self) -> (r: Item)
        ensures
            r@ == self@,
        decreases self,
    {
        match self {
            Item::Str(s) => Item::Str(s.clone()),
            Item::Bin(b) => {
                let mut v: Vec<u8> = Vec::new();
                let mut i: usize = 0;
                while i < b.len()
                    invariant
                        i <= b@.len(),
                        v@ == b@.subrange(0, i as int),
                    decreases b@.len() - i,
                {
                    v.push(b[i]);
                    i = i + 1;
                }
                assert(v@ =~= b@);
                Item::Bin(v)
            },
            Item::Num(v) => Item::Num(*v),
            Item::Flt(f) => Item::Flt(*f),
            Item::Bool(b) => Item::Bool(*b),
            Item::Nil => Item::Nil,
            Item::Dict(es) => {
                let mut out: Vec<(String, Item)> = Vec::new();
                let mut i: usize = 0;
                while i < es.len()
                    invariant
                        i <= es@.len(),
                        out@.len() == i,
                        forall|k: int|
                            0 <= k < i ==> (#[trigger] out@[k]).0@ == es@[k].0@ && out@[k].1@ == es@[k].1@,
                    decreases es@.len() - i,
                {
                    let k = es[i].0.clone();
                    let v = es[i].1.deep_clone();
                    out.push((k, v));
                    i = i + 1;
                }
                let r = Item::Dict(out);
                assert(r@->Dict_0 =~= self@->Dict_0);
                r
            },
            Item::Arr(xs) => {
                let mut out: Vec<Item> = Vec::new();
                let mut i: usize = 0;
                while i < xs.len()
                    invariant
                        i <= xs@.len(),
                        out@.len() == i,
                        forall|k: int| 0 <= k < i ==> (#[trigger] out@[k])@ == xs@[k]@,
                    decreases xs@.len() - i,
                {
                    out.push(xs[i].deep_clone());
                    i = i + 1;
                }
                let r = Item::Arr(out);
                assert(r@->Arr_0 =~= self@->Arr_0);
                r
            },
            Item::Tag(t, x) => Item::Tag(*t, Box::new(x.deep_clone())),
        }
    }
}

impl Clone for Item {
    fn clone(&self) -> (r: Item)
        ensures
            r@ == self@,
    {
        self.deep_clone()
    }
}

impl PartialEq for Item {
    fn eq(&self, other: &Item) -> (r: bool) {
        eq_items(self, other, false)
    }
}

impl PartialEqSpecImpl for Item {
    open spec fn obeys_eq_spec() -> bool {
        true
    }

    open spec fn eq_spec(&self, other: &Item) -> bool {
        item_eq(self@, other@)
    }
}

// ── accessors ───────────────────────────────────────────────────────────────

/// The position of the first entry with key `key`, from `i` on.
pub open spec fn entry_index(es: Seq<(Seq<char>, ItemView)>, key: Seq<char>, i: int) -> Option<int>
    decreases es.len() - i,
{
    if i < 0 || i >= es.len() {
        None
    } else if es[i].0 == key {
        Some(i)
    } else {
        entry_index(es, key, i + 1)
    }
}

impl Item {
    /// The value of the first entry with key `key`; `None` for a missing key or a non-map.
    pub fn map_get(&self, key: &str) -> (r: Option<&Item>)
        ensures
            match self@ {
                ItemView::Dict(es) => match entry_index(es, key@, 0) {
                    Some(i) => r matches Some(v) && v@ == es[i].1,
                    None => r is None,
                },
                _ => r is None,
            },
    {
        match self {
            Item::Dict(entries) => {
                let ghost es = self@->Dict_0;
                let wanted = key.to_owned();
                let n = entries.len();
                let mut i: usize = 0;
                while i < n
                    invariant
                        i <= n,
                        n == entries@.len(),
                        es.len() == n,
                        wanted@ == key@,
                        self@ == ItemView::Dict(es),
                        forall|k: int| 0 <= k < n ==> #[trigger] es[k] == (entries@[k].0@, entries@[k].1@),
                        entry_index(es, key@, i as int) == entry_index(es, key@, 0),
                    decreases n - i,
                {
                    proof {
                        assert(es[i as int] == (entries@[i as int].0@, entries@[i as int].1@));
                    }
                    if entries[i].0 == wanted {
                        return Some(&entries[i].1);
                    }
                    i = i + 1;
                }
                None
            },
            _ => None,
        }
    }

    /// The keys of a map, in entry order; none for a non-map.
    pub fn map_keys(&self) -> (r: Vec<&str>)
        ensures
            match self@ {
                ItemView::Dict(es) => r@.map_values(|k: &str| k@) == es.map_values(
                    |e: (Seq<char>, ItemView)| e.0,
                ),
                _ => r@.len() == 0,
            },
    {
        let mut out: Vec<&str> = Vec::new();
        match self {
            Item::Dict(entries) => {
                let ghost es = self@->Dict_0;
                let mut i: usize = 0;
                while i < entries.len()
                    invariant
                        i <= entries@.len(),
                        es.len() == entries@.len(),
                        forall|k: int| 0 <= k < es.len() ==> #[trigger] es[k] == (entries@[k].0@, entries@[k].1@),
                        out@.len() == i,
                        forall|k: int| 0 <= k < i ==> (#[trigger] out@[k])@ == es[k].0,
                    decreases entries@.len() - i,
                {
                    proof {
                        assert(es[i as int] == (entries@[i as int].0@, entries@[i as int].1@));
                    }
                    out.push(entries[i].0.as_str());
                    i = i + 1;
                }
                assert(out@.map_values(|k: &str| k@) =~= es.map_values(|e: (Seq<char>, ItemView)| e.0));
                out
            },
            _ => out,
        }
    }

    /// The number of entries of a map or elements of an array; `0` for anything else.
    pub fn size(&self) -> (r: usize)
        ensures
            r == match self@ {
                ItemView::Dict(es) => es.len(),
                ItemView::Arr(xs) => xs.len(),
                _ => 0,
            },
    {
        match self {
            Item::Dict(entries) => entries.len(),
            Item::Arr(items) => items.len(),
            _ => 0,
        }
    }
}

/// A map of the given entries, in the given order.
pub fn item_map_of(pairs: Vec<(&str, Item)>) -> (r: Item)
    ensures
        r@ == ItemView::Dict(pairs@.map_values(|p: (&str, Item)| (p.0@, p.1@))),
{
    let mut out: Vec<(String, Item)> = Vec::new();
    let ghost pv = pairs@;
    let mut rest = pairs;
    let mut i: usize = 0;
    let n = rest.len();
    while i < n
        invariant
            i <= n,
            n == pv.len(),
            rest@ == pv,
            out@.len() == i,
            forall|k: int| 0 <= k < i ==> (#[trigger] out@[k]).0@ == pv[k].0@ && out@[k].1@ == pv[k].1@,
        decreases n - i,
    {
        let k = rest[i].0.to_owned();
        let v = rest[i].1.deep_clone();
        out.push((k, v));
        i = i + 1;
    }
    let r = Item::Dict(out);
    assert(r@->Dict_0 =~= pv.map_values(|p: (&str, Item)| (p.0@, p.1@)));
    r
}

/// An array of the given items.
pub fn item_array_of(items: Vec<Item>) -> (r: Item)
    ensures
        r@ == ItemView::Arr(items@.map_values(|x: Item| x@)),
{
    let ghost iv = items@;
    let r = Item::Arr(items);
    assert(r@->Arr_0 =~= iv.map_values(|x: Item| x@));
    r
}

} // verus!
