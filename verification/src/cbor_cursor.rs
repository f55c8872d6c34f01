//! Navigating a decoded CBOR item by a path of keys and indices, the same shape of path
//! as document navigation.
use vstd::prelude::*;

use crate::confix::nav::{steps_view, PathStep, StepView};
use crate::item::codec::decode_item;
use crate::item::{decode, entry_index, Item, ItemView};

verus! {

/// One step from `x`: a key selects the value of the first entry with that key in a map,
/// an index selects that element of an array; `None` where the step does not apply.
pub open spec fn item_step(x: ItemView, step: StepView) -> Option<ItemView> {
    match step {
        StepView::Key(k) => match x {
            ItemView::Dict(es) => match entry_index(es, k, 0) {
                Some(i) => Some(es[i].1),
                None => None,
            },
            _ => None,
        },
        StepView::Index(i) => match x {
            ItemView::Arr(xs) => if i < xs.len() {
                Some(xs[i as int])
            } else {
                None
            },
            _ => None,
        },
    }
}

/// Where `path` leads from `x`, step by step; `None` once a step does not apply.
pub open spec fn focus_of(x: ItemView, path: Seq<StepView>) -> Option<ItemView>
    decreases path.len(),
{
    if path.len() == 0 {
        Some(x)
    } else {
        match focus_of(x, path.drop_last()) {
            Some(y) => item_step(y, path.last()),
            None => None,
        }
    }
}

/// Following a path in two parts is following the first part and then the second from
/// where it led.
pub proof fn lemma_focus_concat(x: ItemView, p: Seq<StepView>, q: Seq<StepView>)
    ensures
        focus_of(x, p + q) == (match focus_of(x, p) {
            Some(y) => focus_of(y, q),
            None => None,
        }),
    decreases q.len(),
{
    if q.len() == 0 {
        assert(p + q =~= p);
    } else {
        assert((p + q).drop_last() =~= p + q.drop_last());
        lemma_focus_concat(x, p, q.drop_last());
        if focus_of(x, p) is None {
            lemma_focus_none(x, p, q);
        }
    }
}

/// Once a path leads nowhere, no extension of it leads anywhere.
proof fn lemma_focus_none(x: ItemView, p: Seq<StepView>, q: Seq<StepView>)
    requires
        focus_of(x, p) is None,
    ensures
        focus_of(x, p + q) is None,
    decreases q.len(),
{
    if q.len() == 0 {
        assert(p + q =~= p);
    } else {
        assert((p + q).drop_last() =~= p + q.drop_last());
        lemma_focus_none(x, p, q.drop_last());
    }
}

/// The item `path` leads to from `root` (see `focus_of`).
pub fn focus<'a>(root: &'a Item, path: &[PathStep]) -> (r: Option<&'a Item>)
    ensures
        match focus_of(root@, steps_view(path@)) {
            Some(y) => r matches Some(it) && it@ == y,
            None => r is None,
        },
{
    let ghost sv = steps_view(path@);
    let mut cur: &Item = root;
    let mut i: usize = 0;
    assert(sv.take(0) =~= Seq::<StepView>::empty());
    while i < path.len()
        invariant
            i <= path@.len(),
            sv == steps_view(path@),
            focus_of(root@, sv.take(i as int)) == Some(cur@),
        decreases path@.len() - i,
    {
        proof {
            assert(sv.take(i + 1).drop_last() =~= sv.take(i as int));
            assert(sv.take(i + 1).last() == path@[i as int]@);
        }
        let next: Option<&Item> = match &path[i] {
            PathStep::Key(k) => cur.map_get(k.as_str()),
            PathStep::Index(j) => match cur {
                Item::Arr(items) => {
                    if *j < items.len() {
                        Some(&items[*j])
                    } else {
                        None
                    }
                },
                _ => None,
            },
        };
        match next {
            Some(n) => {
                cur = n;
            },
            None => {
                proof {
                    lemma_focus_none(root@, sv.take(i + 1), sv.skip(i + 1));
                    assert(sv.take(i + 1) + sv.skip(i + 1) =~= sv);
                }
                return None;
            },
        }
        i = i + 1;
    }
    assert(sv.take(i as int) =~= sv);
    Some(cur)
}

/// Decodes `cbor` and returns a copy of the item `path` leads to; the decoding error
/// where the bytes do not decode.
pub fn focus_bytes(cbor: &[u8], path: &[PathStep]) -> (r: Result<Option<Item>, String>)
    ensures
        match decode_item(cbor@) {
            Ok(x) => r matches Ok(o) && match focus_of(x, steps_view(path@)) {
                Some(y) => o matches Some(it) && it@ == y,
                None => o is None,
            },
            Err(m) => r matches Err(t) && t@ == m,
        },
{
    let item = match decode(cbor) {
        Ok(x) => x,
        Err(m) => {
            return Err(m);
        },
    };
    match focus(&item, path) {
        Some(it) => Ok(Some(it.deep_clone())),
        None => Ok(None),
    }
}

} // verus!
