//! The `Debug` text of an item: how a map key that is not a text string is named.
use vstd::prelude::*;
use vstd::string::StringExecFns;

use super::json::{float_text, floats_view, int_text, push_float, push_int};
use super::{Item, ItemView};
use crate::text::{decimal, decimal_exec};

verus! {

/// The `Debug` text of a string: quoted, with quotes, backslashes and the characters that
/// are not printable escaped.
pub uninterp spec fn str_debug(s: Seq<char>) -> Seq<char>;

/// `<str as Debug>::fmt`, as `format!("{:?}")` writes it: its text is `str_debug` of `s`.
#[verifier::external_body]
fn str_debug_text(s: &str) -> (r: String)
    ensures
        r@ == str_debug(s@),
{
    format!("{:?}", s)
}

/// The `Debug` text of an item, each float written as `floats` gives its bits (see
/// `float_text`): the variant's name, then its contents in round brackets; a map is named
/// `Map` and lists its entries as `(key, value)` pairs, and lists are in square brackets,
/// their members separated by `, `.
pub open spec fn debug_of(x: ItemView, floats: Seq<(u64, Seq<char>)>) -> Seq<char>
    decreases x, 0nat,
{
    match x {
        ItemView::Str(s) => "Str("@ + str_debug(s) + ")"@,
        ItemView::Bin(b) => "Bin(["@ + debug_bytes(b, b.len()) + "])"@,
        ItemView::Num(v) => "Num("@ + int_text(v) + ")"@,
        ItemView::Flt(b) => "Flt("@ + float_text(floats, b) + ")"@,
        ItemView::Bool(b) => if b {
            "Bool(true)"@
        } else {
            "Bool(false)"@
        },
        ItemView::Nil => "Nil"@,
        ItemView::Dict(es) => "Map(["@ + debug_entries(es, floats, es.len()) + "])"@,
        ItemView::Arr(xs) => "Arr(["@ + debug_items(xs, floats, xs.len()) + "])"@,
        ItemView::Tag(t, y) => "Tag("@ + decimal(t as nat) + ", "@ + debug_of(*y, floats) + ")"@,
    }
}

/// The decimal texts of the first `k` bytes, separated by `, `.
pub open spec fn debug_bytes(b: Seq<u8>, k: nat) -> Seq<char>
    decreases k,
{
    if k == 0 || k > b.len() {
        seq![]
    } else {
        debug_bytes(b, (k - 1) as nat) + (if k > 1 {
            ", "@
        } else {
            seq![]
        }) + decimal(b[k - 1] as nat)
    }
}

/// The `Debug` texts of the first `k` items, separated by `, `.
pub open spec fn debug_items(xs: Seq<ItemView>, floats: Seq<(u64, Seq<char>)>, k: nat) -> Seq<
    char,
>
    decreases xs, k,
{
    if k == 0 || k > xs.len() {
        seq![]
    } else {
        debug_items(xs, floats, (k - 1) as nat) + (if k > 1 {
            ", "@
        } else {
            seq![]
        }) + debug_of(xs[k - 1], floats)
    }
}

/// The first `k` entries as `(key, value)`, the key in its `Debug` form, separated by `, `.
pub open spec fn debug_entries(
    es: Seq<(Seq<char>, ItemView)>,
    floats: Seq<(u64, Seq<char>)>,
    k: nat,
) -> Seq<char>
    decreases es, k,
{
    if k == 0 || k > es.len() {
        seq![]
    } else {
        debug_entries(es, floats, (k - 1) as nat) + (if k > 1 {
            ", "@
        } else {
            seq![]
        }) + "("@ + str_debug(es[k - 1].0) + ", "@ + debug_of(es[k - 1].1, floats) + ")"@
    }
}

/// Appends the decimal texts of the bytes of `v`, separated by `, `.
fn push_debug_bytes(v: &Vec<u8>, sb: &mut String)
    ensures
        final(sb)@ == old(sb)@ + debug_bytes(v@, v@.len()),
{
    let ghost start = sb@;
    let mut i: usize = 0;
    while i < v.len()
        invariant
            i <= v@.len(),
            sb@ == start + debug_bytes(v@, i as nat),
        decreases v@.len() - i,
    {
        if i > 0 {
            sb.append(", ");
        }
        let d = decimal_exec(v[i] as u64);
        sb.append(d.as_str());
        i = i + 1;
        assert(sb@ =~= start + debug_bytes(v@, i as nat));
    }
}

/// Appends the `Debug` text of `item` (see `debug_of`).
#[verifier::rlimit(40)]
#[verifier::loop_isolation(false)]
pub(crate) fn push_debug(item: &Item, floats: &Vec<(u64, String)>, sb: &mut String)
    ensures
        final(sb)@ == old(sb)@ + debug_of(item@, floats_view(floats@)),
    decreases item,
{
    let ghost fv = floats_view(floats@);
    match item {
        Item::Str(s) => {
            sb.append("Str(");
            let t = str_debug_text(s.as_str());
            sb.append(t.as_str());
            sb.append(")");
            assert(sb@ =~= old(sb)@ + debug_of(item@, fv));
        },
        Item::Bin(v) => {
            sb.append("Bin([");
            push_debug_bytes(v, sb);
            sb.append("])");
            assert(sb@ =~= old(sb)@ + debug_of(item@, fv));
        },
        Item::Num(v) => {
            sb.append("Num(");
            push_int(sb, *v);
            sb.append(")");
            assert(sb@ =~= old(sb)@ + debug_of(item@, fv));
        },
        Item::Flt(b) => {
            sb.append("Flt(");
            push_float(sb, floats, *b);
            sb.append(")");
            assert(sb@ =~= old(sb)@ + debug_of(item@, fv));
        },
        Item::Bool(b) => {
            if *b {
                sb.append("Bool(true)");
            } else {
                sb.append("Bool(false)");
            }
        },
        Item::Nil => {
            sb.append("Nil");
        },
        Item::Dict(es) => {
            let ghost ev = item@->Dict_0;
            sb.append("Map([");
            let ghost start = sb@;
            let mut i: usize = 0;
            while i < es.len()
                invariant
                    i <= es@.len(),
                    ev.len() == es@.len(),
                    forall|k: int| 0 <= k < es@.len() ==> #[trigger] ev[k] == (es@[k].0@, es@[k].1@),
                    sb@ == start + debug_entries(ev, fv, i as nat),
                decreases es@.len() - i,
            {
                assert(ev[i as int] == (es@[i as int].0@, es@[i as int].1@));
                if i > 0 {
                    sb.append(", ");
                }
                sb.append("(");
                let t = str_debug_text(es[i].0.as_str());
                sb.append(t.as_str());
                sb.append(", ");
                push_debug(&es[i].1, floats, sb);
                sb.append(")");
                i = i + 1;
                assert(sb@ =~= start + debug_entries(ev, fv, i as nat));
            }
            sb.append("])");
            assert(sb@ =~= old(sb)@ + debug_of(item@, fv));
        },
        Item::Arr(xs) => {
            let ghost xv = item@->Arr_0;
            sb.append("Arr([");
            let ghost start = sb@;
            let mut i: usize = 0;
            while i < xs.len()
                invariant
                    i <= xs@.len(),
                    xv.len() == xs@.len(),
                    forall|k: int| 0 <= k < xs@.len() ==> #[trigger] xv[k] == xs@[k]@,
                    sb@ == start + debug_items(xv, fv, i as nat),
                decreases xs@.len() - i,
            {
                assert(xv[i as int] == xs@[i as int]@);
                if i > 0 {
                    sb.append(", ");
                }
                push_debug(&xs[i], floats, sb);
                i = i + 1;
                assert(sb@ =~= start + debug_items(xv, fv, i as nat));
            }
            sb.append("])");
            assert(sb@ =~= old(sb)@ + debug_of(item@, fv));
        },
        Item::Tag(t, inner) => {
            sb.append("Tag(");
            let d = decimal_exec(*t);
            sb.append(d.as_str());
            sb.append(", ");
            push_debug(inner, floats, sb);
            sb.append(")");
            assert(sb@ =~= old(sb)@ + debug_of(item@, fv));
        },
    }
}

} // verus!
