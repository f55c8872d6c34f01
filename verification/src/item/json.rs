//! JSON text of an item.
use vstd::prelude::*;
use vstd::string::StringExecFns;

use super::{Item, ItemView};
use crate::confix::sha::{hex, hex_digit_exec};
use crate::text::{decimal, decimal_exec};

verus! {

/// The JSON form of one character of a string: `"`, `\`, newline, carriage return and tab
/// escaped with a backslash, every other character as it is.
pub open spec fn escape_char(c: char) -> Seq<char> {
    if c == '"' {
        seq!['\\', '"']
    } else if c == '\\' {
        seq!['\\', '\\']
    } else if c == '\n' {
        seq!['\\', 'n']
    } else if c == '\r' {
        seq!['\\', 'r']
    } else if c == '\t' {
        seq!['\\', 't']
    } else {
        seq![c]
    }
}

/// The characters of `s`, each in its JSON form.
pub open spec fn escape_text(s: Seq<char>) -> Seq<char>
    decreases s.len(),
{
    if s.len() == 0 {
        seq![]
    } else {
        escape_text(s.drop_last()) + escape_char(s.last())
    }
}

/// Decimal text of an integer, with a leading `-` when negative.
pub open spec fn int_text(v: i64) -> Seq<char> {
    if v < 0 {
        seq!['-'] + decimal((-v) as nat)
    } else {
        decimal(v as nat)
    }
}

/// The text that `floats` gives a binary64 bit pattern: that of its first entry for
/// those bits, and nothing where it has none.
pub open spec fn float_text(floats: Seq<(u64, Seq<char>)>, bits: u64) -> Seq<char>
    decreases floats.len(),
{
    if floats.len() == 0 {
        seq![]
    } else if floats[0].0 == bits {
        floats[0].1
    } else {
        float_text(floats.drop_first(), bits)
    }
}

/// The JSON text of an item, with the text of each float taken from `floats`: `null`,
/// strings quoted with `escape_char`, integers in decimal, booleans as `true`/`false`,
/// byte strings as quoted lowercase hexadecimal, arrays and maps with `,` between
/// members and no spaces (map keys quoted as they are), a tag as its content.
pub open spec fn json_text(x: ItemView, floats: Seq<(u64, Seq<char>)>) -> Seq<char>
    decreases x, 0nat,
{
    match x {
        ItemView::Nil => "null"@,
        ItemView::Str(v) => seq!['"'] + escape_text(v) + seq!['"'],
        ItemView::Num(v) => int_text(v),
        ItemView::Flt(b) => float_text(floats, b),
        ItemView::Bool(b) => if b {
            "true"@
        } else {
            "false"@
        },
        ItemView::Bin(v) => seq!['"'] + hex(v) + seq!['"'],
        ItemView::Arr(xs) => seq!['['] + json_items(xs, floats, xs.len()) + seq![']'],
        ItemView::Dict(es) => seq!['{'] + json_entries(es, floats, es.len()) + seq!['}'],
        ItemView::Tag(_, y) => json_text(*y, floats),
    }
}

/// The JSON texts of the first `k` items, separated by `,`.
pub open spec fn json_items(xs: Seq<ItemView>, floats: Seq<(u64, Seq<char>)>, k: nat) -> Seq<
    char,
>
    decreases xs, k,
{
    if k == 0 || k > xs.len() {
        seq![]
    } else {
        json_items(xs, floats, (k - 1) as nat) + (if k > 1 {
            seq![',']
        } else {
            seq![]
        }) + json_text(xs[k - 1], floats)
    }
}

/// The first `k` entries as `"key":value`, separated by `,`.
pub open spec fn json_entries(
    es: Seq<(Seq<char>, ItemView)>,
    floats: Seq<(u64, Seq<char>)>,
    k: nat,
) -> Seq<char>
    decreases es, k,
{
    if k == 0 || k > es.len() {
        seq![]
    } else {
        json_entries(es, floats, (k - 1) as nat) + (if k > 1 {
            seq![',']
        } else {
            seq![]
        }) + seq!['"'] + es[k - 1].0 + seq!['"', ':'] + json_text(es[k - 1].1, floats)
    }
}

/// The bit patterns of the floats in an item, in document order.
pub open spec fn floats_of(x: ItemView) -> Seq<u64>
    decreases x, 0nat,
{
    match x {
        ItemView::Flt(b) => seq![b],
        ItemView::Arr(xs) => floats_of_items(xs, xs.len()),
        ItemView::Dict(es) => floats_of_entries(es, es.len()),
        ItemView::Tag(_, y) => floats_of(*y),
        _ => seq![],
    }
}

/// The floats of the first `k` items.
pub open spec fn floats_of_items(xs: Seq<ItemView>, k: nat) -> Seq<u64>
    decreases xs, k,
{
    if k == 0 || k > xs.len() {
        seq![]
    } else {
        floats_of_items(xs, (k - 1) as nat) + floats_of(xs[k - 1])
    }
}

/// The floats of the values of the first `k` entries.
pub open spec fn floats_of_entries(es: Seq<(Seq<char>, ItemView)>, k: nat) -> Seq<u64>
    decreases es, k,
{
    if k == 0 || k > es.len() {
        seq![]
    } else {
        floats_of_entries(es, (k - 1) as nat) + floats_of(es[k - 1].1)
    }
}

/// The model of a float-text table.
pub open spec fn floats_view(v: Seq<(u64, String)>) -> Seq<(u64, Seq<char>)> {
    v.map_values(|p: (u64, String)| (p.0, p.1@))
}

/// The bit patterns of the floats in `item`, in document order: what a caller formats
/// before `render_json`.
pub fn float_bits(item: &Item) -> (r: Vec<u64>)
    ensures
        r@ == floats_of(item@),
{
    let mut out: Vec<u64> = Vec::new();
    collect_floats(item, &mut out);
    assert(out@ =~= floats_of(item@));
    out
}

#[verifier::loop_isolation(false)]
fn collect_floats(item: &Item, out: &mut Vec<u64>)
    ensures
        final(out)@ == old(out)@ + floats_of(item@),
    decreases item,
{
    match item {
        Item::Flt(b) => {
            out.push(*b);
            assert(out@ =~= old(out)@ + floats_of(item@));
        },
        Item::Arr(xs) => {
            let ghost xv = item@->Arr_0;
            let mut i: usize = 0;
            while i < xs.len()
                invariant
                    i <= xs@.len(),
                    xv.len() == xs@.len(),
                    forall|k: int| 0 <= k < xs@.len() ==> #[trigger] xv[k] == xs@[k]@,
                    out@ == old(out)@ + floats_of_items(xv, i as nat),
                decreases xs@.len() - i,
            {
                assert(xv[i as int] == xs@[i as int]@);
                collect_floats(&xs[i], out);
                i = i + 1;
                assert(out@ =~= old(out)@ + floats_of_items(xv, i as nat));
            }
        },
        Item::Dict(es) => {
            let ghost ev = item@->Dict_0;
            let mut i: usize = 0;
            while i < es.len()
                invariant
                    i <= es@.len(),
                    ev.len() == es@.len(),
                    forall|k: int| 0 <= k < es@.len() ==> #[trigger] ev[k] == (es@[k].0@, es@[k].1@),
                    out@ == old(out)@ + floats_of_entries(ev, i as nat),
                decreases es@.len() - i,
            {
                assert(ev[i as int] == (es@[i as int].0@, es@[i as int].1@));
                collect_floats(&es[i].1, out);
                i = i + 1;
                assert(out@ =~= old(out)@ + floats_of_entries(ev, i as nat));
            }
        },
        Item::Tag(_, inner) => {
            collect_floats(inner, out);
        },
        _ => {
            assert(out@ =~= old(out)@ + floats_of(item@));
        },
    }
}

/// The JSON text of `item`, each float written as the text its bit pattern has in
/// `floats` (see `json_text`).
pub fn render_json(item: &Item, floats: &Vec<(u64, String)>) -> (r: String)
    ensures
        r@ == json_text(item@, floats_view(floats@)),
{
    let mut sb = String::new();
    render_into(item, floats, &mut sb);
    assert(sb@ =~= json_text(item@, floats_view(floats@)));
    sb
}

/// Appends the text of the float `bits` (see `float_text`).
pub(crate) fn push_float(sb: &mut String, floats: &Vec<(u64, String)>, bits: u64)
    ensures
        final(sb)@ == old(sb)@ + float_text(floats_view(floats@), bits),
{
    let ghost fv = floats_view(floats@);
    let mut i: usize = 0;
    assert(fv.skip(0) =~= fv);
    while i < floats.len()
        invariant
            i <= floats@.len(),
            fv == floats_view(floats@),
            float_text(fv, bits) == float_text(fv.skip(i as int), bits),
            sb@ == old(sb)@,
        decreases floats@.len() - i,
    {
        assert(fv.skip(i as int)[0] == fv[i as int]);
        if floats[i].0 == bits {
            sb.append(floats[i].1.as_str());
            return;
        }
        assert(fv.skip(i as int).drop_first() =~= fv.skip(i + 1));
        i = i + 1;
    }
    assert(fv.skip(i as int) =~= Seq::<(u64, Seq<char>)>::empty());
    assert(sb@ =~= old(sb)@ + float_text(fv, bits));
}

/// Appends `s` with each character in its JSON form.
fn push_escaped(sb: &mut String, s: &str)
    ensures
        final(sb)@ == old(sb)@ + escape_text(s@),
{
    proof {
        broadcast use vstd::string::axiom_spec_iter;
    }
    let ghost start = sb@;
    assert(s@.take(0) =~= Seq::<char>::empty());
    for c in it: s.chars()
        invariant
            it.seq() == s@,
            sb@ == start + escape_text(s@.take(it.index() as int)),
    {
        let ghost before = sb@;
        if c == '"' {
            sb.push('\\');
            sb.push('"');
        } else if c == '\\' {
            sb.push('\\');
            sb.push('\\');
        } else if c == '\n' {
            sb.push('\\');
            sb.push('n');
        } else if c == '\r' {
            sb.push('\\');
            sb.push('r');
        } else if c == '\t' {
            sb.push('\\');
            sb.push('t');
        } else {
            sb.push(c);
        }
        proof {
            let k = it.index() as int;
            assert(s@.take(k + 1).drop_last() =~= s@.take(k));
            assert(s@.take(k + 1).last() == c);
            assert(sb@ =~= before + escape_char(c));
        }
    }
    assert(s@.take(s@.len() as int) =~= s@);
}

/// Appends the decimal text of `v`.
pub(crate) fn push_int(sb: &mut String, v: i64)
    ensures
        final(sb)@ == old(sb)@ + int_text(v),
{
    if v < 0 {
        sb.push('-');
        let m: u64 = (-(v + 1)) as u64 + 1;
        let d = decimal_exec(m);
        sb.append(d.as_str());
        assert(sb@ =~= old(sb)@ + int_text(v));
    } else {
        let d = decimal_exec(v as u64);
        sb.append(d.as_str());
    }
}

#[verifier::loop_isolation(false)]
#[verifier::rlimit(30)]
fn render_into(item: &Item, floats: &Vec<(u64, String)>, sb: &mut String)
    ensures
        final(sb)@ == old(sb)@ + json_text(item@, floats_view(floats@)),
    decreases item,
{
    let ghost fv = floats_view(floats@);
    match item {
        Item::Nil => {
            sb.append("null");
        },
        Item::Str(v) => {
            sb.push('"');
            push_escaped(sb, v.as_str());
            sb.push('"');
            assert(sb@ =~= old(sb)@ + json_text(item@, fv));
        },
        Item::Num(v) => {
            push_int(sb, *v);
        },
        Item::Flt(b) => {
            push_float(sb, floats, *b);
        },
        Item::Bool(b) => {
            if *b {
                sb.append("true");
            } else {
                sb.append("false");
            }
        },
        Item::Bin(v) => {
            sb.push('"');
            let ghost start = sb@;
            let mut i: usize = 0;
            while i < v.len()
                invariant
                    i <= v@.len(),
                    sb@ == start + hex(v@.subrange(0, i as int)),
                decreases v@.len() - i,
            {
                let b = v[i];
                assert(b >> 4u8 < 16) by (bit_vector);
                assert(b & 0xfu8 < 16) by (bit_vector);
                sb.push(hex_digit_exec(b >> 4));
                sb.push(hex_digit_exec(b & 0xf));
                i = i + 1;
                proof {
                    let t = v@.subrange(0, i as int);
                    assert(t.drop_last() =~= v@.subrange(0, i - 1));
                    assert(sb@ =~= start + hex(t));
                }
            }
            assert(v@.subrange(0, v@.len() as int) =~= v@);
            sb.push('"');
            assert(sb@ =~= old(sb)@ + json_text(item@, fv));
        },
        Item::Arr(xs) => {
            let ghost xv = item@->Arr_0;
            sb.push('[');
            let ghost start = sb@;
            let mut i: usize = 0;
            while i < xs.len()
                invariant
                    i <= xs@.len(),
                    xv.len() == xs@.len(),
                    forall|k: int| 0 <= k < xs@.len() ==> #[trigger] xv[k] == xs@[k]@,
                    sb@ == start + json_items(xv, fv, i as nat),
                decreases xs@.len() - i,
            {
                assert(xv[i as int] == xs@[i as int]@);
                if i > 0 {
                    sb.push(',');
                }
                render_into(&xs[i], floats, sb);
                i = i + 1;
                assert(sb@ =~= start + json_items(xv, fv, i as nat));
            }
            sb.push(']');
            assert(sb@ =~= old(sb)@ + json_text(item@, fv));
        },
        Item::Dict(es) => {
            let ghost ev = item@->Dict_0;
            sb.push('{');
            let ghost start = sb@;
            let mut i: usize = 0;
            while i < es.len()
                invariant
                    i <= es@.len(),
                    ev.len() == es@.len(),
                    forall|k: int| 0 <= k < es@.len() ==> #[trigger] ev[k] == (es@[k].0@, es@[k].1@),
                    sb@ == start + json_entries(ev, fv, i as nat),
                decreases es@.len() - i,
            {
                assert(ev[i as int] == (es@[i as int].0@, es@[i as int].1@));
                if i > 0 {
                    sb.push(',');
                }
                sb.push('"');
                sb.append(es[i].0.as_str());
                sb.push('"');
                sb.push(':');
                render_into(&es[i].1, floats, sb);
                i = i + 1;
                assert(sb@ =~= start + json_entries(ev, fv, i as nat));
            }
            sb.push('}');
            assert(sb@ =~= old(sb)@ + json_text(item@, fv));
        },
        Item::Tag(_, inner) => {
            render_into(inner, floats, sb);
        },
    }
}

} // verus!
