//! From scanned tokens to flat geometry and the token tree.
use vstd::prelude::*;

use super::{rows_view, FlatIndex, IoMemento, RowVec, Scan0Result, Tok};

verus! {

/// The abstract flat geometry of a document.
#[verifier::ext_equal]
pub struct FlatView {
    pub spans: Seq<(usize, usize)>,
    pub tags: Seq<IoMemento>,
    pub depths: Seq<usize>,
}

/// The abstract token tree.
#[verifier::ext_equal]
pub struct RowNode {
    pub open: usize,
    pub close: usize,
    pub tag: IoMemento,
    pub kids: Seq<RowNode>,
}

/// Where a token with start `open` goes into `s`, a sequence already sorted by start:
/// after every token that starts at or before it.
pub open spec fn insert_pos(s: Seq<Tok>, open: usize) -> int
    decreases s.len(),
{
    if s.len() == 0 {
        0
    } else if s.last().0 > open {
        insert_pos(s.drop_last(), open)
    } else {
        s.len() as int
    }
}

/// Tokens stably sorted by start offset (tokens with equal start keep emission order).
pub open spec fn sort_by_open(toks: Seq<Tok>) -> Seq<Tok>
    decreases toks.len(),
{
    if toks.len() == 0 {
        seq![]
    } else {
        let s = sort_by_open(toks.drop_last());
        s.insert(insert_pos(s, toks.last().0), toks.last())
    }
}

/// Token `o` strictly encloses token `i`: it starts strictly before and ends at or after.
pub open spec fn encloses(spans: Seq<(usize, usize)>, o: int, i: int) -> bool {
    o != i && spans[o].0 < spans[i].0 && spans[o].1 >= spans[i].1
}

/// The number of tokens among the first `k` that enclose token `i`.
pub open spec fn enclosing_count(spans: Seq<(usize, usize)>, i: int, k: int) -> nat
    decreases k,
{
    if k <= 0 {
        0
    } else {
        enclosing_count(spans, i, k - 1) + if encloses(spans, k - 1, i) {
            1nat
        } else {
            0nat
        }
    }
}

/// Flat geometry of a token sequence: spans and tags sorted by start, depth = number of
/// enclosing tokens.
pub open spec fn flat_of(toks: Seq<Tok>) -> FlatView {
    let sorted = sort_by_open(toks);
    let spans = sorted.map_values(|t: Tok| (t.0, t.1));
    FlatView {
        spans: spans,
        tags: sorted.map_values(|t: Tok| t.2),
        depths: Seq::new(spans.len(), |i: int| enclosing_count(spans, i, spans.len() as int) as usize),
    }
}

/// `outer` strictly contains `inner` as the tree builder sees it.
pub open spec fn contains_span(outer: (usize, usize), inner: (usize, usize)) -> bool {
    outer.0 < inner.0 && inner.1 <= outer.1
}

/// Drop from the top of the nesting stack every token that does not contain token `i`.
pub open spec fn prune(spans: Seq<(usize, usize)>, stack: Seq<int>, i: int) -> Seq<int>
    decreases stack.len(),
{
    if stack.len() == 0 {
        stack
    } else if contains_span(spans[stack.last()], spans[i]) {
        stack
    } else {
        prune(spans, stack.drop_last(), i)
    }
}

/// The nesting stack just before token `i` is placed.
pub open spec fn stack_before(spans: Seq<(usize, usize)>, i: int) -> Seq<int>
    decreases i,
{
    if i <= 0 {
        seq![]
    } else {
        prune(spans, stack_before(spans, i - 1), i - 1).push(i - 1)
    }
}

/// The parent of token `i`: the innermost token on the nesting stack that contains it.
pub open spec fn parent_of(spans: Seq<(usize, usize)>, i: int) -> Option<int> {
    let s = prune(spans, stack_before(spans, i), i);
    if s.len() == 0 {
        None
    } else {
        Some(s.last())
    }
}

/// Among the first `k` tokens, those whose parent is `p`, in source order.
pub open spec fn kids_upto(spans: Seq<(usize, usize)>, p: Option<int>, k: int) -> Seq<int>
    decreases k,
{
    if k <= 0 {
        seq![]
    } else if parent_of(spans, k - 1) == p {
        kids_upto(spans, p, k - 1).push(k - 1)
    } else {
        kids_upto(spans, p, k - 1)
    }
}

/// The tree node of token `i`.
pub open spec fn node_of(flat: FlatView, i: int) -> RowNode
    decreases flat.spans.len() - i,
{
    let kids = kids_upto(flat.spans, Some(i), flat.spans.len() as int);
    RowNode {
        open: flat.spans[i].0,
        close: flat.spans[i].1,
        tag: flat.tags[i],
        kids: Seq::new(
            kids.len(),
            |j: int|
                if 0 <= j < kids.len() && i < kids[j] <= flat.spans.len() {
                    node_of(flat, kids[j])
                } else {
                    RowNode { open: 0, close: 0, tag: IoMemento::IoNothing, kids: seq![] }
                },
        ),
    }
}

/// The roots of the token tree.
pub open spec fn tree_of(flat: FlatView) -> Seq<RowNode> {
    let roots = kids_upto(flat.spans, None, flat.spans.len() as int);
    roots.map_values(|r: int| node_of(flat, r))
}

/// A sequence of indices as integers.
pub open spec fn ints(s: Seq<usize>) -> Seq<int> {
    s.map_values(|x: usize| x as int)
}

// ── lemmas ──────────────────────────────────────────────────────────────────

proof fn lemma_prune_sub(spans: Seq<(usize, usize)>, stack: Seq<int>, i: int)
    ensures
        prune(spans, stack, i).len() <= stack.len(),
        forall|j: int|
            0 <= j < prune(spans, stack, i).len() ==> prune(spans, stack, i)[j] == stack[j],
    decreases stack.len(),
{
    if stack.len() > 0 && !contains_span(spans[stack.last()], spans[i]) {
        lemma_prune_sub(spans, stack.drop_last(), i);
        let p = prune(spans, stack, i);
        assert(p == prune(spans, stack.drop_last(), i));
        assert forall|j: int| 0 <= j < p.len() implies p[j] == stack[j] by {
            assert(p[j] == stack.drop_last()[j]);
        }
    }
}

proof fn lemma_prune_top(spans: Seq<(usize, usize)>, stack: Seq<int>, i: int)
    ensures
        prune(spans, stack, i).len() > 0 ==> contains_span(
            spans[prune(spans, stack, i).last()],
            spans[i],
        ),
    decreases stack.len(),
{
    if stack.len() > 0 && !contains_span(spans[stack.last()], spans[i]) {
        lemma_prune_top(spans, stack.drop_last(), i);
    }
}

/// Every entry of the nesting stack before `i` is an earlier token, in increasing order.
proof fn lemma_stack_before(spans: Seq<(usize, usize)>, i: int)
    requires
        0 <= i,
    ensures
        forall|j: int|
            0 <= j < stack_before(spans, i).len() ==> 0 <= #[trigger] stack_before(spans, i)[j]
                < i,
    decreases i,
{
    if i > 0 {
        lemma_stack_before(spans, i - 1);
        let prev = stack_before(spans, i - 1);
        lemma_prune_sub(spans, prev, i - 1);
        let p = prune(spans, prev, i - 1);
        let s = stack_before(spans, i);
        assert(s == p.push(i - 1));
        assert forall|j: int| 0 <= j < s.len() implies 0 <= #[trigger] s[j] < i by {
            if j < p.len() {
                assert(s[j] == p[j]);
                assert(p[j] == prev[j]);
            }
        }
    }
}

/// A parent comes before its child.
pub proof fn lemma_parent_before(spans: Seq<(usize, usize)>, i: int)
    requires
        0 <= i,
    ensures
        parent_of(spans, i) matches Some(p) ==> 0 <= p < i,
{
    lemma_stack_before(spans, i);
    lemma_prune_sub(spans, stack_before(spans, i), i);
    let s = prune(spans, stack_before(spans, i), i);
    if s.len() > 0 {
        assert(s.last() == stack_before(spans, i)[s.len() - 1]);
    }
}

proof fn lemma_kids_upto_bounds(spans: Seq<(usize, usize)>, p: Option<int>, k: int)
    requires
        0 <= k,
    ensures
        forall|j: int|
            0 <= j < kids_upto(spans, p, k).len() ==> 0 <= #[trigger] kids_upto(spans, p, k)[j]
                < k,
        forall|j: int|
            0 <= j < kids_upto(spans, p, k).len() ==> parent_of(
                spans,
                #[trigger] kids_upto(spans, p, k)[j],
            ) == p,
        kids_upto(spans, p, k).len() <= k,
    decreases k,
{
    if k > 0 {
        lemma_kids_upto_bounds(spans, p, k - 1);
    }
}

/// The children of a token come after it.
pub proof fn lemma_kids_after(spans: Seq<(usize, usize)>, p: int, k: int)
    requires
        0 <= p,
        0 <= k,
    ensures
        forall|j: int|
            0 <= j < kids_upto(spans, Some(p), k).len() ==> p < #[trigger] kids_upto(
                spans,
                Some(p),
                k,
            )[j] < k,
{
    lemma_kids_upto_bounds(spans, Some(p), k);
    assert forall|j: int| 0 <= j < kids_upto(spans, Some(p), k).len() implies p
        < #[trigger] kids_upto(spans, Some(p), k)[j] < k by {
        lemma_parent_before(spans, kids_upto(spans, Some(p), k)[j]);
    }
}

/// Tokens in order of their start offsets.
pub open spec fn opens_sorted(s: Seq<Tok>) -> bool {
    forall|i: int, j: int| 0 <= i <= j < s.len() ==> #[trigger] s[i].0 <= #[trigger] s[j].0
}

proof fn lemma_insert_pos_split(s: Seq<Tok>, open: usize)
    requires
        opens_sorted(s),
    ensures
        0 <= insert_pos(s, open) <= s.len(),
        forall|j: int| 0 <= j < insert_pos(s, open) ==> #[trigger] s[j].0 <= open,
        forall|j: int| insert_pos(s, open) <= j < s.len() ==> #[trigger] s[j].0 > open,
    decreases s.len(),
{
    if s.len() > 0 {
        let d = s.drop_last();
        assert(opens_sorted(d)) by {
            assert forall|i: int, j: int| 0 <= i <= j < d.len() implies #[trigger] d[i].0 <= #[trigger] d[j].0 by {
                assert(d[i] == s[i] && d[j] == s[j]);
            }
        }
        lemma_insert_pos_split(d, open);
        if s.last().0 > open {
            assert forall|j: int| insert_pos(s, open) <= j < s.len() implies #[trigger] s[j].0 > open by {
                if j < s.len() - 1 {
                    assert(d[j] == s[j]);
                }
            }
            assert forall|j: int| 0 <= j < insert_pos(s, open) implies #[trigger] s[j].0 <= open by {
                assert(d[j] == s[j]);
            }
        } else {
            assert forall|j: int| 0 <= j < insert_pos(s, open) implies #[trigger] s[j].0 <= open by {
                assert(s[j].0 <= s[s.len() - 1].0);
            }
        }
    }
}

/// Ordering by start offset gives tokens in order of their start offsets.
pub proof fn lemma_sort_by_open_sorted(toks: Seq<Tok>)
    ensures
        opens_sorted(sort_by_open(toks)),
    decreases toks.len(),
{
    if toks.len() > 0 {
        lemma_sort_by_open_sorted(toks.drop_last());
        let s = sort_by_open(toks.drop_last());
        let t = toks.last();
        lemma_insert_pos_split(s, t.0);
        let p = insert_pos(s, t.0);
        let r = s.insert(p, t);
        assert forall|i: int, j: int| 0 <= i <= j < r.len() implies #[trigger] r[i].0 <= #[trigger] r[j].0 by {
            if i < p {
                assert(r[i] == s[i]);
                if j < p {
                    assert(r[j] == s[j]);
                } else if j > p {
                    assert(r[j] == s[j - 1]);
                }
            } else if i == p {
                assert(r[i] == t);
                if j > p {
                    assert(r[j] == s[j - 1]);
                }
            } else {
                assert(r[i] == s[i - 1]);
                assert(r[j] == s[j - 1]);
            }
        }
    }
}

// ── executable ──────────────────────────────────────────────────────────────

/// Stable insertion of every token by start offset.
fn sort_tokens(toks: &Vec<Tok>) -> (r: Vec<Tok>)
    ensures
        r@ == sort_by_open(toks@),
{
    let mut sorted: Vec<Tok> = Vec::new();
    let mut k: usize = 0;
    while k < toks.len()
        invariant
            k <= toks@.len(),
            sorted@ == sort_by_open(toks@.take(k as int)),
        decreases toks@.len() - k,
    {
        let t = toks[k];
        let mut p: usize = sorted.len();
        assert(sorted@.take(p as int) == sorted@);
        while p > 0 && sorted[p - 1].0 > t.0
            invariant
                p <= sorted@.len(),
                insert_pos(sorted@, t.0) == insert_pos(sorted@.take(p as int), t.0),
            decreases p,
        {
            assert(sorted@.take(p as int).drop_last() == sorted@.take(p - 1));
            p = p - 1;
        }
        proof {
            assert(sorted@.take(p as int).len() == p);
            if p > 0 {
                assert(sorted@.take(p as int).last() == sorted@[p - 1]);
            }
            assert(insert_pos(sorted@.take(p as int), t.0) == p);
            assert(toks@.take(k + 1).drop_last() == toks@.take(k as int));
            assert(toks@.take(k + 1).last() == t);
        }
        sorted.insert(p, t);
        k = k + 1;
    }
    assert(toks@.take(toks@.len() as int) == toks@);
    sorted
}

/// Number of tokens enclosing token `i`.
fn depth_of(spans: &Vec<(usize, usize)>, i: usize) -> (r: usize)
    requires
        i < spans@.len(),
    ensures
        r == enclosing_count(spans@, i as int, spans@.len() as int),
{
    let mut c: usize = 0;
    let mut o: usize = 0;
    while o < spans.len()
        invariant
            o <= spans@.len(),
            i < spans@.len(),
            c == enclosing_count(spans@, i as int, o as int),
            c <= o,
        decreases spans@.len() - o,
    {
        if o != i && spans[o].0 < spans[i].0 && spans[o].1 >= spans[i].1 {
            c = c + 1;
        }
        o = o + 1;
    }
    c
}

/// Flat geometry of scanned tokens.
fn build_flat(toks: &Vec<Tok>) -> (r: FlatIndex)
    ensures
        r@ == flat_of(toks@),
{
    let sorted = sort_tokens(toks);
    let mut spans: Vec<(usize, usize)> = Vec::new();
    let mut tags: Vec<IoMemento> = Vec::new();
    let mut k: usize = 0;
    while k < sorted.len()
        invariant
            k <= sorted@.len(),
            spans@ == sorted@.take(k as int).map_values(|t: Tok| (t.0, t.1)),
            tags@ == sorted@.take(k as int).map_values(|t: Tok| t.2),
        decreases sorted@.len() - k,
    {
        let t = sorted[k];
        spans.push((t.0, t.1));
        tags.push(t.2);
        proof {
            assert(sorted@.take(k + 1) == sorted@.take(k as int).push(t));
        }
        k = k + 1;
    }
    assert(sorted@.take(sorted@.len() as int) == sorted@);
    let mut depths: Vec<usize> = Vec::new();
    let mut i: usize = 0;
    while i < spans.len()
        invariant
            i <= spans@.len(),
            depths@.len() == i,
            forall|j: int|
                0 <= j < i ==> depths@[j] == enclosing_count(spans@, j, spans@.len() as int),
        decreases spans@.len() - i,
    {
        let d = depth_of(&spans, i);
        depths.push(d);
        i = i + 1;
    }
    let r = FlatIndex { spans, tags, depths };
    assert(r@ =~= flat_of(toks@));
    r
}

/// Row of token `i` and, recursively, of its children.
fn build_row(i: usize, children: &Vec<Vec<usize>>, flat: &FlatIndex) -> (r: RowVec)
    requires
        i < flat.spans@.len(),
        flat.tags@.len() == flat.spans@.len(),
        children@.len() == flat.spans@.len(),
        forall|p: int|
            0 <= p < children@.len() ==> ints(#[trigger] children@[p]@) == kids_upto(
                flat.spans@,
                Some(p),
                flat.spans@.len() as int,
            ),
    ensures
        r@ == node_of(flat@, i as int),
    decreases flat.spans@.len() - i,
{
    let ghost n = flat.spans@.len() as int;
    proof {
        lemma_kids_after(flat.spans@, i as int, n);
    }
    let kids_idx = &children[i];
    proof {
        assert forall|q: int| 0 <= q < kids_idx@.len() implies i < #[trigger] kids_idx@[q] < n by {
            assert(ints(kids_idx@)[q] == kids_idx@[q] as int);
        }
    }
    let mut kids: Vec<RowVec> = Vec::new();
    let mut j: usize = 0;
    while j < kids_idx.len()
        invariant
            j <= kids_idx@.len(),
            kids@.len() == j,
            i < n,
            n == flat.spans@.len(),
            flat.tags@.len() == flat.spans@.len(),
            children@.len() == flat.spans@.len(),
            ints(kids_idx@) == kids_upto(flat.spans@, Some(i as int), n),
            forall|p: int|
                0 <= p < children@.len() ==> ints(#[trigger] children@[p]@) == kids_upto(
                    flat.spans@,
                    Some(p),
                    flat.spans@.len() as int,
                ),
            forall|q: int|
                0 <= q < kids_idx@.len() ==> i < #[trigger] kids_idx@[q] < n,
            forall|q: int| 0 <= q < j ==> #[trigger] kids@[q]@ == node_of(flat@, kids_idx@[q] as int),
        decreases kids_idx@.len() - j,
    {
        let c = kids_idx[j];
        let row = build_row(c, children, flat);
        kids.push(row);
        j = j + 1;
    }
    let (open, close) = flat.spans[i];
    let r = RowVec { open, close, tag: flat.tags[i], kids };
    proof {
        let want = node_of(flat@, i as int);
        let got = r.node();
        let ks = kids_upto(flat.spans@, Some(i as int), n);
        assert(got.kids.len() == want.kids.len());
        assert forall|q: int| 0 <= q < got.kids.len() implies got.kids[q] == want.kids[q] by {
            assert(got.kids[q] == r.kids@[q].node());
            assert(kids@[q]@ == node_of(flat@, kids_idx@[q] as int));
            assert(ints(kids_idx@)[q] == kids_idx@[q] as int);
            assert(ks[q] == kids_idx@[q] as int);
        }
        assert(got.kids =~= want.kids);
        assert(got =~= want);
    }
    r
}

/// Flat geometry and token tree of scanned tokens.
pub(crate) fn finish(toks: &Vec<Tok>) -> (r: Scan0Result)
    ensures
        r.flat@ == flat_of(toks@),
        rows_view(r.tree@) == tree_of(flat_of(toks@)),
{
    let flat = build_flat(toks);
    let tree = tree_from_flat(&flat);
    Scan0Result { tree, flat }
}

/// The children of every token and the roots, as the tree builder assigns them.
fn parent_table(flat: &FlatIndex) -> (r: (Vec<Vec<usize>>, Vec<usize>))
    requires
        flat.tags@.len() == flat.spans@.len(),
    ensures
        r.0@.len() == flat.spans@.len(),
        forall|p: int|
            0 <= p < r.0@.len() ==> ints(#[trigger] r.0@[p]@) == kids_upto(
                flat.spans@,
                Some(p),
                flat.spans@.len() as int,
            ),
        ints(r.1@) == kids_upto(flat.spans@, None, flat.spans@.len() as int),
{
    let total = flat.spans.len();
    let ghost spans = flat.spans@;
    let mut children: Vec<Vec<usize>> = Vec::new();
    let mut c: usize = 0;
    while c < total
        invariant
            c <= total,
            total == spans.len(),
            children@.len() == c,
            forall|p: int| 0 <= p < c ==> (#[trigger] children@[p])@ == Seq::<usize>::empty(),
        decreases total - c,
    {
        children.push(Vec::new());
        c = c + 1;
    }
    let mut roots: Vec<usize> = Vec::new();
    let mut stack: Vec<usize> = Vec::new();
    let mut i: usize = 0;
    while i < total
        invariant
            i <= total,
            total == spans.len(),
            spans == flat.spans@,
            children@.len() == total,
            ints(stack@) == stack_before(spans, i as int),
            forall|p: int|
                0 <= p < total ==> ints(#[trigger] children@[p]@) == kids_upto(spans, Some(p), i as int),
            ints(roots@) == kids_upto(spans, None, i as int),
        decreases total - i,
    {
        proof {
            lemma_stack_before(spans, i as int);
            assert forall|q: int| 0 <= q < stack@.len() implies 0 <= #[trigger] stack@[q] < i by {
                assert(ints(stack@)[q] == stack@[q] as int);
            }
        }
        let ghost st0 = ints(stack@);
        loop
            invariant
                i < total,
                total == spans.len(),
                spans == flat.spans@,
                forall|q: int| 0 <= q < stack@.len() ==> 0 <= #[trigger] stack@[q] < i,
                prune(spans, ints(stack@), i as int) == prune(
                    spans,
                    st0,
                    i as int,
                ),
            ensures
                stack@.len() == 0 || contains_span(spans[stack@.last() as int], spans[i as int]),
                prune(spans, ints(stack@), i as int) == prune(spans, st0, i as int),
            decreases stack@.len(),
        {
            if stack.len() == 0 {
                break;
            }
            let top = stack[stack.len() - 1];
            let (ta, tb) = flat.spans[top];
            let (a, b) = flat.spans[i];
            if ta < a && b <= tb {
                break;
            }
            let ghost before = ints(stack@);
            stack.pop();
            proof {
                assert(ints(stack@) == before.drop_last());
            }
        }
        proof {
            let cur = ints(stack@);
            if cur.len() > 0 {
                assert(cur.last() == stack@.last() as int);
            }
            assert(prune(spans, cur, i as int) == cur);
        }
        if stack.len() > 0 {
            let parent = stack[stack.len() - 1];
            children[parent].push(i);
        } else {
            roots.push(i);
        }
        stack.push(i);
        proof {
            assert(stack_before(spans, i + 1) == prune(spans, stack_before(spans, i as int), i as int).push(
                i as int,
            ));
            assert(ints(roots@) =~= kids_upto(spans, None, i + 1));
            assert forall|p: int| 0 <= p < total implies ints(#[trigger] children@[p]@) =~= kids_upto(
                spans,
                Some(p),
                i + 1,
            ) by {}
        }
        i = i + 1;
    }
    proof {
        assert forall|p: int| 0 <= p < children@.len() implies ints(#[trigger] children@[p]@)
            == kids_upto(flat.spans@, Some(p), flat.spans@.len() as int) by {}
    }
    (children, roots)
}

/// The row of token `i` and, recursively, of its children.
pub(crate) fn row_of(flat: &FlatIndex, i: usize) -> (r: RowVec)
    requires
        flat.tags@.len() == flat.spans@.len(),
        i < flat.spans@.len(),
    ensures
        r@ == node_of(flat@, i as int),
{
    let (children, _) = parent_table(flat);
    build_row(i, &children, flat)
}

/// The token tree of flat geometry.
pub(crate) fn tree_from_flat(flat: &FlatIndex) -> (tree: Vec<RowVec>)
    requires
        flat.tags@.len() == flat.spans@.len(),
    ensures
        rows_view(tree@) == tree_of(flat@),
{
    let total = flat.spans.len();
    let ghost spans = flat.spans@;
    let (children, roots) = parent_table(flat);
    let mut tree: Vec<RowVec> = Vec::new();
    let mut r: usize = 0;
    proof {
        lemma_kids_upto_bounds(spans, None, total as int);
        assert forall|q: int| 0 <= q < roots@.len() implies #[trigger] roots@[q] < total by {
            assert(ints(roots@)[q] == roots@[q] as int);
        }
    }
    while r < roots.len()
        invariant
            r <= roots@.len(),
            tree@.len() == r,
            total == flat.spans@.len(),
            flat.tags@.len() == flat.spans@.len(),
            children@.len() == total,
            forall|p: int|
                0 <= p < children@.len() ==> ints(#[trigger] children@[p]@) == kids_upto(
                    flat.spans@,
                    Some(p),
                    flat.spans@.len() as int,
                ),
            ints(roots@) == kids_upto(flat.spans@, None, total as int),
            forall|q: int| 0 <= q < roots@.len() ==> #[trigger] roots@[q] < total,
            forall|q: int| 0 <= q < r ==> #[trigger] tree@[q]@ == node_of(flat@, roots@[q] as int),
        decreases roots@.len() - r,
    {
        proof {
            assert(ints(roots@)[r as int] == roots@[r as int] as int);
        }
        let row = build_row(roots[r], &children, flat);
        tree.push(row);
        r = r + 1;
    }
    proof {
        let want = tree_of(flat@);
        let rts = kids_upto(flat.spans@, None, total as int);
        assert forall|q: int| 0 <= q < tree@.len() implies rows_view(tree@)[q] == want[q] by {
            assert(ints(roots@)[q] == roots@[q] as int);
        }
        assert(rows_view(tree@) =~= want);
    }
    tree
}

} // verus!
