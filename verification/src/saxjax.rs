//! A SAX event stream and a structural element tree over a document index.
use vstd::prelude::*;

use crate::confix::index::{direct_children_of, ConfixIndex, IndexView};
use crate::confix::tree::{enclosing_count, flat_of, ints, FlatView};
use crate::confix::IoMemento;

verus! {

/// Entering or leaving a token, at its first or last byte.
#[derive(Clone, Copy, Debug, PartialEq, Eq, Structural)]
pub enum SaxEvent {
    Enter { tag: IoMemento, offset: usize },
    Leave { tag: IoMemento, offset: usize },
}

/// The events of the first `k` tokens: for each, in source order, an `Enter` at its open
/// offset and a `Leave` at its close offset.
pub open spec fn sax_events(flat: FlatView, k: int) -> Seq<SaxEvent>
    decreases k,
{
    if k <= 0 {
        seq![]
    } else {
        sax_events(flat, k - 1) + seq![
            SaxEvent::Enter { tag: flat.tags[k - 1], offset: flat.spans[k - 1].0 },
            SaxEvent::Leave { tag: flat.tags[k - 1], offset: flat.spans[k - 1].1 },
        ]
    }
}

/// Append the events of every token of `index` to `sink`, in source order: `Enter` at
/// the token's open offset, then `Leave` at its close offset.
pub fn sax_walk(index: &ConfixIndex, sink: &mut Vec<SaxEvent>)
    ensures
        final(sink)@ == old(sink)@ + sax_events(index@.flat, index@.flat.spans.len() as int),
{
    let spans = index.spans();
    let tags = index.tags();
    let ghost flat = index@.flat;
    let ghost s0 = sink@;
    proof {
        use_type_invariant(index);
        ConfixIndex::lemma_view(*index);
        lemma_flat_lens(index@);
    }
    let n = spans.len();
    let mut i: usize = 0;
    while i < n
        invariant
            i <= n,
            n == flat.spans.len(),
            flat.tags.len() == n,
            spans@ == flat.spans,
            tags@ == flat.tags,
            sink@ == s0 + sax_events(flat, i as int),
        decreases n - i,
    {
        let (a, b) = spans[i];
        let t = tags[i];
        sink.push(SaxEvent::Enter { tag: t, offset: a });
        sink.push(SaxEvent::Leave { tag: t, offset: b });
        i = i + 1;
        assert(sink@ =~= s0 + sax_events(flat, i as int));
    }
}

/// An index's flat geometry has one tag and one depth per span, and every depth is below
/// the number of tokens.
pub proof fn lemma_flat_lens(ix: IndexView)
    requires
        ix.flat == flat_of(crate::confix::index::scan_tokens(ix.syntax, ix.src)),
    ensures
        ix.flat.tags.len() == ix.flat.spans.len(),
        ix.flat.depths.len() == ix.flat.spans.len(),
        forall|i: int| 0 <= i < ix.flat.depths.len() ==> #[trigger] ix.flat.depths[i] < ix.flat.spans.len(),
{
    let spans = ix.flat.spans;
    assert forall|i: int| 0 <= i < ix.flat.depths.len() implies #[trigger] ix.flat.depths[i] < spans.len() by {
        lemma_enclosing_bound(spans, i, spans.len() as int);
    }
}

proof fn lemma_enclosing_bound(spans: Seq<(usize, usize)>, i: int, k: int)
    requires
        0 <= i < k,
    ensures
        enclosing_count(spans, i, k) < k,
    decreases k,
{
    if k - 1 > i {
        lemma_enclosing_bound(spans, i, k - 1);
    } else {
        lemma_enclosing_le(spans, i, k - 1);
    }
}

proof fn lemma_enclosing_le(spans: Seq<(usize, usize)>, i: int, k: int)
    ensures
        enclosing_count(spans, i, k) <= if k > 0 {
            k
        } else {
            0
        },
    decreases k,
{
    if k > 0 {
        lemma_enclosing_le(spans, i, k - 1);
    }
}

/// The model of an element: a token's tag and span, its child elements, and the bytes it
/// is backed by.
pub struct JaxNode {
    pub tag: IoMemento,
    pub start: usize,
    pub end: usize,
    pub children: Seq<JaxNode>,
    pub backing: Option<Seq<u8>>,
}

/// The element of token `i`: its direct children as elements, backed by its bytes
/// `start..=end` where `end` lies inside the source.
pub open spec fn jax_of(flat: FlatView, src: Seq<u8>, i: int) -> JaxNode
    decreases flat.spans.len() - flat.depths[i],
{
    let kids = direct_children_of(flat, i);
    let (a, b) = flat.spans[i];
    JaxNode {
        tag: flat.tags[i],
        start: a,
        end: b,
        children: Seq::new(
            kids.len(),
            |j: int|
                if 0 <= j < kids.len() && 0 <= kids[j] < flat.depths.len() && flat.depths[kids[j]]
                    == flat.depths[i] + 1 && flat.depths[kids[j]] <= flat.spans.len() {
                    jax_of(flat, src, kids[j])
                } else {
                    JaxNode { tag: IoMemento::IoNothing, start: 0, end: 0, children: seq![], backing: None }
                },
        ),
        backing: if b < src.len() {
            Some(src.subrange(a as int, b + 1))
        } else {
            None
        },
    }
}

/// A structural element bound to a token and its direct children.
#[derive(Debug)]
pub struct JaxElement {
    pub tag: IoMemento,
    pub start_index: usize,
    pub end_index: usize,
    pub children: Vec<JaxElement>,
    backing_bytes: Option<Vec<u8>>,
}

impl View for JaxElement {
    type V = JaxNode;

    open spec fn view(&self) -> JaxNode {
        self.node()
    }
}

impl JaxElement {
    /// The model of this element.
    pub closed spec fn node(&self) -> JaxNode
        decreases self,
    {
        JaxNode {
            tag: self.tag,
            start: self.start_index,
            end: self.end_index,
            children: Seq::new(
                self.children@.len(),
                |j: int|
                    if 0 <= j < self.children@.len() {
                        self.children@[j].node()
                    } else {
                        JaxNode { tag: IoMemento::IoNothing, start: 0, end: 0, children: seq![], backing: None }
                    },
            ),
            backing: match &self.backing_bytes {
                Some(v) => Some(v@),
                None => None,
            },
        }
    }
}

/// Every span of the index is empty or in order: no token starts more than one past its end.
pub open spec fn spans_ordered(spans: Seq<(usize, usize)>) -> bool {
    forall|i: int| 0 <= i < spans.len() ==> #[trigger] spans[i].0 <= spans[i].1 + 1
}

/// The element an empty index inflates to.
pub open spec fn empty_element() -> JaxNode {
    JaxNode { tag: IoMemento::IoObject, start: 0, end: 0, children: seq![], backing: None }
}

impl JaxElement {
    /// The bytes backing this element; empty where it has none.
    pub fn bytes(&self) -> (r: &[u8])
        ensures
            r@ == match self@.backing {
                Some(b) => b,
                None => seq![],
            },
    {
        match &self.backing_bytes {
            Some(v) => v.as_slice(),
            None => {
                let e: &[u8] = &[];
                assert(e@ =~= Seq::<u8>::empty());
                e
            },
        }
    }

    /// The element of token `parent_token_idx` (see `jax_of`); an empty index inflates to
    /// an empty object element.
    pub fn inflate(index: &ConfixIndex, parent_token_idx: usize, src: &[u8]) -> (r: JaxElement)
        requires
            index@.flat.spans.len() == 0 || parent_token_idx < index@.flat.spans.len(),
            spans_ordered(index@.flat.spans),
        ensures
            r@ == if index@.flat.spans.len() == 0 {
                empty_element()
            } else {
                jax_of(index@.flat, src@, parent_token_idx as int)
            },
        decreases index@.flat.spans.len() - index@.flat.depths[parent_token_idx as int],
    {
        proof {
            use_type_invariant(index);
            ConfixIndex::lemma_view(*index);
            lemma_flat_lens(index@);
        }
        let ghost flat = index@.flat;
        if index.spans().len() == 0 {
            let e = JaxElement {
                tag: IoMemento::IoObject,
                start_index: 0,
                end_index: 0,
                children: Vec::new(),
                backing_bytes: None,
            };
            assert(e@.children =~= Seq::<JaxNode>::empty());
            return e;
        }
        let root_tag = index.tags()[parent_token_idx];
        let (root_start, root_end) = index.spans()[parent_token_idx];
        let kids = index.direct_children(parent_token_idx);
        proof {
            crate::confix::index::lemma_children_bounds(flat, parent_token_idx as int, flat.spans.len() as int);
            lemma_children_direct(flat, parent_token_idx as int, flat.spans.len() as int);
        }
        let ghost ks = ints(kids@);
        let mut children: Vec<JaxElement> = Vec::new();
        let mut j: usize = 0;
        while j < kids.len()
            invariant
                j <= kids@.len(),
                ks == ints(kids@),
                ks == direct_children_of(flat, parent_token_idx as int),
                flat == index@.flat,
                parent_token_idx < flat.spans.len(),
                flat.depths.len() == flat.spans.len(),
                spans_ordered(flat.spans),
                forall|q: int| 0 <= q < ks.len() ==> 0 <= #[trigger] ks[q] < flat.spans.len(),
                forall|q: int|
                    0 <= q < ks.len() ==> #[trigger] flat.depths[ks[q]] == flat.depths[parent_token_idx as int] + 1,
                forall|q: int| 0 <= q < flat.depths.len() ==> #[trigger] flat.depths[q] < flat.spans.len(),
                children@.len() == j,
                forall|q: int| 0 <= q < j ==> #[trigger] children@[q]@ == jax_of(flat, src@, ks[q]),
            decreases kids@.len() - j,
        {
            let c = kids[j];
            proof {
                assert(ks[j as int] == c as int);
            }
            let child = JaxElement::inflate(index, c, src);
            children.push(child);
            j = j + 1;
        }
        let n = src.len();
        let backing = if root_end < n {
            proof {
                assert(flat.spans[parent_token_idx as int] == (root_start, root_end));
            }
            let mut v: Vec<u8> = Vec::new();
            let mut k = root_start;
            while k <= root_end
                invariant
                    root_start <= k <= root_end + 1,
                    root_end < n,
                    n == src@.len(),
                    v@ == src@.subrange(root_start as int, k as int),
                decreases root_end + 1 - k,
            {
                v.push(src[k]);
                k = k + 1;
            }
            Some(v)
        } else {
            None
        };
        let e = JaxElement {
            tag: root_tag,
            start_index: root_start,
            end_index: root_end,
            children,
            backing_bytes: backing,
        };
        proof {
            let want = jax_of(flat, src@, parent_token_idx as int);
            let got = e@;
            assert(got.children.len() == e.children@.len());
            assert(want.children.len() == ks.len());
            assert forall|q: int| 0 <= q < want.children.len() implies got.children[q] == want.children[q] by {
                assert(got.children[q] == e.children@[q]@);
                assert(0 <= ks[q] < flat.spans.len());
                assert(flat.depths[ks[q]] == flat.depths[parent_token_idx as int] + 1);
                assert(flat.depths[ks[q]] < flat.spans.len());
            }
            assert(e@.children =~= want.children);
        }
        e
    }
}

proof fn lemma_children_direct(flat: FlatView, p: int, k: int)
    ensures
        forall|q: int|
            0 <= q < crate::confix::index::children_upto(flat, p, k).len() ==> crate::confix::index::is_direct_child(
                flat,
                p,
                #[trigger] crate::confix::index::children_upto(flat, p, k)[q],
            ),
    decreases k,
{
    if k > 0 {
        lemma_children_direct(flat, p, k - 1);
        let prev = crate::confix::index::children_upto(flat, p, k - 1);
        if crate::confix::index::is_direct_child(flat, p, k - 1) {
            assert forall|q: int| 0 <= q < prev.len() + 1 implies crate::confix::index::is_direct_child(
                flat,
                p,
                #[trigger] prev.push(k - 1)[q],
            ) by {
                if q < prev.len() {
                    assert(prev.push(k - 1)[q] == prev[q]);
                }
            }
        }
    }
}

} // verus!
