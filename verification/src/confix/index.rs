//! The index over a scanned document: geometry, the token tree, and the derived facets
//! (key lookup and structural identifiers) that are built on first use and kept.
use vstd::cell::invcell::InvCell;
use vstd::prelude::*;
use vstd::predicate::Predicate;
use vstd::string::StringExecFns;
use vstd::utf8::encode_utf8;

use super::cbor_scan::{cbor_token_list, cbor_tokens};
use super::decode::{cbor_text, decode_cbor_text, decode_text_span, reifiable, reify_of, text_span, Value};
use super::json_scan::{closes_below, json_tokens, lemma_json_tokens_below, lemma_json_tokens_ordered};
use super::sha::{content_id, content_id_of};
use super::tree::{
    flat_of, insert_pos, ints, lemma_sort_by_open_sorted, node_of, row_of, sort_by_open,
    tree_from_flat, tree_of, FlatView,
};
use super::yaml_scan::{yaml_scannable, yaml_tokens};
use super::{recognizes, rows_view, FlatIndex, IoMemento, RowVec, Syntax, Tok, TreeCursor};

verus! {

// ── what a scan yields ──────────────────────────────────────────────────────

/// The tokens a dialect's scanner emits for `src`.
pub open spec fn scan_tokens(syntax: Syntax, src: Seq<u8>) -> Seq<Tok> {
    match syntax {
        Syntax::Json => json_tokens(src),
        Syntax::Cbor => cbor_tokens(src).unwrap(),
        Syntax::Yaml => yaml_tokens(src),
    }
}

/// The dialect's scanner finishes on `src`: JSON always; CBOR where no head is cut short or
/// reserved; YAML where the line walk makes progress.
pub open spec fn scannable(syntax: Syntax, src: Seq<u8>) -> bool {
    match syntax {
        Syntax::Json => true,
        Syntax::Cbor => cbor_tokens(src) is Some,
        Syntax::Yaml => yaml_scannable(src),
    }
}

/// Every span either is empty (`close < open`) or ends inside the source.
pub open spec fn spans_in_bounds(spans: Seq<(usize, usize)>, len: int) -> bool {
    forall|i: int| 0 <= i < spans.len() ==> #[trigger] spans[i].1 < spans[i].0 || spans[i].1 < len
}

/// `src` can be indexed as `syntax`: it scans, and no token ends past its end.
pub open spec fn indexable(syntax: Syntax, src: Seq<u8>) -> bool {
    &&& scannable(syntax, src)
    &&& spans_in_bounds(flat_of(scan_tokens(syntax, src)).spans, src.len() as int)
}

proof fn lemma_insert_pos_range(s: Seq<Tok>, open: usize)
    ensures
        0 <= insert_pos(s, open) <= s.len(),
    decreases s.len(),
{
    if s.len() > 0 {
        lemma_insert_pos_range(s.drop_last(), open);
    }
}

/// Ordering tokens by start keeps every token's end below `n`.
proof fn lemma_sort_by_open_below(toks: Seq<Tok>, n: int)
    requires
        closes_below(toks, n),
    ensures
        closes_below(sort_by_open(toks), n),
        sort_by_open(toks).len() == toks.len(),
    decreases toks.len(),
{
    if toks.len() > 0 {
        assert(closes_below(toks.drop_last(), n)) by {
            assert forall|k: int| 0 <= k < toks.drop_last().len() implies #[trigger] toks.drop_last()[k].1 < n by {
                assert(toks.drop_last()[k] == toks[k]);
            }
        }
        lemma_sort_by_open_below(toks.drop_last(), n);
        let s = sort_by_open(toks.drop_last());
        lemma_insert_pos_range(s, toks.last().0);
        let p = insert_pos(s, toks.last().0);
        let r = s.insert(p, toks.last());
        assert(toks.last() == toks[toks.len() - 1]);
        assert forall|k: int| 0 <= k < r.len() implies #[trigger] r[k].1 < n by {
            if k < p {
                assert(r[k] == s[k]);
            } else if k > p {
                assert(r[k] == s[k - 1]);
            }
        }
    }
}

/// Any bytes can be indexed as JSON: the JSON scanner is lenient and every token it emits
/// ends inside the source, so no input is refused.
pub proof fn lemma_json_indexable(src: Seq<u8>)
    ensures
        indexable(Syntax::Json, src),
{
    lemma_json_tokens_below(src);
    let toks = json_tokens(src);
    lemma_sort_by_open_below(toks, src.len() as int);
    let spans = flat_of(toks).spans;
    assert forall|i: int| 0 <= i < spans.len() implies #[trigger] spans[i].1 < spans[i].0 || spans[i].1
        < src.len() by {
        assert(spans[i] == (sort_by_open(toks)[i].0, sort_by_open(toks)[i].1));
    }
}

/// Each token of the list sorted by start is a token of the list.
proof fn lemma_sort_by_open_members(toks: Seq<Tok>)
    ensures
        sort_by_open(toks).len() == toks.len(),
        forall|k: int| 0 <= k < sort_by_open(toks).len() ==> toks.contains(#[trigger] sort_by_open(toks)[k]),
    decreases toks.len(),
{
    if toks.len() > 0 {
        let init = toks.drop_last();
        lemma_sort_by_open_members(init);
        let s = sort_by_open(init);
        lemma_insert_pos_range(s, toks.last().0);
        let p = insert_pos(s, toks.last().0);
        let r = s.insert(p, toks.last());
        assert forall|k: int| 0 <= k < r.len() implies toks.contains(#[trigger] r[k]) by {
            if k == p {
                assert(toks[toks.len() - 1] == r[k]);
            } else {
                let j = if k < p {
                    k
                } else {
                    k - 1
                };
                assert(r[k] == s[j]);
                assert(init.contains(s[j]));
                let w = choose|w: int| 0 <= w < init.len() && init[w] == s[j];
                assert(toks[w] == r[k]);
            }
        }
    }
}

/// The flat geometry of any JSON scan is well formed: as many tags and depths as spans,
/// spans in order of their starts, and each span starting at or before its end, which
/// lies inside the source.
pub proof fn lemma_json_flat_well_formed(src: Seq<u8>)
    requires
        src.len() <= usize::MAX,
    ensures
        ({
            let flat = flat_of(json_tokens(src));
            &&& flat.tags.len() == flat.spans.len()
            &&& flat.depths.len() == flat.spans.len()
            &&& spans_sorted(flat.spans)
            &&& forall|i: int|
                0 <= i < flat.spans.len() ==> #[trigger] flat.spans[i].0 <= flat.spans[i].1 && flat.spans[i].1
                    < src.len()
        }),
{
    let toks = json_tokens(src);
    let flat = flat_of(toks);
    lemma_json_tokens_ordered(src);
    lemma_sort_by_open_members(toks);
    lemma_sort_by_open_sorted(toks);
    let sorted = sort_by_open(toks);
    assert(spans_sorted(flat.spans)) by {
        assert forall|i: int, j: int| 0 <= i <= j < flat.spans.len() implies #[trigger] flat.spans[i].0
            <= #[trigger] flat.spans[j].0 by {
            assert(flat.spans[i].0 == sorted[i].0);
            assert(flat.spans[j].0 == sorted[j].0);
        }
    }
    assert forall|i: int| 0 <= i < flat.spans.len() implies #[trigger] flat.spans[i].0 <= flat.spans[i].1
        && flat.spans[i].1 < src.len() by {
        assert(flat.spans[i] == (sorted[i].0, sorted[i].1));
        assert(toks.contains(sorted[i]));
        let w = choose|w: int| 0 <= w < toks.len() && toks[w] == sorted[i];
        assert(toks[w].0 <= toks[w].1 && toks[w].1 < src.len());
    }
}

/// The dialect `dispatch` picks for a first byte: the first of JSON, CBOR, YAML that
/// recognizes it.
pub open spec fn dispatch_syntax(first: u8) -> Syntax {
    if recognizes(Syntax::Json, first) {
        Syntax::Json
    } else if recognizes(Syntax::Cbor, first) {
        Syntax::Cbor
    } else {
        Syntax::Yaml
    }
}

/// The model of an index: its dialect, its source and its flat geometry.
pub struct IndexView {
    pub syntax: Syntax,
    pub src: Seq<u8>,
    pub flat: FlatView,
}

/// The index of `src` scanned as `syntax`.
pub open spec fn index_of(syntax: Syntax, src: Seq<u8>) -> IndexView {
    IndexView { syntax, src, flat: flat_of(scan_tokens(syntax, src)) }
}

// ── geometry queries ────────────────────────────────────────────────────────

/// Token `c` is a direct child of token `p`: strictly inside its span, one level deeper.
pub open spec fn is_direct_child(flat: FlatView, p: int, c: int) -> bool {
    &&& c != p
    &&& flat.spans[c].0 > flat.spans[p].0
    &&& flat.spans[c].1 <= flat.spans[p].1
    &&& flat.depths[c] == flat.depths[p] + 1
}

/// The direct children of `p` among the first `k` tokens, in source order.
pub open spec fn children_upto(flat: FlatView, p: int, k: int) -> Seq<int>
    decreases k,
{
    if k <= 0 {
        seq![]
    } else if is_direct_child(flat, p, k - 1) {
        children_upto(flat, p, k - 1).push(k - 1)
    } else {
        children_upto(flat, p, k - 1)
    }
}

/// The direct children of `p`, in source order; none for an index out of range.
pub open spec fn direct_children_of(flat: FlatView, p: int) -> Seq<int> {
    if p < 0 || p >= flat.spans.len() {
        seq![]
    } else {
        children_upto(flat, p, flat.spans.len() as int)
    }
}

/// The first token from `i` on at depth `d`.
pub open spec fn next_at_depth(depths: Seq<usize>, d: usize, i: int) -> Option<int>
    decreases depths.len() - i,
{
    if i < 0 || i >= depths.len() {
        None
    } else if depths[i] == d {
        Some(i)
    } else {
        next_at_depth(depths, d, i + 1)
    }
}

/// The value token of key token `k`: the next token at the same depth.
pub open spec fn value_index_of(flat: FlatView, k: int) -> Option<int> {
    if k < 0 || k >= flat.depths.len() {
        None
    } else {
        next_at_depth(flat.depths, flat.depths[k], k + 1)
    }
}

// ── derived facets ──────────────────────────────────────────────────────────

/// The key text of token `i`: for a string token, its decoded text (CBOR: the text item
/// at its start; JSON and YAML: the text between its first and last byte, escapes
/// resolved); `None` for any other token or an empty quoted text.
pub open spec fn key_text(syntax: Syntax, flat: FlatView, src: Seq<u8>, i: int) -> Option<Seq<char>> {
    if flat.tags[i] != IoMemento::IoString {
        None
    } else if syntax == Syntax::Cbor {
        cbor_text(src, flat.spans[i].0 as int)
    } else {
        let a = flat.spans[i].0 as int;
        let b = flat.spans[i].1 as int;
        if b == 0 || b - 1 < a + 1 {
            None
        } else {
            Some(text_span(src, a + 1, b - 1))
        }
    }
}

/// The key texts of all tokens.
pub open spec fn key_texts(syntax: Syntax, flat: FlatView, src: Seq<u8>) -> Seq<Option<Seq<char>>> {
    Seq::new(flat.spans.len(), |i: int| key_text(syntax, flat, src, i))
}

/// The first token from `i` on whose key text is `key`.
pub open spec fn first_key_from(keys: Seq<Option<Seq<char>>>, key: Seq<char>, i: int) -> Option<int>
    decreases keys.len() - i,
{
    if i < 0 || i >= keys.len() {
        None
    } else if keys[i] == Some(key) {
        Some(i)
    } else {
        first_key_from(keys, key, i + 1)
    }
}

/// The first token of the index whose key text is `key`.
pub open spec fn key_token(ix: IndexView, key: Seq<char>) -> Option<int> {
    first_key_from(key_texts(ix.syntax, ix.flat, ix.src), key, 0)
}

/// The bytes a leaf token is identified by: `open..=close` clipped to the source (one
/// byte where `close < open`).
pub open spec fn leaf_bytes(src: Seq<u8>, a: int, b: int) -> Seq<u8> {
    if a < 0 || a >= src.len() {
        seq![]
    } else if b < a {
        seq![src[a]]
    } else {
        src.subrange(
            a,
            (if b < src.len() - 1 {
                b
            } else {
                src.len() - 1
            }) + 1,
        )
    }
}

/// The identifiers of `kids` as listed in table `t`, each followed by a newline.
pub open spec fn kid_ids(t: Seq<Option<Seq<char>>>, kids: Seq<int>, j: int) -> Seq<char>
    decreases j,
{
    if j <= 0 {
        seq![]
    } else {
        kid_ids(t, kids, j - 1) + (match t[kids[j - 1]] {
            Some(s) => s,
            None => seq![],
        }) + seq!['\n']
    }
}

/// The text a container's identifier hashes: `node:`, a newline, and the identifiers of
/// its direct children as table `t` has them, each followed by a newline.
pub open spec fn node_text(t: Seq<Option<Seq<char>>>, kids: Seq<int>) -> Seq<char> {
    seq!['n', 'o', 'd', 'e', ':', '\n'] + kid_ids(t, kids, kids.len() as int)
}

/// The identifier of token `i` given table `t` of the identifiers of later tokens: a
/// container, or any token with children, hashes its node text; a leaf hashes its bytes.
pub open spec fn node_id(flat: FlatView, src: Seq<u8>, i: int, t: Seq<Option<Seq<char>>>) -> Seq<char> {
    let kids = direct_children_of(flat, i);
    if flat.tags[i] == IoMemento::IoObject || flat.tags[i] == IoMemento::IoArray || kids.len() > 0 {
        content_id_of(encode_utf8(node_text(t, kids)))
    } else {
        content_id_of(leaf_bytes(src, flat.spans[i].0 as int, flat.spans[i].1 as int))
    }
}

/// The identifier table with the tokens from `i` on filled in, last token first.
pub open spec fn id_table(flat: FlatView, src: Seq<u8>, i: int) -> Seq<Option<Seq<char>>>
    decreases flat.spans.len() - i,
{
    if i < 0 || i >= flat.spans.len() {
        Seq::new(flat.spans.len(), |j: int| None)
    } else {
        let t = id_table(flat, src, i + 1);
        t.update(i, Some(node_id(flat, src, i, t)))
    }
}

/// The structural identifiers of all tokens.
pub open spec fn structural_ids(flat: FlatView, src: Seq<u8>) -> Seq<Option<Seq<char>>> {
    id_table(flat, src, 0)
}

/// Spans in order of their start offsets.
pub open spec fn spans_sorted(spans: Seq<(usize, usize)>) -> bool {
    forall|i: int, j: int| 0 <= i <= j < spans.len() ==> #[trigger] spans[i].0 <= #[trigger] spans[j].0
}

proof fn lemma_children_after(flat: FlatView, p: int, k: int)
    requires
        spans_sorted(flat.spans),
        0 <= p < flat.spans.len(),
        0 <= k <= flat.spans.len(),
    ensures
        forall|m: int|
            0 <= m < children_upto(flat, p, k).len() ==> p < #[trigger] children_upto(flat, p, k)[m] < k,
    decreases k,
{
    if k > 0 {
        lemma_children_after(flat, p, k - 1);
        let prev = children_upto(flat, p, k - 1);
        if is_direct_child(flat, p, k - 1) {
            if k - 1 <= p {
                assert(flat.spans[k - 1].0 <= flat.spans[p].0);
            }
            assert forall|m: int| 0 <= m < prev.len() + 1 implies p < #[trigger] prev.push(k - 1)[m] < k by {
                if m < prev.len() {
                    assert(prev.push(k - 1)[m] == prev[m]);
                }
            }
        }
    }
}

proof fn lemma_kid_ids_frame(t1: Seq<Option<Seq<char>>>, t2: Seq<Option<Seq<char>>>, kids: Seq<int>, j: int)
    requires
        j <= kids.len(),
        forall|m: int| 0 <= m < j ==> t1[#[trigger] kids[m]] == t2[kids[m]],
    ensures
        kid_ids(t1, kids, j) == kid_ids(t2, kids, j),
    decreases j,
{
    if j > 0 {
        lemma_kid_ids_frame(t1, t2, kids, j - 1);
        assert(t1[kids[j - 1]] == t2[kids[j - 1]]);
    }
}

/// The identifier table from token `i` on: every later token's identifier is filled in and
/// agrees with the table itself, every earlier one is still empty.
proof fn lemma_id_table(flat: FlatView, src: Seq<u8>, i: int)
    requires
        spans_sorted(flat.spans),
        flat.tags.len() == flat.spans.len(),
        0 <= i <= flat.spans.len(),
    ensures
        id_table(flat, src, i).len() == flat.spans.len(),
        forall|j: int| 0 <= j < i ==> #[trigger] id_table(flat, src, i)[j] is None,
        forall|j: int|
            i <= j < flat.spans.len() ==> #[trigger] id_table(flat, src, i)[j] == Some(
                node_id(flat, src, j, id_table(flat, src, i)),
            ),
    decreases flat.spans.len() - i,
{
    let n = flat.spans.len() as int;
    if i < n {
        lemma_id_table(flat, src, i + 1);
        let t1 = id_table(flat, src, i + 1);
        let t = id_table(flat, src, i);
        assert(t == t1.update(i, Some(node_id(flat, src, i, t1))));
        assert forall|j: int| i <= j < n implies #[trigger] id_table(flat, src, i)[j] == Some(
            node_id(flat, src, j, id_table(flat, src, i)),
        ) by {
            let kids = direct_children_of(flat, j);
            lemma_children_after(flat, j, n);
            assert forall|m: int| 0 <= m < kids.len() implies t[#[trigger] kids[m]] == t1[kids[m]] by {
                assert(j < kids[m] < n);
            }
            lemma_kid_ids_frame(t, t1, kids, kids.len() as int);
            if j > i {
                assert(t[j] == t1[j]);
            }
        }
    } else {
        assert forall|j: int| 0 <= j < i implies #[trigger] id_table(flat, src, i)[j] is None by {}
    }
}

/// Every token of a scanned document has a structural identifier, and it is the content id
/// of the token's bytes for a leaf, or of `node:` followed by its direct children's
/// identifiers for a container: the identifiers form a hash tree over the token tree, so a
/// token's identifier depends only on its own subtree.
pub proof fn lemma_structural_ids_hash_tree(toks: Seq<Tok>, src: Seq<u8>)
    ensures
        structural_ids(flat_of(toks), src).len() == toks.len(),
        forall|i: int|
            0 <= i < toks.len() ==> #[trigger] structural_ids(flat_of(toks), src)[i] == Some(
                node_id(flat_of(toks), src, i, structural_ids(flat_of(toks), src)),
            ),
{
    let flat = flat_of(toks);
    lemma_sort_by_open_sorted(toks);
    lemma_sort_by_open_len(toks);
    let sorted = sort_by_open(toks);
    assert(spans_sorted(flat.spans)) by {
        assert forall|i: int, j: int| 0 <= i <= j < flat.spans.len() implies #[trigger] flat.spans[i].0
            <= #[trigger] flat.spans[j].0 by {
            assert(flat.spans[i].0 == sorted[i].0);
            assert(flat.spans[j].0 == sorted[j].0);
        }
    }
    lemma_id_table(flat, src, 0);
}

proof fn lemma_children_increasing(flat: FlatView, p: int, k: int)
    requires
        0 <= k,
    ensures
        forall|a: int, b: int|
            0 <= a < b < children_upto(flat, p, k).len() ==> #[trigger] children_upto(flat, p, k)[a]
                < #[trigger] children_upto(flat, p, k)[b],
        forall|a: int| 0 <= a < children_upto(flat, p, k).len() ==> #[trigger] children_upto(flat, p, k)[a] < k,
    decreases k,
{
    if k > 0 {
        lemma_children_increasing(flat, p, k - 1);
        let prev = children_upto(flat, p, k - 1);
        if is_direct_child(flat, p, k - 1) {
            let cur = prev.push(k - 1);
            assert forall|a: int, b: int| 0 <= a < b < cur.len() implies #[trigger] cur[a] < #[trigger] cur[b] by {
                assert(cur[a] == prev[a]);
                if b < prev.len() {
                    assert(cur[b] == prev[b]);
                }
            }
            assert forall|a: int| 0 <= a < cur.len() implies #[trigger] cur[a] < k by {
                if a < prev.len() {
                    assert(cur[a] == prev[a]);
                }
            }
        }
    }
}

/// The direct children of a token of a scanned document come in source order: by
/// increasing token position and start offset.
pub proof fn lemma_children_in_source_order(toks: Seq<Tok>, p: int)
    ensures
        forall|a: int, b: int|
            0 <= a < b < direct_children_of(flat_of(toks), p).len() ==> #[trigger] direct_children_of(
                flat_of(toks),
                p,
            )[a] < #[trigger] direct_children_of(flat_of(toks), p)[b] && flat_of(toks).spans[direct_children_of(
                flat_of(toks),
                p,
            )[a]].0 <= flat_of(toks).spans[direct_children_of(flat_of(toks), p)[b]].0,
{
    let flat = flat_of(toks);
    let n = flat.spans.len() as int;
    lemma_sort_by_open_sorted(toks);
    lemma_sort_by_open_len(toks);
    let sorted = sort_by_open(toks);
    if 0 <= p < n {
        lemma_children_increasing(flat, p, n);
        let kids = direct_children_of(flat, p);
        assert forall|a: int, b: int| 0 <= a < b < kids.len() implies flat.spans[kids[a]].0
            <= flat.spans[kids[b]].0 by {
            assert(kids[a] < kids[b]);
            assert(0 <= kids[a]) by {
                assert(spans_sorted(flat.spans)) by {
                    assert forall|i: int, j: int| 0 <= i <= j < flat.spans.len() implies #[trigger] flat.spans[i].0
                        <= #[trigger] flat.spans[j].0 by {
                        assert(flat.spans[i].0 == sorted[i].0);
                        assert(flat.spans[j].0 == sorted[j].0);
                    }
                }
                lemma_children_after(flat, p, n);
            }
            assert(flat.spans[kids[a]].0 == sorted[kids[a]].0);
            assert(flat.spans[kids[b]].0 == sorted[kids[b]].0);
        }
    }
}

proof fn lemma_sort_by_open_len(toks: Seq<Tok>)
    ensures
        sort_by_open(toks).len() == toks.len(),
    decreases toks.len(),
{
    if toks.len() > 0 {
        lemma_sort_by_open_len(toks.drop_last());
        lemma_insert_pos_range(sort_by_open(toks.drop_last()), toks.last().0);
    }
}

/// Optional strings by their characters.
pub open spec fn opt_texts(t: Seq<Option<String>>) -> Seq<Option<Seq<char>>> {
    t.map_values(
        |o: Option<String>|
            match o {
                Some(s) => Some(s@),
                None => None,
            },
    )
}

/// What a kept facet may hold: nothing yet, or exactly `facet`.
pub struct Memo {
    pub facet: Ghost<Seq<Option<Seq<char>>>>,
}

impl Predicate<Option<Vec<Option<String>>>> for Memo {
    open spec fn predicate(&self, v: Option<Vec<Option<String>>>) -> bool {
        match v {
            Some(t) => opt_texts(t@) == self.facet@,
            None => true,
        }
    }
}

// ── the index ───────────────────────────────────────────────────────────────

/// The index over a scanned document: the dialect, the source it was scanned from, its
/// flat geometry and token tree, and two facets built on first use and then kept: the
/// key text of each token, and the structural identifier of each token.
pub struct ConfixIndex {
    syntax: Syntax,
    flat: FlatIndex,
    src: Vec<u8>,
    tree: Vec<RowVec>,
    keys: InvCell<Option<Vec<Option<String>>>, Memo>,
    ids: InvCell<Option<Vec<Option<String>>>, Memo>,
}

impl View for ConfixIndex {
    type V = IndexView;

    closed spec fn view(&self) -> IndexView {
        IndexView { syntax: self.syntax, src: self.src@, flat: self.flat@ }
    }
}

impl ConfixIndex {
    /// What every index upholds: its source is indexable as its dialect, its geometry is
    /// that of the scan, its tree is built from that geometry, and its kept facets are
    /// empty or exact.
    #[verifier::type_invariant]
    pub closed spec fn wf(self) -> bool {
        &&& indexable(self.syntax, self.src@)
        &&& self.flat@ == flat_of(scan_tokens(self.syntax, self.src@))
        &&& rows_view(self.tree@) == tree_of(self.flat@)
        &&& self.keys.predicate() == Memo { facet: Ghost(key_texts(self.syntax, self.flat@, self.src@)) }
        &&& self.ids.predicate() == Memo { facet: Ghost(structural_ids(self.flat@, self.src@)) }
    }
}

impl ConfixIndex {
    /// An index's model is the index of its source scanned as its dialect.
    pub proof fn lemma_view(ix: ConfixIndex)
        requires
            ix.wf(),
        ensures
            indexable(ix@.syntax, ix@.src),
            ix@ == index_of(ix@.syntax, ix@.src),
    {
    }
}

/// A copy of a byte slice.
pub(crate) fn copy_bytes(src: &[u8]) -> (v: Vec<u8>)
    ensures
        v@ == src@,
{
    let n = src.len();
    let mut v: Vec<u8> = Vec::new();
    let mut i: usize = 0;
    while i < n
        invariant
            n == src@.len(),
            i <= n,
            v@ == src@.subrange(0, i as int),
        decreases n - i,
    {
        v.push(src[i]);
        i = i + 1;
    }
    v
}

impl Syntax {
    /// Scan `src` into its token tree.
    pub fn scan(self, src: &[u8]) -> (r: TreeCursor)
        requires
            scannable(self, src@),
        ensures
            rows_view(r@) == tree_of(flat_of(scan_tokens(self, src@))),
    {
        match self {
            Syntax::Json => self.scan0(src).tree,
            Syntax::Cbor => self.scan_cbor0(src).tree,
            Syntax::Yaml => self.scan_yaml0(src).tree,
        }
    }

    /// Scan `bytes` as the first dialect, in the order JSON, CBOR, YAML, that recognizes
    /// its first byte. CBOR recognizes every byte, so YAML is never picked here.
    pub fn dispatch(bytes: &[u8]) -> (r: TreeCursor)
        requires
            bytes@.len() > 0,
            scannable(dispatch_syntax(bytes@[0]), bytes@),
        ensures
            rows_view(r@) == tree_of(flat_of(scan_tokens(dispatch_syntax(bytes@[0]), bytes@))),
    {
        let first = bytes[0];
        let syntax = if Syntax::Json.recognize(first) {
            Syntax::Json
        } else if Syntax::Cbor.recognize(first) {
            Syntax::Cbor
        } else {
            Syntax::Yaml
        };
        syntax.scan(bytes)
    }

    /// Scan `src` and index it. The caller is owed an index only where every token ends
    /// inside the source; a CBOR string or float whose payload is cut short does not.
    pub fn scan_index(self, src: &[u8]) -> (r: ConfixIndex)
        requires
            indexable(self, src@),
        ensures
            r@ == index_of(self, src@),
    {
        let flat = match self {
            Syntax::Cbor => self.scan_cbor0(src).flat,
            Syntax::Yaml => self.scan_yaml0(src).flat,
            Syntax::Json => self.scan0(src).flat,
        };
        self.index_from_flat(src, flat)
    }

    /// Scan `src` and index it where every token ends inside the source; `None` where a
    /// token ends past its end or, for CBOR, where the scan fails.
    pub fn try_scan_index(self, src: &[u8]) -> (r: Option<ConfixIndex>)
        requires
            self == Syntax::Yaml ==> yaml_scannable(src@),
        ensures
            match r {
                Some(ix) => indexable(self, src@) && ix@ == index_of(self, src@),
                None => !indexable(self, src@),
            },
    {
        let flat = match self {
            Syntax::Cbor => match cbor_token_list(src) {
                Some(toks) => super::tree::finish(&toks).flat,
                None => return None,
            },
            Syntax::Yaml => self.scan_yaml0(src).flat,
            Syntax::Json => self.scan0(src).flat,
        };
        let n = src.len();
        let total = flat.spans.len();
        let mut i: usize = 0;
        while i < total
            invariant
                i <= total,
                total == flat.spans@.len(),
                n == src@.len(),
                flat@ == flat_of(scan_tokens(self, src@)),
                spans_in_bounds(flat.spans@.subrange(0, i as int), n as int),
            decreases total - i,
        {
            let (a, b) = flat.spans[i];
            if !(b < a || b < n) {
                proof {
                    assert(flat.spans@[i as int] == (a, b));
                }
                return None;
            }
            i = i + 1;
            proof {
                assert forall|j: int| 0 <= j < i implies #[trigger] flat.spans@.subrange(0, i as int)[j].1
                    < flat.spans@.subrange(0, i as int)[j].0 || flat.spans@.subrange(0, i as int)[j].1
                    < n by {
                    if j < i - 1 {
                        assert(flat.spans@.subrange(0, i as int)[j] == flat.spans@.subrange(0, i - 1)[j]);
                    }
                }
            }
        }
        assert(flat.spans@.subrange(0, total as int) =~= flat.spans@);
        Some(self.index_from_flat(src, flat))
    }

    /// The index of `src` given its flat geometry.
    fn index_from_flat(self, src: &[u8], flat: FlatIndex) -> (r: ConfixIndex)
        requires
            indexable(self, src@),
            flat@ == flat_of(scan_tokens(self, src@)),
        ensures
            r@ == index_of(self, src@),
    {
        let tree = tree_from_flat(&flat);
        let copy = copy_bytes(src);
        let keys = InvCell::new(
            None,
            Ghost(Memo { facet: Ghost(key_texts(self, flat@, src@)) }),
        );
        let ids = InvCell::new(None, Ghost(Memo { facet: Ghost(structural_ids(flat@, src@)) }));
        ConfixIndex { syntax: self, flat, src: copy, tree, keys, ids }
    }
}

impl ConfixIndex {
    /// The dialect this index was scanned as.
    pub fn syntax(&self) -> (r: Syntax)
        ensures
            r == self@.syntax,
    {
        self.syntax
    }

    /// The source bytes kept at scan time.
    pub fn src(&self) -> (r: &[u8])
        ensures
            r@ == self@.src,
    {
        self.src.as_slice()
    }

    /// Token spans, in source order.
    pub fn spans(&self) -> (r: &[(usize, usize)])
        ensures
            r@ == self@.flat.spans,
    {
        self.flat.spans.as_slice()
    }

    /// Token tags, in source order.
    pub fn tags(&self) -> (r: &[IoMemento])
        ensures
            r@ == self@.flat.tags,
    {
        self.flat.tags.as_slice()
    }

    /// Token depths, in source order.
    pub fn depths(&self) -> (r: &[usize])
        ensures
            r@ == self@.flat.depths,
    {
        self.flat.depths.as_slice()
    }

    /// The token tree.
    pub fn tree(&self) -> (r: &[RowVec])
        ensures
            rows_view(r@) == tree_of(self@.flat),
    {
        proof {
            use_type_invariant(self);
        }
        self.tree.as_slice()
    }

    /// The direct children of token `parent`, in source order: the tokens strictly inside
    /// its span one level deeper. None for an index out of range.
    pub fn direct_children(&self, parent: usize) -> (r: Vec<usize>)
        ensures
            ints(r@) == direct_children_of(self@.flat, parent as int),
    {
        proof {
            use_type_invariant(self);
        }
        let total = self.flat.spans.len();
        let mut out: Vec<usize> = Vec::new();
        if parent >= total {
            assert(ints(out@) =~= Seq::<int>::empty());
            return out;
        }
        let ps = self.flat.spans[parent];
        let pd = self.flat.depths[parent];
        let mut c: usize = 0;
        while c < total
            invariant
                c <= total,
                parent < total,
                total == self.flat.spans@.len(),
                self.flat.depths@.len() == total,
                ps == self.flat.spans@[parent as int],
                pd == self.flat.depths@[parent as int],
                ints(out@) == children_upto(self.flat@, parent as int, c as int),
            decreases total - c,
        {
            let cs = self.flat.spans[c];
            let cd = self.flat.depths[c];
            if c != parent && cs.0 > ps.0 && cs.1 <= ps.1 && cd > 0 && cd - 1 == pd {
                out.push(c);
            }
            c = c + 1;
            assert(ints(out@) =~= children_upto(self.flat@, parent as int, c as int));
        }
        out
    }

    /// The value token of key token `key_token_idx`: the next token at the same depth.
    pub fn value_index_for(&self, key_token_idx: usize) -> (r: Option<usize>)
        ensures
            match r {
                Some(v) => value_index_of(self@.flat, key_token_idx as int) == Some(v as int),
                None => value_index_of(self@.flat, key_token_idx as int) is None,
            },
    {
        let n = self.flat.depths.len();
        if key_token_idx >= n {
            return None;
        }
        let d = self.flat.depths[key_token_idx];
        let mut i = key_token_idx + 1;
        while i < n
            invariant
                key_token_idx < i <= n,
                n == self.flat.depths@.len(),
                d == self.flat.depths@[key_token_idx as int],
                next_at_depth(self.flat.depths@, d, i as int) == value_index_of(
                    self.flat@,
                    key_token_idx as int,
                ),
            decreases n - i,
        {
            if self.flat.depths[i] == d {
                return Some(i);
            }
            i = i + 1;
        }
        None
    }

    /// Child `array_idx` of token `parent_token_idx`.
    pub fn resolve_index(&self, parent_token_idx: usize, array_idx: usize) -> (r: Option<usize>)
        ensures
            ({
                let kids = direct_children_of(self@.flat, parent_token_idx as int);
                match r {
                    Some(v) => array_idx < kids.len() && v == kids[array_idx as int],
                    None => array_idx >= kids.len(),
                }
            }),
    {
        let kids = self.direct_children(parent_token_idx);
        if array_idx < kids.len() {
            Some(kids[array_idx])
        } else {
            None
        }
    }

    /// The key texts of all tokens (see `key_texts`).
    fn build_key_index(&self) -> (t: Vec<Option<String>>)
        ensures
            opt_texts(t@) == key_texts(self@.syntax, self@.flat, self@.src),
    {
        proof {
            use_type_invariant(self);
        }
        let n = self.flat.spans.len();
        let src = self.src.as_slice();
        let mut t: Vec<Option<String>> = Vec::new();
        let mut i: usize = 0;
        while i < n
            invariant
                i <= n,
                n == self.flat.spans@.len(),
                self.flat.tags@.len() == n,
                src@ == self.src@,
                t@.len() == i,
                forall|j: int|
                    0 <= j < i ==> #[trigger] opt_texts(t@)[j] == key_text(
                        self.syntax,
                        self.flat@,
                        self.src@,
                        j,
                    ),
            decreases n - i,
        {
            let span = self.flat.spans[i];
            let k: Option<String> = if self.flat.tags[i] != IoMemento::IoString {
                None
            } else if self.syntax == Syntax::Cbor {
                decode_cbor_text(src, span.0)
            } else if span.1 < 2 || span.1 - 2 < span.0 {
                None
            } else {
                Some(decode_text_span(src, span.0 + 1, span.1 - 1))
            };
            let ghost before = t@;
            t.push(k);
            proof {
                assert forall|j: int| 0 <= j <= i implies #[trigger] opt_texts(t@)[j] == key_text(
                    self.syntax,
                    self.flat@,
                    self.src@,
                    j,
                ) by {
                    if j < i {
                        assert(opt_texts(t@)[j] == opt_texts(before)[j]);
                    }
                }
            }
            i = i + 1;
        }
        assert(opt_texts(t@) =~= key_texts(self.syntax, self.flat@, self.src@));
        t
    }

    /// Has the key facet been built?
    pub fn key_index_initialized(&self) -> bool {
        let memo = self.keys.replace(None);
        let built = memo.is_some();
        self.keys.set(memo);
        built
    }

    /// The first token whose key text is `key` (see `key_text`). The key texts are
    /// decoded on the first lookup and kept for later ones.
    pub fn key_to_child(&self, key: &str) -> (r: Option<usize>)
        ensures
            match r {
                Some(i) => key_token(self@, key@) == Some(i as int),
                None => key_token(self@, key@) is None,
            },
    {
        proof {
            use_type_invariant(self);
        }
        let memo = self.keys.replace(None);
        let table = match memo {
            Some(t) => t,
            None => self.build_key_index(),
        };
        let ghost keys = key_texts(self.syntax, self.flat@, self.src@);
        let wanted = key.to_owned();
        let n = table.len();
        let mut i: usize = 0;
        let mut found: Option<usize> = None;
        while i < n && found.is_none()
            invariant
                i <= n,
                n == table@.len(),
                opt_texts(table@) == keys,
                wanted@ == key@,
                found matches Some(j) ==> first_key_from(keys, key@, 0) == Some(j as int),
                found is None ==> first_key_from(keys, key@, i as int) == first_key_from(keys, key@, 0),
            decreases n - i + (if found is None {
                1int
            } else {
                0int
            }),
        {
            let hit = match &table[i] {
                Some(k) => *k == wanted,
                None => false,
            };
            proof {
                assert(opt_texts(table@)[i as int] == keys[i as int]);
            }
            if hit {
                found = Some(i);
            } else {
                i = i + 1;
            }
        }
        self.keys.set(Some(table));
        found
    }

    /// The value token of the first key token whose text is `key`.
    pub fn resolve_key(&self, key: &str) -> (r: Option<usize>)
        ensures
            match key_token(self@, key@) {
                Some(k) => match r {
                    Some(v) => value_index_of(self@.flat, k) == Some(v as int),
                    None => value_index_of(self@.flat, k) is None,
                },
                None => r is None,
            },
    {
        match self.key_to_child(key) {
            Some(k) => self.value_index_for(k),
            None => None,
        }
    }

    /// The identifier table (see `structural_ids`), computed last token first.
    fn build_structural_nodes(&self) -> (t: Vec<Option<String>>)
        ensures
            opt_texts(t@) == structural_ids(self@.flat, self@.src),
    {
        proof {
            use_type_invariant(self);
        }
        let ghost flat = self.flat@;
        let ghost src = self.src@;
        let total = self.flat.spans.len();
        let mut cids: Vec<Option<String>> = Vec::new();
        let mut c: usize = 0;
        while c < total
            invariant
                c <= total,
                cids@.len() == c,
                forall|j: int| 0 <= j < c ==> #[trigger] cids@[j] is None,
            decreases total - c,
        {
            cids.push(None);
            c = c + 1;
        }
        assert(opt_texts(cids@) =~= id_table(flat, src, total as int));
        let mut i = total;
        while i > 0
            invariant
                i <= total,
                total == flat.spans.len(),
                flat.tags.len() == total,
                flat == self.flat@,
                src == self.src@,
                opt_texts(cids@) == id_table(flat, src, i as int),
                cids@.len() == total,
            decreases i,
        {
            i = i - 1;
            let ghost t = opt_texts(cids@);
            proof {
                lemma_id_table_len(flat, src, i as int + 1);
            }
            let kids = self.direct_children(i);
            proof {
                lemma_children_bounds(flat, i as int, total as int);
            }
            let id = if self.flat.tags[i] == IoMemento::IoObject || self.flat.tags[i]
                == IoMemento::IoArray || kids.len() > 0 {
                let mut hashed = String::new();
                hashed.push('n');
                hashed.push('o');
                hashed.push('d');
                hashed.push('e');
                hashed.push(':');
                hashed.push('\n');
                let ghost ks = ints(kids@);
                assert(hashed@ =~= node_text(t, ks).subrange(0, 6)) by {
                    assert(kid_ids(t, ks, 0) =~= Seq::<char>::empty());
                }
                let mut j: usize = 0;
                while j < kids.len()
                    invariant
                        j <= kids@.len(),
                        ks == ints(kids@),
                        t == opt_texts(cids@),
                        t.len() == total,
                        cids@.len() == total,
                        forall|q: int| 0 <= q < ks.len() ==> 0 <= #[trigger] ks[q] < total,
                        hashed@ == seq!['n', 'o', 'd', 'e', ':', '\n'] + kid_ids(t, ks, j as int),
                    decreases kids@.len() - j,
                {
                    let ghost before = hashed@;
                    let k = kids[j];
                    proof {
                        assert(ks[j as int] == k as int);
                    }
                    match &cids[k] {
                        Some(s) => {
                            hashed.append(s.as_str());
                        },
                        None => {},
                    }
                    hashed.push('\n');
                    j = j + 1;
                    proof {
                        assert(t[ks[j - 1]] == opt_texts(cids@)[k as int]);
                        assert(hashed@ =~= seq!['n', 'o', 'd', 'e', ':', '\n'] + kid_ids(
                            t,
                            ks,
                            j as int,
                        ));
                    }
                }
                content_id(hashed.as_str().as_bytes())
            } else {
                let span = self.flat.spans[i];
                let leaf = leaf_window(self.src.as_slice(), span.0, span.1);
                content_id(leaf.as_slice())
            };
            cids.set(i, Some(id));
            proof {
                assert(opt_texts(cids@) =~= t.update(i as int, Some(node_id(flat, src, i as int, t))));
            }
        }
        cids
    }

    /// Have the structural identifiers been built?
    pub fn structural_nodes_initialized(&self) -> bool {
        let memo = self.ids.replace(None);
        let built = memo.is_some();
        self.ids.set(memo);
        built
    }

    /// The structural identifier of each token (see `structural_ids`): a content
    /// identifier of its bytes for a leaf, of its children's identifiers for a container.
    /// Computed on first use and kept.
    pub fn structural_nodes(&self) -> (r: Vec<Option<String>>)
        ensures
            opt_texts(r@) == structural_ids(self@.flat, self@.src),
    {
        proof {
            use_type_invariant(self);
        }
        let memo = self.ids.replace(None);
        let table = match memo {
            Some(t) => t,
            None => self.build_structural_nodes(),
        };
        let copy = copy_texts(&table);
        self.ids.set(Some(table));
        copy
    }

    /// The row of flat token `token_idx`, with its subtree, or `None` past the last token.
    pub fn token_row(&self, token_idx: usize) -> (r: Option<RowVec>)
        ensures
            match r {
                Some(row) => token_idx < self@.flat.spans.len() && row@ == node_of(
                    self@.flat,
                    token_idx as int,
                ),
                None => token_idx >= self@.flat.spans.len(),
            },
    {
        proof {
            use_type_invariant(self);
        }
        if token_idx < self.flat.spans.len() {
            Some(row_of(&self.flat, token_idx))
        } else {
            None
        }
    }

    /// The value of flat token `token_idx`, with its subtree.
    pub fn reify_token(&self, token_idx: usize) -> (r: Option<Value>)
        requires
            token_idx < self@.flat.spans.len() ==> reifiable(
                node_of(self@.flat, token_idx as int),
                self@.src,
            ),
        ensures
            match r {
                Some(v) => token_idx < self@.flat.spans.len() && v@ == reify_of(
                    node_of(self@.flat, token_idx as int),
                    self@.src,
                ),
                None => token_idx >= self@.flat.spans.len(),
            },
    {
        match self.token_row(token_idx) {
            Some(row) => Some(row.reify(self.src.as_slice())),
            None => None,
        }
    }
}

pub proof fn lemma_children_bounds(flat: FlatView, p: int, k: int)
    ensures
        forall|q: int|
            0 <= q < children_upto(flat, p, k).len() ==> 0 <= #[trigger] children_upto(flat, p, k)[q]
                < k,
    decreases k,
{
    if k > 0 {
        lemma_children_bounds(flat, p, k - 1);
        let prev = children_upto(flat, p, k - 1);
        if is_direct_child(flat, p, k - 1) {
            assert forall|q: int| 0 <= q < prev.len() + 1 implies 0 <= #[trigger] prev.push(k - 1)[q]
                < k by {
                if q < prev.len() {
                    assert(prev.push(k - 1)[q] == prev[q]);
                }
            }
        }
    }
}

proof fn lemma_id_table_len(flat: FlatView, src: Seq<u8>, i: int)
    ensures
        id_table(flat, src, i).len() == flat.spans.len(),
    decreases flat.spans.len() - i,
{
    if !(i < 0 || i >= flat.spans.len()) {
        lemma_id_table_len(flat, src, i + 1);
    }
}

/// The bytes a leaf is identified by (see `leaf_bytes`).
fn leaf_window(src: &[u8], a: usize, b: usize) -> (r: Vec<u8>)
    ensures
        r@ == leaf_bytes(src@, a as int, b as int),
{
    let n = src.len();
    let mut out: Vec<u8> = Vec::new();
    if a >= n {
        return out;
    }
    if b < a {
        out.push(src[a]);
        assert(out@ =~= seq![src@[a as int]]);
        return out;
    }
    let end = if b < n - 1 {
        b
    } else {
        n - 1
    };
    let mut k = a;
    while k <= end
        invariant
            a <= k <= end + 1,
            end < n,
            n == src@.len(),
            out@ == src@.subrange(a as int, k as int),
        decreases end + 1 - k,
    {
        out.push(src[k]);
        k = k + 1;
    }
    out
}

/// A copy of a table of optional strings.
fn copy_texts(t: &Vec<Option<String>>) -> (r: Vec<Option<String>>)
    ensures
        opt_texts(r@) == opt_texts(t@),
{
    let n = t.len();
    let mut r: Vec<Option<String>> = Vec::new();
    let mut i: usize = 0;
    while i < n
        invariant
            i <= n,
            n == t@.len(),
            r@.len() == i,
            forall|j: int| 0 <= j < i ==> #[trigger] opt_texts(r@)[j] == opt_texts(t@)[j],
        decreases n - i,
    {
        let e = match &t[i] {
            Some(s) => Some(s.clone()),
            None => None,
        };
        let ghost before = r@;
        r.push(e);
        proof {
            assert forall|j: int| 0 <= j <= i implies #[trigger] opt_texts(r@)[j] == opt_texts(
                t@,
            )[j] by {
                if j < i {
                    assert(opt_texts(r@)[j] == opt_texts(before)[j]);
                }
            }
        }
        i = i + 1;
    }
    assert(opt_texts(r@) =~= opt_texts(t@));
    r
}

} // verus!
