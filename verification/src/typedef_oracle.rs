//! Typedef declarations collected from source text, and the IS-A lattice they induce.
use vstd::prelude::*;

pub mod parse;

use self::parse::{
    back_semis, back_semis_exec, lemma_ranges_push, ranges_within, chars_of, clean_name, clean_name_exec, find_exec, find_in,
    lines_exec, lines_from, matches_at, matches_at_exec, params_nested, params_nested_exec,
    pieces_exec, pieces_from, split_as, split_as_exec, string_of, trim_exec, trim_range,
    type_params, type_params_exec, SplitAt, TypeParams,
};
use crate::confix::nav::is_white_space;
use crate::text::{alphabetic, decimal, decimal_exec, is_alphabetic, literal};
use vstd::string::StringExecFns;
use crate::confix::decode::{reifiable, reify_of, ValueView, Value};
use crate::confix::nav::ConfixDoc;
use crate::item::json::{int_text, push_int};
use crate::confix::index::{index_of, indexable, key_token, value_index_of};
use crate::confix::nav::{confix_doc_text, step_of, text_syntax, StepView};
use crate::confix::tree::{node_of, tree_of, RowNode};
use crate::confix::{rows_view, IoMemento, RowVec};

verus! {

/// A type, by its position in the oracle's name pool.
#[derive(Clone, Copy, Debug, PartialEq, Eq, Hash, Structural)]
pub struct TypeToken(pub usize);

/// A directed IS-A edge: `sub` IS-A `sup`.
#[derive(Clone, Copy, Debug, PartialEq, Eq, Hash, Structural)]
pub struct IsAEdge {
    pub sub: TypeToken,
    pub sup: TypeToken,
}

/// A set of IS-A edges, queried as a lattice.
#[derive(Clone, Debug)]
pub struct IsALattice {
    pub edges: Vec<IsAEdge>,
}

// ── the lattice ─────────────────────────────────────────────────────────────

/// The targets of the edges among the first `k` that leave `t`, in edge order.
pub open spec fn supers_upto(edges: Seq<IsAEdge>, t: TypeToken, k: int) -> Seq<TypeToken>
    decreases k,
{
    if k <= 0 {
        seq![]
    } else if edges[k - 1].sub == t {
        supers_upto(edges, t, k - 1).push(edges[k - 1].sup)
    } else {
        supers_upto(edges, t, k - 1)
    }
}

/// The sources of the edges among the first `k` that enter `t`, in edge order.
pub open spec fn subs_upto(edges: Seq<IsAEdge>, t: TypeToken, k: int) -> Seq<TypeToken>
    decreases k,
{
    if k <= 0 {
        seq![]
    } else if edges[k - 1].sup == t {
        subs_upto(edges, t, k - 1).push(edges[k - 1].sub)
    } else {
        subs_upto(edges, t, k - 1)
    }
}

/// One breadth-first visit of `cur` over the first `k` edges: each edge leaving `cur`
/// whose target is not yet visited marks it visited and queues it. Returns
/// `(visited, queued)`.
pub open spec fn visit_edges(
    edges: Seq<IsAEdge>,
    cur: TypeToken,
    k: int,
    visited: Seq<TypeToken>,
    queued: Seq<TypeToken>,
) -> (Seq<TypeToken>, Seq<TypeToken>)
    decreases k,
{
    if k <= 0 {
        (visited, queued)
    } else {
        let (v, q) = visit_edges(edges, cur, k - 1, visited, queued);
        let e = edges[k - 1];
        if e.sub == cur && !v.contains(e.sup) {
            (v.push(e.sup), q.push(e.sup))
        } else {
            (v, q)
        }
    }
}

/// Visit the first `i` types of a frontier, in order. Returns `(visited, next frontier)`.
pub open spec fn visit_frontier(
    edges: Seq<IsAEdge>,
    frontier: Seq<TypeToken>,
    i: int,
    visited: Seq<TypeToken>,
) -> (Seq<TypeToken>, Seq<TypeToken>)
    decreases i,
{
    if i <= 0 {
        (visited, seq![])
    } else {
        let (v, q) = visit_frontier(edges, frontier, i - 1, visited);
        visit_edges(edges, frontier[i - 1], edges.len() as int, v, q)
    }
}

/// One breadth-first level.
pub open spec fn level(edges: Seq<IsAEdge>, frontier: Seq<TypeToken>, visited: Seq<TypeToken>) -> (
    Seq<TypeToken>,
    Seq<TypeToken>,
) {
    visit_frontier(edges, frontier, frontier.len() as int, visited)
}

/// The visited types after at most `d` more breadth-first levels.
pub open spec fn levels(edges: Seq<IsAEdge>, frontier: Seq<TypeToken>, visited: Seq<TypeToken>, d: nat) -> Seq<
    TypeToken,
>
    decreases d,
{
    if d == 0 || frontier.len() == 0 {
        visited
    } else {
        let (v, q) = level(edges, frontier, visited);
        levels(edges, q, v, (d - 1) as nat)
    }
}

/// The transitive supertypes of `t` within `max_depth` levels, shallowest first, each
/// once, `t` itself excluded.
pub open spec fn supertypes_of(edges: Seq<IsAEdge>, t: TypeToken, max_depth: nat) -> Seq<TypeToken> {
    levels(edges, seq![t], seq![t], max_depth).drop_first()
}

/// The number of edges whose target is not in `visited`.
pub open spec fn unvisited(edges: Seq<IsAEdge>, visited: Seq<TypeToken>, k: int) -> nat
    decreases k,
{
    if k <= 0 {
        0
    } else {
        unvisited(edges, visited, k - 1) + if visited.contains(edges[k - 1].sup) {
            0nat
        } else {
            1nat
        }
    }
}

/// The visited types once breadth-first search from `frontier` runs out.
pub open spec fn closure(edges: Seq<IsAEdge>, frontier: Seq<TypeToken>, visited: Seq<TypeToken>) -> Seq<
    TypeToken,
>
    decreases unvisited(edges, visited, edges.len() as int),
{
    if frontier.len() == 0 {
        visited
    } else {
        let (v, q) = level(edges, frontier, visited);
        if q.len() == 0 {
            v
        } else {
            proof {
                lemma_level_progress(edges, frontier, visited);
            }
            closure(edges, q, v)
        }
    }
}

/// `sub` IS-A `sup`: the same type, or `sup` reachable from `sub` along edges.
pub open spec fn is_a_of(edges: Seq<IsAEdge>, sub: TypeToken, sup: TypeToken) -> bool {
    sub == sup || closure(edges, seq![sub], seq![sub]).contains(sup)
}

// ── lemmas ──────────────────────────────────────────────────────────────────

/// A visit only adds to `visited`, and exactly what it queues, none of it seen before.
proof fn lemma_visit_edges(
    edges: Seq<IsAEdge>,
    cur: TypeToken,
    k: int,
    visited: Seq<TypeToken>,
    queued: Seq<TypeToken>,
)
    requires
        0 <= k <= edges.len(),
    ensures
        ({
            let (v, q) = visit_edges(edges, cur, k, visited, queued);
            &&& visited.len() <= v.len()
            &&& queued.len() <= q.len()
            &&& v.len() - visited.len() == q.len() - queued.len()
            &&& v.subrange(0, visited.len() as int) == visited
            &&& q.subrange(0, queued.len() as int) == queued
            &&& forall|j: int|
                visited.len() <= j < v.len() ==> !visited.contains(#[trigger] v[j]) && exists|m: int|
                    0 <= m < edges.len() && edges[m].sup == v[j]
        }),
    decreases k,
{
    if k > 0 {
        lemma_visit_edges(edges, cur, k - 1, visited, queued);
        let (v, q) = visit_edges(edges, cur, k - 1, visited, queued);
        let e = edges[k - 1];
        if e.sub == cur && !v.contains(e.sup) {
            assert(v.push(e.sup).subrange(0, visited.len() as int) =~= v.subrange(0, visited.len() as int));
            assert(q.push(e.sup).subrange(0, queued.len() as int) =~= q.subrange(0, queued.len() as int));
            assert forall|j: int| visited.len() <= j < v.len() + 1 implies !visited.contains(
                #[trigger] v.push(e.sup)[j],
            ) && exists|m: int| 0 <= m < edges.len() && edges[m].sup == v.push(e.sup)[j] by {
                if j < v.len() {
                    assert(v.push(e.sup)[j] == v[j]);
                } else {
                    assert(v.push(e.sup)[j] == e.sup);
                    if visited.contains(e.sup) {
                        let w = choose|w: int| 0 <= w < visited.len() && visited[w] == e.sup;
                        assert(v[w] == visited[w]);
                        assert(v.contains(e.sup));
                    }
                    assert(edges[k - 1].sup == e.sup);
                }
            }
        }
    }
}

/// A level only adds to `visited`, exactly the next frontier, none of it seen before.
proof fn lemma_visit_frontier(edges: Seq<IsAEdge>, frontier: Seq<TypeToken>, i: int, visited: Seq<TypeToken>)
    requires
        0 <= i <= frontier.len(),
    ensures
        ({
            let (v, q) = visit_frontier(edges, frontier, i, visited);
            &&& visited.len() <= v.len()
            &&& v.len() - visited.len() == q.len()
            &&& v.subrange(0, visited.len() as int) == visited
            &&& forall|j: int|
                visited.len() <= j < v.len() ==> !visited.contains(#[trigger] v[j]) && exists|m: int|
                    0 <= m < edges.len() && edges[m].sup == v[j]
        }),
    decreases i,
{
    if i > 0 {
        lemma_visit_frontier(edges, frontier, i - 1, visited);
        let (v0, q0) = visit_frontier(edges, frontier, i - 1, visited);
        lemma_visit_edges(edges, frontier[i - 1], edges.len() as int, v0, q0);
        let (v, q) = visit_edges(edges, frontier[i - 1], edges.len() as int, v0, q0);
        assert(v.subrange(0, visited.len() as int) =~= v0.subrange(0, visited.len() as int)) by {
            assert(v.subrange(0, v0.len() as int) == v0);
        }
        assert forall|j: int| visited.len() <= j < v.len() implies !visited.contains(#[trigger] v[j])
            && exists|m: int| 0 <= m < edges.len() && edges[m].sup == v[j] by {
            if j < v0.len() {
                assert(v.subrange(0, v0.len() as int)[j] == v0[j]);
            } else {
                if visited.contains(v[j]) {
                    let w = choose|w: int| 0 <= w < visited.len() && visited[w] == v[j];
                    assert(v0[w] == visited[w]);
                    assert(v0.contains(v[j]));
                }
            }
        }
    }
}

proof fn lemma_unvisited_mono(edges: Seq<IsAEdge>, a: Seq<TypeToken>, b: Seq<TypeToken>, k: int)
    requires
        0 <= k <= edges.len(),
        forall|t: TypeToken| a.contains(t) ==> b.contains(t),
    ensures
        unvisited(edges, b, k) <= unvisited(edges, a, k),
    decreases k,
{
    if k > 0 {
        lemma_unvisited_mono(edges, a, b, k - 1);
    }
}

proof fn lemma_unvisited_strict(edges: Seq<IsAEdge>, a: Seq<TypeToken>, b: Seq<TypeToken>, k: int, m: int)
    requires
        0 <= m < k <= edges.len(),
        forall|t: TypeToken| a.contains(t) ==> b.contains(t),
        !a.contains(edges[m].sup),
        b.contains(edges[m].sup),
    ensures
        unvisited(edges, b, k) < unvisited(edges, a, k),
    decreases k,
{
    if m < k - 1 {
        lemma_unvisited_strict(edges, a, b, k - 1, m);
    } else {
        lemma_unvisited_mono(edges, a, b, k - 1);
    }
}

/// A level that queues anything leaves fewer edges with unvisited targets.
pub proof fn lemma_level_progress(edges: Seq<IsAEdge>, frontier: Seq<TypeToken>, visited: Seq<TypeToken>)
    ensures
        ({
            let (v, q) = level(edges, frontier, visited);
            q.len() > 0 ==> unvisited(edges, v, edges.len() as int) < unvisited(
                edges,
                visited,
                edges.len() as int,
            )
        }),
{
    lemma_visit_frontier(edges, frontier, frontier.len() as int, visited);
    let (v, q) = level(edges, frontier, visited);
    if q.len() > 0 {
        let j = visited.len() as int;
        assert(!visited.contains(v[j]));
        let m = choose|m: int| 0 <= m < edges.len() && edges[m].sup == v[j];
        assert forall|t: TypeToken| visited.contains(t) implies v.contains(t) by {
            let w = choose|w: int| 0 <= w < visited.len() && visited[w] == t;
            assert(v.subrange(0, visited.len() as int)[w] == v[w]);
        }
        assert(v.contains(edges[m].sup));
        lemma_unvisited_strict(edges, visited, v, edges.len() as int, m);
    }
}

/// A visit reaches the target of every edge it scans that leaves the visited type, and
/// keeps everything visited before.
proof fn lemma_visit_edges_covers(
    edges: Seq<IsAEdge>,
    cur: TypeToken,
    k: int,
    visited: Seq<TypeToken>,
    queued: Seq<TypeToken>,
)
    requires
        0 <= k <= edges.len(),
    ensures
        forall|i: int|
            0 <= i < k && edges[i].sub == cur ==> (#[trigger] visit_edges(
                edges,
                cur,
                k,
                visited,
                queued,
            ).0).contains(edges[i].sup),
        forall|t: TypeToken| visited.contains(t) ==> visit_edges(edges, cur, k, visited, queued).0.contains(t),
    decreases k,
{
    if k > 0 {
        lemma_visit_edges_covers(edges, cur, k - 1, visited, queued);
        let (v, q) = visit_edges(edges, cur, k - 1, visited, queued);
        let e = edges[k - 1];
        if e.sub == cur && !v.contains(e.sup) {
            assert forall|t: TypeToken| v.contains(t) implies v.push(e.sup).contains(t) by {
                let w = choose|w: int| 0 <= w < v.len() && v[w] == t;
                assert(v.push(e.sup)[w] == t);
            }
            assert(v.push(e.sup)[v.len() as int] == e.sup);
        }
    }
}

/// Breadth-first search keeps every type it has visited.
proof fn lemma_closure_keeps(edges: Seq<IsAEdge>, frontier: Seq<TypeToken>, visited: Seq<TypeToken>)
    ensures
        forall|t: TypeToken| visited.contains(t) ==> closure(edges, frontier, visited).contains(t),
    decreases unvisited(edges, visited, edges.len() as int),
{
    if frontier.len() > 0 {
        let (v, q) = level(edges, frontier, visited);
        lemma_visit_frontier(edges, frontier, frontier.len() as int, visited);
        assert forall|t: TypeToken| visited.contains(t) implies v.contains(t) by {
            let w = choose|w: int| 0 <= w < visited.len() && visited[w] == t;
            assert(v.subrange(0, visited.len() as int)[w] == v[w]);
        }
        if q.len() > 0 {
            lemma_level_progress(edges, frontier, visited);
            lemma_closure_keeps(edges, q, v);
        }
    }
}

/// Every type IS-A itself.
pub proof fn lemma_is_a_reflexive(edges: Seq<IsAEdge>, t: TypeToken)
    ensures
        is_a_of(edges, t, t),
{
}

/// Every edge is an IS-A fact: the source of an edge IS-A its target.
pub proof fn lemma_edge_is_a(edges: Seq<IsAEdge>, m: int)
    requires
        0 <= m < edges.len(),
    ensures
        is_a_of(edges, edges[m].sub, edges[m].sup),
{
    let a = edges[m].sub;
    let f = seq![a];
    assert(visit_frontier(edges, f, 0, f) == (f, Seq::<TypeToken>::empty()));
    assert(level(edges, f, f) == visit_edges(edges, a, edges.len() as int, f, Seq::<TypeToken>::empty()));
    lemma_visit_edges_covers(edges, a, edges.len() as int, f, Seq::<TypeToken>::empty());
    let (v, q) = level(edges, f, f);
    assert(v.contains(edges[m].sup));
    if q.len() > 0 {
        lemma_level_progress(edges, f, f);
        lemma_closure_keeps(edges, q, v);
    }
}

/// Some edge leads from `t` to `s`.
pub open spec fn has_edge(edges: Seq<IsAEdge>, t: TypeToken, s: TypeToken) -> bool {
    exists|m: int| 0 <= m < edges.len() && edges[m].sub == t && edges[m].sup == s
}

/// Each direct supertype among the first `k` edges is the target of an edge leaving `t`.
proof fn lemma_supers_from_edges(edges: Seq<IsAEdge>, t: TypeToken, k: int)
    requires
        0 <= k <= edges.len(),
    ensures
        forall|i: int|
            0 <= i < supers_upto(edges, t, k).len() ==> has_edge(
                edges,
                t,
                #[trigger] supers_upto(edges, t, k)[i],
            ),
    decreases k,
{
    if k > 0 {
        lemma_supers_from_edges(edges, t, k - 1);
        let prev = supers_upto(edges, t, k - 1);
        let cur = supers_upto(edges, t, k);
        assert forall|i: int| 0 <= i < cur.len() implies has_edge(edges, t, #[trigger] supers_upto(edges, t, k)[i]) by {
            if i < prev.len() {
                assert(cur[i] == prev[i]);
                assert(has_edge(edges, t, supers_upto(edges, t, k - 1)[i]));
            } else {
                if edges[k - 1].sub != t {
                    assert(cur == prev);
                }
                assert(cur[i] == edges[k - 1].sup);
                assert(edges[k - 1].sub == t && edges[k - 1].sup == cur[i]);
            }
        }
    }
}

/// A type IS-A each of its direct supertypes.
pub proof fn lemma_direct_supers_are_a(edges: Seq<IsAEdge>, t: TypeToken)
    ensures
        forall|i: int|
            0 <= i < supers_upto(edges, t, edges.len() as int).len() ==> is_a_of(
                edges,
                t,
                #[trigger] supers_upto(edges, t, edges.len() as int)[i],
            ),
{
    lemma_supers_from_edges(edges, t, edges.len() as int);
    assert forall|i: int| 0 <= i < supers_upto(edges, t, edges.len() as int).len() implies is_a_of(
        edges,
        t,
        #[trigger] supers_upto(edges, t, edges.len() as int)[i],
    ) by {
        let s = supers_upto(edges, t, edges.len() as int)[i];
        assert(has_edge(edges, t, s));
        let m = choose|m: int| 0 <= m < edges.len() && edges[m].sub == t && edges[m].sup == s;
        lemma_edge_is_a(edges, m);
    }
}

/// Every edge leaving `x` leads into `s`.
pub open spec fn covered(edges: Seq<IsAEdge>, x: TypeToken, s: Seq<TypeToken>) -> bool {
    forall|m: int| 0 <= m < edges.len() && edges[m].sub == x ==> s.contains(#[trigger] edges[m].sup)
}

/// `t` is the target of an edge leaving a type of `f`.
pub open spec fn from_frontier(edges: Seq<IsAEdge>, f: Seq<TypeToken>, t: TypeToken) -> bool {
    exists|m: int| 0 <= m < edges.len() && edges[m].sup == t && f.contains(edges[m].sub)
}

/// Every edge leaving a type of `s` leads into `s`.
pub open spec fn closed_under(edges: Seq<IsAEdge>, s: Seq<TypeToken>) -> bool {
    forall|x: TypeToken| s.contains(x) ==> #[trigger] covered(edges, x, s)
}

/// Every type of `a` is in `b`.
pub open spec fn within(a: Seq<TypeToken>, b: Seq<TypeToken>) -> bool {
    forall|t: TypeToken| a.contains(t) ==> #[trigger] b.contains(t)
}

proof fn lemma_visit_edges_queue(
    edges: Seq<IsAEdge>,
    cur: TypeToken,
    k: int,
    visited: Seq<TypeToken>,
    queued: Seq<TypeToken>,
)
    requires
        0 <= k <= edges.len(),
    ensures
        ({
            let (v, q) = visit_edges(edges, cur, k, visited, queued);
            &&& v == visited + q.subrange(queued.len() as int, q.len() as int)
            &&& q.subrange(0, queued.len() as int) == queued
            &&& forall|t: TypeToken|
                q.subrange(queued.len() as int, q.len() as int).contains(t) ==> #[trigger] from_frontier(
                    edges,
                    seq![cur],
                    t,
                )
        }),
    decreases k,
{
    if k > 0 {
        lemma_visit_edges_queue(edges, cur, k - 1, visited, queued);
        lemma_visit_edges(edges, cur, k - 1, visited, queued);
        let (v, q) = visit_edges(edges, cur, k - 1, visited, queued);
        let e = edges[k - 1];
        if e.sub == cur && !v.contains(e.sup) {
            let q2 = q.push(e.sup);
            let nq = q.subrange(queued.len() as int, q.len() as int);
            assert(q2.subrange(queued.len() as int, q2.len() as int) =~= nq.push(e.sup));
            assert(v.push(e.sup) =~= visited + nq.push(e.sup));
            assert(q2.subrange(0, queued.len() as int) =~= q.subrange(0, queued.len() as int));
            assert(seq![cur].contains(cur)) by {
                assert(seq![cur][0] == cur);
            }
            assert forall|t: TypeToken| nq.push(e.sup).contains(t) implies #[trigger] from_frontier(
                edges,
                seq![cur],
                t,
            ) by {
                if t == e.sup {
                    assert(edges[k - 1].sup == t && seq![cur].contains(edges[k - 1].sub));
                } else {
                    let w = choose|w: int| 0 <= w < nq.push(e.sup).len() && nq.push(e.sup)[w] == t;
                    assert(nq[w] == t);
                    assert(nq.contains(t));
                }
            }
        }
    } else {
        assert(queued.subrange(queued.len() as int, queued.len() as int) =~= Seq::<TypeToken>::empty());
        assert(visited + Seq::<TypeToken>::empty() =~= visited);
        assert(queued.subrange(0, queued.len() as int) =~= queued);
    }
}

proof fn lemma_visit_frontier_full(edges: Seq<IsAEdge>, f: Seq<TypeToken>, i: int, visited: Seq<TypeToken>)
    requires
        0 <= i <= f.len(),
    ensures
        ({
            let (v, q) = visit_frontier(edges, f, i, visited);
            &&& v == visited + q
            &&& forall|t: TypeToken| q.contains(t) ==> #[trigger] from_frontier(edges, f, t)
            &&& forall|j: int| 0 <= j < i ==> #[trigger] covered(edges, f[j], v)
        }),
    decreases i,
{
    if i <= 0 {
        assert(visited + Seq::<TypeToken>::empty() =~= visited);
    } else {
        lemma_visit_frontier_full(edges, f, i - 1, visited);
        let (v0, q0) = visit_frontier(edges, f, i - 1, visited);
        let cur = f[i - 1];
        lemma_visit_edges_queue(edges, cur, edges.len() as int, v0, q0);
        lemma_visit_edges_covers(edges, cur, edges.len() as int, v0, q0);
        lemma_visit_edges(edges, cur, edges.len() as int, v0, q0);
        let (v, q) = visit_edges(edges, cur, edges.len() as int, v0, q0);
        let nq = q.subrange(q0.len() as int, q.len() as int);
        assert(q =~= q0 + nq) by {
            assert(q.subrange(0, q0.len() as int) == q0);
        }
        assert(v =~= visited + q);
        assert forall|t: TypeToken| q.contains(t) implies #[trigger] from_frontier(edges, f, t) by {
            let w = choose|w: int| 0 <= w < q.len() && q[w] == t;
            if w < q0.len() {
                assert(q0[w] == t);
                assert(q0.contains(t));
            } else {
                assert(nq[w - q0.len()] == t);
                assert(nq.contains(t));
                assert(from_frontier(edges, seq![cur], t));
                let m = choose|m: int| 0 <= m < edges.len() && edges[m].sup == t && seq![cur].contains(edges[m].sub);
                let w2 = choose|w2: int| 0 <= w2 < 1 && seq![cur][w2] == edges[m].sub;
                assert(f[i - 1] == edges[m].sub);
                assert(f.contains(edges[m].sub));
            }
        }
        assert forall|j: int| 0 <= j < i implies #[trigger] covered(edges, f[j], v) by {
            if j < i - 1 {
                assert(covered(edges, f[j], v0));
                assert forall|m: int| 0 <= m < edges.len() && edges[m].sub == f[j] implies v.contains(
                    #[trigger] edges[m].sup,
                ) by {
                    assert(v0.contains(edges[m].sup));
                }
            } else {
                assert forall|m: int| 0 <= m < edges.len() && edges[m].sub == f[j] implies v.contains(
                    #[trigger] edges[m].sup,
                ) by {
                    assert(visit_edges(edges, cur, edges.len() as int, v0, q0).0.contains(edges[m].sup));
                }
            }
        }
    }
}

/// The visited types, minus the frontier, have all their edges inside the visited types.
pub open spec fn bfs_inv(edges: Seq<IsAEdge>, f: Seq<TypeToken>, v: Seq<TypeToken>) -> bool {
    &&& within(f, v)
    &&& forall|x: TypeToken| v.contains(x) && !f.contains(x) ==> #[trigger] covered(edges, x, v)
}

/// Breadth-first search from a state that keeps `bfs_inv` ends closed under the edges.
proof fn lemma_closure_closed(edges: Seq<IsAEdge>, f: Seq<TypeToken>, v: Seq<TypeToken>)
    requires
        bfs_inv(edges, f, v),
    ensures
        closed_under(edges, closure(edges, f, v)),
    decreases unvisited(edges, v, edges.len() as int),
{
    if f.len() == 0 {
        assert forall|x: TypeToken| v.contains(x) implies #[trigger] covered(edges, x, v) by {
            assert(!f.contains(x));
        }
    } else {
        let (v2, q) = level(edges, f, v);
        lemma_visit_frontier_full(edges, f, f.len() as int, v);
        assert forall|x: TypeToken| v.contains(x) implies v2.contains(x) by {
            let w = choose|w: int| 0 <= w < v.len() && v[w] == x;
            assert(v2[w] == x);
        }
        assert forall|x: TypeToken| v2.contains(x) && !q.contains(x) implies #[trigger] covered(edges, x, v2) by {
            let w = choose|w: int| 0 <= w < v2.len() && v2[w] == x;
            if w >= v.len() {
                assert(q[w - v.len()] == x);
                assert(q.contains(x));
            }
            assert(v[w] == x);
            assert(v.contains(x));
            if f.contains(x) {
                let j = choose|j: int| 0 <= j < f.len() && f[j] == x;
                assert(covered(edges, f[j], v2));
            } else {
                assert(covered(edges, x, v));
                assert forall|m: int| 0 <= m < edges.len() && edges[m].sub == x implies v2.contains(
                    #[trigger] edges[m].sup,
                ) by {
                    assert(v.contains(edges[m].sup));
                }
            }
        }
        if q.len() == 0 {
            assert(v2 =~= v);
            assert forall|x: TypeToken| v2.contains(x) implies #[trigger] covered(edges, x, v2) by {
                assert(!q.contains(x));
            }
        } else {
            assert forall|x: TypeToken| q.contains(x) implies #[trigger] v2.contains(x) by {
                let w = choose|w: int| 0 <= w < q.len() && q[w] == x;
                assert(v2[v.len() + w] == x);
            }
            lemma_level_progress(edges, f, v);
            lemma_closure_closed(edges, q, v2);
        }
    }
}

/// Breadth-first search from types inside a set closed under the edges stays inside it.
proof fn lemma_closure_within(edges: Seq<IsAEdge>, f: Seq<TypeToken>, v: Seq<TypeToken>, s: Seq<TypeToken>)
    requires
        within(f, s),
        within(v, s),
        closed_under(edges, s),
    ensures
        within(closure(edges, f, v), s),
    decreases unvisited(edges, v, edges.len() as int),
{
    if f.len() > 0 {
        let (v2, q) = level(edges, f, v);
        lemma_visit_frontier_full(edges, f, f.len() as int, v);
        assert forall|t: TypeToken| q.contains(t) implies #[trigger] s.contains(t) by {
            assert(from_frontier(edges, f, t));
            let m = choose|m: int| 0 <= m < edges.len() && edges[m].sup == t && f.contains(edges[m].sub);
            assert(s.contains(edges[m].sub));
            assert(covered(edges, edges[m].sub, s));
        }
        assert forall|t: TypeToken| v2.contains(t) implies #[trigger] s.contains(t) by {
            let w = choose|w: int| 0 <= w < v2.len() && v2[w] == t;
            if w < v.len() {
                assert(v[w] == t);
                assert(v.contains(t));
            } else {
                assert(q[w - v.len()] == t);
                assert(q.contains(t));
            }
        }
        if q.len() > 0 {
            lemma_level_progress(edges, f, v);
            lemma_closure_within(edges, q, v2, s);
        }
    }
}

/// IS-A is transitive: a subtype of a subtype of `c` is a subtype of `c`.
pub proof fn lemma_is_a_transitive(edges: Seq<IsAEdge>, a: TypeToken, b: TypeToken, c: TypeToken)
    requires
        is_a_of(edges, a, b),
        is_a_of(edges, b, c),
    ensures
        is_a_of(edges, a, c),
{
    if a != b && b != c {
        let ca = closure(edges, seq![a], seq![a]);
        assert(seq![a].contains(a)) by {
            assert(seq![a][0] == a);
        }
        assert(bfs_inv(edges, seq![a], seq![a])) by {
            assert forall|x: TypeToken| seq![a].contains(x) && !seq![a].contains(x) implies #[trigger] covered(
                edges,
                x,
                seq![a],
            ) by {}
        }
        lemma_closure_closed(edges, seq![a], seq![a]);
        assert(within(seq![b], ca)) by {
            assert forall|t: TypeToken| seq![b].contains(t) implies #[trigger] ca.contains(t) by {
                let w = choose|w: int| 0 <= w < 1 && seq![b][w] == t;
                assert(t == b);
            }
        }
        lemma_closure_within(edges, seq![b], seq![b], ca);
        assert(closure(edges, seq![b], seq![b]).contains(c));
    }
}

/// `path` is a chain of types, each joined to the next by an edge.
pub open spec fn is_path(edges: Seq<IsAEdge>, path: Seq<TypeToken>) -> bool {
    &&& path.len() >= 1
    &&& forall|i: int| 0 <= i < path.len() - 1 ==> #[trigger] has_edge(edges, path[i], path[i + 1])
}

/// A chain of edges leads from `a` to `b` (the chain of `a` alone when they are equal).
pub open spec fn reachable(edges: Seq<IsAEdge>, a: TypeToken, b: TypeToken) -> bool {
    exists|path: Seq<TypeToken>| is_path(edges, path) && path[0] == a && path.last() == b
}

/// A chain that reaches `x` goes on along an edge leaving `x`.
proof fn lemma_reachable_step(edges: Seq<IsAEdge>, a: TypeToken, x: TypeToken, t: TypeToken)
    requires
        reachable(edges, a, x),
        has_edge(edges, x, t),
    ensures
        reachable(edges, a, t),
{
    let path = choose|path: Seq<TypeToken>| is_path(edges, path) && path[0] == a && path.last() == x;
    let p2 = path.push(t);
    assert forall|i: int| 0 <= i < p2.len() - 1 implies #[trigger] has_edge(edges, p2[i], p2[i + 1]) by {
        if i < path.len() - 1 {
            assert(p2[i] == path[i] && p2[i + 1] == path[i + 1]);
            assert(has_edge(edges, path[i], path[i + 1]));
        } else {
            assert(p2[i] == x && p2[i + 1] == t);
        }
    }
    assert(is_path(edges, p2) && p2[0] == a && p2.last() == t);
}

/// Breadth-first search from types reachable from `a` visits only such types.
proof fn lemma_closure_reachable(edges: Seq<IsAEdge>, a: TypeToken, f: Seq<TypeToken>, v: Seq<TypeToken>)
    requires
        forall|t: TypeToken| f.contains(t) ==> reachable(edges, a, t),
        forall|t: TypeToken| v.contains(t) ==> reachable(edges, a, t),
    ensures
        forall|t: TypeToken| closure(edges, f, v).contains(t) ==> reachable(edges, a, t),
    decreases unvisited(edges, v, edges.len() as int),
{
    if f.len() > 0 {
        let (v2, q) = level(edges, f, v);
        lemma_visit_frontier_full(edges, f, f.len() as int, v);
        assert forall|t: TypeToken| q.contains(t) implies reachable(edges, a, t) by {
            assert(from_frontier(edges, f, t));
            let m = choose|m: int| 0 <= m < edges.len() && edges[m].sup == t && f.contains(edges[m].sub);
            assert(has_edge(edges, edges[m].sub, t));
            lemma_reachable_step(edges, a, edges[m].sub, t);
        }
        assert forall|t: TypeToken| v2.contains(t) implies reachable(edges, a, t) by {
            let w = choose|w: int| 0 <= w < v2.len() && v2[w] == t;
            if w < v.len() {
                assert(v[w] == t);
                assert(v.contains(t));
            } else {
                assert(q[w - v.len()] == t);
                assert(q.contains(t));
            }
        }
        if q.len() > 0 {
            lemma_level_progress(edges, f, v);
            lemma_closure_reachable(edges, a, q, v2);
        }
    }
}

/// The start of a chain IS-A each of its types.
proof fn lemma_path_is_a(edges: Seq<IsAEdge>, path: Seq<TypeToken>, k: int)
    requires
        is_path(edges, path),
        0 <= k < path.len(),
    ensures
        is_a_of(edges, path[0], path[k]),
    decreases k,
{
    if k > 0 {
        lemma_path_is_a(edges, path, k - 1);
        let i = k - 1;
        assert(has_edge(edges, path[i], path[i + 1]));
        assert(i + 1 == k);
        let m = choose|m: int| 0 <= m < edges.len() && edges[m].sub == path[k - 1] && edges[m].sup == path[k];
        lemma_edge_is_a(edges, m);
        lemma_is_a_transitive(edges, path[0], path[k - 1], path[k]);
    }
}

/// IS-A is the reflexive-transitive closure of the edges: `a` IS-A `b` exactly when a
/// chain of edges leads from `a` to `b`, or they are the same type.
pub proof fn lemma_is_a_reachable(edges: Seq<IsAEdge>, a: TypeToken, b: TypeToken)
    ensures
        is_a_of(edges, a, b) <==> reachable(edges, a, b),
{
    let single = seq![a];
    assert(is_path(edges, single) && single[0] == a && single.last() == a);
    assert(reachable(edges, a, a));
    if reachable(edges, a, b) {
        let path = choose|path: Seq<TypeToken>| is_path(edges, path) && path[0] == a && path.last() == b;
        lemma_path_is_a(edges, path, path.len() - 1);
    }
    if is_a_of(edges, a, b) && a != b {
        assert forall|t: TypeToken| single.contains(t) implies reachable(edges, a, t) by {
            let w = choose|w: int| 0 <= w < 1 && single[w] == t;
            assert(t == a);
        }
        lemma_closure_reachable(edges, a, single, single);
    }
}

// ── executable ──────────────────────────────────────────────────────────────

fn contains_token(v: &Vec<TypeToken>, t: TypeToken) -> (r: bool)
    ensures
        r == v@.contains(t),
{
    let mut i: usize = 0;
    while i < v.len()
        invariant
            i <= v@.len(),
            forall|j: int| 0 <= j < i ==> v@[j] != t,
        decreases v@.len() - i,
    {
        if v[i] == t {
            return true;
        }
        i = i + 1;
    }
    false
}

impl IsALattice {
    /// A lattice over `edges`.
    pub fn new(edges: Vec<IsAEdge>) -> (r: IsALattice)
        ensures
            r.edges@ == edges@,
    {
        IsALattice { edges }
    }

    /// The direct supertypes of `token`, one per edge leaving it, in edge order.
    pub fn direct_supers(&self, token: TypeToken) -> (r: Vec<TypeToken>)
        ensures
            r@ == supers_upto(self.edges@, token, self.edges@.len() as int),
    {
        let mut out: Vec<TypeToken> = Vec::new();
        let mut k: usize = 0;
        while k < self.edges.len()
            invariant
                k <= self.edges@.len(),
                out@ == supers_upto(self.edges@, token, k as int),
            decreases self.edges@.len() - k,
        {
            let e = self.edges[k];
            if e.sub == token {
                out.push(e.sup);
            }
            k = k + 1;
        }
        out
    }

    /// The direct subtypes of `token`, one per edge entering it, in edge order.
    pub fn direct_subs(&self, token: TypeToken) -> (r: Vec<TypeToken>)
        ensures
            r@ == subs_upto(self.edges@, token, self.edges@.len() as int),
    {
        let mut out: Vec<TypeToken> = Vec::new();
        let mut k: usize = 0;
        while k < self.edges.len()
            invariant
                k <= self.edges@.len(),
                out@ == subs_upto(self.edges@, token, k as int),
            decreases self.edges@.len() - k,
        {
            let e = self.edges[k];
            if e.sup == token {
                out.push(e.sub);
            }
            k = k + 1;
        }
        out
    }

    /// One breadth-first level from `frontier` (see `level`).
    fn visit_level(&self, frontier: &Vec<TypeToken>, visited: &mut Vec<TypeToken>) -> (next: Vec<
        TypeToken,
    >)
        ensures
            (final(visited)@, next@) == level(self.edges@, frontier@, old(visited)@),
    {
        let ghost edges = self.edges@;
        let mut next: Vec<TypeToken> = Vec::new();
        let mut i: usize = 0;
        while i < frontier.len()
            invariant
                i <= frontier@.len(),
                edges == self.edges@,
                (visited@, next@) == visit_frontier(edges, frontier@, i as int, old(visited)@),
            decreases frontier@.len() - i,
        {
            let cur = frontier[i];
            let ghost v0 = visited@;
            let ghost q0 = next@;
            let mut k: usize = 0;
            while k < self.edges.len()
                invariant
                    k <= self.edges@.len(),
                    edges == self.edges@,
                    (visited@, next@) == visit_edges(edges, cur, k as int, v0, q0),
                decreases self.edges@.len() - k,
            {
                let e = self.edges[k];
                if e.sub == cur && !contains_token(visited, e.sup) {
                    visited.push(e.sup);
                    next.push(e.sup);
                }
                k = k + 1;
            }
            i = i + 1;
        }
        next
    }

    /// The transitive supertypes of `token` within `max_depth` breadth-first levels,
    /// shallowest first, each once, `token` itself excluded.
    pub fn supertypes(&self, token: TypeToken, max_depth: usize) -> (r: Vec<TypeToken>)
        ensures
            r@ == supertypes_of(self.edges@, token, max_depth as nat),
    {
        let mut visited: Vec<TypeToken> = Vec::new();
        visited.push(token);
        let mut frontier: Vec<TypeToken> = Vec::new();
        frontier.push(token);
        let mut depth: usize = 0;
        while frontier.len() > 0 && depth < max_depth
            invariant
                depth <= max_depth,
                visited@.len() >= 1,
                visited@[0] == token,
                levels(self.edges@, frontier@, visited@, (max_depth - depth) as nat) == levels(
                    self.edges@,
                    seq![token],
                    seq![token],
                    max_depth as nat,
                ),
            decreases max_depth - depth,
        {
            let ghost v0 = visited@;
            let next = self.visit_level(&frontier, &mut visited);
            proof {
                lemma_visit_frontier(self.edges@, frontier@, frontier@.len() as int, v0);
                assert(visited@.subrange(0, v0.len() as int)[0] == visited@[0]);
            }
            frontier = next;
            depth = depth + 1;
        }
        let mut out: Vec<TypeToken> = Vec::new();
        let mut j: usize = 1;
        while j < visited.len()
            invariant
                1 <= j <= visited@.len(),
                out@ == visited@.subrange(1, j as int),
            decreases visited@.len() - j,
        {
            out.push(visited[j]);
            j = j + 1;
        }
        proof {
            if frontier@.len() == 0 || depth == max_depth {
                assert(levels(self.edges@, frontier@, visited@, (max_depth - depth) as nat) == visited@);
            }
        }
        out
    }

    /// Is `sub` a subtype of `sup`: the same type, or reachable from it along edges?
    pub fn is_a(&self, sub: TypeToken, sup: TypeToken) -> (r: bool)
        ensures
            r == is_a_of(self.edges@, sub, sup),
    {
        if sub == sup {
            return true;
        }
        let mut visited: Vec<TypeToken> = Vec::new();
        visited.push(sub);
        let mut frontier: Vec<TypeToken> = Vec::new();
        frontier.push(sub);
        assert(visited@ =~= seq![sub]);
        assert(frontier@ =~= seq![sub]);
        let mut done = false;
        while !done
            invariant
                !done ==> closure(self.edges@, frontier@, visited@) == closure(
                    self.edges@,
                    seq![sub],
                    seq![sub],
                ),
                done ==> visited@ == closure(self.edges@, seq![sub], seq![sub]),
            decreases unvisited(self.edges@, visited@, self.edges@.len() as int) + (if done {
                0int
            } else {
                1int
            }),
        {
            if frontier.len() == 0 {
                done = true;
            } else {
                let ghost v0 = visited@;
                let ghost f0 = frontier@;
                let next = self.visit_level(&frontier, &mut visited);
                proof {
                    lemma_level_progress(self.edges@, f0, v0);
                    lemma_visit_frontier(self.edges@, f0, f0.len() as int, v0);
                    if next@.len() == 0 {
                        assert(visited@ =~= visited@.subrange(0, v0.len() as int));
                    }
                }
                if next.len() == 0 {
                    done = true;
                } else {
                    frontier = next;
                }
            }
        }
        contains_token(&visited, sup)
    }
}

// ── declarations ────────────────────────────────────────────────────────────

/// A type parameter of a typedef, with its bound where one is given (`T: Bound`).
#[derive(Clone, Debug, PartialEq)]
pub struct TypeDefParam {
    pub name: String,
    pub bound: Option<String>,
}

/// One typedef declaration: the declared name, the type it refers to, its parameters and
/// the source it came from.
#[derive(Clone, Debug, PartialEq)]
pub struct TypeDefEntry {
    pub name: String,
    pub referred_to_type: String,
    pub params: Vec<TypeDefParam>,
    pub source: String,
}

/// The model of a parameter.
pub struct ParamView {
    pub name: Seq<char>,
    pub bound: Option<Seq<char>>,
}

/// The model of a declaration.
pub struct EntryView {
    pub name: Seq<char>,
    pub referred_to_type: Seq<char>,
    pub params: Seq<ParamView>,
    pub source: Seq<char>,
}

impl View for TypeDefParam {
    type V = ParamView;

    open spec fn view(&self) -> ParamView {
        ParamView {
            name: self.name@,
            bound: match self.bound {
                Some(b) => Some(b@),
                None => None,
            },
        }
    }
}

impl View for TypeDefEntry {
    type V = EntryView;

    open spec fn view(&self) -> EntryView {
        EntryView {
            name: self.name@,
            referred_to_type: self.referred_to_type@,
            params: self.params@.map_values(|p: TypeDefParam| p@),
            source: self.source@,
        }
    }
}

/// The model of an oracle: the declarations in order, the name pool (a type token is a
/// position in it) and the IS-A edges.
pub struct OracleView {
    pub entries: Seq<EntryView>,
    pub names: Seq<Seq<char>>,
    pub edges: Seq<IsAEdge>,
}

/// The first position of `name` in the pool.
pub open spec fn name_index(names: Seq<Seq<char>>, name: Seq<char>, i: int) -> Option<int>
    decreases names.len() - i,
{
    if i < 0 || i >= names.len() {
        None
    } else if names[i] == name {
        Some(i)
    } else {
        name_index(names, name, i + 1)
    }
}

/// The pool with `name` in it, and its token: where it already is, or appended.
pub open spec fn ensure_name(names: Seq<Seq<char>>, name: Seq<char>) -> (Seq<Seq<char>>, int) {
    match name_index(names, name, 0) {
        Some(i) => (names, i),
        None => (names.push(name), names.len() as int),
    }
}

/// No name occurs twice in the pool.
pub open spec fn names_distinct(names: Seq<Seq<char>>) -> bool {
    forall|i: int, j: int| 0 <= i < j < names.len() ==> names[i] != names[j]
}

proof fn lemma_name_index_found(names: Seq<Seq<char>>, name: Seq<char>, k: int)
    requires
        0 <= k,
    ensures
        name_index(names, name, k) matches Some(i) ==> k <= i < names.len() && names[i] == name,
        name_index(names, name, k) is None ==> forall|j: int| k <= j < names.len() ==> names[j] != name,
    decreases names.len() - k,
{
    if k < names.len() {
        lemma_name_index_found(names, name, k + 1);
    }
}

proof fn lemma_name_index_first(names: Seq<Seq<char>>, i: int, k: int)
    requires
        names_distinct(names),
        0 <= k <= i < names.len(),
    ensures
        name_index(names, names[i], k) == Some(i),
    decreases i - k,
{
    if k < i {
        assert(names[k] != names[i]);
        lemma_name_index_first(names, i, k + 1);
    }
}

/// The token pool gives each name one token: `ensure_name` keeps the pool free of repeats,
/// the token it returns holds the name, and looking the name up again finds that token.
pub proof fn lemma_ensure_name(names: Seq<Seq<char>>, name: Seq<char>)
    requires
        names_distinct(names),
    ensures
        names_distinct(ensure_name(names, name).0),
        0 <= ensure_name(names, name).1 < ensure_name(names, name).0.len(),
        ensure_name(names, name).0[ensure_name(names, name).1] == name,
        name_index(ensure_name(names, name).0, name, 0) == Some(ensure_name(names, name).1),
{
    lemma_name_index_found(names, name, 0);
    let (p, t) = ensure_name(names, name);
    if name_index(names, name, 0) is None {
        assert forall|i: int, j: int| 0 <= i < j < p.len() implies p[i] != p[j] by {
            if j == names.len() {
                assert(p[j] == name);
                assert(p[i] == names[i]);
            } else {
                assert(p[i] == names[i] && p[j] == names[j]);
            }
        }
    }
    lemma_name_index_first(p, t, 0);
}

/// The parameter a trimmed piece `a..b` declares: `name: bound`, or a bare name.
pub open spec fn param_of(cs: Seq<char>, a: int, b: int) -> ParamView {
    match find_in(cs, a, b, ':') {
        Some(c) => {
            let (na, nb) = trim_range(cs, a, c);
            let (ba, bb) = trim_range(cs, c + 1, b);
            ParamView { name: cs.subrange(na, nb), bound: Some(cs.subrange(ba, bb)) }
        },
        None => ParamView { name: cs.subrange(a, b), bound: None },
    }
}

/// The parameters declared by the first `k` comma-separated pieces; blank pieces declare none.
pub open spec fn params_from(cs: Seq<char>, ps: Seq<(int, int)>, k: int) -> Seq<ParamView>
    decreases k,
{
    if k <= 0 {
        seq![]
    } else {
        let prev = params_from(cs, ps, k - 1);
        let (t0, t1) = trim_range(cs, ps[k - 1].0, ps[k - 1].1);
        if t0 == t1 {
            prev
        } else {
            prev.push(param_of(cs, t0, t1))
        }
    }
}

/// The parameters of a parameter list.
pub open spec fn params_of(cs: Seq<char>, tp: TypeParams) -> Seq<ParamView> {
    match tp {
        TypeParams::Range(a, b) => {
            let (t0, t1) = trim_range(cs, a, b);
            if t0 == t1 {
                seq![]
            } else {
                let ps = pieces_from(cs, a, a, b, ',');
                params_from(cs, ps, ps.len() as int)
            }
        },
        _ => seq![],
    }
}

/// The oracle with one more declaration, its name in the pool.
pub open spec fn add_entry(st: OracleView, e: EntryView) -> OracleView {
    OracleView { entries: st.entries.push(e), names: ensure_name(st.names, e.name).0, edges: st.edges }
}

/// The declaration on line `la..lb` added to the oracle: `typedef <referred> as <Name>;`
/// (a name whose parameter list nests is skipped) or `typealias <Name> = <referred>`.
/// `None` where reading the line faults.
pub open spec fn line_step(st: OracleView, cs: Seq<char>, la: int, lb: int, source: Seq<char>) -> Option<
    OracleView,
> {
    let (ta, tb) = trim_range(cs, la, lb);
    if matches_at(cs, ta, tb, seq!['t', 'y', 'p', 'e', 'd', 'e', 'f', ' ']) {
        let (sa, sb) = trim_range(cs, ta + 8, back_semis(cs, ta + 8, tb));
        match split_as(cs, sa, sb, 0) {
            SplitAt::Fault => None,
            SplitAt::Missing => Some(st),
            SplitAt::Found(i) => if params_nested(cs, i + 4, sb) {
                Some(st)
            } else {
                match type_params(cs, i + 4, sb) {
                    TypeParams::Fault => None,
                    tp => {
                        let (ca, cb) = clean_name(cs, i + 4, sb);
                        let (fa, fb) = trim_range(cs, sa, i);
                        Some(
                            add_entry(
                                st,
                                EntryView {
                                    name: cs.subrange(ca, cb),
                                    referred_to_type: cs.subrange(fa, fb),
                                    params: params_of(cs, tp),
                                    source,
                                },
                            ),
                        )
                    },
                }
            },
        }
    } else if matches_at(cs, ta, tb, seq!['t', 'y', 'p', 'e', 'a', 'l', 'i', 'a', 's', ' ']) {
        match find_in(cs, ta + 10, tb, '=') {
            None => Some(st),
            Some(k) => {
                let (na, nb) = trim_range(cs, ta + 10, k);
                match type_params(cs, na, nb) {
                    TypeParams::Fault => None,
                    tp => {
                        let (ca, cb) = clean_name(cs, na, nb);
                        let (fa, fb) = trim_range(cs, k + 1, tb);
                        Some(
                            add_entry(
                                st,
                                EntryView {
                                    name: cs.subrange(ca, cb),
                                    referred_to_type: cs.subrange(fa, fb),
                                    params: params_of(cs, tp),
                                    source,
                                },
                            ),
                        )
                    },
                }
            },
        }
    } else {
        Some(st)
    }
}

/// The oracle after the first `k` lines.
pub open spec fn lines_step(st: OracleView, cs: Seq<char>, lines: Seq<(int, int)>, k: int, source: Seq<char>) -> Option<
    OracleView,
>
    decreases k,
{
    if k <= 0 {
        Some(st)
    } else {
        match lines_step(st, cs, lines, k - 1, source) {
            None => None,
            Some(s) => line_step(s, cs, lines[k - 1].0, lines[k - 1].1, source),
        }
    }
}

/// The oracle after reading every declaration of `text`; `None` where a line faults.
pub open spec fn parse_text(st: OracleView, text: Seq<char>, source: Seq<char>) -> Option<OracleView> {
    let lines = lines_from(text, 0, 0);
    lines_step(st, text, lines, lines.len() as int, source)
}

// ── building the lattice ────────────────────────────────────────────────────

/// `s` from `i` on with every `<...>` group removed, brackets included, at depth `depth`.
pub open spec fn strip_angles(s: Seq<char>, i: int, depth: nat) -> Seq<char>
    decreases s.len() - i,
{
    if i < 0 || i >= s.len() {
        seq![]
    } else if s[i] == '<' {
        strip_angles(s, i + 1, depth + 1)
    } else if s[i] == '>' {
        strip_angles(
            s,
            i + 1,
            if depth > 0 {
                (depth - 1) as nat
            } else {
                0
            },
        )
    } else if depth == 0 {
        seq![s[i]] + strip_angles(s, i + 1, depth)
    } else {
        strip_angles(s, i + 1, depth)
    }
}

/// A separator of base names: `|`, `,` or white space.
pub open spec fn is_name_sep(c: char) -> bool {
    c == '|' || c == ',' || is_white_space(c)
}

/// The words of `s` between separators, starting a word at `start` and scanning from `i`;
/// only words that start with a letter count.
pub open spec fn words_from(s: Seq<char>, start: int, i: int) -> Seq<Seq<char>>
    decreases s.len() - i,
{
    let word = s.subrange(start, i);
    let keep = word.len() > 0 && alphabetic(word[0]);
    if i >= s.len() {
        if keep {
            seq![word]
        } else {
            seq![]
        }
    } else if is_name_sep(s[i]) {
        (if keep {
            seq![word]
        } else {
            seq![]
        }) + words_from(s, i + 1, i + 1)
    } else {
        words_from(s, start, i + 1)
    }
}

/// The base type names of a type expression: its parameter lists removed, split at
/// `|`, `,` and white space, words that start with a letter.
pub open spec fn base_names(expr: Seq<char>) -> Seq<Seq<char>> {
    words_from(strip_angles(expr, 0, 0), 0, 0)
}

/// The pool and edges after linking `names[0..j]` of the bases to token `from`.
pub open spec fn link_bases(pool: Seq<Seq<char>>, edges: Seq<IsAEdge>, from: int, bases: Seq<Seq<char>>, j: int) -> (
    Seq<Seq<char>>,
    Seq<IsAEdge>,
)
    decreases j,
{
    if j <= 0 {
        (pool, edges)
    } else {
        let (p, es) = link_bases(pool, edges, from, bases, j - 1);
        let (p2, to) = ensure_name(p, bases[j - 1]);
        if from != to {
            (p2, es.push(IsAEdge { sub: TypeToken(from as usize), sup: TypeToken(to as usize) }))
        } else {
            (p2, es)
        }
    }
}

/// The oracle after linking the first `k` declarations: each declared name IS-A each of
/// the base names of the type it refers to, other than itself.
pub open spec fn link_entries(st: OracleView, k: int) -> OracleView
    decreases k,
{
    if k <= 0 {
        st
    } else {
        let prev = link_entries(st, k - 1);
        let e = st.entries[k - 1];
        let (p1, from) = ensure_name(prev.names, e.name);
        let bases = base_names(e.referred_to_type);
        let (p2, es) = link_bases(p1, prev.edges, from, bases, bases.len() as int);
        OracleView { entries: prev.entries, names: p2, edges: es }
    }
}

/// The oracle with one more IS-A edge between two names, both in the pool.
pub open spec fn add_link(st: OracleView, sub: Seq<char>, sup: Seq<char>) -> OracleView {
    let (p1, t1) = ensure_name(st.names, sub);
    let (p2, t2) = ensure_name(p1, sup);
    OracleView {
        entries: st.entries,
        names: p2,
        edges: st.edges.push(IsAEdge { sub: TypeToken(t1 as usize), sup: TypeToken(t2 as usize) }),
    }
}

/// Collects typedef declarations and the IS-A edges between the names they mention.
pub struct TypeDefOracle {
    entries: Vec<TypeDefEntry>,
    names: Vec<String>,
    edges: Vec<IsAEdge>,
}

impl View for TypeDefOracle {
    type V = OracleView;

    closed spec fn view(&self) -> OracleView {
        OracleView {
            entries: self.entries@.map_values(|e: TypeDefEntry| e@),
            names: self.names@.map_values(|n: String| n@),
            edges: self.edges@,
        }
    }
}

/// The frozen oracle: its declarations, its tokens and names, and the lattice of its edges.
pub struct TypeDefOracleRow {
    pub entries: Vec<TypeDefEntry>,
    pub tokens: Vec<TypeToken>,
    pub names_by_token: Vec<String>,
    pub lattice: IsALattice,
    pub edge_count: usize,
}

fn clone_param(p: &TypeDefParam) -> (r: TypeDefParam)
    ensures
        r@ == p@,
{
    TypeDefParam {
        name: p.name.clone(),
        bound: match &p.bound {
            Some(b) => Some(b.clone()),
            None => None,
        },
    }
}

fn clone_entry(e: &TypeDefEntry) -> (r: TypeDefEntry)
    ensures
        r@ == e@,
{
    let mut params: Vec<TypeDefParam> = Vec::new();
    let mut i: usize = 0;
    while i < e.params.len()
        invariant
            i <= e.params@.len(),
            params@.len() == i,
            forall|j: int| 0 <= j < i ==> #[trigger] params@[j]@ == e.params@[j]@,
        decreases e.params@.len() - i,
    {
        params.push(clone_param(&e.params[i]));
        i = i + 1;
    }
    assert(params@.map_values(|p: TypeDefParam| p@) =~= e.params@.map_values(|p: TypeDefParam| p@));
    TypeDefEntry {
        name: e.name.clone(),
        referred_to_type: e.referred_to_type.clone(),
        params,
        source: e.source.clone(),
    }
}

/// The parameters of an optional parameter range (see `params_of`).
fn params_exec(cs: &Vec<char>, tp: Option<(usize, usize)>) -> (r: Vec<TypeDefParam>)
    requires
        tp matches Some((a, b)) ==> a <= b <= cs@.len(),
    ensures
        r@.map_values(|p: TypeDefParam| p@) == params_of(
            cs@,
            match tp {
                Some((a, b)) => TypeParams::Range(a as int, b as int),
                None => TypeParams::Absent,
            },
        ),
{
    let mut out: Vec<TypeDefParam> = Vec::new();
    match tp {
        None => out,
        Some((a, b)) => {
            let (t0, t1) = trim_exec(cs, a, b);
            if t0 == t1 {
                return out;
            }
            let ps = pieces_exec(cs, a, b, ',');
            let ghost psv = ps@.map_values(|p: (usize, usize)| (p.0 as int, p.1 as int));
            let mut k: usize = 0;
            while k < ps.len()
                invariant
                    k <= ps@.len(),
                    b <= cs@.len(),
                    psv == ps@.map_values(|p: (usize, usize)| (p.0 as int, p.1 as int)),
                    ranges_within(ps@, b as int),
                    out@.map_values(|p: TypeDefParam| p@) == params_from(cs@, psv, k as int),
                decreases ps@.len() - k,
            {
                let (pa, pb) = ps[k];
                let (x, y) = trim_exec(cs, pa, pb);
                proof {
                    assert(psv[k as int] == (pa as int, pb as int));
                }
                if x != y {
                    let p = match find_exec(cs, x, y, ':') {
                        Some(c) => {
                            let (na, nb) = trim_exec(cs, x, c);
                            let (ba, bb) = trim_exec(cs, c + 1, y);
                            TypeDefParam { name: string_of(cs, na, nb), bound: Some(string_of(cs, ba, bb)) }
                        },
                        None => TypeDefParam { name: string_of(cs, x, y), bound: None },
                    };
                    let ghost before = out@;
                    out.push(p);
                    assert(out@.map_values(|p: TypeDefParam| p@) =~= before.map_values(|p: TypeDefParam| p@).push(
                        p@,
                    ));
                }
                k = k + 1;
            }
            out
        },
    }
}

/// `s` with every `<...>` group removed (see `strip_angles`).
fn strip_angles_exec(s: &Vec<char>) -> (r: Vec<char>)
    ensures
        r@ == strip_angles(s@, 0, 0),
{
    let mut out: Vec<char> = Vec::new();
    let mut depth: usize = 0;
    let mut i: usize = 0;
    while i < s.len()
        invariant
            i <= s@.len(),
            depth <= i,
            out@ + strip_angles(s@, i as int, depth as nat) == strip_angles(s@, 0, 0),
        decreases s@.len() - i,
    {
        let c = s[i];
        let ghost before = out@;
        if c == '<' {
            depth = depth + 1;
        } else if c == '>' {
            if depth > 0 {
                depth = depth - 1;
            }
        } else if depth == 0 {
            out.push(c);
            assert(out@ + strip_angles(s@, i + 1, depth as nat) =~= before + strip_angles(
                s@,
                i as int,
                depth as nat,
            ));
        }
        i = i + 1;
    }
    assert(out@ =~= out@ + strip_angles(s@, i as int, depth as nat));
    out
}

fn is_name_sep_exec(c: char) -> (r: bool)
    ensures
        r == is_name_sep(c),
{
    c == '|' || c == ',' || crate::confix::nav::is_white_space_exec(c)
}

/// The base type names of a type expression (see `base_names`).
fn base_names_exec(expr: &String) -> (r: Vec<String>)
    ensures
        r@.map_values(|n: String| n@) == base_names(expr@),
{
    let cs0 = chars_of(expr.as_str());
    let s = strip_angles_exec(&cs0);
    let n = s.len();
    let mut out: Vec<String> = Vec::new();
    let mut start: usize = 0;
    let mut i: usize = 0;
    while i < n
        invariant
            start <= i <= n,
            n == s@.len(),
            out@.map_values(|w: String| w@) + words_from(s@, start as int, i as int) == words_from(
                s@,
                0,
                0,
            ),
        decreases n - i,
    {
        if is_name_sep_exec(s[i]) {
            let ghost before = out@;
            if start < i && is_alphabetic(s[start]) {
                let w = string_of(&s, start, i);
                out.push(w);
                assert(out@.map_values(|w: String| w@) =~= before.map_values(|w: String| w@).push(
                    s@.subrange(start as int, i as int),
                ));
            }
            start = i + 1;
        }
        i = i + 1;
    }
    let ghost before = out@;
    if start < n && is_alphabetic(s[start]) {
        let w = string_of(&s, start, n);
        out.push(w);
        assert(out@.map_values(|w: String| w@) =~= before.map_values(|w: String| w@).push(
            s@.subrange(start as int, n as int),
        ));
    } else {
        assert(out@.map_values(|w: String| w@) =~= out@.map_values(|w: String| w@) + words_from(
            s@,
            start as int,
            i as int,
        ));
    }
    out
}

impl TypeDefOracle {
    /// An empty oracle.
    pub fn new() -> (r: TypeDefOracle)
        ensures
            r@ == (OracleView { entries: seq![], names: seq![], edges: seq![] }),
    {
        let r = TypeDefOracle { entries: Vec::new(), names: Vec::new(), edges: Vec::new() };
        assert(r@.entries =~= seq![]);
        assert(r@.names =~= seq![]);
        r
    }

    /// The number of declarations collected.
    pub fn size(&self) -> (r: usize)
        ensures
            r == self@.entries.len(),
    {
        self.entries.len()
    }

    /// The token of `name`, adding it to the pool where it is new.
    fn ensure_token(&mut self, name: &String) -> (t: TypeToken)
        ensures
            final(self)@ == (OracleView {
                names: ensure_name(old(self)@.names, name@).0,
                ..old(self)@
            }),
            t.0 == ensure_name(old(self)@.names, name@).1,
    {
        let ghost names0 = old(self)@.names;
        let n = self.names.len();
        let mut i: usize = 0;
        while i < n
            invariant
                i <= n,
                n == self.names@.len(),
                self@ == old(self)@,
                names0 == self@.names,
                name_index(names0, name@, i as int) == name_index(names0, name@, 0),
            decreases n - i,
        {
            if self.names[i].eq(name) {
                proof {
                    assert(names0[i as int] == self.names@[i as int]@);
                }
                return TypeToken(i);
            }
            proof {
                assert(names0[i as int] == self.names@[i as int]@);
            }
            i = i + 1;
        }
        self.names.push(name.clone());
        proof {
            assert(self@.names =~= names0.push(name@));
            assert(self@.entries =~= old(self)@.entries);
        }
        TypeToken(n)
    }

    /// Record the edge `sub` IS-A `sup`, adding both names to the pool where they are new.
    pub fn add_link_check(&mut self, sub: &str, sup: &str)
        ensures
            final(self)@ == add_link(old(self)@, sub@, sup@),
    {
        let a = sub.to_owned();
        let b = sup.to_owned();
        let ta = self.ensure_token(&a);
        let tb = self.ensure_token(&b);
        self.edges.push(IsAEdge { sub: ta, sup: tb });
    }

    /// Append a declaration and put its name in the pool.
    fn push_entry(&mut self, e: TypeDefEntry)
        ensures
            final(self)@ == add_entry(old(self)@, e@),
    {
        let name = e.name.clone();
        let ghost ev = e@;
        self.entries.push(e);
        proof {
            assert(self@.entries =~= old(self)@.entries.push(ev));
        }
        let _ = self.ensure_token(&name);
    }
}

proof fn lemma_lines_step_none(st: OracleView, cs: Seq<char>, lines: Seq<(int, int)>, k: int, m: int, source: Seq<char>)
    requires
        0 <= k <= m,
        lines_step(st, cs, lines, k, source) is None,
    ensures
        lines_step(st, cs, lines, m, source) is None,
    decreases m - k,
{
    if k < m {
        lemma_lines_step_none(st, cs, lines, k + 1, m, source);
    }
}

impl TypeDefOracle {
    /// Read the declaration on line `la..lb` (see `line_step`); `false` where it faults.
    fn line_step_exec(&mut self, cs: &Vec<char>, la: usize, lb: usize, source: &String) -> (ok: bool)
        requires
            la <= lb <= cs@.len(),
        ensures
            match line_step(old(self)@, cs@, la as int, lb as int, source@) {
                Some(st) => ok && final(self)@ == st,
                None => !ok,
            },
    {
        let (ta, tb) = trim_exec(cs, la, lb);
        let typedef_kw: Vec<char> = vec!['t', 'y', 'p', 'e', 'd', 'e', 'f', ' '];
        let alias_kw: Vec<char> = vec!['t', 'y', 'p', 'e', 'a', 'l', 'i', 'a', 's', ' '];
        assert(typedef_kw@ =~= seq!['t', 'y', 'p', 'e', 'd', 'e', 'f', ' ']);
        assert(alias_kw@ =~= seq!['t', 'y', 'p', 'e', 'a', 'l', 'i', 'a', 's', ' ']);
        if matches_at_exec(cs, ta, tb, &typedef_kw) {
            let rb = back_semis_exec(cs, ta + 8, tb);
            let (sa, sb) = trim_exec(cs, ta + 8, rb);
            match split_as_exec(cs, sa, sb) {
                Err(_) => false,
                Ok(None) => true,
                Ok(Some(i)) => {
                    if params_nested_exec(cs, i + 4, sb) {
                        return true;
                    }
                    match type_params_exec(cs, i + 4, sb) {
                        Err(_) => false,
                        Ok(tp) => {
                            let (ca, cb) = clean_name_exec(cs, i + 4, sb);
                            let (fa, fb) = trim_exec(cs, sa, i);
                            let e = TypeDefEntry {
                                name: string_of(cs, ca, cb),
                                referred_to_type: string_of(cs, fa, fb),
                                params: params_exec(cs, tp),
                                source: source.clone(),
                            };
                            self.push_entry(e);
                            true
                        },
                    }
                },
            }
        } else if matches_at_exec(cs, ta, tb, &alias_kw) {
            match find_exec(cs, ta + 10, tb, '=') {
                None => true,
                Some(k) => {
                    let (na, nb) = trim_exec(cs, ta + 10, k);
                    match type_params_exec(cs, na, nb) {
                        Err(_) => false,
                        Ok(tp) => {
                            let (ca, cb) = clean_name_exec(cs, na, nb);
                            let (fa, fb) = trim_exec(cs, k + 1, tb);
                            let e = TypeDefEntry {
                                name: string_of(cs, ca, cb),
                                referred_to_type: string_of(cs, fa, fb),
                                params: params_exec(cs, tp),
                                source: source.clone(),
                            };
                            self.push_entry(e);
                            true
                        },
                    }
                },
            }
        } else {
            true
        }
    }

    /// Read every `typedef <referred> as <Name>;` and `typealias <Name> = <referred>` line of
    /// `text` (see `parse_text`). A text is owed a reading only where no line faults: a
    /// non-ASCII character before a typedef's ` as `, or a typealias name whose last `>`
    /// stands before its first `<`.
    pub fn parse_type_defs(&mut self, text: &str, source: &str)
        requires
            parse_text(old(self)@, text@, source@) is Some,
        ensures
            final(self)@ == parse_text(old(self)@, text@, source@).unwrap(),
    {
        let cs = chars_of(text);
        let lines = lines_exec(&cs);
        let src_name = source.to_owned();
        let ghost st0 = self@;
        let ghost lv = lines@.map_values(|p: (usize, usize)| (p.0 as int, p.1 as int));
        let n = lines.len();
        let ghost lsv = lines@;
        let mut k: usize = 0;
        while k < n
            invariant
                k <= n,
                n == lines@.len(),
                lines@ == lsv,
                ranges_within(lsv, cs@.len() as int),
                cs@ == text@,
                src_name@ == source@,
                lv == lines@.map_values(|p: (usize, usize)| (p.0 as int, p.1 as int)),
                lv == lines_from(text@, 0, 0),
                lines_step(st0, text@, lv, n as int, source@) is Some,
                lines_step(st0, text@, lv, k as int, source@) == Some(self@),
            decreases n - k,
        {
            let (la, lb) = lines[k];
            proof {
                assert(lv[k as int] == (la as int, lb as int));
            }
            let ok = self.line_step_exec(&cs, la, lb, &src_name);
            if !ok {
                proof {
                    lemma_lines_step_none(st0, text@, lv, k + 1, n as int, source@);
                }
                return;
            }
            k = k + 1;
        }
    }

    /// Link every declaration into the lattice (see `link_entries`) and freeze the oracle.
    pub fn build(&mut self) -> (row: TypeDefOracleRow)
        ensures
            final(self)@ == link_entries(old(self)@, old(self)@.entries.len() as int),
            row.entries@.map_values(|e: TypeDefEntry| e@) == final(self)@.entries,
            row.names_by_token@.map_values(|n: String| n@) == final(self)@.names,
            row.tokens@ == Seq::new(final(self)@.names.len(), |i: int| TypeToken(i as usize)),
            row.lattice.edges@ == final(self)@.edges,
            row.edge_count == final(self)@.edges.len(),
    {
        let ghost st0 = self@;
        let n = self.entries.len();
        let mut k: usize = 0;
        while k < n
            invariant
                k <= n,
                n == st0.entries.len(),
                self@ == link_entries(st0, k as int),
                self@.entries == st0.entries,
            decreases n - k,
        {
            let name = self.entries[k].name.clone();
            let referred = self.entries[k].referred_to_type.clone();
            proof {
                assert(self@.entries[k as int] == self.entries@[k as int]@);
            }
            let ghost prev = self@;
            let from = self.ensure_token(&name);
            let bases = base_names_exec(&referred);
            let ghost bv = bases@.map_values(|b: String| b@);
            let ghost p1 = self@.names;
            let mut j: usize = 0;
            while j < bases.len()
                invariant
                    j <= bases@.len(),
                    bv == bases@.map_values(|b: String| b@),
                    self@.entries == st0.entries,
                    (self@.names, self@.edges) == link_bases(p1, prev.edges, from.0 as int, bv, j as int),
                decreases bases@.len() - j,
            {
                let to = self.ensure_token(&bases[j]);
                proof {
                    assert(bv[j as int] == bases@[j as int]@);
                }
                if from.0 != to.0 {
                    self.edges.push(IsAEdge { sub: from, sup: to });
                }
                j = j + 1;
            }
            k = k + 1;
        }
        let mut entries: Vec<TypeDefEntry> = Vec::new();
        let mut i: usize = 0;
        while i < self.entries.len()
            invariant
                i <= self.entries@.len(),
                entries@.len() == i,
                forall|q: int| 0 <= q < i ==> #[trigger] entries@[q]@ == self.entries@[q]@,
            decreases self.entries@.len() - i,
        {
            entries.push(clone_entry(&self.entries[i]));
            i = i + 1;
        }
        assert(entries@.map_values(|e: TypeDefEntry| e@) =~= self@.entries);
        let mut names: Vec<String> = Vec::new();
        let mut tokens: Vec<TypeToken> = Vec::new();
        let mut i: usize = 0;
        while i < self.names.len()
            invariant
                i <= self.names@.len(),
                names@.len() == i,
                tokens@ == Seq::new(i as nat, |q: int| TypeToken(q as usize)),
                forall|q: int| 0 <= q < i ==> #[trigger] names@[q]@ == self.names@[q]@,
            decreases self.names@.len() - i,
        {
            names.push(self.names[i].clone());
            tokens.push(TypeToken(i));
            i = i + 1;
            assert(tokens@ =~= Seq::new(i as nat, |q: int| TypeToken(q as usize)));
        }
        assert(names@.map_values(|n: String| n@) =~= self@.names);
        let mut edges: Vec<IsAEdge> = Vec::new();
        let mut i: usize = 0;
        while i < self.edges.len()
            invariant
                i <= self.edges@.len(),
                edges@ == self.edges@.subrange(0, i as int),
            decreases self.edges@.len() - i,
        {
            edges.push(self.edges[i]);
            i = i + 1;
        }
        assert(edges@ =~= self.edges@);
        let edge_count = edges.len();
        TypeDefOracleRow { entries, tokens, names_by_token: names, lattice: IsALattice { edges }, edge_count }
    }
}

impl TypeDefOracleRow {
    /// The token of `name`.
    pub fn by_name(&self, name: &str) -> (r: Option<TypeToken>)
        ensures
            match r {
                Some(t) => name_index(self.names_by_token@.map_values(|n: String| n@), name@, 0)
                    == Some(t.0 as int),
                None => name_index(self.names_by_token@.map_values(|n: String| n@), name@, 0) is None,
            },
    {
        let ghost names = self.names_by_token@.map_values(|n: String| n@);
        let wanted = name.to_owned();
        let n = self.names_by_token.len();
        let mut i: usize = 0;
        while i < n
            invariant
                i <= n,
                n == self.names_by_token@.len(),
                names == self.names_by_token@.map_values(|n: String| n@),
                wanted@ == name@,
                name_index(names, name@, i as int) == name_index(names, name@, 0),
            decreases n - i,
        {
            proof {
                assert(names[i as int] == self.names_by_token@[i as int]@);
            }
            if self.names_by_token[i].eq(&wanted) {
                return Some(TypeToken(i));
            }
            i = i + 1;
        }
        None
    }

    /// The name of `token`, or `TypeToken(<n>)` for a token out of range.
    pub fn td_names(&self, token: TypeToken) -> (r: String)
        ensures
            r@ == if token.0 < self.names_by_token@.len() {
                self.names_by_token@[token.0 as int]@
            } else {
                seq!['T', 'y', 'p', 'e', 'T', 'o', 'k', 'e', 'n', '('] + decimal(token.0 as nat) + seq![')']
            },
    {
        if token.0 < self.names_by_token.len() {
            self.names_by_token[token.0].clone()
        } else {
            let mut s = String::new();
            s.push('T');
            s.push('y');
            s.push('p');
            s.push('e');
            s.push('T');
            s.push('o');
            s.push('k');
            s.push('e');
            s.push('n');
            s.push('(');
            let d = decimal_exec(token.0 as u64);
            s.append(d.as_str());
            s.push(')');
            assert(s@ =~= seq!['T', 'y', 'p', 'e', 'T', 'o', 'k', 'e', 'n', '('] + decimal(token.0 as nat)
                + seq![')']);
            s
        }
    }
}

// ── link ingestion ──────────────────────────────────────────────────────────

/// The pieces of `s` between the separators ` -> `, scanning from `i`.
pub open spec fn arrow_from(s: Seq<char>, start: int, i: int) -> Seq<(int, int)>
    decreases s.len() - i,
{
    if i >= s.len() {
        seq![(start, s.len() as int)]
    } else if matches_at(s, i, s.len() as int, seq![' ', '-', '>', ' ']) {
        seq![(start, i)] + arrow_from(s, i + 4, i + 4)
    } else {
        arrow_from(s, start, i + 1)
    }
}

/// Piece `k` of `ps`, trimmed.
pub open spec fn part(s: Seq<char>, ps: Seq<(int, int)>, k: int) -> Seq<char> {
    let (a, b) = trim_range(s, ps[k].0, ps[k].1);
    s.subrange(a, b)
}

/// The oracle after linking each of the first `j` neighbouring pieces where both are not
/// blank.
pub open spec fn link_chain(st: OracleView, s: Seq<char>, ps: Seq<(int, int)>, j: int) -> OracleView
    decreases j,
{
    if j <= 0 {
        st
    } else {
        let prev = link_chain(st, s, ps, j - 1);
        let a = part(s, ps, j - 1);
        let b = part(s, ps, j);
        if a.len() > 0 && b.len() > 0 {
            add_link(prev, a, b)
        } else {
            prev
        }
    }
}

/// The first ` as ` in `s` from `i`.
pub open spec fn find_as(s: Seq<char>, i: int) -> Option<int>
    decreases s.len() - i,
{
    if i < 0 || i >= s.len() {
        None
    } else if matches_at(s, i, s.len() as int, seq![' ', 'a', 's', ' ']) {
        Some(i)
    } else {
        find_as(s, i + 1)
    }
}

/// `topic:<name> as <type>`, both parts trimmed and not blank.
pub open spec fn topic_of(s: Seq<char>) -> Option<(Seq<char>, Seq<char>)> {
    if matches_at(s, 0, s.len() as int, seq!['t', 'o', 'p', 'i', 'c', ':']) {
        match find_as(s, 6) {
            Some(k) => {
                let (na, nb) = trim_range(s, 6, k);
                let (ta, tb) = trim_range(s, k + 4, s.len() as int);
                if na < nb && ta < tb {
                    Some((s.subrange(na, nb), s.subrange(ta, tb)))
                } else {
                    None
                }
            },
            None => None,
        }
    } else {
        None
    }
}

/// The oracle after one ingested row: `ngram` and `factory_step` rows link each step of a
/// chain `a -> b -> c` to the next; an `isA_edge` row links its first two steps; a `topic`
/// row declares `<type>` as referring to `<name>`.
pub open spec fn apply_row(st: OracleView, kind: Seq<char>, ngram: Seq<char>) -> OracleView {
    let ps = arrow_from(ngram, 0, 0);
    if kind == seq!['n', 'g', 'r', 'a', 'm'] || kind == seq![
        'f',
        'a',
        'c',
        't',
        'o',
        'r',
        'y',
        '_',
        's',
        't',
        'e',
        'p',
    ] {
        link_chain(st, ngram, ps, ps.len() - 1)
    } else if kind == seq!['i', 's', 'A', '_', 'e', 'd', 'g', 'e'] {
        if ps.len() >= 2 {
            add_link(st, part(ngram, ps, 0), part(ngram, ps, 1))
        } else {
            st
        }
    } else if kind == seq!['t', 'o', 'p', 'i', 'c'] {
        match topic_of(ngram) {
            Some((name, ttype)) => add_entry(
                st,
                EntryView {
                    name: ttype,
                    referred_to_type: name,
                    params: seq![],
                    source: seq!['l', 'd', 'a', '-', 't', 'o', 'p', 'i', 'c'],
                },
            ),
            None => st,
        }
    } else {
        st
    }
}

/// The text of a string row.
pub open spec fn row_text(row: RowNode, src: Seq<u8>) -> Option<Seq<char>> {
    if row.tag == IoMemento::IoString {
        match reify_of(row, src) {
            ValueView::Text(t) => Some(t),
            _ => None,
        }
    } else {
        None
    }
}

/// The `kind` and `ngram` texts of an object row.
pub open spec fn kind_ngram(obj: RowNode, src: Seq<u8>) -> Option<(Seq<char>, Seq<char>)> {
    match step_of(obj, StepView::Key(seq!['k', 'i', 'n', 'd']), src) {
        Some(k) => match row_text(k, src) {
            Some(kt) => match step_of(obj, StepView::Key(seq!['n', 'g', 'r', 'a', 'm']), src) {
                Some(g) => match row_text(g, src) {
                    Some(gt) => Some((kt, gt)),
                    None => None,
                },
                None => None,
            },
            None => None,
        },
        None => None,
    }
}

/// The `(kind, ngram)` pairs of the first `k` rows that have both.
pub open spec fn kinds_upto(kids: Seq<RowNode>, src: Seq<u8>, k: int) -> Seq<(Seq<char>, Seq<char>)>
    decreases k,
{
    if k <= 0 {
        seq![]
    } else {
        match kind_ngram(kids[k - 1], src) {
            Some(p) => kinds_upto(kids, src, k - 1).push(p),
            None => kinds_upto(kids, src, k - 1),
        }
    }
}

/// The rows of an oracle document: the children of the value token of its first `rows`
/// key, with their subtrees.
pub open spec fn oracle_rows(ix: crate::confix::index::IndexView) -> Option<Seq<(Seq<char>, Seq<char>)>> {
    match key_token(ix, seq!['r', 'o', 'w', 's']) {
        None => None,
        Some(k) => match value_index_of(ix.flat, k) {
            None => None,
            Some(ri) => {
                if 0 <= ri < ix.flat.spans.len() {
                    let arr = node_of(ix.flat, ri);
                    Some(kinds_upto(arr.kids, ix.src, arr.kids.len() as int))
                } else {
                    None
                }
            },
        },
    }
}

/// The oracle after ingesting the first `k` rows.
pub open spec fn ingest_rows(st: OracleView, rows: Seq<(Seq<char>, Seq<char>)>, k: int) -> OracleView
    decreases k,
{
    if k <= 0 {
        st
    } else {
        let prev = ingest_rows(st, rows, k - 1);
        apply_row(prev, rows[k - 1].0, rows[k - 1].1)
    }
}

/// The oracle after ingesting an oracle document.
pub open spec fn ingest_of(st: OracleView, json: Seq<char>) -> OracleView {
    match oracle_rows(index_of(text_syntax(json), vstd::utf8::encode_utf8(json))) {
        Some(rows) => ingest_rows(st, rows, rows.len() as int),
        None => st,
    }
}

fn arrow_parts_exec(cs: &Vec<char>) -> (r: Vec<(usize, usize)>)
    ensures
        r@.map_values(|p: (usize, usize)| (p.0 as int, p.1 as int)) == arrow_from(cs@, 0, 0),
        r@.len() >= 1,
        ranges_within(r@, cs@.len() as int),
{
    let sep: Vec<char> = vec![' ', '-', '>', ' '];
    assert(sep@ =~= seq![' ', '-', '>', ' ']);
    let n = cs.len();
    let mut out: Vec<(usize, usize)> = Vec::new();
    let mut start: usize = 0;
    let mut i: usize = 0;
    while i < n
        invariant
            start <= i <= n,
            n == cs@.len(),
            sep@ == seq![' ', '-', '>', ' '],
            out@.map_values(|p: (usize, usize)| (p.0 as int, p.1 as int)) + arrow_from(
                cs@,
                start as int,
                i as int,
            ) == arrow_from(cs@, 0, 0),
            ranges_within(out@, n as int),
        decreases n - i,
    {
        if matches_at_exec(cs, i, n, &sep) {
            let ghost before = out@;
            out.push((start, i));
            assert(out@.map_values(|p: (usize, usize)| (p.0 as int, p.1 as int)) =~= before.map_values(
                |p: (usize, usize)| (p.0 as int, p.1 as int),
            ) + seq![(start as int, i as int)]);
            proof {
                lemma_ranges_push(before, (start, i), n as int);
            }
            start = i + 4;
            i = i + 4;
        } else {
            i = i + 1;
        }
    }
    let ghost before = out@;
    out.push((start, n));
    assert(out@.map_values(|p: (usize, usize)| (p.0 as int, p.1 as int)) =~= before.map_values(
        |p: (usize, usize)| (p.0 as int, p.1 as int),
    ) + seq![(start as int, n as int)]);
    proof {
        lemma_ranges_push(before, (start, n), n as int);
    }
    out
}

fn find_as_exec(cs: &Vec<char>, i0: usize) -> (r: Option<usize>)
    requires
        i0 <= cs@.len(),
    ensures
        match r {
            Some(k) => find_as(cs@, i0 as int) == Some(k as int) && i0 <= k && k + 4 <= cs@.len(),
            None => find_as(cs@, i0 as int) is None,
        },
{
    let sep: Vec<char> = vec![' ', 'a', 's', ' '];
    assert(sep@ =~= seq![' ', 'a', 's', ' ']);
    let n = cs.len();
    let mut i = i0;
    while i < n
        invariant
            i0 <= i <= n,
            n == cs@.len(),
            sep@ == seq![' ', 'a', 's', ' '],
            find_as(cs@, i as int) == find_as(cs@, i0 as int),
        decreases n - i,
    {
        if matches_at_exec(cs, i, n, &sep) {
            return Some(i);
        }
        i = i + 1;
    }
    None
}

impl TypeDefOracle {
    /// Apply one ingested row (see `apply_row`).
    fn apply_row_exec(&mut self, kind: &String, ngram: &String)
        ensures
            final(self)@ == apply_row(old(self)@, kind@, ngram@),
    {
        proof {
            reveal_strlit("ngram");
            reveal_strlit("factory_step");
            reveal_strlit("isA_edge");
            reveal_strlit("topic");
            reveal_strlit("lda-topic");
        }
        let cs = chars_of(ngram.as_str());
        let ps = arrow_parts_exec(&cs);
        let ghost psv = ps@.map_values(|p: (usize, usize)| (p.0 as int, p.1 as int));
        assert("ngram"@ == seq!['n', 'g', 'r', 'a', 'm']);
        assert("topic"@ == seq!['t', 'o', 'p', 'i', 'c']);
        assert("lda-topic"@ == seq!['l', 'd', 'a', '-', 't', 'o', 'p', 'i', 'c']);
        assert("factory_step"@ == seq!['f', 'a', 'c', 't', 'o', 'r', 'y', '_', 's', 't', 'e', 'p']);
        assert("isA_edge"@ == seq!['i', 's', 'A', '_', 'e', 'd', 'g', 'e']);
        let is_chain = kind.eq(&literal("ngram")) || kind.eq(&literal("factory_step"));
        assert(is_chain == (kind@ == seq!['n', 'g', 'r', 'a', 'm'] || kind@ == seq![
            'f',
            'a',
            'c',
            't',
            'o',
            'r',
            'y',
            '_',
            's',
            't',
            'e',
            'p',
        ]));
        if is_chain {
            let ghost st0 = self@;
            let mut j: usize = 1;
            assert(link_chain(st0, ngram@, psv, 0) == st0);
            while j < ps.len()
                invariant
                    1 <= j <= ps@.len(),
                    cs@ == ngram@,
                    psv == ps@.map_values(|p: (usize, usize)| (p.0 as int, p.1 as int)),
                    ranges_within(ps@, cs@.len() as int),
                    self@ == link_chain(st0, ngram@, psv, j - 1),
                decreases ps@.len() - j,
            {
                let (a0, a1) = ps[j - 1];
                let (b0, b1) = ps[j];
                let (x0, x1) = trim_exec(&cs, a0, a1);
                let (y0, y1) = trim_exec(&cs, b0, b1);
                proof {
                    assert(psv[j - 1] == (a0 as int, a1 as int));
                    assert(psv[j as int] == (b0 as int, b1 as int));
                }
                if x0 < x1 && y0 < y1 {
                    let a = string_of(&cs, x0, x1);
                    let b = string_of(&cs, y0, y1);
                    self.add_link_check(a.as_str(), b.as_str());
                }
                j = j + 1;
            }
            assert(self@ == apply_row(st0, kind@, ngram@));
        } else if kind.eq(&literal("isA_edge")) {
            if ps.len() >= 2 {
                let (a0, a1) = ps[0];
                let (b0, b1) = ps[1];
                let (x0, x1) = trim_exec(&cs, a0, a1);
                let (y0, y1) = trim_exec(&cs, b0, b1);
                proof {
                    assert(psv[0] == (a0 as int, a1 as int));
                    assert(psv[1] == (b0 as int, b1 as int));
                }
                let a = string_of(&cs, x0, x1);
                let b = string_of(&cs, y0, y1);
                self.add_link_check(a.as_str(), b.as_str());
                assert(a@ == part(ngram@, psv, 0));
                assert(b@ == part(ngram@, psv, 1));
            }
            assert(kind@ == seq!['i', 's', 'A', '_', 'e', 'd', 'g', 'e']);
            assert(self@ == apply_row(old(self)@, kind@, ngram@));
        } else if kind.eq(&literal("topic")) {
            let kw: Vec<char> = vec!['t', 'o', 'p', 'i', 'c', ':'];
            assert(kw@ =~= seq!['t', 'o', 'p', 'i', 'c', ':']);
            let n = cs.len();
            if matches_at_exec(&cs, 0, n, &kw) {
                match find_as_exec(&cs, 6) {
                    Some(k) => {
                        let (na, nb) = trim_exec(&cs, 6, k);
                        let (ta, tb) = trim_exec(&cs, k + 4, n);
                        if na < nb && ta < tb {
                            let e = TypeDefEntry {
                                name: string_of(&cs, ta, tb),
                                referred_to_type: string_of(&cs, na, nb),
                                params: Vec::new(),
                                source: literal("lda-topic"),
                            };
                            proof {
                                assert(e@.params =~= Seq::<ParamView>::empty());
                            }
                            self.push_entry(e);
                        }
                    },
                    None => {},
                }
            }
            assert(self@ == apply_row(old(self)@, kind@, ngram@));
        } else {
            assert(self@ == apply_row(old(self)@, kind@, ngram@));
        }
    }

    /// Ingest the link rows of an oracle document (see `ingest_of`). The document is read
    /// with `confix_doc_text`, so it must be indexable as the dialect its first character
    /// picks.
    pub fn ingest_oracle_json(&mut self, json_text: &str)
        requires
            indexable(text_syntax(json_text@), vstd::utf8::encode_utf8(json_text@)),
        ensures
            final(self)@ == ingest_of(old(self)@, json_text@),
    {
        proof {
            reveal_strlit("rows");
            reveal_strlit("kind");
            reveal_strlit("ngram");
        }
        let doc = confix_doc_text(json_text);
        let ghost ix = index_of(text_syntax(json_text@), vstd::utf8::encode_utf8(json_text@));
        assert(doc.index@ == ix);
        assert("rows"@ == seq!['r', 'o', 'w', 's']);
        let ri = match doc.index.resolve_key("rows") {
            Some(ri) => ri,
            None => {
                assert(oracle_rows(ix) is None);
                return;
            },
        };
        let arr_row = match doc.index.token_row(ri) {
            Some(r) => r,
            None => return,
        };
        let arr = &arr_row;
        let src = doc.src();
        let ghost kids = arr@.kids;
        let mut rows: Vec<(String, String)> = Vec::new();
        let mut k: usize = 0;
        while k < arr.kids.len()
            invariant
                k <= arr.kids@.len(),
                kids == arr@.kids,
                kids.len() == arr.kids@.len(),
                rows@.map_values(|p: (String, String)| (p.0@, p.1@)) == kinds_upto(kids, src@, k as int),
            decreases arr.kids@.len() - k,
        {
            let obj = &arr.kids[k];
            proof {
                assert(kids[k as int] == obj@);
                reveal_strlit("kind");
                reveal_strlit("ngram");
            }
            let kind = match obj.step_key("kind", src) {
                Some(r) => if r.tag == IoMemento::IoString {
                    match r.reify(src) {
                        Value::Text(t) => Some(t),
                        _ => None,
                    }
                } else {
                    None
                },
                None => None,
            };
            let ngram = match obj.step_key("ngram", src) {
                Some(r) => if r.tag == IoMemento::IoString {
                    match r.reify(src) {
                        Value::Text(t) => Some(t),
                        _ => None,
                    }
                } else {
                    None
                },
                None => None,
            };
            let ghost ks = match step_of(obj@, StepView::Key(seq!['k', 'i', 'n', 'd']), src@) {
                Some(kr) => row_text(kr, src@),
                None => None,
            };
            let ghost gs = match step_of(obj@, StepView::Key(seq!['n', 'g', 'r', 'a', 'm']), src@) {
                Some(gr) => row_text(gr, src@),
                None => None,
            };
            assert("kind"@ == seq!['k', 'i', 'n', 'd']);
            assert("ngram"@ == seq!['n', 'g', 'r', 'a', 'm']);
            assert(match kind {
                Some(t) => ks == Some(t@),
                None => ks is None,
            });
            assert(match ngram {
                Some(t) => gs == Some(t@),
                None => gs is None,
            });
            let ghost before = rows@;
            match (kind, ngram) {
                (Some(kt), Some(gt)) => {
                    rows.push((kt, gt));
                    assert(rows@.map_values(|p: (String, String)| (p.0@, p.1@)) =~= before.map_values(
                        |p: (String, String)| (p.0@, p.1@),
                    ).push((kt@, gt@)));
                },
                _ => {},
            }
            k = k + 1;
        }
        let ghost rv = rows@.map_values(|p: (String, String)| (p.0@, p.1@));
        let ghost st0 = self@;
        let mut i: usize = 0;
        while i < rows.len()
            invariant
                i <= rows@.len(),
                rv == rows@.map_values(|p: (String, String)| (p.0@, p.1@)),
                self@ == ingest_rows(st0, rv, i as int),
            decreases rows@.len() - i,
        {
            proof {
                assert(rv[i as int] == (rows@[i as int].0@, rows@[i as int].1@));
            }
            self.apply_row_exec(&rows[i].0, &rows[i].1);
            i = i + 1;
        }
    }
}

// ── declarations from a CBOR document ──────────────────────────────────────

/// The models of a table of float texts.
pub open spec fn float_table_view(t: Seq<(Value, String)>) -> Seq<(ValueView, Seq<char>)> {
    t.map_values(|p: (Value, String)| (p.0@, p.1@))
}

/// The text a float value has in `floats`: that of its first entry, nothing where it has
/// none.
pub open spec fn value_float_text(floats: Seq<(ValueView, Seq<char>)>, v: ValueView) -> Seq<char>
    decreases floats.len(),
{
    if floats.len() == 0 {
        seq![]
    } else if floats[0].0 == v {
        floats[0].1
    } else {
        value_float_text(floats.drop_first(), v)
    }
}

/// The text of a field's value: text as it is, an integer in decimal, a boolean as
/// `true` or `false`, a float as its text in `floats`; no text for other values.
pub open spec fn field_text(v: ValueView, floats: Seq<(ValueView, Seq<char>)>) -> Option<Seq<char>> {
    match v {
        ValueView::Text(t) => Some(t),
        ValueView::Long(l) => Some(int_text(l)),
        ValueView::Double(_) => Some(value_float_text(floats, v)),
        ValueView::Decimal(_) => Some(value_float_text(floats, v)),
        ValueView::Bool(b) => Some(
            if b {
                "true"@
            } else {
                "false"@
            },
        ),
        _ => None,
    }
}

/// The key of a declaration field: `name`, `referredTo` or `params`.
pub open spec fn is_def_key(k: Seq<char>) -> bool {
    k == "name"@ || k == "referredTo"@ || k == "params"@
}

/// The `name`, `referredTo` and `params` texts after the first `k` key/value pairs of an
/// object's children; a later pair with the same key replaces an earlier one.
pub open spec fn def_fields(
    kids: Seq<RowNode>,
    src: Seq<u8>,
    floats: Seq<(ValueView, Seq<char>)>,
    k: int,
) -> (Option<Seq<char>>, Option<Seq<char>>, Option<Seq<char>>)
    decreases k,
{
    if k <= 0 {
        (None, None, None)
    } else {
        let prev = def_fields(kids, src, floats, k - 1);
        let val = field_text(reify_of(kids[2 * k - 1], src), floats);
        match row_text(kids[2 * k - 2], src) {
            Some(kt) => if kt == "name"@ {
                (val, prev.1, prev.2)
            } else if kt == "referredTo"@ {
                (prev.0, val, prev.2)
            } else if kt == "params"@ {
                (prev.0, prev.1, val)
            } else {
                prev
            },
            None => prev,
        }
    }
}

/// The declaration an object row describes, where it has both a name and a referred type.
pub open spec fn cbor_def(row: RowNode, src: Seq<u8>, floats: Seq<(ValueView, Seq<char>)>) -> Option<
    EntryView,
> {
    if row.tag != IoMemento::IoObject {
        None
    } else {
        let f = def_fields(row.kids, src, floats, (row.kids.len() / 2) as int);
        match (f.0, f.1) {
            (Some(n), Some(r)) => Some(
                EntryView {
                    name: n,
                    referred_to_type: r,
                    params: match f.2 {
                        Some(p) => params_of(p, TypeParams::Range(0, p.len() as int)),
                        None => seq![],
                    },
                    source: "cbor"@,
                },
            ),
            _ => None,
        }
    }
}

/// The oracle after the declarations of the first `k` root rows.
pub open spec fn cbor_defs(
    st: OracleView,
    roots: Seq<RowNode>,
    src: Seq<u8>,
    floats: Seq<(ValueView, Seq<char>)>,
    k: int,
) -> OracleView
    decreases k,
{
    if k <= 0 {
        st
    } else {
        let prev = cbor_defs(st, roots, src, floats, k - 1);
        match cbor_def(roots[k - 1], src, floats) {
            Some(e) => add_entry(prev, e),
            None => prev,
        }
    }
}

/// Pair `j` of an object's children has a declaration field for its key.
pub open spec fn def_key_at(kids: Seq<RowNode>, src: Seq<u8>, j: int) -> bool {
    match row_text(kids[2 * j], src) {
        Some(kt) => is_def_key(kt),
        None => false,
    }
}

/// Every field value that a declaration is read from can be reified.
pub open spec fn defs_reifiable(roots: Seq<RowNode>, src: Seq<u8>) -> bool {
    forall|i: int, j: int|
        0 <= i < roots.len() && roots[i].tag == IoMemento::IoObject && 0 <= j < roots[i].kids.len()
            / 2 && #[trigger] def_key_at(roots[i].kids, src, j) ==> reifiable(
            roots[i].kids[2 * j + 1],
            src,
        )
}

/// The float values among the first `k` children.
pub open spec fn doubles_of(kids: Seq<RowNode>, src: Seq<u8>, k: int) -> Seq<ValueView>
    decreases k,
{
    if k <= 0 {
        seq![]
    } else if kids[k - 1].tag == IoMemento::IoDouble {
        doubles_of(kids, src, k - 1).push(reify_of(kids[k - 1], src))
    } else {
        doubles_of(kids, src, k - 1)
    }
}

/// The float values among the children of the first `k` root rows.
pub open spec fn root_doubles(roots: Seq<RowNode>, src: Seq<u8>, k: int) -> Seq<ValueView>
    decreases k,
{
    if k <= 0 {
        seq![]
    } else {
        root_doubles(roots, src, k - 1) + doubles_of(roots[k - 1].kids, src, roots[k - 1].kids.len() as int)
    }
}

/// The float values a declaration field of `doc` may hold (every float child of a root
/// row), for the caller to give each its text before `parse_cbor_type_defs`.
pub fn doc_float_values(doc: &ConfixDoc) -> (r: Vec<Value>)
    ensures
        r@.map_values(|v: Value| v@) == root_doubles(
            tree_of(doc.index@.flat),
            doc.src@,
            tree_of(doc.index@.flat).len() as int,
        ),
{
    let roots = doc.roots();
    let src = doc.src();
    let ghost rv = rows_view(roots@);
    let mut out: Vec<Value> = Vec::new();
    let mut i: usize = 0;
    while i < roots.len()
        invariant
            i <= roots@.len(),
            rv == rows_view(roots@),
            rv == tree_of(doc.index@.flat),
            src@ == doc.src@,
            out@.map_values(|v: Value| v@) == root_doubles(rv, src@, i as int),
        decreases roots@.len() - i,
    {
        let row = &roots[i];
        proof {
            assert(rv[i as int] == row@);
        }
        let ghost base = out@.map_values(|v: Value| v@);
        let ghost kv = row@.kids;
        let mut j: usize = 0;
        while j < row.kids.len()
            invariant
                j <= row.kids@.len(),
                kv == row@.kids,
                kv.len() == row.kids@.len(),
                out@.map_values(|v: Value| v@) == base + doubles_of(kv, src@, j as int),
            decreases row.kids@.len() - j,
        {
            let kid = &row.kids[j];
            proof {
                assert(kv[j as int] == kid@);
            }
            if kid.tag == IoMemento::IoDouble {
                let v = kid.reify(src);
                let ghost before = out@;
                out.push(v);
                assert(out@.map_values(|v: Value| v@) =~= before.map_values(|v: Value| v@).push(v@));
            }
            j = j + 1;
            assert(out@.map_values(|v: Value| v@) =~= base + doubles_of(kv, src@, j as int));
        }
        i = i + 1;
        assert(out@.map_values(|v: Value| v@) =~= root_doubles(rv, src@, i as int));
    }
    out
}

/// The text of a float value in `floats` (see `value_float_text`).
fn float_value_text(floats: &Vec<(Value, String)>, v: &Value) -> (r: String)
    requires
        v is Double || v is Decimal,
    ensures
        r@ == value_float_text(float_table_view(floats@), v@),
{
    let ghost fv = float_table_view(floats@);
    let mut i: usize = 0;
    assert(fv.skip(0) =~= fv);
    while i < floats.len()
        invariant
            i <= floats@.len(),
            v is Double || v is Decimal,
            fv == float_table_view(floats@),
            value_float_text(fv, v@) == value_float_text(fv.skip(i as int), v@),
        decreases floats@.len() - i,
    {
        assert(fv.skip(i as int)[0] == fv[i as int]);
        let same = match (&floats[i].0, v) {
            (Value::Double(a), Value::Double(b)) => *a == *b,
            (Value::Decimal(a), Value::Decimal(b)) => a.eq(b),
            _ => false,
        };
        if same {
            return floats[i].1.clone();
        }
        assert(fv.skip(i as int).drop_first() =~= fv.skip(i + 1));
        i = i + 1;
    }
    assert(fv.skip(i as int) =~= Seq::<(ValueView, Seq<char>)>::empty());
    String::new()
}

/// The text of a field's value (see `field_text`).
fn field_text_exec(v: Value, floats: &Vec<(Value, String)>) -> (r: Option<String>)
    ensures
        match field_text(v@, float_table_view(floats@)) {
            Some(t) => r matches Some(s) && s@ == t,
            None => r is None,
        },
{
    match v {
        Value::Text(t) => Some(t),
        Value::Long(l) => {
            let mut s = String::new();
            push_int(&mut s, l);
            assert(s@ =~= int_text(l));
            Some(s)
        },
        Value::Double(_) => Some(float_value_text(floats, &v)),
        Value::Decimal(_) => Some(float_value_text(floats, &v)),
        Value::Bool(b) => Some(
            if b {
                literal("true")
            } else {
                literal("false")
            },
        ),
        _ => None,
    }
}

/// Whether every field value a declaration of `doc` is read from can be reified (see
/// `defs_reifiable`).
pub fn defs_can_reify(doc: &ConfixDoc) -> (r: bool)
    ensures
        r == defs_reifiable(tree_of(doc.index@.flat), doc.src@),
{
    let roots = doc.roots();
    let src = doc.src();
    let ghost rv = rows_view(roots@);
    let mut i: usize = 0;
    while i < roots.len()
        invariant
            i <= roots@.len(),
            rv == rows_view(roots@),
            rv == tree_of(doc.index@.flat),
            src@ == doc.src@,
            forall|a: int, j: int|
                0 <= a < i && rv[a].tag == IoMemento::IoObject && 0 <= j < rv[a].kids.len() / 2
                    && #[trigger] def_key_at(rv[a].kids, src@, j) ==> reifiable(rv[a].kids[2 * j + 1], src@),
        decreases roots@.len() - i,
    {
        let row = &roots[i];
        proof {
            assert(rv[i as int] == row@);
        }
        if row.tag == IoMemento::IoObject {
            let ghost kv = row@.kids;
            let mut k: usize = 0;
            while k + 1 < row.kids.len()
                invariant
                    k % 2 == 0,
                    k <= row.kids@.len(),
                    kv == row@.kids,
                    kv.len() == row.kids@.len(),
                    row@ == rv[i as int],
                    row.tag == IoMemento::IoObject,
                    rv == rows_view(roots@),
                    rv == tree_of(doc.index@.flat),
                    i < rv.len(),
                    src@ == doc.src@,
                    forall|j: int|
                        0 <= j < k / 2 && #[trigger] def_key_at(kv, src@, j) ==> reifiable(kv[2 * j + 1], src@),
                decreases row.kids@.len() - k,
            {
                let key_row = &row.kids[k];
                let val_row = &row.kids[k + 1];
                proof {
                    assert(kv[k as int] == key_row@);
                    assert(kv[k + 1] == val_row@);
                    assert(2 * (k as int / 2) == k);
                }
                let is_key = if key_row.tag == IoMemento::IoString {
                    match key_row.reify(src) {
                        Value::Text(kt) => kt.eq(&literal("name")) || kt.eq(&literal("referredTo"))
                            || kt.eq(&literal("params")),
                        _ => false,
                    }
                } else {
                    false
                };
                assert(is_key == def_key_at(kv, src@, k as int / 2));
                if is_key && !val_row.can_reify(src) {
                    proof {
                        let j = k as int / 2;
                        assert(rv[i as int].kids == kv);
                        assert(def_key_at(rv[i as int].kids, src@, j));
                        assert(!reifiable(rv[i as int].kids[2 * j + 1], src@));
                        assert(j < kv.len() / 2);
                        assert(rv[i as int].tag == IoMemento::IoObject);
                        assert(0 <= i < rv.len());
                        assert(!defs_reifiable(rv, src@));
                    }
                    return false;
                }
                k = k + 2;
            }
            proof {
                assert(k as int / 2 == kv.len() / 2);
            }
        }
        i = i + 1;
    }
    true
}

impl TypeDefOracle {
    /// Collect the declarations of a CBOR (or any) document: each root object row whose
    /// children hold `name` and `referredTo` fields (and optionally `params`) declares a
    /// type, with source `cbor`. Field values are read as text (see `field_text`); the text
    /// of a float is taken from `floats`, which `doc_float_values` lists the values for.
    pub fn parse_cbor_type_defs(&mut self, doc: &ConfixDoc, floats: &Vec<(Value, String)>)
        requires
            defs_reifiable(tree_of(doc.index@.flat), doc.src@),
        ensures
            final(self)@ == cbor_defs(
                old(self)@,
                tree_of(doc.index@.flat),
                doc.src@,
                float_table_view(floats@),
                tree_of(doc.index@.flat).len() as int,
            ),
    {
        let roots = doc.roots();
        let src = doc.src();
        let ghost rv = rows_view(roots@);
        let ghost fv = float_table_view(floats@);
        let ghost st0 = self@;
        let mut i: usize = 0;
        while i < roots.len()
            invariant
                i <= roots@.len(),
                rv == rows_view(roots@),
                rv == tree_of(doc.index@.flat),
                src@ == doc.src@,
                fv == float_table_view(floats@),
                defs_reifiable(rv, src@),
                self@ == cbor_defs(st0, rv, src@, fv, i as int),
            decreases roots@.len() - i,
        {
            let row = &roots[i];
            proof {
                assert(rv[i as int] == row@);
            }
            if row.tag == IoMemento::IoObject {
                let ghost kv = row@.kids;
                let mut name: Option<String> = None;
                let mut referred: Option<String> = None;
                let mut params: Option<String> = None;
                let mut k: usize = 0;
                while k + 1 < row.kids.len()
                    invariant
                        k % 2 == 0,
                        k <= row.kids@.len(),
                        kv == row@.kids,
                        kv.len() == row.kids@.len(),
                        row@ == rv[i as int],
                        i < rv.len(),
                        row.tag == IoMemento::IoObject,
                        defs_reifiable(rv, src@),
                        fv == float_table_view(floats@),
                        ({
                            let f = def_fields(kv, src@, fv, k as int / 2);
                            &&& (match name {
                                Some(t) => f.0 == Some(t@),
                                None => f.0 is None,
                            })
                            &&& (match referred {
                                Some(t) => f.1 == Some(t@),
                                None => f.1 is None,
                            })
                            &&& (match params {
                                Some(t) => f.2 == Some(t@),
                                None => f.2 is None,
                            })
                        }),
                    decreases row.kids@.len() - k,
                {
                    let key_row = &row.kids[k];
                    let val_row = &row.kids[k + 1];
                    let ghost j = k as int / 2;
                    let ghost prev = def_fields(kv, src@, fv, j);
                    proof {
                        assert(kv[k as int] == key_row@);
                        assert(kv[k + 1] == val_row@);
                        assert((k + 2) as int / 2 == j + 1);
                        assert(2 * (j + 1) - 2 == k);
                        assert(2 * (j + 1) - 1 == k + 1);
                    }
                    if key_row.tag == IoMemento::IoString {
                        match key_row.reify(src) {
                            Value::Text(kt) => {
                                proof {
                                    assert(row_text(kv[2 * (k as int / 2)], src@) == Some(kt@));
                                    if is_def_key(kt@) {
                                        assert(def_key_at(rv[i as int].kids, src@, k as int / 2));
                                    }
                                }
                                if kt.eq(&literal("name")) {
                                    proof {
                                        assert(is_def_key(kt@));
                                    }
                                    name = field_text_exec(val_row.reify(src), floats);
                                } else if kt.eq(&literal("referredTo")) {
                                    proof {
                                        assert(is_def_key(kt@));
                                    }
                                    referred = field_text_exec(val_row.reify(src), floats);
                                } else if kt.eq(&literal("params")) {
                                    proof {
                                        assert(is_def_key(kt@));
                                    }
                                    params = field_text_exec(val_row.reify(src), floats);
                                }
                            },
                            _ => {},
                        }
                    }
                    proof {
                        let f = def_fields(kv, src@, fv, j + 1);
                        assert(f == ({
                            let val = field_text(reify_of(kv[k + 1], src@), fv);
                            match row_text(kv[k as int], src@) {
                                Some(kt) => if kt == "name"@ {
                                    (val, prev.1, prev.2)
                                } else if kt == "referredTo"@ {
                                    (prev.0, val, prev.2)
                                } else if kt == "params"@ {
                                    (prev.0, prev.1, val)
                                } else {
                                    prev
                                },
                                None => prev,
                            }
                        }));
                    }
                    k = k + 2;
                }
                proof {
                    assert(k as int / 2 == kv.len() / 2);
                }
                match (name, referred) {
                    (Some(n), Some(r)) => {
                        let ps = match params {
                            Some(p) => {
                                let cs = chars_of(p.as_str());
                                params_exec(&cs, Some((0, cs.len())))
                            },
                            None => Vec::new(),
                        };
                        let e = TypeDefEntry {
                            name: n,
                            referred_to_type: r,
                            params: ps,
                            source: literal("cbor"),
                        };
                        proof {
                            assert(e@.params =~= cbor_def(row@, src@, fv).unwrap().params);
                        }
                        self.push_entry(e);
                    },
                    _ => {},
                }
            }
            i = i + 1;
        }
    }
}

} // verus!
