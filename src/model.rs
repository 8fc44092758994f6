use vstd::prelude::*;

use crate::graph::{link_cost, Graph, Link};

verus! {

/// The parameters of one search.
#[derive(Clone, Copy)]
pub struct SearchParams {
    pub weighted: bool,
    pub target: Option<usize>,
    pub cutoff: Option<i64>,
    pub first_only: bool,
}

/// A fringe entry: (node, insertion sequence number, tentative distance).
pub type FringeItem = (usize, int, int);

/// The state of a search, one slot per node of the graph.
pub struct SearchState {
    /// Finalized distances.
    pub dist: Seq<Option<int>>,
    /// Best tentative distances found so far.
    pub seen: Seq<Option<int>>,
    /// Every minimal-length path known so far, per node.
    pub paths: Seq<Seq<Seq<usize>>>,
    /// Entries waiting to be popped, in insertion order.
    pub fringe: Seq<FringeItem>,
    /// The last sequence number handed out.
    pub count: int,
}

/// What one iteration of the search loop leads to.
pub enum Step {
    Continue(SearchState),
    Done(SearchState),
    Contradiction,
}

/// Fringe order: by distance, then by sequence number, then by node.
pub open spec fn item_less(a: FringeItem, b: FringeItem) -> bool {
    ||| a.2 < b.2
    ||| (a.2 == b.2 && a.1 < b.1)
    ||| (a.2 == b.2 && a.1 == b.1 && a.0 < b.0)
}

/// The first position of a least entry of a non-empty fringe.
pub open spec fn min_index(f: Seq<FringeItem>) -> int
    decreases f.len(),
{
    if f.len() <= 1 {
        0
    } else {
        let k = min_index(f.drop_last());
        if item_less(f.last(), f[k]) {
            f.len() - 1
        } else {
            k
        }
    }
}

/// Every path of `ps`, with `u` appended.
pub open spec fn extend_paths(ps: Seq<Seq<usize>>, u: usize) -> Seq<Seq<usize>> {
    ps.map_values(|p: Seq<usize>| p.push(u))
}

/// The number of nodes not finalized yet.
pub open spec fn unfinalized(d: Seq<Option<int>>) -> nat
    decreases d.len(),
{
    if d.len() == 0 {
        0
    } else {
        unfinalized(d.drop_last()) + if d.last() is None {
            1nat
        } else {
            0nat
        }
    }
}

/// The state in which a search from `sources` starts on a graph of `n` nodes.
pub open spec fn initial_state(n: nat, sources: Seq<usize>) -> SearchState {
    SearchState {
        dist: Seq::new(n, |i: int| None),
        seen: Seq::new(
            n,
            |i: int|
                if sources.contains(i as usize) {
                    Some(0int)
                } else {
                    None
                },
        ),
        paths: Seq::new(
            n,
            |i: int|
                if sources.contains(i as usize) {
                    seq![seq![i as usize]]
                } else {
                    Seq::empty()
                },
        ),
        fringe: sources.map_values(|s: usize| (s, 0int, 0int)),
        count: 0,
    }
}

/// Relaxing the link `l` out of the just-finalized node `v`; `None` when it
/// shows a shorter path to a node that is already finalized.
pub open spec fn relax(g: Graph, q: SearchParams, s: SearchState, v: usize, l: Link) -> Option<
    SearchState,
> {
    let u = l.to;
    let c = s.dist[v as int]->Some_0 + link_cost(l, q.weighted, g.multi_edges);
    if q.cutoff is Some && c > q.cutoff->Some_0 {
        Some(s)
    } else if s.dist[u as int] is Some {
        if c < s.dist[u as int]->Some_0 {
            None
        } else {
            Some(s)
        }
    } else if s.seen[u as int] is None || c < s.seen[u as int]->Some_0 {
        Some(
            SearchState {
                seen: s.seen.update(u as int, Some(c)),
                paths: s.paths.update(u as int, extend_paths(s.paths[v as int], u)),
                fringe: s.fringe.push((u, s.count + 1, c)),
                count: s.count + 1,
                ..s
            },
        )
    } else if !q.first_only && c == s.seen[u as int]->Some_0 {
        Some(
            SearchState {
                paths: s.paths.update(
                    u as int,
                    s.paths[u as int] + extend_paths(s.paths[v as int], u),
                ),
                fringe: s.fringe.push((u, s.count + 1, c)),
                count: s.count + 1,
                ..s
            },
        )
    } else {
        Some(s)
    }
}

/// Relaxing the first `k` links out of `v`, in adjacency order.
pub open spec fn expand(g: Graph, q: SearchParams, s: SearchState, v: usize, k: nat) -> Option<
    SearchState,
>
    decreases k,
{
    if k == 0 {
        Some(s)
    } else {
        match expand(g, q, s, v, (k - 1) as nat) {
            None => None,
            Some(s1) => relax(g, q, s1, v, g.links(v as int)[k - 1]),
        }
    }
}

/// One iteration of the search loop: pop the least entry, skip it if its node
/// is finalized, else finalize it, stop at the target, or relax its links.
pub open spec fn step(g: Graph, q: SearchParams, s: SearchState) -> Step {
    if s.fringe.len() == 0 {
        Step::Done(s)
    } else {
        let k = min_index(s.fringe);
        let e = s.fringe[k];
        let popped = SearchState { fringe: s.fringe.remove(k), ..s };
        if e.0 >= s.dist.len() || s.dist[e.0 as int] is Some {
            Step::Continue(popped)
        } else {
            let fin = SearchState { dist: popped.dist.update(e.0 as int, Some(e.2)), ..popped };
            if q.target == Some(e.0) {
                Step::Done(fin)
            } else {
                match expand(g, q, fin, e.0, g.links(e.0 as int).len()) {
                    None => Step::Contradiction,
                    Some(s1) => Step::Continue(s1),
                }
            }
        }
    }
}

/// The state in which the search loop ends, or `None` on a contradiction.
pub open spec fn run(g: Graph, q: SearchParams, s: SearchState) -> Option<SearchState>
    decreases unfinalized(s.dist), s.fringe.len(),
    via run_decreases
{
    match step(g, q, s) {
        Step::Done(f) => Some(f),
        Step::Contradiction => None,
        Step::Continue(s1) => run(g, q, s1),
    }
}

pub proof fn lemma_unfinalized_update(d: Seq<Option<int>>, i: int, x: int)
    requires
        0 <= i < d.len(),
        d[i] is None,
    ensures
        unfinalized(d.update(i, Some(x))) + 1 == unfinalized(d),
    decreases d.len(),
{
    let d2 = d.update(i, Some(x));
    if i == d.len() - 1 {
        assert(d2.drop_last() =~= d.drop_last());
    } else {
        assert(d2.drop_last() =~= d.drop_last().update(i, Some(x)));
        lemma_unfinalized_update(d.drop_last(), i, x);
    }
}

pub proof fn lemma_unfinalized_bound(d: Seq<Option<int>>)
    ensures
        unfinalized(d) <= d.len(),
    decreases d.len(),
{
    if d.len() > 0 {
        lemma_unfinalized_bound(d.drop_last());
    }
}

pub proof fn lemma_relax_keeps_dist(g: Graph, q: SearchParams, s: SearchState, v: usize, l: Link)
    ensures
        relax(g, q, s, v, l) matches Some(s1) ==> s1.dist == s.dist && s1.fringe.len()
            >= s.fringe.len(),
{
}

pub proof fn lemma_expand_keeps_dist(g: Graph, q: SearchParams, s: SearchState, v: usize, k: nat)
    ensures
        expand(g, q, s, v, k) matches Some(s1) ==> s1.dist == s.dist,
    decreases k,
{
    if k > 0 {
        lemma_expand_keeps_dist(g, q, s, v, (k - 1) as nat);
        if let Some(s1) = expand(g, q, s, v, (k - 1) as nat) {
            lemma_relax_keeps_dist(g, q, s1, v, g.links(v as int)[k - 1]);
        }
    }
}

pub proof fn lemma_min_index_bound(f: Seq<FringeItem>)
    requires
        f.len() > 0,
    ensures
        0 <= min_index(f) < f.len(),
    decreases f.len(),
{
    if f.len() > 1 {
        lemma_min_index_bound(f.drop_last());
    }
}

pub proof fn lemma_step_decreases(g: Graph, q: SearchParams, s: SearchState)
    ensures
        step(g, q, s) matches Step::Continue(s1) ==> (unfinalized(s1.dist) < unfinalized(s.dist)
            || (unfinalized(s1.dist) == unfinalized(s.dist) && s1.fringe.len() < s.fringe.len())),
{
    if s.fringe.len() > 0 {
        let k = min_index(s.fringe);
        lemma_min_index_bound(s.fringe);
        let e = s.fringe[k];
        let popped = SearchState { fringe: s.fringe.remove(k), ..s };
        if !(e.0 >= s.dist.len() || s.dist[e.0 as int] is Some) {
            let fin = SearchState { dist: popped.dist.update(e.0 as int, Some(e.2)), ..popped };
            lemma_unfinalized_update(s.dist, e.0 as int, e.2);
            lemma_expand_keeps_dist(g, q, fin, e.0, g.links(e.0 as int).len());
        }
    }
}

#[via_fn]
proof fn run_decreases(g: Graph, q: SearchParams, s: SearchState) {
    lemma_step_decreases(g, q, s);
}

} // verus!
