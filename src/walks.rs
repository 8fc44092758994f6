use vstd::prelude::*;

use crate::graph::{link_cost, min_weight, weight_value, Graph};
use crate::query::{params, search_result};
use crate::model::{
    expand, extend_paths, initial_state, lemma_min_index_bound, lemma_step_decreases,
    min_index, relax, run, step, unfinalized, FringeItem, SearchParams, SearchState, Step,
};

verus! {

/// The cost of the link from `v` to `u`.
pub open spec fn arc_cost(g: Graph, weighted: bool, v: usize, u: usize) -> int {
    let i = choose|i: int| 0 <= i < g.links(v as int).len() && g.links(v as int)[i].to == u;
    link_cost(g.links(v as int)[i], weighted, g.multi_edges)
}

/// The sum of the link costs along a path.
pub open spec fn walk_cost(g: Graph, weighted: bool, p: Seq<usize>) -> int
    decreases p.len(),
{
    if p.len() <= 1 {
        0
    } else {
        walk_cost(g, weighted, p.drop_last()) + arc_cost(g, weighted, p[p.len() - 2], p.last())
    }
}

/// `p` starts at one of `sources`, follows links of `g`, and ends at `x`.
pub open spec fn is_walk(g: Graph, sources: Seq<usize>, p: Seq<usize>, x: usize) -> bool {
    &&& p.len() >= 1
    &&& sources.contains(p[0])
    &&& p.last() == x
    &&& forall|i: int| 0 <= i < p.len() - 1 ==> #[trigger] g.adjacent(p[i] as int, p[i + 1] as int)
}

/// A non-empty set of walks to `x` (a single one when only the first is
/// kept), each of cost `d`.
pub open spec fn path_set_ok(
    g: Graph,
    q: SearchParams,
    sources: Seq<usize>,
    ps: Seq<Seq<usize>>,
    x: usize,
    d: int,
) -> bool {
    &&& ps.len() >= 1
    &&& q.first_only ==> ps.len() == 1
    &&& forall|j: int|
        0 <= j < ps.len() ==> is_walk(g, sources, #[trigger] ps[j], x) && walk_cost(
            g,
            q.weighted,
            ps[j],
        ) == d
}

/// What holds of every state that a search from `sources` passes through.
pub open spec fn search_inv(g: Graph, q: SearchParams, sources: Seq<usize>, s: SearchState) -> bool {
    let n = g.node_count();
    &&& s.dist.len() == n
    &&& s.seen.len() == n
    &&& s.paths.len() == n
    &&& forall|j: int|
        0 <= j < s.fringe.len() ==> {
            &&& (#[trigger] s.fringe[j]).0 < n
            &&& s.seen[s.fringe[j].0 as int] is Some
            &&& s.seen[s.fringe[j].0 as int]->Some_0 <= s.fringe[j].2
        }
    &&& forall|x: int| 0 <= x < n && (#[trigger] s.dist[x]) is Some ==> s.seen[x] == s.dist[x]
    &&& forall|x: int|
        0 <= x < n && s.dist[x] is None && (#[trigger] s.seen[x]) is Some ==> exists|j: int|
            0 <= j < s.fringe.len() && (#[trigger] s.fringe[j]).0 == x && s.fringe[j].2
                == s.seen[x]->Some_0
    &&& forall|x: int|
        0 <= x < n && (#[trigger] s.seen[x]) is Some ==> path_set_ok(
            g,
            q,
            sources,
            s.paths[x],
            x as usize,
            s.seen[x]->Some_0,
        )
}

pub proof fn lemma_min_index_least(f: Seq<FringeItem>)
    requires
        f.len() > 0,
    ensures
        forall|j: int| 0 <= j < f.len() ==> f[min_index(f)].2 <= (#[trigger] f[j]).2,
    decreases f.len(),
{
    lemma_min_index_bound(f);
    if f.len() > 1 {
        let g = f.drop_last();
        lemma_min_index_least(g);
        lemma_min_index_bound(g);
        assert forall|j: int| 0 <= j < f.len() implies f[min_index(f)].2 <= (#[trigger] f[j]).2 by {
            if j < f.len() - 1 {
                assert(g[j] == f[j]);
            }
        }
    }
}

pub proof fn lemma_arc_cost(g: Graph, weighted: bool, v: usize, i: int)
    requires
        g.wf(),
        v < g.node_count(),
        0 <= i < g.links(v as int).len(),
    ensures
        arc_cost(g, weighted, v, g.links(v as int)[i].to) == link_cost(
            g.links(v as int)[i],
            weighted,
            g.multi_edges,
        ),
        g.adjacent(v as int, g.links(v as int)[i].to as int),
{
    let u = g.links(v as int)[i].to;
    let k = choose|k: int| 0 <= k < g.links(v as int).len() && g.links(v as int)[k].to == u;
    assert(g.neighbors(v as int).no_duplicates());
    assert(g.neighbors(v as int)[k] == g.neighbors(v as int)[i]);
}

pub proof fn lemma_extend_ok(
    g: Graph,
    q: SearchParams,
    sources: Seq<usize>,
    ps: Seq<Seq<usize>>,
    v: usize,
    d: int,
    i: int,
)
    requires
        g.wf(),
        v < g.node_count(),
        0 <= i < g.links(v as int).len(),
        path_set_ok(g, q, sources, ps, v, d),
    ensures
        path_set_ok(
            g,
            q,
            sources,
            extend_paths(ps, g.links(v as int)[i].to),
            g.links(v as int)[i].to,
            d + link_cost(g.links(v as int)[i], q.weighted, g.multi_edges),
        ),
{
    let l = g.links(v as int)[i];
    let u = l.to;
    let ext = extend_paths(ps, u);
    lemma_arc_cost(g, q.weighted, v, i);
    assert forall|j: int| 0 <= j < ext.len() implies is_walk(g, sources, #[trigger] ext[j], u)
        && walk_cost(g, q.weighted, ext[j]) == d + link_cost(l, q.weighted, g.multi_edges) by {
        let p = ps[j];
        assert(is_walk(g, sources, p, v));
        assert(ext[j] == p.push(u));
        assert(ext[j].drop_last() =~= p);
        assert forall|k: int| 0 <= k < ext[j].len() - 1 implies #[trigger] g.adjacent(
            ext[j][k] as int,
            ext[j][k + 1] as int,
        ) by {
            if k < p.len() - 1 {
                assert(g.adjacent(p[k] as int, p[k + 1] as int));
            }
        }
    }
}

proof fn lemma_merge_ok(
    g: Graph,
    q: SearchParams,
    sources: Seq<usize>,
    a: Seq<Seq<usize>>,
    b: Seq<Seq<usize>>,
    u: usize,
    d: int,
)
    requires
        !q.first_only,
        path_set_ok(g, q, sources, a, u, d),
        path_set_ok(g, q, sources, b, u, d),
    ensures
        path_set_ok(g, q, sources, a + b, u, d),
{
    assert forall|j: int| 0 <= j < (a + b).len() implies is_walk(g, sources, #[trigger] (a + b)[j], u)
        && walk_cost(g, q.weighted, (a + b)[j]) == d by {
        if j < a.len() {
            assert((a + b)[j] == a[j]);
        } else {
            assert((a + b)[j] == b[j - a.len()]);
        }
    }
}

pub proof fn lemma_relax_inv(g: Graph, q: SearchParams, sources: Seq<usize>, s: SearchState, v: usize, i: int)
    requires
        g.wf(),
        v < g.node_count(),
        0 <= i < g.links(v as int).len(),
        search_inv(g, q, sources, s),
        s.dist[v as int] is Some,
    ensures
        relax(g, q, s, v, g.links(v as int)[i]) matches Some(s2) ==> s2.dist == s.dist
            && search_inv(g, q, sources, s2),
{
    let n = g.node_count();
    let l = g.links(v as int)[i];
    let u = l.to;
    let c = s.dist[v as int]->Some_0 + link_cost(l, q.weighted, g.multi_edges);
    assert(s.seen[v as int] == s.dist[v as int]);
    assert(u < n);
    if let Some(s2) = relax(g, q, s, v, l) {
        if s2 != s {
            assert(s.dist[u as int] is None);
            assert(path_set_ok(g, q, sources, s.paths[v as int], v, s.dist[v as int]->Some_0));
            lemma_extend_ok(g, q, sources, s.paths[v as int], v, s.dist[v as int]->Some_0, i);
            let ext = extend_paths(s.paths[v as int], u);
            let improves = s.seen[u as int] is None || c < s.seen[u as int]->Some_0;
            if !improves {
                lemma_merge_ok(g, q, sources, s.paths[u as int], ext, u, c);
            }
            let last = s.fringe.len() as int;
            assert(s2.fringe[last] == (u, s.count + 1, c));
            assert forall|j: int| 0 <= j < s2.fringe.len() implies {
                &&& (#[trigger] s2.fringe[j]).0 < n
                &&& s2.seen[s2.fringe[j].0 as int] is Some
                &&& s2.seen[s2.fringe[j].0 as int]->Some_0 <= s2.fringe[j].2
            } by {
                if j < last {
                    assert(s2.fringe[j] == s.fringe[j]);
                }
            }
            assert forall|x: int|
                0 <= x < n && s2.dist[x] is None && (#[trigger] s2.seen[x]) is Some implies exists|j: int|
                0 <= j < s2.fringe.len() && (#[trigger] s2.fringe[j]).0 == x && s2.fringe[j].2
                    == s2.seen[x]->Some_0 by {
                if x == u {
                    assert(s2.fringe[last].0 == x);
                } else {
                    assert(s.seen[x] is Some);
                    let j = choose|j: int|
                        0 <= j < s.fringe.len() && (#[trigger] s.fringe[j]).0 == x && s.fringe[j].2
                            == s.seen[x]->Some_0;
                    assert(s2.fringe[j] == s.fringe[j]);
                }
            }
            assert forall|x: int| 0 <= x < n && (#[trigger] s2.seen[x]) is Some implies path_set_ok(
                g,
                q,
                sources,
                s2.paths[x],
                x as usize,
                s2.seen[x]->Some_0,
            ) by {
                if x != u {
                    assert(s2.paths[x] == s.paths[x]);
                    assert(s2.seen[x] == s.seen[x]);
                }
            }
            assert forall|x: int| 0 <= x < n && (#[trigger] s2.dist[x]) is Some implies s2.seen[x] == s2.dist[x] by {
                assert(x != u);
            }
        }
    }
}

pub proof fn lemma_expand_inv(g: Graph, q: SearchParams, sources: Seq<usize>, s: SearchState, v: usize, k: nat)
    requires
        g.wf(),
        v < g.node_count(),
        k <= g.links(v as int).len(),
        search_inv(g, q, sources, s),
        s.dist[v as int] is Some,
    ensures
        expand(g, q, s, v, k) matches Some(s1) ==> s1.dist == s.dist && search_inv(g, q, sources, s1),
    decreases k,
{
    if k > 0 {
        lemma_expand_inv(g, q, sources, s, v, (k - 1) as nat);
        if let Some(s1) = expand(g, q, s, v, (k - 1) as nat) {
            lemma_relax_inv(g, q, sources, s1, v, k - 1);
        }
    }
}

pub proof fn lemma_step_inv(g: Graph, q: SearchParams, sources: Seq<usize>, s: SearchState)
    requires
        g.wf(),
        search_inv(g, q, sources, s),
    ensures
        step(g, q, s) matches Step::Continue(s1) ==> search_inv(g, q, sources, s1),
        step(g, q, s) matches Step::Done(s1) ==> search_inv(g, q, sources, s1),
        s.fringe.len() > 0 ==> ({
            let e = s.fringe[min_index(s.fringe)];
            let popped = SearchState { fringe: s.fringe.remove(min_index(s.fringe)), ..s };
            if e.0 >= s.dist.len() || s.dist[e.0 as int] is Some {
                search_inv(g, q, sources, popped)
            } else {
                search_inv(
                    g,
                    q,
                    sources,
                    SearchState { dist: popped.dist.update(e.0 as int, Some(e.2)), ..popped },
                )
            }
        }),
{
    let n = g.node_count();
    if s.fringe.len() > 0 {
        let k = min_index(s.fringe);
        lemma_min_index_bound(s.fringe);
        lemma_min_index_least(s.fringe);
        let e = s.fringe[k];
        let popped = SearchState { fringe: s.fringe.remove(k), ..s };
        assert forall|j: int| 0 <= j < popped.fringe.len() implies #[trigger] popped.fringe[j] == s.fringe[
            if j < k { j } else { j + 1 }
        ] by {}
        assert forall|x: int|
            0 <= x < n && s.dist[x] is None && x != e.0 && (#[trigger] s.seen[x]) is Some implies exists|j: int|
            0 <= j < popped.fringe.len() && (#[trigger] popped.fringe[j]).0 == x && popped.fringe[j].2
                == s.seen[x]->Some_0 by {
            let j = choose|j: int|
                0 <= j < s.fringe.len() && (#[trigger] s.fringe[j]).0 == x && s.fringe[j].2
                    == s.seen[x]->Some_0;
            let j2 = if j < k { j } else { j - 1 };
            assert(popped.fringe[j2] == s.fringe[j]);
        }
        if s.dist[e.0 as int] is Some {
            assert(search_inv(g, q, sources, popped));
        } else {
            let fin = SearchState { dist: popped.dist.update(e.0 as int, Some(e.2)), ..popped };
            assert(s.seen[e.0 as int] is Some);
            let j = choose|j: int|
                0 <= j < s.fringe.len() && (#[trigger] s.fringe[j]).0 == e.0 && s.fringe[j].2
                    == s.seen[e.0 as int]->Some_0;
            assert(s.fringe[j].2 >= e.2);
            assert(s.seen[e.0 as int] == Some(e.2));
            assert(search_inv(g, q, sources, fin));
            if q.target != Some(e.0) {
                lemma_expand_inv(g, q, sources, fin, e.0, g.links(e.0 as int).len());
            }
        }
    }
}

pub proof fn lemma_run_inv(g: Graph, q: SearchParams, sources: Seq<usize>, s: SearchState)
    requires
        g.wf(),
        search_inv(g, q, sources, s),
    ensures
        run(g, q, s) matches Some(f) ==> search_inv(g, q, sources, f),
    decreases unfinalized(s.dist), s.fringe.len(),
{
    lemma_step_decreases(g, q, s);
    lemma_step_inv(g, q, sources, s);
    if let Step::Continue(s1) = step(g, q, s) {
        lemma_run_inv(g, q, sources, s1);
    }
}

pub proof fn lemma_initial_inv(g: Graph, q: SearchParams, sources: Seq<usize>)
    requires
        g.wf(),
        forall|i: int| 0 <= i < sources.len() ==> #[trigger] sources[i] < g.node_count(),
    ensures
        search_inv(g, q, sources, initial_state(g.node_count(), sources)),
{
    let n = g.node_count();
    let s = initial_state(n, sources);
    assert forall|j: int| 0 <= j < s.fringe.len() implies {
        &&& (#[trigger] s.fringe[j]).0 < n
        &&& s.seen[s.fringe[j].0 as int] is Some
        &&& s.seen[s.fringe[j].0 as int]->Some_0 <= s.fringe[j].2
    } by {
        assert(s.fringe[j] == (sources[j], 0int, 0int));
        assert(sources.contains(sources[j]));
    }
    assert forall|x: int|
        0 <= x < n && s.dist[x] is None && (#[trigger] s.seen[x]) is Some implies exists|j: int|
        0 <= j < s.fringe.len() && (#[trigger] s.fringe[j]).0 == x && s.fringe[j].2
            == s.seen[x]->Some_0 by {
        let j = choose|j: int| 0 <= j < sources.len() && sources[j] == x as usize;
        assert(s.fringe[j] == (sources[j], 0int, 0int));
    }
    assert forall|x: int| 0 <= x < n && (#[trigger] s.seen[x]) is Some implies path_set_ok(
        g,
        q,
        sources,
        s.paths[x],
        x as usize,
        s.seen[x]->Some_0,
    ) by {
        let p = seq![x as usize];
        assert(s.paths[x] == seq![p]);
        assert(is_walk(g, sources, p, x as usize));
    }
}

/// Every target that a query returns comes with at least one path, and with
/// exactly one when only the first path is kept; each path is a walk along
/// links of the graph from one of the sources to that target, and its cost is
/// the distance returned with it (so all paths to one target cost the same).
pub proof fn lemma_result_paths(
    g: Graph,
    weighted: bool,
    sources: Seq<usize>,
    target: Option<usize>,
    cutoff: Option<i64>,
    first_only: bool,
)
    requires
        g.wf(),
        forall|i: int| 0 <= i < sources.len() ==> #[trigger] sources[i] < g.node_count(),
    ensures
        search_result(g, params(weighted, target, cutoff, first_only), sources) matches Ok(m)
            ==> forall|t: usize|
            #[trigger] m.contains_key(t) ==> path_set_ok(
                g,
                params(weighted, target, cutoff, first_only),
                sources,
                m[t].1,
                t,
                m[t].0,
            ),
{
    let q = params(weighted, target, cutoff, first_only);
    lemma_initial_inv(g, q, sources);
    lemma_run_inv(g, q, sources, initial_state(g.node_count(), sources));
    if let Ok(m) = search_result(g, q, sources) {
        let f = run(g, q, initial_state(g.node_count(), sources))->Some_0;
        assert forall|t: usize| #[trigger] m.contains_key(t) implies path_set_ok(g, q, sources, m[t].1, t, m[t].0) by {
            assert(f.seen[t as int] == f.dist[t as int]);
        }
    }
}

pub proof fn lemma_min_weight_non_negative(ws: Seq<Option<i32>>)
    requires
        ws.len() >= 1,
        forall|j: int| 0 <= j < ws.len() ==> weight_value(#[trigger] ws[j]) >= 0,
    ensures
        min_weight(ws) >= 0,
    decreases ws.len(),
{
    if ws.len() > 1 {
        lemma_min_weight_non_negative(ws.drop_last());
    }
}

pub proof fn lemma_walk_nodes(g: Graph, sources: Seq<usize>, p: Seq<usize>, x: usize, i: int)
    requires
        g.wf(),
        forall|k: int| 0 <= k < sources.len() ==> #[trigger] sources[k] < g.node_count(),
        is_walk(g, sources, p, x),
        0 <= i < p.len(),
    ensures
        p[i] < g.node_count(),
    decreases i,
{
    if i > 0 {
        lemma_walk_nodes(g, sources, p, x, i - 1);
        let k = i - 1;
        assert(g.adjacent(p[k] as int, p[k + 1] as int));
        let w = p[i - 1] as int;
        let j = choose|j: int| 0 <= j < g.links(w).len() && g.links(w)[j].to == p[i];
        assert(g.links(w)[j].to < g.node_count());
    }
}

pub proof fn lemma_walk_cost_non_negative(g: Graph, weighted: bool, p: Seq<usize>)
    requires
        g.wf(),
        weighted ==> g.non_negative(),
        forall|k: int| 0 <= k < p.len() ==> #[trigger] p[k] < g.node_count(),
        forall|k: int| 0 <= k < p.len() - 1 ==> #[trigger] g.adjacent(p[k] as int, p[k + 1] as int),
    ensures
        walk_cost(g, weighted, p) >= 0,
    decreases p.len(),
{
    if p.len() > 1 {
        let q = p.drop_last();
        assert forall|k: int| 0 <= k < q.len() - 1 implies #[trigger] g.adjacent(q[k] as int, q[k + 1] as int) by {
            assert(g.adjacent(p[k] as int, p[k + 1] as int));
        }
        lemma_walk_cost_non_negative(g, weighted, q);
        let v = p[p.len() - 2];
        let u = p.last();
        let k = p.len() - 2;
        assert(g.adjacent(p[k] as int, p[k + 1] as int));
        let i = choose|i: int| 0 <= i < g.links(v as int).len() && g.links(v as int)[i].to == u;
        let l = g.links(v as int)[i];
        if weighted {
            assert forall|j: int| 0 <= j < l.weights@.len() implies weight_value(#[trigger] l.weights@[j]) >= 0 by {
                assert(g.links(v as int)[i].weights@[j].is_some());
            }
            lemma_min_weight_non_negative(l.weights@);
        }
        assert(link_cost(l, weighted, g.multi_edges) >= 0);
    }
}

/// When no weight is negative, or in an unweighted query, every distance
/// that a query returns is at least zero.
pub proof fn lemma_distances_non_negative(
    g: Graph,
    weighted: bool,
    sources: Seq<usize>,
    target: Option<usize>,
    cutoff: Option<i64>,
    first_only: bool,
)
    requires
        g.wf(),
        weighted ==> g.non_negative(),
        forall|i: int| 0 <= i < sources.len() ==> #[trigger] sources[i] < g.node_count(),
    ensures
        search_result(g, params(weighted, target, cutoff, first_only), sources) matches Ok(m)
            ==> forall|t: usize| #[trigger] m.contains_key(t) ==> m[t].0 >= 0,
{
    let q = params(weighted, target, cutoff, first_only);
    lemma_result_paths(g, weighted, sources, target, cutoff, first_only);
    if let Ok(m) = search_result(g, q, sources) {
        assert forall|t: usize| #[trigger] m.contains_key(t) implies m[t].0 >= 0 by {
            let p = m[t].1[0];
            assert(is_walk(g, sources, p, t));
            assert forall|k: int| 0 <= k < p.len() implies #[trigger] p[k] < g.node_count() by {
                lemma_walk_nodes(g, sources, p, t, k);
            }
            lemma_walk_cost_non_negative(g, weighted, p);
        }
    }
}

} // verus!
