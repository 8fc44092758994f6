use vstd::prelude::*;

use crate::cutoff::{
    costs_non_negative, lemma_expand_opt, lemma_initial_opt, lemma_prefix, lemma_relax_opt,
    lemma_step_opt, opt_core, opt_inv, relaxed, relaxed_all,
};
use crate::graph::{link_cost, min_weight, weight_value, Graph};
use crate::laws::lemma_relax_stable;
use crate::model::{
    expand, extend_paths, initial_state, lemma_min_index_bound, lemma_step_decreases, min_index,
    relax, run, step, unfinalized, SearchParams, SearchState, Step,
};
use crate::query::{params, search_result};
use crate::walks::{
    is_walk, lemma_arc_cost, lemma_walk_cost_non_negative, lemma_walk_nodes, path_set_ok,
    walk_cost,
};

verus! {

/// Every link cost of the query is at least one.
pub open spec fn costs_positive(g: Graph, q: SearchParams) -> bool {
    q.weighted ==> g.positive()
}

/// The last link `a -> b` of a walk has been relaxed, unless `a` is `v` and
/// `b` is not among the ends of its first `m` links.
pub open spec fn covered(g: Graph, a: int, b: usize, v: int, m: int) -> bool {
    a != v || exists|k: int| 0 <= k < m && g.links(v)[k].to == b
}

/// Every walk from a source to a finalized node whose cost is the node's
/// distance is among the node's paths.
pub open spec fn all_ties_kept(g: Graph, q: SearchParams, sources: Seq<usize>, s: SearchState) -> bool {
    forall|x: usize, w: Seq<usize>|
        x < g.node_count() && s.dist[x as int] is Some && #[trigger] is_walk(g, sources, w, x)
            && walk_cost(g, q.weighted, w) == s.dist[x as int]->Some_0 ==> s.paths[x as int].contains(
            w,
        )
}

/// Every walk of least cost to a finalized node is among its paths; every
/// walk to a tentative node whose last link was relaxed, and whose cost is
/// the tentative distance, is among its paths; a source at distance zero
/// keeps its own one-node path.
pub open spec fn ties_inv(
    g: Graph,
    q: SearchParams,
    sources: Seq<usize>,
    s: SearchState,
    v: int,
    m: int,
) -> bool {
    let n = g.node_count();
    &&& opt_core(g, q, sources, s)
    &&& relaxed_all(g, q, s, v, m)
    &&& all_ties_kept(g, q, sources, s)
    &&& forall|b: usize, w: Seq<usize>|
        b < n && s.dist[b as int] is None && s.seen[b as int] is Some && #[trigger] is_walk(
            g,
            sources,
            w,
            b,
        ) && w.len() >= 2 && s.dist[w[w.len() - 2] as int] is Some && covered(
            g,
            w[w.len() - 2] as int,
            b,
            v,
            m,
        ) && walk_cost(g, q.weighted, w) == s.seen[b as int]->Some_0 ==> s.paths[b as int].contains(
            w,
        )
    &&& forall|x: usize|
        x < n && sources.contains(x) && s.dist[x as int] is None && #[trigger] s.seen[x as int]
            == Some(0int) ==> s.paths[x as int].contains(seq![x])
}

proof fn lemma_min_weight_positive(ws: Seq<Option<i32>>)
    requires
        ws.len() >= 1,
        forall|j: int| 0 <= j < ws.len() ==> weight_value(#[trigger] ws[j]) >= 1,
    ensures
        min_weight(ws) >= 1,
    decreases ws.len(),
{
    if ws.len() > 1 {
        lemma_min_weight_positive(ws.drop_last());
    }
}

proof fn lemma_link_cost_positive(g: Graph, q: SearchParams, v: int, i: int)
    requires
        g.wf(),
        costs_positive(g, q),
        0 <= v < g.node_count(),
        0 <= i < g.links(v).len(),
    ensures
        link_cost(g.links(v)[i], q.weighted, g.multi_edges) >= 1,
{
    let l = g.links(v)[i];
    if q.weighted {
        assert forall|j: int| 0 <= j < l.weights@.len() implies weight_value(#[trigger] l.weights@[j]) >= 1 by {
            assert(g.links(v)[i].weights@[j].is_some());
        }
        lemma_min_weight_positive(l.weights@);
    }
}

proof fn lemma_positive_non_negative(g: Graph, q: SearchParams)
    requires
        costs_positive(g, q),
    ensures
        costs_non_negative(g, q),
{
}

/// A walk of two nodes or more is a shorter walk followed by one link.
proof fn lemma_walk_split(g: Graph, weighted: bool, sources: Seq<usize>, w: Seq<usize>, x: usize) -> (k: int)
    requires
        g.wf(),
        forall|j: int| 0 <= j < sources.len() ==> #[trigger] sources[j] < g.node_count(),
        is_walk(g, sources, w, x),
        w.len() >= 2,
    ensures
        w[w.len() - 2] < g.node_count(),
        0 <= k < g.links(w[w.len() - 2] as int).len(),
        g.links(w[w.len() - 2] as int)[k].to == x,
        is_walk(g, sources, w.drop_last(), w[w.len() - 2]),
        walk_cost(g, weighted, w) == walk_cost(g, weighted, w.drop_last()) + link_cost(
            g.links(w[w.len() - 2] as int)[k],
            weighted,
            g.multi_edges,
        ),
        w == w.drop_last().push(x),
{
    let a = w[w.len() - 2];
    let j = w.len() - 2;
    lemma_walk_nodes(g, sources, w, x, j);
    assert(g.adjacent(w[j] as int, w[j + 1] as int));
    let k = choose|k: int| 0 <= k < g.links(a as int).len() && g.links(a as int)[k].to == x;
    lemma_arc_cost(g, weighted, a, k);
    let p = w.drop_last();
    assert forall|i: int| 0 <= i < p.len() - 1 implies #[trigger] g.adjacent(p[i] as int, p[i + 1] as int) by {
        assert(g.adjacent(w[i] as int, w[i + 1] as int));
    }
    assert(w =~= p.push(x));
    k
}

/// A finalized distance is at least zero.
proof fn lemma_dist_non_negative(g: Graph, q: SearchParams, sources: Seq<usize>, s: SearchState, x: int)
    requires
        g.wf(),
        costs_non_negative(g, q),
        forall|j: int| 0 <= j < sources.len() ==> #[trigger] sources[j] < g.node_count(),
        opt_core(g, q, sources, s),
        0 <= x < g.node_count(),
        s.seen[x] is Some,
    ensures
        s.seen[x]->Some_0 >= 0,
{
    assert(path_set_ok(g, q, sources, s.paths[x], x as usize, s.seen[x]->Some_0));
    let p = s.paths[x][0];
    assert(is_walk(g, sources, p, x as usize));
    assert forall|i: int| 0 <= i < p.len() implies #[trigger] p[i] < g.node_count() by {
        lemma_walk_nodes(g, sources, p, x as usize, i);
    }
    lemma_walk_cost_non_negative(g, q.weighted, p);
}

proof fn lemma_relax_ties(g: Graph, q: SearchParams, sources: Seq<usize>, s: SearchState, v: usize, i: int)
    requires
        g.wf(),
        costs_positive(g, q),
        !q.first_only,
        forall|j: int| 0 <= j < sources.len() ==> #[trigger] sources[j] < g.node_count(),
        v < g.node_count(),
        0 <= i < g.links(v as int).len(),
        ties_inv(g, q, sources, s, v as int, i),
        s.dist[v as int] is Some,
    ensures
        relax(g, q, s, v, g.links(v as int)[i]) matches Some(s2) ==> s2.dist == s.dist && ties_inv(
            g,
            q,
            sources,
            s2,
            v as int,
            i + 1,
        ),
{
    let n = g.node_count();
    let l = g.links(v as int)[i];
    let u = l.to;
    lemma_positive_non_negative(g, q);
    lemma_relax_opt(g, q, sources, s, v, i);
    lemma_relax_stable(g, q, s, v, l);
    lemma_link_cost_positive(g, q, v as int, i);
    assert(s.seen[v as int] == s.dist[v as int]);
    lemma_dist_non_negative(g, q, sources, s, v as int);
    let dv = s.dist[v as int]->Some_0;
    let c = dv + link_cost(l, q.weighted, g.multi_edges);
    assert(c >= 1);
    assert(u < n);
    let s2 = relax(g, q, s, v, l)->Some_0;
    assert forall|x: usize|
        x < n && sources.contains(x) && s2.dist[x as int] is None && #[trigger] s2.seen[x as int]
            == Some(0int) implies s2.paths[x as int].contains(seq![x]) by {
        if x == u {
            assert(s.seen[u as int] == Some(0int));
            assert(s2 == s);
        }
    }
    assert forall|b: usize, w: Seq<usize>|
        b < n && s2.dist[b as int] is None && s2.seen[b as int] is Some && #[trigger] is_walk(
            g,
            sources,
            w,
            b,
        ) && w.len() >= 2 && s2.dist[w[w.len() - 2] as int] is Some && covered(
            g,
            w[w.len() - 2] as int,
            b,
            v as int,
            i + 1,
        ) && walk_cost(g, q.weighted, w) == s2.seen[b as int]->Some_0 implies s2.paths[b as int].contains(
        w,
    ) by {
        let k = lemma_walk_split(g, q.weighted, sources, w, b);
        let a = w[w.len() - 2];
        let w1 = w.drop_last();
        if b != u {
            if a == v {
                let k0 = choose|k0: int| 0 <= k0 < i + 1 && g.links(v as int)[k0].to == b;
                assert(k0 != i);
                assert(covered(g, a as int, b, v as int, i));
            }
            assert(s2.paths[b as int] == s.paths[b as int]);
            assert(s2.seen[b as int] == s.seen[b as int]);
            assert(s.paths[b as int].contains(w));
        } else {
            let cw = walk_cost(g, q.weighted, w);
            let ext = extend_paths(s.paths[v as int], u);
            if a == v {
                lemma_arc_cost(g, q.weighted, v, k);
                lemma_arc_cost(g, q.weighted, v, i);
                assert(g.neighbors(v as int).no_duplicates());
                assert(g.neighbors(v as int)[k] == g.neighbors(v as int)[i]);
                assert(k == i);
                assert(is_walk(g, sources, w1, v));
                assert(dv <= walk_cost(g, q.weighted, w1));
                assert(cw >= c);
                if s2.seen[b as int] != s.seen[b as int] || s2.paths[b as int] != s.paths[b as int] {
                    assert(cw == c);
                    assert(walk_cost(g, q.weighted, w1) == dv);
                    assert(s.paths[v as int].contains(w1));
                    let j = choose|j: int| 0 <= j < s.paths[v as int].len() && s.paths[v as int][j] == w1;
                    assert(ext[j] == w);
                    if s.seen[u as int] is None || c < s.seen[u as int]->Some_0 {
                        assert(s2.paths[u as int] == ext);
                    } else {
                        assert(s2.paths[u as int] == s.paths[u as int] + ext);
                        assert((s.paths[u as int] + ext)[s.paths[u as int].len() + j] == w);
                    }
                } else {
                    let e = choose|e: int|
                        0 <= e < s.fringe.len() && (#[trigger] s.fringe[e]).0 == u && s.fringe[e].2
                            == s.seen[u as int]->Some_0;
                    assert(q.cutoff is None || s.fringe[e].2 <= q.cutoff->Some_0 || (sources.contains(s.fringe[e].0) && s.fringe[e].2 == 0));
                }
            } else {
                assert(covered(g, a as int, b, v as int, i));
                assert(relaxed(g, q, s, a as int, k));
                assert(is_walk(g, sources, w1, a));
                assert(s.dist[a as int]->Some_0 <= walk_cost(g, q.weighted, w1));
                if s2.seen[b as int] != s.seen[b as int] {
                    assert(false);
                }
                assert(s.paths[b as int].contains(w));
                let j = choose|j: int| 0 <= j < s.paths[b as int].len() && s.paths[b as int][j] == w;
                if s2.paths[b as int] != s.paths[b as int] {
                    assert(s2.paths[u as int] == s.paths[u as int] + ext);
                    assert((s.paths[u as int] + ext)[j] == w);
                }
            }
        }
    }
}

proof fn lemma_expand_ties(g: Graph, q: SearchParams, sources: Seq<usize>, s: SearchState, v: usize, k: nat)
    requires
        g.wf(),
        costs_positive(g, q),
        !q.first_only,
        forall|j: int| 0 <= j < sources.len() ==> #[trigger] sources[j] < g.node_count(),
        v < g.node_count(),
        k <= g.links(v as int).len(),
        ties_inv(g, q, sources, s, v as int, 0),
        s.dist[v as int] is Some,
    ensures
        expand(g, q, s, v, k) matches Some(s1) ==> s1.dist == s.dist && ties_inv(
            g,
            q,
            sources,
            s1,
            v as int,
            k as int,
        ),
    decreases k,
{
    if k > 0 {
        lemma_expand_ties(g, q, sources, s, v, (k - 1) as nat);
        if let Some(s1) = expand(g, q, s, v, (k - 1) as nat) {
            lemma_relax_ties(g, q, sources, s1, v, k - 1);
        }
    }
}

proof fn lemma_step_ties(g: Graph, q: SearchParams, sources: Seq<usize>, s: SearchState)
    requires
        g.wf(),
        costs_positive(g, q),
        !q.first_only,
        forall|j: int| 0 <= j < sources.len() ==> #[trigger] sources[j] < g.node_count(),
        ties_inv(g, q, sources, s, -1, 0),
    ensures
        step(g, q, s) matches Step::Continue(s1) ==> ties_inv(g, q, sources, s1, -1, 0),
        step(g, q, s) matches Step::Done(s1) ==> all_ties_kept(g, q, sources, s1),
{
    let n = g.node_count();
    lemma_positive_non_negative(g, q);
    lemma_step_opt(g, q, sources, s);
    if s.fringe.len() > 0 {
        let k = min_index(s.fringe);
        lemma_min_index_bound(s.fringe);
        let e = s.fringe[k];
        let popped = SearchState { fringe: s.fringe.remove(k), ..s };
        if e.0 >= s.dist.len() || s.dist[e.0 as int] is Some {
            assert(ties_inv(g, q, sources, popped, -1, 0));
        } else {
            let v = e.0;
            let fin = SearchState { dist: popped.dist.update(v as int, Some(e.2)), ..popped };
            assert forall|x: usize, w: Seq<usize>|
                x < n && fin.dist[x as int] is Some && #[trigger] is_walk(g, sources, w, x)
                    && walk_cost(g, q.weighted, w) == fin.dist[x as int]->Some_0 implies fin.paths[x as int].contains(
                w,
            ) by {
                if x == v {
                    if w.len() == 1 {
                        assert(w =~= seq![v]);
                        assert(s.seen[v as int] == Some(0int));
                    } else {
                        let kk = lemma_walk_split(g, q.weighted, sources, w, x);
                        let a = w[w.len() - 2];
                        let w1 = w.drop_last();
                        lemma_link_cost_positive(g, q, a as int, kk);
                        lemma_prefix(g, q, sources, s, w1, a, w1.len() - 1);
                        assert(w1.take(w1.len() as int) =~= w1);
                        assert forall|i: int| 0 <= i < w1.len() implies #[trigger] w1[i] < n by {
                            lemma_walk_nodes(g, sources, w1, a, i);
                        }
                        lemma_walk_cost_non_negative(g, q.weighted, w1);
                        assert(q.cutoff is None || (s.fringe[k]).2 <= q.cutoff->Some_0 || (
                        sources.contains(s.fringe[k].0) && s.fringe[k].2 == 0));
                        assert(s.dist[a as int] is Some);
                        assert(covered(g, a as int, v, -1, 0));
                    }
                }
            }
            assert forall|b: usize, w: Seq<usize>|
                b < n && fin.dist[b as int] is None && fin.seen[b as int] is Some && #[trigger] is_walk(
                    g,
                    sources,
                    w,
                    b,
                ) && w.len() >= 2 && fin.dist[w[w.len() - 2] as int] is Some && covered(
                    g,
                    w[w.len() - 2] as int,
                    b,
                    v as int,
                    0,
                ) && walk_cost(g, q.weighted, w) == fin.seen[b as int]->Some_0 implies fin.paths[b as int].contains(
                w,
            ) by {
                let kk = lemma_walk_split(g, q.weighted, sources, w, b);
                let a = w[w.len() - 2];
                assert(a != v);
                assert(s.dist[a as int] is Some);
                assert(b != v);
                assert(s.dist[b as int] is None);
                assert(covered(g, a as int, b, -1, 0));
            }
            assert(ties_inv(g, q, sources, fin, v as int, 0));
            let nl = g.links(v as int).len();
            lemma_expand_ties(g, q, sources, fin, v, nl);
            if let Some(s1) = expand(g, q, fin, v, nl) {
                assert forall|a: int, j: int|
                    0 <= a < n && s1.dist[a] is Some && 0 <= j < g.links(a).len() && (a != -1 || j
                        < 0) implies #[trigger] relaxed(g, q, s1, a, j) by {}
                assert forall|b: usize, w: Seq<usize>|
                    b < n && s1.dist[b as int] is None && s1.seen[b as int] is Some && #[trigger] is_walk(
                        g,
                        sources,
                        w,
                        b,
                    ) && w.len() >= 2 && s1.dist[w[w.len() - 2] as int] is Some && covered(
                        g,
                        w[w.len() - 2] as int,
                        b,
                        -1,
                        0,
                    ) && walk_cost(g, q.weighted, w) == s1.seen[b as int]->Some_0 implies s1.paths[b as int].contains(
                    w,
                ) by {
                    let kk = lemma_walk_split(g, q.weighted, sources, w, b);
                    assert(covered(g, w[w.len() - 2] as int, b, v as int, nl as int));
                }
            }
        }
    }
}

proof fn lemma_run_ties(g: Graph, q: SearchParams, sources: Seq<usize>, s: SearchState)
    requires
        g.wf(),
        costs_positive(g, q),
        !q.first_only,
        forall|j: int| 0 <= j < sources.len() ==> #[trigger] sources[j] < g.node_count(),
        ties_inv(g, q, sources, s, -1, 0),
    ensures
        run(g, q, s) matches Some(f) ==> all_ties_kept(g, q, sources, f),
    decreases unfinalized(s.dist), s.fringe.len(),
{
    lemma_step_decreases(g, q, s);
    lemma_step_ties(g, q, sources, s);
    if let Step::Continue(s1) = step(g, q, s) {
        lemma_run_ties(g, q, sources, s1);
    }
}

/// With link costs of at least one (or in an unweighted query), when every
/// tied path is kept, each returned target comes with every walk from a
/// source to it whose cost is the returned distance.
pub proof fn lemma_all_ties_returned(
    g: Graph,
    weighted: bool,
    sources: Seq<usize>,
    target: Option<usize>,
    cutoff: Option<i64>,
)
    requires
        g.wf(),
        weighted ==> g.positive(),
        forall|j: int| 0 <= j < sources.len() ==> #[trigger] sources[j] < g.node_count(),
    ensures
        search_result(g, params(weighted, target, cutoff, false), sources) matches Ok(m) ==> forall|
            t: usize,
            w: Seq<usize>,
        |
            m.contains_key(t) && #[trigger] is_walk(g, sources, w, t) && walk_cost(g, weighted, w)
                == m[t].0 ==> m[t].1.contains(w),
{
    let q = params(weighted, target, cutoff, false);
    let init = initial_state(g.node_count(), sources);
    lemma_initial_opt(g, q, sources);
    assert forall|x: usize|
        x < g.node_count() && sources.contains(x) && init.dist[x as int] is None
            && #[trigger] init.seen[x as int] == Some(0int) implies init.paths[x as int].contains(
        seq![x],
    ) by {
        assert(init.paths[x as int][0] == seq![x]);
    }
    assert forall|bb: usize, w: Seq<usize>|
        bb < g.node_count() && init.dist[bb as int] is None && init.seen[bb as int] is Some
            && #[trigger] is_walk(g, sources, w, bb) && w.len() >= 2 && init.dist[w[w.len()
            - 2] as int] is Some && covered(g, w[w.len() - 2] as int, bb, -1, 0) && walk_cost(
            g,
            q.weighted,
            w,
        ) == init.seen[bb as int]->Some_0 implies init.paths[bb as int].contains(w) by {
        let kk = lemma_walk_split(g, q.weighted, sources, w, bb);
    }
    assert(ties_inv(g, q, sources, init, -1, 0));
    lemma_run_ties(g, q, sources, init);
    crate::walks::lemma_initial_inv(g, q, sources);
    crate::walks::lemma_run_inv(g, q, sources, init);
    if let Ok(m) = search_result(g, q, sources) {
        let f = run(g, q, init)->Some_0;
        assert forall|t: usize, w: Seq<usize>|
            m.contains_key(t) && #[trigger] is_walk(g, sources, w, t) && walk_cost(g, weighted, w)
                == m[t].0 implies m[t].1.contains(w) by {
            assert(f.dist.len() == g.node_count());
            assert(f.dist[t as int] is Some);
        }
    }
}

} // verus!
