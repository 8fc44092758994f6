use vstd::prelude::*;

use crate::graph::{link_cost, weight_value, Graph};
use crate::model::{
    expand, extend_paths, initial_state, lemma_min_index_bound, lemma_step_decreases, min_index, relax, run,
    step, unfinalized, SearchParams, SearchState, Step,
};
use crate::query::{params, search_result};
use crate::walks::{
    is_walk, lemma_extend_ok, lemma_initial_inv, lemma_min_weight_non_negative, lemma_min_index_least, lemma_relax_inv, lemma_step_inv, lemma_walk_cost_non_negative, lemma_walk_nodes, path_set_ok,
    search_inv, walk_cost,
};

verus! {

/// Every link cost of the query is at least zero.
pub open spec fn costs_non_negative(g: Graph, q: SearchParams) -> bool {
    q.weighted ==> g.non_negative()
}

/// The link `k` out of the finalized node `a` has been relaxed: it was cut
/// off, or its end is finalized, or its end has a tentative distance no
/// larger than the one through `a`.
pub open spec fn relaxed(g: Graph, q: SearchParams, s: SearchState, a: int, k: int) -> bool {
    let l = g.links(a)[k];
    let b = l.to as int;
    let c = s.dist[a]->Some_0 + link_cost(l, q.weighted, g.multi_edges);
    ||| (q.cutoff is Some && c > q.cutoff->Some_0)
    ||| s.dist[b] is Some
    ||| (s.seen[b] is Some && s.seen[b]->Some_0 <= c)
}

/// Every link out of a finalized node is relaxed, but for the links of `v`
/// from the `m`-th on.
pub open spec fn relaxed_all(g: Graph, q: SearchParams, s: SearchState, v: int, m: int) -> bool {
    forall|a: int, k: int|
        0 <= a < g.node_count() && s.dist[a] is Some && 0 <= k < g.links(a).len() && (a != v || k
            < m) ==> #[trigger] relaxed(g, q, s, a, k)
}

/// Facts of a search with no negative link cost, besides the relaxed links.
pub open spec fn opt_core(g: Graph, q: SearchParams, sources: Seq<usize>, s: SearchState) -> bool {
    let n = g.node_count();
    &&& search_inv(g, q, sources, s)
    &&& forall|i: int|
        0 <= i < sources.len() ==> s.seen[#[trigger] sources[i] as int] is Some && s.seen[sources[i] as int]->Some_0 <= 0
    &&& forall|j: int|
        0 <= j < s.fringe.len() ==> (q.cutoff is None || (#[trigger] s.fringe[j]).2
            <= q.cutoff->Some_0) || (sources.contains(s.fringe[j].0) && s.fringe[j].2 == 0)
    &&& forall|x: int|
        0 <= x < n && (#[trigger] s.dist[x]) is Some ==> (q.cutoff is None || s.dist[x]->Some_0
            <= q.cutoff->Some_0) || (sources.contains(x as usize) && s.dist[x]->Some_0 == 0)
    &&& forall|x: usize, w: Seq<usize>|
        x < n && s.dist[x as int] is Some && #[trigger] is_walk(g, sources, w, x) ==> s.dist[x as int]->Some_0
            <= walk_cost(g, q.weighted, w)
}

pub open spec fn opt_inv(g: Graph, q: SearchParams, sources: Seq<usize>, s: SearchState) -> bool {
    opt_core(g, q, sources, s) && relaxed_all(g, q, s, -1, 0)
}

pub proof fn lemma_link_cost_non_negative(g: Graph, q: SearchParams, v: int, i: int)
    requires
        g.wf(),
        costs_non_negative(g, q),
        0 <= v < g.node_count(),
        0 <= i < g.links(v).len(),
    ensures
        link_cost(g.links(v)[i], q.weighted, g.multi_edges) >= 0,
{
    let l = g.links(v)[i];
    if q.weighted {
        assert forall|j: int| 0 <= j < l.weights@.len() implies weight_value(#[trigger] l.weights@[j]) >= 0 by {
            assert(g.links(v)[i].weights@[j].is_some());
        }
        lemma_min_weight_non_negative(l.weights@);
    }
}

pub proof fn lemma_relax_opt(g: Graph, q: SearchParams, sources: Seq<usize>, s: SearchState, v: usize, i: int)
    requires
        g.wf(),
        costs_non_negative(g, q),
        forall|k: int| 0 <= k < sources.len() ==> #[trigger] sources[k] < g.node_count(),
        v < g.node_count(),
        0 <= i < g.links(v as int).len(),
        opt_core(g, q, sources, s),
        relaxed_all(g, q, s, v as int, i),
        s.dist[v as int] is Some,
    ensures
        relax(g, q, s, v, g.links(v as int)[i]) is Some,
        relax(g, q, s, v, g.links(v as int)[i]) matches Some(s2) ==> s2.dist == s.dist && opt_core(
            g,
            q,
            sources,
            s2,
        ) && relaxed_all(g, q, s2, v as int, i + 1),
{
    let n = g.node_count();
    let l = g.links(v as int)[i];
    lemma_relax_inv(g, q, sources, s, v, i);
    let u = l.to;
    if s.dist[u as int] is Some {
        assert(s.seen[v as int] == s.dist[v as int]);
        assert(path_set_ok(g, q, sources, s.paths[v as int], v, s.dist[v as int]->Some_0));
        lemma_extend_ok(g, q, sources, s.paths[v as int], v, s.dist[v as int]->Some_0, i);
        let p = extend_paths(s.paths[v as int], u)[0];
        assert(is_walk(g, sources, p, u));
        assert(u < n);
    }
    if let Some(s2) = relax(g, q, s, v, l) {
        assert forall|x: int| 0 <= x < n && s.seen[x] is Some implies (#[trigger] s2.seen[x]) is Some
            && s2.seen[x]->Some_0 <= s.seen[x]->Some_0 by {}
        assert forall|a: int, k: int|
            0 <= a < n && s2.dist[a] is Some && 0 <= k < g.links(a).len() && (a != v || k < i + 1) implies #[trigger] relaxed(
            g,
            q,
            s2,
            a,
            k,
        ) by {
            if a != v || k < i {
                assert(relaxed(g, q, s, a, k));
                assert(g.links(a)[k].to < n);
            }
        }
        let last = s.fringe.len() as int;
        assert forall|j: int| 0 <= j < s2.fringe.len() implies (q.cutoff is None || (
        #[trigger] s2.fringe[j]).2 <= q.cutoff->Some_0) || (sources.contains(s2.fringe[j].0)
            && s2.fringe[j].2 == 0) by {
            if j < last {
                assert(s2.fringe[j] == s.fringe[j]);
            }
        }
        assert forall|k: int| 0 <= k < sources.len() implies s2.seen[#[trigger] sources[k] as int] is Some
            && s2.seen[sources[k] as int]->Some_0 <= 0 by {
            assert(s.seen[sources[k] as int] is Some);
        }
    }
}

pub proof fn lemma_expand_opt(g: Graph, q: SearchParams, sources: Seq<usize>, s: SearchState, v: usize, k: nat)
    requires
        g.wf(),
        costs_non_negative(g, q),
        forall|k: int| 0 <= k < sources.len() ==> #[trigger] sources[k] < g.node_count(),
        v < g.node_count(),
        k <= g.links(v as int).len(),
        opt_core(g, q, sources, s),
        relaxed_all(g, q, s, v as int, 0),
        s.dist[v as int] is Some,
    ensures
        expand(g, q, s, v, k) is Some,
        expand(g, q, s, v, k) matches Some(s1) ==> s1.dist == s.dist && opt_core(g, q, sources, s1)
            && relaxed_all(g, q, s1, v as int, k as int),
    decreases k,
{
    if k > 0 {
        lemma_expand_opt(g, q, sources, s, v, (k - 1) as nat);
        if let Some(s1) = expand(g, q, s, v, (k - 1) as nat) {
            lemma_relax_opt(g, q, sources, s1, v, k - 1);
        }
    }
}

/// Along a walk `w`, the prefix up to position `i` has a cost no smaller than
/// a fringe entry's distance, or beyond the cutoff, or than the finalized
/// distance of its last node.
pub proof fn lemma_prefix(g: Graph, q: SearchParams, sources: Seq<usize>, s: SearchState, w: Seq<usize>, x: usize, i: int)
    requires
        g.wf(),
        costs_non_negative(g, q),
        forall|k: int| 0 <= k < sources.len() ==> #[trigger] sources[k] < g.node_count(),
        opt_inv(g, q, sources, s),
        is_walk(g, sources, w, x),
        0 <= i < w.len(),
    ensures
        ({
            let c = walk_cost(g, q.weighted, w.take(i + 1));
            ||| exists|j: int| 0 <= j < s.fringe.len() && (#[trigger] s.fringe[j]).2 <= c
            ||| (q.cutoff is Some && c > q.cutoff->Some_0)
            ||| (s.dist[w[i] as int] is Some && s.dist[w[i] as int]->Some_0 <= c)
        }),
    decreases i,
{
    let n = g.node_count();
    let p = w.take(i + 1);
    let c = walk_cost(g, q.weighted, p);
    lemma_walk_nodes(g, sources, w, x, i);
    assert forall|k: int| 0 <= k < p.len() - 1 implies #[trigger] g.adjacent(p[k] as int, p[k + 1] as int) by {
        assert(g.adjacent(w[k] as int, w[k + 1] as int));
    }
    assert(is_walk(g, sources, p, w[i]));
    if i == 0 {
        let s0 = w[0];
        let k0 = choose|k: int| 0 <= k < sources.len() && sources[k] == s0;
        assert(s.seen[sources[k0] as int] is Some);
        if s.dist[s0 as int] is None {
            let j = choose|j: int|
                0 <= j < s.fringe.len() && (#[trigger] s.fringe[j]).0 == s0 && s.fringe[j].2
                    == s.seen[s0 as int]->Some_0;
            assert(s.fringe[j].2 <= c);
        }
    } else {
        lemma_prefix(g, q, sources, s, w, x, i - 1);
        let pp = w.take(i);
        assert(p.drop_last() =~= pp);
        let a = w[i - 1];
        let b = w[i];
        lemma_walk_nodes(g, sources, w, x, i - 1);
        assert(g.adjacent(w[i - 1] as int, w[(i - 1) + 1] as int));
        let k = choose|k: int| 0 <= k < g.links(a as int).len() && g.links(a as int)[k].to == b;
        crate::walks::lemma_arc_cost(g, q.weighted, a, k);
        lemma_link_cost_non_negative(g, q, a as int, k);
        assert(c == walk_cost(g, q.weighted, pp) + link_cost(g.links(a as int)[k], q.weighted, g.multi_edges));
        if s.dist[a as int] is Some && s.dist[a as int]->Some_0 <= walk_cost(g, q.weighted, pp) {
            if s.dist[b as int] is None {
                assert(relaxed(g, q, s, a as int, k));
                if s.seen[b as int] is Some && !(q.cutoff is Some && s.dist[a as int]->Some_0
                    + link_cost(g.links(a as int)[k], q.weighted, g.multi_edges) > q.cutoff->Some_0) {
                    let j = choose|j: int|
                        0 <= j < s.fringe.len() && (#[trigger] s.fringe[j]).0 == b && s.fringe[j].2
                            == s.seen[b as int]->Some_0;
                    assert(s.fringe[j].2 <= c);
                }
            }
        } else if exists|j: int| 0 <= j < s.fringe.len() && (#[trigger] s.fringe[j]).2 <= walk_cost(g, q.weighted, pp) {
            let j = choose|j: int| 0 <= j < s.fringe.len() && (#[trigger] s.fringe[j]).2 <= walk_cost(g, q.weighted, pp);
            assert(s.fringe[j].2 <= c);
        }
    }
}

pub proof fn lemma_step_opt(g: Graph, q: SearchParams, sources: Seq<usize>, s: SearchState)
    requires
        g.wf(),
        costs_non_negative(g, q),
        forall|k: int| 0 <= k < sources.len() ==> #[trigger] sources[k] < g.node_count(),
        opt_inv(g, q, sources, s),
    ensures
        !(step(g, q, s) is Contradiction),
        step(g, q, s) matches Step::Continue(s1) ==> opt_inv(g, q, sources, s1),
        step(g, q, s) matches Step::Done(s1) ==> q.target is None ==> opt_inv(g, q, sources, s1)
            && s1.fringe.len() == 0,
        s.fringe.len() > 0 ==> ({
            let e = s.fringe[min_index(s.fringe)];
            let popped = SearchState { fringe: s.fringe.remove(min_index(s.fringe)), ..s };
            if e.0 >= s.dist.len() || s.dist[e.0 as int] is Some {
                opt_inv(g, q, sources, popped)
            } else {
                let fin = SearchState { dist: popped.dist.update(e.0 as int, Some(e.2)), ..popped };
                &&& opt_core(g, q, sources, fin)
                &&& relaxed_all(g, q, fin, e.0 as int, 0)
                &&& s.seen[e.0 as int] == Some(e.2)
                &&& forall|j: int| 0 <= j < s.fringe.len() ==> e.2 <= (#[trigger] s.fringe[j]).2
            }
        }),
{
    let n = g.node_count();
    lemma_step_inv(g, q, sources, s);
    if s.fringe.len() > 0 {
        let k = min_index(s.fringe);
        lemma_min_index_bound(s.fringe);
        lemma_min_index_least(s.fringe);
        let e = s.fringe[k];
        let popped = SearchState { fringe: s.fringe.remove(k), ..s };
        assert forall|j: int| 0 <= j < popped.fringe.len() implies (q.cutoff is None || (
        #[trigger] popped.fringe[j]).2 <= q.cutoff->Some_0) || (sources.contains(popped.fringe[j].0)
            && popped.fringe[j].2 == 0) by {
            let j2 = if j < k { j } else { j + 1 };
            assert(popped.fringe[j] == s.fringe[j2]);
        }
        if e.0 >= s.dist.len() || s.dist[e.0 as int] is Some {
            assert forall|a: int, j: int|
                0 <= a < n && popped.dist[a] is Some && 0 <= j < g.links(a).len() && (a != -1 || j < 0) implies #[trigger] relaxed(
                g,
                q,
                popped,
                a,
                j,
            ) by {
                assert(relaxed(g, q, s, a, j));
            }
            assert(opt_core(g, q, sources, popped));
        } else {
            let v = e.0;
            let fin = SearchState { dist: popped.dist.update(v as int, Some(e.2)), ..popped };
            assert forall|x: usize, w: Seq<usize>|
                x < n && fin.dist[x as int] is Some && #[trigger] is_walk(g, sources, w, x) implies fin.dist[x as int]->Some_0
                <= walk_cost(g, q.weighted, w) by {
                if x == v {
                    lemma_prefix(g, q, sources, s, w, x, w.len() - 1);
                    assert(w.take(w.len() as int) =~= w);
                    assert forall|i: int| 0 <= i < w.len() implies #[trigger] w[i] < n by {
                        lemma_walk_nodes(g, sources, w, x, i);
                    }
                    lemma_walk_cost_non_negative(g, q.weighted, w);
                }
            }
            assert forall|a: int, j: int|
                0 <= a < n && fin.dist[a] is Some && 0 <= j < g.links(a).len() && (a != v || j < 0) implies #[trigger] relaxed(
                g,
                q,
                fin,
                a,
                j,
            ) by {
                assert(relaxed(g, q, s, a, j));
                assert(g.links(a)[j].to < n);
            }
            assert(opt_core(g, q, sources, fin));
            let nl = g.links(v as int).len();
            lemma_expand_opt(g, q, sources, fin, v, nl);
            if let Some(s1) = expand(g, q, fin, v, nl) {
                assert forall|a: int, j: int|
                    0 <= a < n && s1.dist[a] is Some && 0 <= j < g.links(a).len() && (a != -1 || j < 0) implies #[trigger] relaxed(
                    g,
                    q,
                    s1,
                    a,
                    j,
                ) by {}
            }
        }
    }
}

proof fn lemma_run_opt(g: Graph, q: SearchParams, sources: Seq<usize>, s: SearchState)
    requires
        g.wf(),
        costs_non_negative(g, q),
        forall|k: int| 0 <= k < sources.len() ==> #[trigger] sources[k] < g.node_count(),
        opt_inv(g, q, sources, s),
    ensures
        run(g, q, s) is Some,
        run(g, q, s) matches Some(f) ==> q.target is None ==> opt_inv(g, q, sources, f)
            && f.fringe.len() == 0,
    decreases unfinalized(s.dist), s.fringe.len(),
{
    lemma_step_decreases(g, q, s);
    lemma_step_opt(g, q, sources, s);
    if let Step::Continue(s1) = step(g, q, s) {
        lemma_run_opt(g, q, sources, s1);
    }
}

pub proof fn lemma_initial_opt(g: Graph, q: SearchParams, sources: Seq<usize>)
    requires
        g.wf(),
        forall|k: int| 0 <= k < sources.len() ==> #[trigger] sources[k] < g.node_count(),
    ensures
        opt_inv(g, q, sources, initial_state(g.node_count(), sources)),
{
    let s = initial_state(g.node_count(), sources);
    lemma_initial_inv(g, q, sources);
    assert forall|i: int| 0 <= i < sources.len() implies s.seen[#[trigger] sources[i] as int] is Some
        && s.seen[sources[i] as int]->Some_0 <= 0 by {
        assert(sources.contains(sources[i]));
    }
    assert forall|j: int| 0 <= j < s.fringe.len() implies (q.cutoff is None || (
    #[trigger] s.fringe[j]).2 <= q.cutoff->Some_0) || (sources.contains(s.fringe[j].0)
        && s.fringe[j].2 == 0) by {
        assert(s.fringe[j] == (sources[j], 0int, 0int));
        assert(sources.contains(sources[j]));
    }
}

/// In a search that ran until its fringe emptied, the end of every walk from
/// a source whose cost stays within the cutoff is finalized.
proof fn lemma_complete(g: Graph, q: SearchParams, sources: Seq<usize>, f: SearchState, w: Seq<usize>, x: usize)
    requires
        g.wf(),
        costs_non_negative(g, q),
        forall|k: int| 0 <= k < sources.len() ==> #[trigger] sources[k] < g.node_count(),
        opt_inv(g, q, sources, f),
        f.fringe.len() == 0,
        is_walk(g, sources, w, x),
        w.len() == 1 || q.cutoff is None || walk_cost(g, q.weighted, w) <= q.cutoff->Some_0,
    ensures
        f.dist[x as int] is Some,
{
    if w.len() == 1 {
        let k0 = choose|k: int| 0 <= k < sources.len() && sources[k] == w[0];
        assert(f.seen[sources[k0] as int] is Some);
        if f.dist[x as int] is None {
            let j = choose|j: int|
                0 <= j < f.fringe.len() && (#[trigger] f.fringe[j]).0 == x && f.fringe[j].2
                    == f.seen[x as int]->Some_0;
        }
    } else {
        lemma_prefix(g, q, sources, f, w, x, w.len() - 1);
        assert(w.take(w.len() as int) =~= w);
    }
}

/// With no negative link cost, every node that a query reaches under a cutoff
/// is also reached under any larger cutoff.
pub proof fn lemma_cutoff_monotone(
    g: Graph,
    weighted: bool,
    sources: Seq<usize>,
    c1: i64,
    c2: i64,
    first_only: bool,
)
    requires
        g.wf(),
        weighted ==> g.non_negative(),
        forall|k: int| 0 <= k < sources.len() ==> #[trigger] sources[k] < g.node_count(),
        c1 <= c2,
    ensures
        search_result(g, params(weighted, None, Some(c1), first_only), sources) matches Ok(m1)
            ==> search_result(g, params(weighted, None, Some(c2), first_only), sources) matches Ok(
            m2,
        ) ==> m1.dom().subset_of(m2.dom()),
{
    let q1 = params(weighted, None, Some(c1), first_only);
    let q2 = params(weighted, None, Some(c2), first_only);
    let init = initial_state(g.node_count(), sources);
    lemma_initial_opt(g, q1, sources);
    lemma_initial_opt(g, q2, sources);
    lemma_run_opt(g, q1, sources, init);
    lemma_run_opt(g, q2, sources, init);
    if let Ok(m1) = search_result(g, q1, sources) {
        if let Ok(m2) = search_result(g, q2, sources) {
            let f1 = run(g, q1, init)->Some_0;
            let f2 = run(g, q2, init)->Some_0;
            assert forall|t: usize| m1.dom().contains(t) implies m2.dom().contains(t) by {
                assert(f1.dist[t as int] is Some);
                if sources.contains(t) && f1.dist[t as int]->Some_0 == 0 {
                    lemma_complete(g, q2, sources, f2, seq![t], t);
                } else {
                    assert(f1.seen[t as int] == f1.dist[t as int]);
                    assert(path_set_ok(g, q1, sources, f1.paths[t as int], t, f1.seen[t as int]->Some_0));
                    let p = f1.paths[t as int][0];
                    assert(is_walk(g, sources, p, t));
                    lemma_complete(g, q2, sources, f2, p, t);
                }
            }
        }
    }
}

/// With no negative link cost, or in an unweighted query, a query from
/// nodes of the graph always succeeds: no contradiction can arise.
pub proof fn lemma_no_contradiction(
    g: Graph,
    weighted: bool,
    sources: Seq<usize>,
    target: Option<usize>,
    cutoff: Option<i64>,
    first_only: bool,
)
    requires
        g.wf(),
        weighted ==> g.non_negative(),
        forall|k: int| 0 <= k < sources.len() ==> #[trigger] sources[k] < g.node_count(),
    ensures
        search_result(g, params(weighted, target, cutoff, first_only), sources) is Ok,
{
    let q = params(weighted, target, cutoff, first_only);
    lemma_initial_opt(g, q, sources);
    lemma_run_opt(g, q, sources, initial_state(g.node_count(), sources));
}

} // verus!
