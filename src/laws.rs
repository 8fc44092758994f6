use vstd::prelude::*;

use crate::graph::{link_cost, min_weight, Graph, Link};
use crate::model::{
    expand, initial_state, lemma_expand_keeps_dist, lemma_step_decreases, min_index, relax, run,
    step, unfinalized, SearchParams, SearchState, Step,
};
use crate::query::{all_pairs_result, params, search_result};

verus! {

/// `g2` has the same nodes and links as `g1`, and every weight of `g2` is 1.
pub open spec fn unit_weight_copy(g1: Graph, g2: Graph) -> bool {
    &&& g2.wf()
    &&& g1.node_count() == g2.node_count()
    &&& forall|v: int|
        0 <= v < g1.node_count() ==> (#[trigger] g1.links(v)).len() == g2.links(v).len()
    &&& forall|v: int, i: int|
        0 <= v < g1.node_count() && 0 <= i < g1.links(v).len() ==> (#[trigger] g1.links(v)[i]).to
            == g2.links(v)[i].to
    &&& forall|v: int, i: int, j: int|
        0 <= v < g2.node_count() && 0 <= i < g2.links(v).len() && 0 <= j
            < g2.links(v)[i].weights@.len() ==> #[trigger] g2.links(v)[i].weights@[j] == Some(1i32)
}

proof fn lemma_min_weight_ones(ws: Seq<Option<i32>>)
    requires
        ws.len() >= 1,
        forall|j: int| 0 <= j < ws.len() ==> #[trigger] ws[j] == Some(1i32),
    ensures
        min_weight(ws) == 1,
    decreases ws.len(),
{
    if ws.len() > 1 {
        lemma_min_weight_ones(ws.drop_last());
    }
}

proof fn lemma_expand_unit(
    g1: Graph,
    g2: Graph,
    q1: SearchParams,
    q2: SearchParams,
    s: SearchState,
    v: usize,
    k: nat,
)
    requires
        unit_weight_copy(g1, g2),
        v < g1.node_count(),
        k <= g1.links(v as int).len(),
        !q1.weighted,
        q2 == (SearchParams { weighted: true, ..q1 }),
    ensures
        expand(g1, q1, s, v, k) == expand(g2, q2, s, v, k),
    decreases k,
{
    if k > 0 {
        lemma_expand_unit(g1, g2, q1, q2, s, v, (k - 1) as nat);
        let l1 = g1.links(v as int)[k - 1];
        let l2 = g2.links(v as int)[k - 1];
        assert(l1.to == l2.to);
        assert(l2.weights@.len() >= 1);
        assert forall|j: int| 0 <= j < l2.weights@.len() implies #[trigger] l2.weights@[j] == Some(
            1i32,
        ) by {
            assert(g2.links(v as int)[k - 1].weights@[j] == Some(1i32));
        }
        lemma_min_weight_ones(l2.weights@);
        assert(link_cost(l1, q1.weighted, g1.multi_edges) == link_cost(
            l2,
            q2.weighted,
            g2.multi_edges,
        ));
    }
}

proof fn lemma_run_unit(g1: Graph, g2: Graph, q1: SearchParams, q2: SearchParams, s: SearchState)
    requires
        unit_weight_copy(g1, g2),
        s.dist.len() == g1.node_count(),
        !q1.weighted,
        q2 == (SearchParams { weighted: true, ..q1 }),
    ensures
        run(g1, q1, s) == run(g2, q2, s),
    decreases unfinalized(s.dist), s.fringe.len(),
{
    lemma_step_decreases(g1, q1, s);
    if s.fringe.len() > 0 {
        let e = s.fringe[min_index(s.fringe)];
        if !(e.0 >= s.dist.len() || s.dist[e.0 as int] is Some) && q1.target != Some(e.0) {
            let fin = SearchState {
                dist: s.dist.update(e.0 as int, Some(e.2)),
                fringe: s.fringe.remove(min_index(s.fringe)),
                ..s
            };
            lemma_expand_unit(g1, g2, q1, q2, fin, e.0, g1.links(e.0 as int).len());
            lemma_expand_keeps_dist(g1, q1, fin, e.0, g1.links(e.0 as int).len());
        }
    }
    assert(step(g1, q1, s) == step(g2, q2, s));
    if let Step::Continue(s1) = step(g1, q1, s) {
        lemma_run_unit(g1, g2, q1, q2, s1);
    }
}

/// An unweighted query gives what the weighted query gives on the same graph
/// with every edge weight set to 1.
pub proof fn lemma_unweighted_is_unit_weighted(
    g1: Graph,
    g2: Graph,
    sources: Seq<usize>,
    target: Option<usize>,
    cutoff: Option<i64>,
    first_only: bool,
)
    requires
        g1.wf(),
        unit_weight_copy(g1, g2),
    ensures
        search_result(g1, params(false, target, cutoff, first_only), sources) == search_result(
            g2,
            params(true, target, cutoff, first_only),
            sources,
        ),
{
    let q1 = params(false, target, cutoff, first_only);
    let q2 = params(true, target, cutoff, first_only);
    assert(g2.all_weighted());
    let s = initial_state(g1.node_count(), sources);
    assert(s == initial_state(g2.node_count(), sources));
    lemma_run_unit(g1, g2, q1, q2, s);
}

pub proof fn lemma_relax_stable(g: Graph, q: SearchParams, s: SearchState, v: usize, l: Link)
    requires
        s.paths.len() == s.dist.len(),
        l.to < s.dist.len(),
    ensures
        relax(g, q, s, v, l) matches Some(s2) ==> s2.dist == s.dist && s2.paths.len()
            == s.paths.len() && forall|x: int|
            0 <= x < s.dist.len() && s.dist[x] is Some ==> #[trigger] s2.paths[x] == s.paths[x],
{
    let u = l.to as int;
    if let Some(s2) = relax(g, q, s, v, l) {
        if s2.paths != s.paths {
            assert(s.dist[u] is None);
            assert(s2.paths.len() == s.paths.len());
            assert forall|x: int| 0 <= x < s.dist.len() && s.dist[x] is Some implies #[trigger] s2.paths[x]
                == s.paths[x] by {
                assert(x != u);
            }
        }
    }
}

proof fn lemma_expand_stable(g: Graph, q: SearchParams, s: SearchState, v: usize, k: nat)
    requires
        g.wf(),
        v < g.node_count(),
        k <= g.links(v as int).len(),
        s.dist.len() == g.node_count(),
        s.paths.len() == s.dist.len(),
    ensures
        expand(g, q, s, v, k) matches Some(s1) ==> s1.dist == s.dist && s1.paths.len()
            == s.paths.len() && forall|x: int|
            0 <= x < s.dist.len() && s.dist[x] is Some ==> #[trigger] s1.paths[x] == s.paths[x],
    decreases k,
{
    if k > 0 {
        lemma_expand_stable(g, q, s, v, (k - 1) as nat);
        if let Some(s1) = expand(g, q, s, v, (k - 1) as nat) {
            let l = g.links(v as int)[k - 1];
            lemma_relax_stable(g, q, s1, v, l);
            if let Some(s2) = relax(g, q, s1, v, l) {
                assert forall|x: int| 0 <= x < s.dist.len() && s.dist[x] is Some implies #[trigger] s2.paths[x]
                    == s.paths[x] by {
                    assert(s1.paths[x] == s.paths[x]);
                    assert(s1.dist[x] is Some);
                }
            }
        }
    }
}

proof fn lemma_run_stable(g: Graph, q: SearchParams, s: SearchState)
    requires
        g.wf(),
        s.dist.len() == g.node_count(),
        s.paths.len() == s.dist.len(),
    ensures
        run(g, q, s) matches Some(f) ==> {
            &&& f.dist.len() == s.dist.len()
            &&& forall|x: int|
                0 <= x < s.dist.len() && s.dist[x] is Some ==> #[trigger] f.dist[x] == s.dist[x]
                    && f.paths[x] == s.paths[x]
        },
    decreases unfinalized(s.dist), s.fringe.len(),
{
    lemma_step_decreases(g, q, s);
    if s.fringe.len() > 0 {
        let k = min_index(s.fringe);
        let e = s.fringe[k];
        let popped = SearchState { fringe: s.fringe.remove(k), ..s };
        if e.0 >= s.dist.len() || s.dist[e.0 as int] is Some {
            assert(step(g, q, s) == Step::Continue(popped));
            lemma_run_stable(g, q, popped);
        } else {
            let fin = SearchState { dist: s.dist.update(e.0 as int, Some(e.2)), ..popped };
            if q.target != Some(e.0) {
                let nl = g.links(e.0 as int).len();
                lemma_expand_stable(g, q, fin, e.0, nl);
                if let Some(s1) = expand(g, q, fin, e.0, nl) {
                    lemma_run_stable(g, q, s1);
                    assert(step(g, q, s) == Step::Continue(s1));
                    assert(run(g, q, s) == run(g, q, s1));
                    if let Some(f) = run(g, q, s) {
                        assert forall|x: int|
                            0 <= x < s.dist.len() && s.dist[x] is Some implies #[trigger] f.dist[x]
                            == s.dist[x] && f.paths[x] == s.paths[x] by {
                            assert(fin.dist[x] == s.dist[x]);
                            assert(s1.paths[x] == fin.paths[x]);
                            assert(s1.dist[x] is Some);
                        }
                    }
                }
            } else {
                assert(step(g, q, s) == Step::Done(fin));
            }
        }
    }
}

proof fn lemma_expand_ignores_target(
    g: Graph,
    q1: SearchParams,
    q2: SearchParams,
    s: SearchState,
    v: usize,
    k: nat,
)
    requires
        q2 == (SearchParams { target: q2.target, ..q1 }),
    ensures
        expand(g, q1, s, v, k) == expand(g, q2, s, v, k),
    decreases k,
{
    if k > 0 {
        lemma_expand_ignores_target(g, q1, q2, s, v, (k - 1) as nat);
    }
}

proof fn lemma_run_to_target(g: Graph, qn: SearchParams, qt: SearchParams, t: usize, s: SearchState)
    requires
        qn.target is None,
        qt == (SearchParams { target: Some(t), ..qn }),
        t < s.dist.len(),
        g.wf(),
        s.dist.len() == g.node_count(),
        s.paths.len() == s.dist.len(),
        s.dist[t as int] is None,
        run(g, qn, s) matches Some(fa) && fa.dist[t as int] is Some,
    ensures
        run(g, qt, s) matches Some(ft) && ft.dist.len() == s.dist.len() && ft.dist[t as int]
            == run(g, qn, s)->Some_0.dist[t as int] && ft.paths[t as int] == run(
            g,
            qn,
            s,
        )->Some_0.paths[t as int],
    decreases unfinalized(s.dist), s.fringe.len(),
{
    lemma_step_decreases(g, qn, s);
    lemma_run_stable(g, qn, s);
    if s.fringe.len() > 0 {
        let k = min_index(s.fringe);
        let e = s.fringe[k];
        if !(e.0 >= s.dist.len() || s.dist[e.0 as int] is Some) {
            let fin = SearchState {
                dist: s.dist.update(e.0 as int, Some(e.2)),
                fringe: s.fringe.remove(k),
                ..s
            };
            let nl = g.links(e.0 as int).len();
            lemma_expand_ignores_target(g, qn, qt, fin, e.0, nl);
            lemma_expand_keeps_dist(g, qn, fin, e.0, nl);
            lemma_expand_stable(g, qn, fin, e.0, nl);
            if e.0 == t {
                if let Some(s1) = expand(g, qn, fin, e.0, nl) {
                    lemma_run_stable(g, qn, s1);
                    assert(s1.paths[t as int] == fin.paths[t as int]);
                }
            } else {
                if let Some(s1) = expand(g, qn, fin, e.0, nl) {
                    lemma_run_to_target(g, qn, qt, t, s1);
                }
            }
        } else {
            lemma_run_to_target(g, qn, qt, t, SearchState { fringe: s.fringe.remove(k), ..s });
        }
    }
}

/// For every pair `(s, t)` that the all-pairs query reaches, the query from
/// `s` alone with target `t` gives the same distance and the same paths.
pub proof fn lemma_all_pairs_agrees_with_single_source(
    g: Graph,
    weighted: bool,
    cutoff: Option<i64>,
    first_only: bool,
    s: usize,
    t: usize,
)
    requires
        g.wf(),
        all_pairs_result(g, weighted, cutoff, first_only) matches Ok(m) && m.contains_key(s)
            && m[s].contains_key(t),
    ensures
        search_result(g, params(weighted, Some(t), cutoff, first_only), seq![s]) matches Ok(r)
            && r.contains_key(t) && r[t] == all_pairs_result(
            g,
            weighted,
            cutoff,
            first_only,
        )->Ok_0[s][t],
{
    let qn = params(weighted, None, cutoff, first_only);
    let qt = params(weighted, Some(t), cutoff, first_only);
    let init = initial_state(g.node_count(), seq![s]);
    assert(search_result(g, qn, seq![s]) is Ok);
    lemma_run_stable(g, qn, init);
    lemma_run_to_target(g, qn, qt, t, init);
}

} // verus!
