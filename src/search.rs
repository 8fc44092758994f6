use vstd::prelude::*;
use vstd::set_lib::{lemma_int_range, lemma_len_subset, set_int_range};

use crate::graph::{link_cost, min_weight, Graph, Link, MAX_NODES};
use crate::model::{
    expand, extend_paths, initial_state, item_less, lemma_expand_keeps_dist,
    lemma_unfinalized_bound, lemma_unfinalized_update, min_index, relax, run, step, unfinalized,
    FringeItem, SearchParams, SearchState, Step,
};

verus! {

/// A bound on the magnitude of any `i32` weight.
pub open spec fn weight_span() -> int {
    0x8000_0000
}

/// An entry of the priority fringe.
#[derive(Clone, Copy)]
pub struct Entry {
    pub node: usize,
    pub seq: u64,
    pub dist: i64,
}

impl View for Entry {
    type V = FringeItem;

    open spec fn view(&self) -> FringeItem {
        (self.node, self.seq as int, self.dist as int)
    }
}

pub open spec fn opt_int(o: Option<i64>) -> Option<int> {
    match o {
        Some(x) => Some(x as int),
        None => None,
    }
}

pub open spec fn path_set_view(ps: Seq<Vec<usize>>) -> Seq<Seq<usize>> {
    ps.map_values(|p: Vec<usize>| p@)
}

/// The working state of one search.
pub struct Search {
    pub dist: Vec<Option<i64>>,
    pub seen: Vec<Option<i64>>,
    pub paths: Vec<Vec<Vec<usize>>>,
    pub fringe: Vec<Entry>,
    pub count: u64,
}

impl View for Search {
    type V = SearchState;

    open spec fn view(&self) -> SearchState {
        SearchState {
            dist: self.dist@.map_values(|o: Option<i64>| opt_int(o)),
            seen: self.seen@.map_values(|o: Option<i64>| opt_int(o)),
            paths: self.paths@.map_values(|ps: Vec<Vec<usize>>| path_set_view(ps@)),
            fringe: self.fringe@.map_values(|e: Entry| e@),
            count: self.count as int,
        }
    }
}

/// Sizes and magnitudes of a search state: every distance within `dmax`,
/// every sequence number within `cmax`.
pub open spec fn bounded(n: nat, s: SearchState, dmax: int, cmax: int) -> bool {
    &&& s.dist.len() == n
    &&& s.seen.len() == n
    &&& s.paths.len() == n
    &&& forall|i: int|
        0 <= i < n && (#[trigger] s.dist[i]) is Some ==> -dmax <= s.dist[i]->Some_0 <= dmax
    &&& forall|i: int|
        0 <= i < n && (#[trigger] s.seen[i]) is Some ==> -dmax <= s.seen[i]->Some_0 <= dmax
    &&& forall|j: int|
        0 <= j < s.fringe.len() ==> {
            &&& (#[trigger] s.fringe[j]).0 < n
            &&& -dmax <= s.fringe[j].2 <= dmax
            &&& 0 <= s.fringe[j].1 <= s.count
        }
    &&& 0 <= s.count <= cmax
}

proof fn lemma_min_weight_bound(ws: Seq<Option<i32>>)
    requires
        ws.len() >= 1,
    ensures
        -weight_span() <= min_weight(ws) < weight_span(),
    decreases ws.len(),
{
    if ws.len() > 1 {
        lemma_min_weight_bound(ws.drop_last());
    }
}

proof fn lemma_link_cost_bound(l: Link, weighted: bool, multi_edges: bool)
    requires
        l.weights@.len() >= 1,
    ensures
        -weight_span() <= link_cost(l, weighted, multi_edges) < weight_span(),
{
    lemma_min_weight_bound(l.weights@);
}

/// A node has no more links than the graph has nodes.
proof fn lemma_links_bounded(g: Graph, v: int)
    requires
        g.wf(),
        0 <= v < g.node_count(),
    ensures
        g.links(v).len() <= g.node_count(),
{
    let nb = g.neighbors(v);
    let f = |x: usize| x as int;
    let si = nb.map_values(f);
    assert(vstd::relations::injective(f));
    nb.lemma_no_duplicates_injective(f);
    si.unique_seq_to_set();
    lemma_int_range(0, g.node_count() as int);
    assert forall|x: int| si.to_set().contains(x) implies set_int_range(
        0,
        g.node_count() as int,
    ).contains(x) by {
        let j = choose|j: int| 0 <= j < si.len() && si[j] == x;
        assert(g.links(v)[j].to < g.node_count());
    }
    lemma_len_subset(si.to_set(), set_int_range(0, g.node_count() as int));
}

proof fn lemma_unfinalized_none(n: nat)
    ensures
        unfinalized(Seq::new(n, |i: int| None::<int>)) == n,
    decreases n,
{
    if n > 0 {
        let d = Seq::new(n, |i: int| None::<int>);
        assert(d.drop_last() =~= Seq::new((n - 1) as nat, |i: int| None::<int>));
        lemma_unfinalized_none((n - 1) as nat);
    }
}

proof fn lemma_expand_none_stays(g: Graph, q: SearchParams, s: SearchState, v: usize, i: nat, k: nat)
    requires
        i <= k,
        expand(g, q, s, v, i) is None,
    ensures
        expand(g, q, s, v, k) is None,
    decreases k - i,
{
    if i < k {
        lemma_expand_none_stays(g, q, s, v, i + 1, k);
    }
}

/// The cost of traversing `l`.
fn cost(l: &Link, weighted: bool, multi_edges: bool) -> (c: i64)
    requires
        l.weights@.len() >= 1,
    ensures
        c == link_cost(*l, weighted, multi_edges),
{
    if !weighted {
        return 1;
    }
    let first: i64 = match l.weights[0] {
        Some(w) => w as i64,
        None => 0,
    };
    if !multi_edges {
        return first;
    }
    let ghost ws = l.weights@;
    let mut best = first;
    let mut i: usize = 1;
    assert(ws.take(1).len() == 1);
    while i < l.weights.len()
        invariant
            1 <= i <= ws.len(),
            ws == l.weights@,
            best == min_weight(ws.take(i as int)),
        decreases ws.len() - i,
    {
        let w: i64 = match l.weights[i] {
            Some(w) => w as i64,
            None => 0,
        };
        assert(ws.take(i + 1).drop_last() =~= ws.take(i as int));
        assert(ws.take(i + 1).last() == ws[i as int]);
        if w < best {
            best = w;
        }
        i += 1;
    }
    assert(ws.take(i as int) =~= ws);
    best
}

fn entry_less(a: &Entry, b: &Entry) -> (r: bool)
    ensures
        r == item_less(a@, b@),
{
    a.dist < b.dist || (a.dist == b.dist && a.seq < b.seq) || (a.dist == b.dist && a.seq == b.seq
        && a.node < b.node)
}

/// The position of the entry to pop next: the least by distance, then by
/// sequence number, then by node. The fringe is a vector scanned in full, so
/// equal entries pop in a fixed order whatever their insertion history.
fn min_position(f: &Vec<Entry>) -> (k: usize)
    requires
        f@.len() > 0,
    ensures
        k == min_index(f@.map_values(|e: Entry| e@)),
        k < f@.len(),
{
    let ghost fv = f@.map_values(|e: Entry| e@);
    let mut best: usize = 0;
    let mut i: usize = 1;
    assert(fv.take(1).len() == 1);
    while i < f.len()
        invariant
            1 <= i <= f@.len(),
            fv == f@.map_values(|e: Entry| e@),
            best == min_index(fv.take(i as int)),
            best < i,
        decreases f@.len() - i,
    {
        assert(fv.take(i + 1).drop_last() =~= fv.take(i as int));
        if entry_less(&f[i], &f[best]) {
            best = i;
        }
        i += 1;
    }
    assert(fv.take(i as int) =~= fv);
    best
}

/// A copy of `p` with `u` appended.
fn path_push(p: &Vec<usize>, u: usize) -> (r: Vec<usize>)
    ensures
        r@ == p@.push(u),
{
    let mut r: Vec<usize> = Vec::new();
    let mut i: usize = 0;
    while i < p.len()
        invariant
            i <= p@.len(),
            r@ == p@.take(i as int),
        decreases p@.len() - i,
    {
        r.push(p[i]);
        i += 1;
        assert(r@ =~= p@.take(i as int));
    }
    assert(p@.take(i as int) =~= p@);
    r.push(u);
    r
}

/// Appends to `dst` every path of `src`, each with `u` appended.
fn append_extended(dst: &mut Vec<Vec<usize>>, src: &Vec<Vec<usize>>, u: usize)
    ensures
        path_set_view(final(dst)@) == path_set_view(old(dst)@) + extend_paths(
            path_set_view(src@),
            u,
        ),
{
    let ghost start = path_set_view(dst@);
    let mut i: usize = 0;
    while i < src.len()
        invariant
            i <= src@.len(),
            path_set_view(dst@) == start + extend_paths(path_set_view(src@).take(i as int), u),
        decreases src@.len() - i,
    {
        let p = path_push(&src[i], u);
        let ghost before = dst@;
        dst.push(p);
        assert(path_set_view(dst@) =~= path_set_view(before).push(src@[i as int]@.push(u)));
        assert(extend_paths(path_set_view(src@).take(i + 1), u) =~= extend_paths(
            path_set_view(src@).take(i as int),
            u,
        ).push(src@[i as int]@.push(u)));
        i += 1;
    }
    assert(path_set_view(src@).take(i as int) =~= path_set_view(src@));
}

/// A copy of a set of paths.
fn copy_paths(src: &Vec<Vec<usize>>) -> (r: Vec<Vec<usize>>)
    ensures
        path_set_view(r@) == path_set_view(src@),
{
    let mut r: Vec<Vec<usize>> = Vec::new();
    let mut i: usize = 0;
    while i < src.len()
        invariant
            i <= src@.len(),
            path_set_view(r@) == path_set_view(src@).take(i as int),
        decreases src@.len() - i,
    {
        let mut p: Vec<usize> = Vec::new();
        let mut j: usize = 0;
        while j < src[i].len()
            invariant
                i < src@.len(),
                j <= src@[i as int]@.len(),
                p@ == src@[i as int]@.take(j as int),
            decreases src@[i as int]@.len() - j,
        {
            p.push(src[i][j]);
            j += 1;
            assert(p@ =~= src@[i as int]@.take(j as int));
        }
        assert(src@[i as int]@.take(j as int) =~= src@[i as int]@);
        let ghost before = r@;
        r.push(p);
        assert(path_set_view(r@) =~= path_set_view(before).push(src@[i as int]@));
        i += 1;
        assert(path_set_view(r@) =~= path_set_view(src@).take(i as int));
    }
    assert(path_set_view(src@).take(i as int) =~= path_set_view(src@));
    r
}

impl Search {
    /// The state in which a search from `sources` starts on `n` nodes.
    fn start(n: usize, sources: &Vec<usize>) -> (st: Search)
        requires
            forall|i: int| 0 <= i < sources@.len() ==> #[trigger] sources@[i] < n,
        ensures
            st@ == initial_state(n as nat, sources@),
            bounded(n as nat, st@, 0, 0),
    {
        let mut dist: Vec<Option<i64>> = Vec::new();
        let mut seen: Vec<Option<i64>> = Vec::new();
        let mut paths: Vec<Vec<Vec<usize>>> = Vec::new();
        let mut i: usize = 0;
        while i < n
            invariant
                i <= n,
                dist@.len() == i,
                seen@.len() == i,
                paths@.len() == i,
                forall|j: int| 0 <= j < i ==> (#[trigger] dist@[j]) is None,
                forall|j: int| 0 <= j < i ==> (#[trigger] seen@[j]) is None,
                forall|j: int| 0 <= j < i ==> (#[trigger] paths@[j])@.len() == 0,
            decreases n - i,
        {
            dist.push(None);
            seen.push(None);
            paths.push(Vec::new());
            i += 1;
        }
        let mut fringe: Vec<Entry> = Vec::new();
        let mut k: usize = 0;
        while k < sources.len()
            invariant
                k <= sources@.len(),
                forall|i: int| 0 <= i < sources@.len() ==> #[trigger] sources@[i] < n,
                dist@.len() == n,
                seen@.len() == n,
                paths@.len() == n,
                forall|j: int| 0 <= j < n ==> (#[trigger] dist@[j]) is None,
                forall|j: int|
                    0 <= j < n ==> (#[trigger] seen@[j]) == if sources@.take(k as int).contains(
                        j as usize,
                    ) {
                        Some(0i64)
                    } else {
                        None
                    },
                forall|j: int|
                    0 <= j < n ==> path_set_view((#[trigger] paths@[j])@) == if sources@.take(
                        k as int,
                    ).contains(j as usize) {
                        seq![seq![j as usize]]
                    } else {
                        Seq::<Seq<usize>>::empty()
                    },
                fringe@.map_values(|e: Entry| e@) == sources@.take(k as int).map_values(
                    |s: usize| (s, 0int, 0int),
                ),
            decreases sources@.len() - k,
        {
            let s = sources[k];
            seen.set(s, Some(0));
            let mut one: Vec<Vec<usize>> = Vec::new();
            let mut p: Vec<usize> = Vec::new();
            p.push(s);
            one.push(p);
            assert(path_set_view(one@) =~= seq![seq![s]]);
            paths.set(s, one);
            let ghost before = fringe@;
            fringe.push(Entry { node: s, seq: 0, dist: 0 });
            assert(sources@.take(k + 1) =~= sources@.take(k as int).push(s));
            assert(fringe@.map_values(|e: Entry| e@) =~= before.map_values(|e: Entry| e@).push(
                (s, 0int, 0int),
            ));
            assert(sources@.take(k + 1).map_values(|s: usize| (s, 0int, 0int)) =~= sources@.take(
                k as int,
            ).map_values(|s: usize| (s, 0int, 0int)).push((s, 0int, 0int)));
            proof {
                broadcast use vstd::seq_lib::lemma_seq_contains_after_push;

            }
            k += 1;
            assert(fringe@.map_values(|e: Entry| e@) =~= sources@.take(k as int).map_values(
                |s: usize| (s, 0int, 0int),
            ));
        }
        assert(sources@.take(k as int) =~= sources@);
        let st = Search { dist, seen, paths, fringe, count: 0 };
        let ghost init = initial_state(n as nat, sources@);
        assert(st@.dist =~= init.dist);
        assert(st@.seen =~= init.seen);
        assert(st@.paths =~= init.paths);
        assert(st@.fringe =~= init.fringe);
        st
    }

    /// Relaxes the link `l` out of the finalized node `v`; `false` on a
    /// contradiction.
    fn relax_link(&mut self, g: &Graph, q: SearchParams, v: usize, l: &Link, dmax: Ghost<int>, cmax: Ghost<int>) -> (ok: bool)
        requires
            g.wf(),
            v < g.node_count(),
            l.to < g.node_count(),
            l.weights@.len() >= 1,
            bounded(g.node_count(), old(self)@, dmax@, cmax@),
            old(self)@.dist[v as int] is Some,
            -(dmax@ - weight_span()) <= old(self)@.dist[v as int]->Some_0 <= dmax@ - weight_span(),
            dmax@ <= MAX_NODES * weight_span(),
            cmax@ < MAX_NODES * MAX_NODES,
        ensures
            ok == relax(*g, q, old(self)@, v, *l) is Some,
            ok ==> final(self)@ == relax(*g, q, old(self)@, v, *l)->Some_0,
            ok ==> bounded(g.node_count(), final(self)@, dmax@, cmax@ + 1),
    {
        let ghost s = self@;
        let u = l.to;
        let dv: i64 = match self.dist[v] {
            Some(d) => d,
            None => 0,
        };
        proof {
            lemma_link_cost_bound(*l, q.weighted, g.multi_edges);
        }
        let c = dv + cost(l, q.weighted, g.multi_edges);
        match q.cutoff {
            Some(k) => {
                if c > k {
                    return true;
                }
            },
            None => {},
        }
        match self.dist[u] {
            Some(du) => {
                return !(c < du);
            },
            None => {},
        }
        let improves = match self.seen[u] {
            None => true,
            Some(su) => c < su,
        };
        let ties = match self.seen[u] {
            None => false,
            Some(su) => c == su,
        };
        if improves || (!q.first_only && ties) {
            let mut fresh: Vec<Vec<usize>> = if improves {
                Vec::new()
            } else {
                copy_paths(&self.paths[u])
            };
            append_extended(&mut fresh, &self.paths[v], u);
            if improves {
                self.seen.set(u, Some(c));
            }
            self.paths.set(u, fresh);
            self.count = self.count + 1;
            self.fringe.push(Entry { node: u, seq: self.count, dist: c });
            let ghost r = relax(*g, q, s, v, *l)->Some_0;
            assert(self@.seen =~= r.seen);
            assert(self@.paths =~= r.paths);
            assert(self@.fringe =~= r.fringe);
            assert(self@.dist =~= r.dist);
        }
        true
    }
}

/// Runs the search loop from `sources`: `None` on a contradiction, else the
/// state in which the loop ended.
pub fn run_search(g: &Graph, q: SearchParams, sources: &Vec<usize>) -> (r: Option<Search>)
    requires
        g.wf(),
        forall|i: int| 0 <= i < sources@.len() ==> #[trigger] sources@[i] < g.node_count(),
    ensures
        r is Some <==> run(*g, q, initial_state(g.node_count(), sources@)) is Some,
        r matches Some(st) ==> st@ == run(*g, q, initial_state(g.node_count(), sources@))->Some_0
            && st@.dist.len() == g.node_count() && st@.paths.len() == g.node_count(),
{
    let n = g.adj.len();
    let ghost nn = n as nat;
    let ghost w = weight_span();
    let ghost m = MAX_NODES as int;
    let ghost init = initial_state(nn, sources@);
    let mut st = Search::start(n, sources);
    proof {
        lemma_unfinalized_none(nn);
        assert(init.dist =~= Seq::new(nn, |i: int| None::<int>));
    }
    loop
        invariant
            g.wf(),
            n == g.node_count(),
            nn == n,
            w == weight_span(),
            m == MAX_NODES as int,
            init == initial_state(g.node_count(), sources@),
            unfinalized(st@.dist) <= nn,
            bounded(
                nn,
                st@,
                (nn - unfinalized(st@.dist)) * w,
                (nn - unfinalized(st@.dist)) * nn,
            ),
            run(*g, q, st@) == run(*g, q, init),
        decreases unfinalized(st@.dist), st@.fringe.len(),
    {
        let ghost s = st@;
        let ghost fdone = nn - unfinalized(s.dist);
        if st.fringe.len() == 0 {
            assert(step(*g, q, s) == Step::Done(s));
            assert(run(*g, q, s) == Some(s));
            return Some(st);
        }
        let k = min_position(&st.fringe);
        let e = st.fringe.remove(k);
        let v = e.node;
        let ghost popped = SearchState { fringe: s.fringe.remove(k as int), ..s };
        assert(st@.fringe =~= popped.fringe);
        assert(st@ == popped);
        assert(s.fringe[k as int] == e@);
        if st.dist[v].is_some() {
            assert(step(*g, q, s) == Step::Continue(popped));
            continue;
        }
        st.dist.set(v, Some(e.dist));
        proof {
            lemma_unfinalized_update(s.dist, v as int, e.dist as int);
        }
        let ghost fin = SearchState { dist: popped.dist.update(v as int, Some(e.dist as int)), ..popped };
        assert(st@.dist =~= fin.dist);
        assert(st@ == fin);
        match q.target {
            Some(t) => {
                if t == v {
                    assert(step(*g, q, s) == Step::Done(fin));
                    return Some(st);
                }
            },
            None => {},
        }
        proof {
            lemma_links_bounded(*g, v as int);
            assert(fdone < nn) by {
                lemma_unfinalized_bound(s.dist.update(v as int, Some(e.dist as int)));
            }
            assert(nn <= m);
            assert(fdone * w <= (m - 1) * w) by (nonlinear_arith)
                requires fdone < nn, nn <= m, w > 0;
            assert(fdone * nn <= (m - 1) * m) by (nonlinear_arith)
                requires fdone < nn, nn <= m;
            assert((fdone + 1) * w == fdone * w + w) by (nonlinear_arith);
            assert((fdone + 1) * nn == fdone * nn + nn) by (nonlinear_arith);
        }
        let links = &g.adj[v];
        let mut i: usize = 0;
        assert(step(*g, q, s) == match expand(*g, q, fin, v, links@.len()) {
            None => Step::Contradiction,
            Some(s1) => Step::Continue(s1),
        });
        while i < links.len()
            invariant
                g.wf(),
                n == g.node_count(),
                v < n,
                links == g.adj@[v as int],
                i <= links@.len(),
                links@.len() <= nn,
                fdone < nn,
                fdone * w <= (m - 1) * w,
                fdone * nn <= (m - 1) * m,
                expand(*g, q, fin, v, i as nat) == Some(st@),
                st@.dist == fin.dist,
                fin.dist[v as int] == Some(e.dist as int),
                -(fdone * w) <= e.dist <= fdone * w,
                bounded(nn, st@, (fdone + 1) * w, fdone * nn + i),
                w == weight_span(),
                m == MAX_NODES as int,
                nn == n,
                fin.dist.len() == nn,
                init == initial_state(g.node_count(), sources@),
                run(*g, q, s) == run(*g, q, init),
                step(*g, q, s) == match expand(*g, q, fin, v, links@.len()) {
                    None => Step::Contradiction,
                    Some(s1) => Step::Continue(s1),
                },
            decreases links@.len() - i,
        {
            assert((fdone + 1) * w == fdone * w + w) by (nonlinear_arith);
            assert(g.links(v as int)[i as int] == links@[i as int]);
            let ok = st.relax_link(g, q, v, &links[i], Ghost((fdone + 1) * w), Ghost(fdone * nn + i));
            if !ok {
                proof {
                    lemma_expand_none_stays(*g, q, fin, v, (i + 1) as nat, links@.len());
                    assert(step(*g, q, s) == Step::Contradiction);
                    assert(run(*g, q, s) is None);
                }
                return None;
            }
            i += 1;
        }
        proof {
            lemma_expand_keeps_dist(*g, q, fin, v, links@.len());
            assert(nn - unfinalized(st@.dist) == fdone + 1);
            assert(fdone * nn + i <= (fdone + 1) * nn);
            assert(step(*g, q, s) == Step::Continue(st@));
        }
    }
}

} // verus!
