use vstd::prelude::*;

verus! {

/// Largest number of nodes a graph may hold, so that every sum of at most
/// that many `i32` weights fits in an `i64`.
pub const MAX_NODES: usize = 0x7fff_ffff;

/// All edges from one node to one other node: one weight per parallel edge,
/// `None` where an edge carries no explicit weight.
pub struct Link {
    pub to: usize,
    pub weights: Vec<Option<i32>>,
}

/// A graph over the nodes `0 .. node_count`, stored as adjacency lists.
/// An undirected edge is stored as a link in both directions.
pub struct Graph {
    pub directed: bool,
    pub multi_edges: bool,
    pub adj: Vec<Vec<Link>>,
}

/// The integer value of a weight; a missing weight counts as zero
/// (a weighted search refuses such a graph before it starts).
pub open spec fn weight_value(w: Option<i32>) -> int {
    match w {
        Some(x) => x as int,
        None => 0,
    }
}

/// The smallest of a non-empty sequence of weights.
pub open spec fn min_weight(ws: Seq<Option<i32>>) -> int
    decreases ws.len(),
{
    if ws.len() <= 1 {
        weight_value(ws[0])
    } else {
        let rest = min_weight(ws.drop_last());
        let w = weight_value(ws.last());
        if w < rest {
            w
        } else {
            rest
        }
    }
}

/// The cost of traversing a link: 1 in an unweighted search, the least of the
/// parallel weights in a multigraph, and the single weight otherwise.
pub open spec fn link_cost(l: Link, weighted: bool, multi_edges: bool) -> int {
    if !weighted {
        1
    } else if multi_edges {
        min_weight(l.weights@)
    } else {
        weight_value(l.weights@[0])
    }
}

impl Graph {
    pub open spec fn node_count(&self) -> nat {
        self.adj@.len()
    }

    /// The links leaving `v`: its successors in a directed graph, its
    /// neighbours in an undirected one.
    pub open spec fn links(&self, v: int) -> Seq<Link> {
        self.adj@[v]@
    }

    /// The nodes that `v` links to, in adjacency order.
    pub open spec fn neighbors(&self, v: int) -> Seq<usize> {
        self.links(v).map_values(|l: Link| l.to)
    }

    /// The edge `v -> u` exists (in either direction for an undirected graph).
    pub open spec fn adjacent(&self, v: int, u: int) -> bool {
        exists|i: int| 0 <= i < self.links(v).len() && self.links(v)[i].to == u
    }

    pub open spec fn wf(&self) -> bool {
        &&& self.adj@.len() <= MAX_NODES
        &&& forall|v: int|
            0 <= v < self.adj@.len() ==> #[trigger] self.neighbors(v).no_duplicates()
        &&& forall|v: int, i: int|
            0 <= v < self.adj@.len() && 0 <= i < self.links(v).len() ==> {
                &&& (#[trigger] self.links(v)[i]).to < self.adj@.len()
                &&& self.links(v)[i].weights@.len() >= 1
                &&& !self.multi_edges ==> self.links(v)[i].weights@.len() == 1
            }
    }

    /// Every edge of the graph carries an explicit weight.
    pub open spec fn all_weighted(&self) -> bool {
        forall|v: int, i: int, j: int|
            0 <= v < self.adj@.len() && 0 <= i < self.links(v).len() && 0 <= j
                < self.links(v)[i].weights@.len() ==> (#[trigger] self.links(v)[i].weights@[j]).is_some()
    }

    /// Every edge of the graph carries an explicit weight of at least zero.
    pub open spec fn non_negative(&self) -> bool {
        forall|v: int, i: int, j: int|
            0 <= v < self.adj@.len() && 0 <= i < self.links(v).len() && 0 <= j
                < self.links(v)[i].weights@.len() ==> (#[trigger] self.links(v)[i].weights@[j]).is_some()
                && weight_value(self.links(v)[i].weights@[j]) >= 0
    }

    /// Every edge of the graph carries an explicit weight of at least one.
    pub open spec fn positive(&self) -> bool {
        forall|v: int, i: int, j: int|
            0 <= v < self.adj@.len() && 0 <= i < self.links(v).len() && 0 <= j
                < self.links(v)[i].weights@.len() ==> (#[trigger] self.links(v)[i].weights@[j]).is_some()
                && weight_value(self.links(v)[i].weights@[j]) >= 1
    }

    /// An empty graph with `node_count` nodes and no edges.
    pub fn new(node_count: usize, directed: bool, multi_edges: bool) -> (g: Graph)
        requires
            node_count <= MAX_NODES,
        ensures
            g.wf(),
            g.node_count() == node_count,
            g.directed == directed,
            g.multi_edges == multi_edges,
            forall|v: int| 0 <= v < node_count ==> (#[trigger] g.links(v)).len() == 0,
    {
        let mut adj: Vec<Vec<Link>> = Vec::new();
        while adj.len() < node_count
            invariant
                adj@.len() <= node_count,
                forall|v: int| 0 <= v < adj@.len() ==> (#[trigger] adj@[v])@.len() == 0,
            decreases node_count - adj@.len(),
        {
            adj.push(Vec::new());
        }
        let g = Graph { directed, multi_edges, adj };
        assert forall|v: int| 0 <= v < g.adj@.len() implies #[trigger] g.neighbors(v).no_duplicates() by {
            assert(g.neighbors(v).len() == 0);
        }
        g
    }

    /// Every edge carries an explicit weight.
    pub fn edges_have_weight(&self) -> (r: bool)
        ensures
            r == self.all_weighted(),
    {
        let mut v: usize = 0;
        while v < self.adj.len()
            invariant
                v <= self.adj@.len(),
                forall|x: int, i: int, j: int|
                    0 <= x < v && 0 <= i < self.links(x).len() && 0 <= j
                        < self.links(x)[i].weights@.len() ==> (#[trigger] self.links(
                        x,
                    )[i].weights@[j]).is_some(),
            decreases self.adj@.len() - v,
        {
            let links = &self.adj[v];
            let mut i: usize = 0;
            while i < links.len()
                invariant
                    v < self.adj@.len(),
                    links == self.adj@[v as int],
                    i <= links@.len(),
                    forall|x: int, i: int, j: int|
                        0 <= x < v && 0 <= i < self.links(x).len() && 0 <= j
                            < self.links(x)[i].weights@.len() ==> (#[trigger] self.links(
                            x,
                        )[i].weights@[j]).is_some(),
                    forall|k: int, j: int|
                        0 <= k < i && 0 <= j < links@[k].weights@.len() ==> (
                        #[trigger] links@[k].weights@[j]).is_some(),
                decreases links@.len() - i,
            {
                let ws = &links[i].weights;
                let mut j: usize = 0;
                while j < ws.len()
                    invariant
                        v < self.adj@.len(),
                        links == self.adj@[v as int],
                        i < links@.len(),
                        ws == links@[i as int].weights,
                        j <= ws@.len(),
                        forall|k: int| 0 <= k < j ==> (#[trigger] ws@[k]).is_some(),
                    decreases ws@.len() - j,
                {
                    if ws[j].is_none() {
                        assert(self.links(v as int)[i as int].weights@[j as int].is_none());
                        return false;
                    }
                    j += 1;
                }
                i += 1;
            }
            v += 1;
        }
        true
    }

    /// Records one weight on the link `from -> to`: appended to the weights
    /// already there in a multigraph, replacing them otherwise, and creating
    /// the link if it is absent.
    fn add_arc(&mut self, from: usize, to: usize, weight: Option<i32>)
        requires
            old(self).wf(),
            from < old(self).node_count(),
            to < old(self).node_count(),
        ensures
            final(self).wf(),
            final(self).node_count() == old(self).node_count(),
            final(self).directed == old(self).directed,
            final(self).multi_edges == old(self).multi_edges,
            forall|x: int| 0 <= x < old(self).node_count() && x != from ==> #[trigger] final(self).adj@[x] == old(self).adj@[x],
            final(self).adjacent(from as int, to as int),
            forall|i: int| 0 <= i < final(self).links(from as int).len() && final(self).links(from as int)[i].to == to
                ==> (#[trigger] final(self).links(from as int)[i]).weights@.last() == weight,
    {
        let ghost g0 = *self;
        let mut links = self.adj.remove(from);
        let ghost old_links = links@;
        assert(old_links == g0.links(from as int));
        let mut i: usize = 0;
        while i < links.len() && links[i].to != to
            invariant
                links@ == old_links,
                i <= links@.len(),
                forall|k: int| 0 <= k < i ==> (#[trigger] links@[k]).to != to,
            decreases links@.len() - i,
        {
            i += 1;
        }
        let ghost nb0 = g0.neighbors(from as int);
        assert(nb0.no_duplicates());
        if i < links.len() {
            let mut link = links.remove(i);
            if self.multi_edges {
                link.weights.push(weight);
            } else {
                link.weights = Vec::new();
                link.weights.push(weight);
            }
            links.insert(i, link);
            assert(links@ =~= old_links.update(i as int, link));
            assert(links@.map_values(|l: Link| l.to) =~= nb0);
            assert forall|k: int| 0 <= k < links@.len() && links@[k].to == to implies k == i by {
                if k != i {
                    assert(links@[k] == old_links[k]);
                    assert(nb0[k] == old_links[k].to);
                    assert(nb0[i as int] == old_links[i as int].to);
                }
            }
        } else {
            let mut ws: Vec<Option<i32>> = Vec::new();
            ws.push(weight);
            let ghost l = Link { to, weights: ws };
            links.push(Link { to, weights: ws });
            assert(links@ =~= old_links.push(l));
            assert(links@.map_values(|l: Link| l.to) =~= nb0.push(to));
            let ghost nb1 = nb0.push(to);
            assert forall|a: int, b: int|
                0 <= a < nb1.len() && 0 <= b < nb1.len() && a != b implies #[trigger] nb1[a]
                != #[trigger] nb1[b] by {
                if b == old_links.len() {
                    assert(old_links[a].to != to);
                    assert(nb1[a] == old_links[a].to);
                } else if a == old_links.len() {
                    assert(old_links[b].to != to);
                    assert(nb1[b] == old_links[b].to);
                } else {
                    assert(nb1[a] == nb0[a]);
                    assert(nb1[b] == nb0[b]);
                }
            }
            assert(nb1.no_duplicates());
        }
        self.adj.insert(from, links);
        assert(self.adj@ =~= g0.adj@.update(from as int, links));
        assert(self.links(from as int) == links@);
        assert(self.links(from as int)[i as int].to == to);
        assert forall|x: int| 0 <= x < self.adj@.len() implies #[trigger] self.neighbors(x).no_duplicates() by {
            if x != from {
                assert(self.neighbors(x) == g0.neighbors(x));
            }
        }
        assert forall|x: int, k: int| 0 <= x < self.adj@.len() && 0 <= k < self.links(x).len() implies {
            &&& (#[trigger] self.links(x)[k]).to < self.adj@.len()
            &&& self.links(x)[k].weights@.len() >= 1
            &&& !self.multi_edges ==> self.links(x)[k].weights@.len() == 1
        } by {
            if x != from {
                assert(self.links(x) == g0.links(x));
            } else if k != i {
                assert(self.links(x)[k] == g0.links(x)[k]);
            }
        }
    }

    /// Adds an edge `u -> v` (also `v -> u` in an undirected graph) with an
    /// optional weight.
    pub fn add_edge(&mut self, u: usize, v: usize, weight: Option<i32>)
        requires
            old(self).wf(),
            u < old(self).node_count(),
            v < old(self).node_count(),
        ensures
            final(self).wf(),
            final(self).node_count() == old(self).node_count(),
            final(self).directed == old(self).directed,
            final(self).multi_edges == old(self).multi_edges,
            final(self).adjacent(u as int, v as int),
            !final(self).directed ==> final(self).adjacent(v as int, u as int),
    {
        self.add_arc(u, v, weight);
        let ghost g1 = *self;
        if !self.directed && u != v {
            self.add_arc(v, u, weight);
            assert(self.adj@[u as int] == g1.adj@[u as int]);
            assert(self.links(u as int) == g1.links(u as int));
        }
    }
}

} // verus!
