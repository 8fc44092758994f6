use vstd::prelude::*;

use rayon::iter::{IntoParallelIterator, ParallelIterator};
use std::collections::HashMap;

use crate::graph::Graph;
use crate::model::{initial_state, run, SearchParams, SearchState};
use crate::search::{path_set_view, run_search, Search};

verus! {

broadcast use vstd::std_specs::hash::group_hash_axioms;

/// The distance to one target and every shortest path found to it.
pub struct ShortestPathInfo {
    pub distance: i64,
    pub paths: Vec<Vec<usize>>,
}

/// A distance and a list of paths, as plain values.
pub type PathInfoModel = (int, Seq<Seq<usize>>);

impl View for ShortestPathInfo {
    type V = PathInfoModel;

    open spec fn view(&self) -> PathInfoModel {
        (self.distance as int, path_set_view(self.paths@))
    }
}

/// Why a query failed.
#[derive(Clone, Copy, Debug, PartialEq, Eq, Structural)]
pub enum PathError {
    /// A weighted query on a graph with an edge that carries no weight.
    EdgeWeightNotSpecified,
    /// A shorter path to an already finalized node: some edge weight is negative.
    ContradictoryPaths,
}

/// The parameters of a query as the search takes them.
pub open spec fn params(weighted: bool, target: Option<usize>, cutoff: Option<i64>, first_only: bool) -> SearchParams {
    SearchParams { weighted, target, cutoff, first_only }
}

/// The finalized nodes of `f`, restricted to `target` when one is given, each
/// with its distance and its paths.
pub open spec fn result_map(f: SearchState, target: Option<usize>) -> Map<usize, PathInfoModel> {
    Map::new(
        |t: usize| t < f.dist.len() && f.dist[t as int] is Some && (target is None || target == Some(t)),
        |t: usize| (f.dist[t as int]->Some_0, f.paths[t as int]),
    )
}

/// What a query from `sources` returns.
pub open spec fn search_result(g: Graph, q: SearchParams, sources: Seq<usize>) -> Result<
    Map<usize, PathInfoModel>,
    PathError,
> {
    if q.weighted && !g.all_weighted() {
        Err(PathError::EdgeWeightNotSpecified)
    } else {
        match run(g, q, initial_state(g.node_count(), sources)) {
            None => Err(PathError::ContradictoryPaths),
            Some(f) => Ok(result_map(f, q.target)),
        }
    }
}

pub open spec fn map_view(m: HashMap<usize, ShortestPathInfo>) -> Map<usize, PathInfoModel> {
    m@.map_values(|i: ShortestPathInfo| i@)
}

pub open spec fn outcome_view(r: Result<HashMap<usize, ShortestPathInfo>, PathError>) -> Result<
    Map<usize, PathInfoModel>,
    PathError,
> {
    match r {
        Ok(m) => Ok(map_view(m)),
        Err(e) => Err(e),
    }
}

/// Moves the results out of a finished search.
fn collect_results(st: Search, target: Option<usize>) -> (m: HashMap<usize, ShortestPathInfo>)
    requires
        st@.paths.len() == st@.dist.len(),
    ensures
        map_view(m) == result_map(st@, target),
{
    let ghost s = st@;
    let mut m: HashMap<usize, ShortestPathInfo> = HashMap::new();
    let Search { dist, seen: _, paths, fringe: _, count: _ } = st;
    let mut paths = paths;
    let mut t: usize = 0;
    while t < dist.len()
        invariant
            t <= dist@.len(),
            s.dist.len() == dist@.len(),
            dist@.len() == paths@.len(),
            s.dist == dist@.map_values(|o: Option<i64>| crate::search::opt_int(o)),
            forall|x: int| t <= x < paths@.len() ==> path_set_view((#[trigger] paths@[x])@) == s.paths[x],
            map_view(m) =~= Map::new(
                |x: usize| x < t && s.dist[x as int] is Some && (target is None || target == Some(x)),
                |x: usize| (s.dist[x as int]->Some_0, s.paths[x as int]),
            ),
        decreases dist@.len() - t,
    {
        let wanted = match target {
            Some(x) => x == t,
            None => true,
        };
        let ghost prev = map_view(m);
        let ghost next = Map::new(
            |x: usize| x < t + 1 && s.dist[x as int] is Some && (target is None || target == Some(x)),
            |x: usize| (s.dist[x as int]->Some_0, s.paths[x as int]),
        );
        if wanted {
            match dist[t] {
                Some(d) => {
                    let mut ps: Vec<Vec<usize>> = Vec::new();
                    paths.set_and_swap(t, &mut ps);
                    let info = ShortestPathInfo { distance: d, paths: ps };
                    assert(info@ == (s.dist[t as int]->Some_0, s.paths[t as int]));
                    m.insert(t, info);
                    assert(map_view(m) =~= prev.insert(t, info@));
                    assert(map_view(m) =~= next);
                },
                None => {
                    assert(map_view(m) =~= next);
                },
            }
        } else {
            assert(map_view(m) =~= next);
        }
        t += 1;
    }
    m
}

/// Shortest paths from any of `sources`: each finalized node (only `target`,
/// when one is given) with its distance and every tied shortest path.
pub fn multi_source(
    g: &Graph,
    weighted: bool,
    sources: Vec<usize>,
    target: Option<usize>,
    cutoff: Option<i64>,
    first_only: bool,
) -> (r: Result<HashMap<usize, ShortestPathInfo>, PathError>)
    requires
        g.wf(),
        forall|i: int| 0 <= i < sources@.len() ==> #[trigger] sources@[i] < g.node_count(),
    ensures
        outcome_view(r) == search_result(*g, params(weighted, target, cutoff, first_only), sources@),
{
    if weighted && !g.edges_have_weight() {
        return Err(PathError::EdgeWeightNotSpecified);
    }
    let q = SearchParams { weighted, target, cutoff, first_only };
    match run_search(g, q, &sources) {
        None => Err(PathError::ContradictoryPaths),
        Some(st) => Ok(collect_results(st, target)),
    }
}

/// Shortest paths from `source`: the query from the single source `source`.
pub fn single_source(
    g: &Graph,
    weighted: bool,
    source: usize,
    target: Option<usize>,
    cutoff: Option<i64>,
    first_only: bool,
) -> (r: Result<HashMap<usize, ShortestPathInfo>, PathError>)
    requires
        g.wf(),
        source < g.node_count(),
    ensures
        outcome_view(r) == search_result(*g, params(weighted, target, cutoff, first_only), seq![source]),
{
    let mut sources: Vec<usize> = Vec::new();
    sources.push(source);
    assert(sources@ =~= seq![source]);
    multi_source(g, weighted, sources, target, cutoff, first_only)
}

/// What an all-pairs query returns: for every node, the query from that node
/// alone with no target.
pub open spec fn all_pairs_result(g: Graph, weighted: bool, cutoff: Option<i64>, first_only: bool) -> Result<
    Map<usize, Map<usize, PathInfoModel>>,
    PathError,
> {
    let q = params(weighted, None, cutoff, first_only);
    if weighted && !g.all_weighted() {
        Err(PathError::EdgeWeightNotSpecified)
    } else if exists|s: usize| s < g.node_count() && (#[trigger] search_result(g, q, seq![s])) is Err {
        Err(PathError::ContradictoryPaths)
    } else {
        Ok(Map::new(|s: usize| s < g.node_count(), |s: usize| search_result(g, q, seq![s])->Ok_0))
    }
}

/// Relies on rayon's `into_par_iter` on a range and `collect` into a `Vec`,
/// which keeps the order of the range: the query from each node, run in parallel.
#[verifier::external_body]
fn each_source_in_parallel(g: &Graph, weighted: bool, cutoff: Option<i64>, first_only: bool) -> (r: Vec<
    Result<HashMap<usize, ShortestPathInfo>, PathError>,
>)
    requires
        g.wf(),
    ensures
        r@.len() == g.node_count(),
        forall|s: int|
            0 <= s < r@.len() ==> outcome_view(#[trigger] r@[s]) == search_result(
                *g,
                params(weighted, None, cutoff, first_only),
                seq![s as usize],
            ),
{
    (0..g.adj.len()).into_par_iter().map(|s| single_source(g, weighted, s, None, cutoff, first_only)).collect()
}

/// Shortest paths between all pairs of nodes: for each node, the query from
/// that node alone, the nodes' queries run in parallel.
pub fn all_pairs(g: &Graph, weighted: bool, cutoff: Option<i64>, first_only: bool) -> (r: Result<
    HashMap<usize, HashMap<usize, ShortestPathInfo>>,
    PathError,
>)
    requires
        g.wf(),
    ensures
        match r {
            Ok(m) => all_pairs_result(*g, weighted, cutoff, first_only) == Ok::<
                Map<usize, Map<usize, PathInfoModel>>,
                PathError,
            >(m@.map_values(|inner: HashMap<usize, ShortestPathInfo>| map_view(inner))),
            Err(e) => all_pairs_result(*g, weighted, cutoff, first_only) == Err::<
                Map<usize, Map<usize, PathInfoModel>>,
                PathError,
            >(e),
        },
{
    let ghost q = params(weighted, None, cutoff, first_only);
    if weighted && !g.edges_have_weight() {
        return Err(PathError::EdgeWeightNotSpecified);
    }
    let mut results = each_source_in_parallel(g, weighted, cutoff, first_only);
    let ghost all = results@;
    let mut m: HashMap<usize, HashMap<usize, ShortestPathInfo>> = HashMap::new();
    while results.len() > 0
        invariant
            results@ == all.take(results@.len() as int),
            results@.len() <= all.len(),
            all.len() == g.node_count(),
            q == params(weighted, None, cutoff, first_only),
            !(weighted && !g.all_weighted()),
            forall|s: int|
                0 <= s < all.len() ==> outcome_view(#[trigger] all[s]) == search_result(
                    *g,
                    q,
                    seq![s as usize],
                ),
            forall|s: usize|
                results@.len() <= s < g.node_count() ==> (#[trigger] search_result(
                    *g,
                    q,
                    seq![s],
                )) is Ok,
            m@.map_values(|inner: HashMap<usize, ShortestPathInfo>| map_view(inner)) =~= Map::new(
                |s: usize| results@.len() <= s < g.node_count(),
                |s: usize| search_result(*g, q, seq![s])->Ok_0,
            ),
        decreases results@.len(),
    {
        let ghost prev = m@.map_values(|inner: HashMap<usize, ShortestPathInfo>| map_view(inner));
        let s = results.len() - 1;
        let one = results.pop().unwrap();
        assert(all.take(s as int) =~= all.take(s + 1).drop_last());
        assert(one == all[s as int]);
        match one {
            Err(e) => {
                assert(outcome_view(all[s as int]) == search_result(*g, q, seq![s]));
                assert(search_result(*g, q, seq![s]) == Err::<Map<usize, PathInfoModel>, PathError>(e));
                assert(e == PathError::ContradictoryPaths);
                assert(s < g.node_count() && search_result(*g, q, seq![s]) is Err);
                return Err(e);
            },
            Ok(inner) => {
                m.insert(s, inner);
                assert(m@.map_values(|inner: HashMap<usize, ShortestPathInfo>| map_view(inner)) =~= prev.insert(s, map_view(inner)));
            },
        }
    }
    assert(!exists|s: usize| s < g.node_count() && (#[trigger] search_result(*g, q, seq![s])) is Err);
    assert(m@.map_values(|inner: HashMap<usize, ShortestPathInfo>| map_view(inner)) =~= Map::new(
        |s: usize| s < g.node_count(),
        |s: usize| search_result(*g, q, seq![s])->Ok_0,
    ));
    Ok(m)
}

} // verus!
