use vstd::prelude::*;

use crate::conflict::{stat_paths, ConflictStatistic, ConflictStatistics};
use crate::derivation::DerivationFlowError;
use crate::qualified_path::QualifiedPath;

verus! {

/// The largest node index an edge touches.
pub open spec fn max_endpoint(edges: Seq<(u32, u32)>) -> int
    decreases edges.len(),
{
    if edges.len() == 0 {
        0
    } else {
        let rest = max_endpoint(edges.drop_last());
        let a = edges.last().0 as int;
        let b = edges.last().1 as int;
        if a >= rest && a >= b {
            a
        } else if b >= rest {
            b
        } else {
            rest
        }
    }
}

/// The nodes of the conflict graph the edges span: every index up to the
/// largest endpoint, as the graph is built from the edge list alone.
pub open spec fn node_in_graph(edges: Seq<(u32, u32)>, v: u32) -> bool {
    edges.len() > 0 && v as int <= max_endpoint(edges)
}

/// An undirected edge between two nodes.
pub open spec fn has_edge(edges: Seq<(u32, u32)>, a: u32, b: u32) -> bool {
    exists|k: int| 0 <= k < edges.len() && (#[trigger] edges[k] == (a, b) || edges[k] == (b, a))
}

/// A set of nodes every two of which are connected.
pub open spec fn is_clique(edges: Seq<(u32, u32)>, c: Set<u32>) -> bool {
    &&& c.finite()
    &&& forall|a: u32| c.contains(a) ==> node_in_graph(edges, a)
    &&& forall|a: u32, b: u32|
        c.contains(a) && c.contains(b) && a != b ==> has_edge(edges, a, b)
}

/// A clique no further node extends.
pub open spec fn is_maximal_clique(edges: Seq<(u32, u32)>, c: Set<u32>) -> bool {
    &&& is_clique(edges, c)
    &&& c.len() > 0
    &&& forall|v: u32|
        node_in_graph(edges, v) && !c.contains(v) ==> !is_clique(edges, c.insert(v))
}

/// Relies on petgraph's UnGraph::from_edges and algo::maximal_cliques
/// (Bron–Kerbosch): the graph holds every node index up to the largest
/// endpoint, and the call returns all of its maximal cliques, each as a set
/// of distinct nodes. An empty edge list builds an empty graph, for which
/// the call reports one empty node set, so that case is left out here; an
/// endpoint of the index type's maximum would exhaust the node indices and
/// is left out as well.
#[verifier::external_body]
fn maximal_cliques_of(edges: &Vec<(u32, u32)>) -> (r: Vec<Vec<u32>>)
    requires
        edges@.len() > 0,
        forall|k: int|
            0 <= k < edges@.len() ==> ((#[trigger] edges@[k]).0 != edges@[k].1 && edges@[k].0
                < u32::MAX && edges@[k].1 < u32::MAX),
    ensures
        forall|i: int|
            0 <= i < r@.len() ==> is_maximal_clique(edges@, (#[trigger] r@[i])@.to_set())
                && r@[i]@.no_duplicates(),
        forall|c: Set<u32>|
            is_maximal_clique(edges@, c) ==> exists|i: int|
                0 <= i < r@.len() && (#[trigger] r@[i])@.to_set() == c,
{
    let g: petgraph::graph::UnGraph<(), ()> = petgraph::graph::UnGraph::from_edges(
        edges.iter().copied(),
    );
    petgraph::algo::maximal_cliques(&g)
        .into_iter()
        .map(|c| c.into_iter().map(|n| n.index() as u32).collect())
        .collect()
}

/// A maximum clique of the conflict-free graph: one of the maximal cliques
/// of largest size, or nothing when the graph has no nodes. Ties go to the
/// first maximum-size clique found; callers must not depend on which.
pub fn get_max_clique(edges: &Vec<(u32, u32)>) -> (r: Vec<u32>)
    requires
        forall|k: int|
            0 <= k < edges@.len() ==> ((#[trigger] edges@[k]).0 != edges@[k].1 && edges@[k].0
                < u32::MAX && edges@[k].1 < u32::MAX),
    ensures
        r@.no_duplicates(),
        r@.len() > 0 ==> is_maximal_clique(edges@, r@.to_set()),
        forall|c: Set<u32>| is_maximal_clique(edges@, c) ==> c.len() <= r@.len(),
        r@.len() == 0 ==> (forall|c: Set<u32>| !is_maximal_clique(edges@, c)),
    decreases 0int,
{
    if edges.len() == 0 {
        let r: Vec<u32> = Vec::new();
        proof {
            assert forall|c: Set<u32>| !is_maximal_clique(edges@, c) by {
                if is_maximal_clique(edges@, c) {
                    assert forall|v: u32| !c.contains(v) by {
                        if c.contains(v) {
                            assert(node_in_graph(edges@, v));
                        }
                    }
                    assert(c =~= Set::<u32>::empty());
                    assert(c.len() == 0);
                }
            }
        }
        return r;
    }
    let cliques = maximal_cliques_of(edges);
    let n = cliques.len();
    let mut best: Vec<u32> = Vec::new();
    let mut i: usize = 0;
    proof {
        assert forall|x: u32| !best@.to_set().contains(x) by {
            if best@.to_set().contains(x) {
                assert(best@.contains(x));
            }
        }
        assert(best@.to_set() =~= Set::<u32>::empty());
        assert(best@.to_set().len() == 0);
    }
    while i < n
        invariant
            0 <= i <= n,
            n == cliques@.len(),
            forall|k: int|
                0 <= k < cliques@.len() ==> is_maximal_clique(
                    edges@,
                    (#[trigger] cliques@[k])@.to_set(),
                ) && cliques@[k]@.no_duplicates(),
            best@.no_duplicates(),
            best@.len() > 0 ==> is_maximal_clique(edges@, best@.to_set()),
            forall|k: int| 0 <= k < i ==> (#[trigger] cliques@[k])@.len() <= best@.len(),
        decreases n - i,
    {
        if cliques[i].len() > best.len() {
            best = clone_ids(&cliques[i]);
        }
        i = i + 1;
    }
    proof {
        assert forall|c: Set<u32>| is_maximal_clique(edges@, c) implies c.len()
            <= best@.len() by {
            let j = choose|j: int| 0 <= j < cliques@.len() && (#[trigger] cliques@[j])@.to_set()
                == c;
            cliques@[j]@.unique_seq_to_set();
        }
        if best@.len() == 0 {
            assert forall|c: Set<u32>| !is_maximal_clique(edges@, c) by {
                if is_maximal_clique(edges@, c) {
                    assert(c.len() <= best@.len());
                    assert(c.len() > 0);
                }
            }
        }
    }
    best
}

fn clone_ids(v: &Vec<u32>) -> (r: Vec<u32>)
    ensures
        r@ == v@,
{
    let n = v.len();
    let mut r: Vec<u32> = Vec::new();
    let mut i: usize = 0;
    while i < n
        invariant
            0 <= i <= n,
            n == v@.len(),
            r@ == v@.take(i as int),
        decreases n - i,
    {
        let x = v[i];
        r.push(x);
        proof {
            assert(r@ =~= v@.take(i + 1 as int));
        }
        i = i + 1;
    }
    proof {
        assert(v@.take(n as int) =~= v@);
    }
    r
}

/// The first position of a path among the feature views.
pub open spec fn first_index_of(vs: Seq<Seq<Seq<char>>>, x: Seq<Seq<char>>) -> int
    decreases vs.len(),
{
    if vs.len() == 0 {
        0
    } else if vs[0] == x {
        0
    } else {
        1 + first_index_of(vs.drop_first(), x)
    }
}

proof fn lemma_first_index_of(vs: Seq<Seq<Seq<char>>>, x: Seq<Seq<char>>)
    requires
        vs.contains(x),
    ensures
        0 <= first_index_of(vs, x) < vs.len(),
        vs[first_index_of(vs, x)] == x,
    decreases vs.len(),
{
    if vs[0] != x {
        let j = choose|j: int| 0 <= j < vs.len() && vs[j] == x;
        assert(vs.drop_first()[j - 1] == x);
        assert(vs.drop_first().contains(x));
        lemma_first_index_of(vs.drop_first(), x);
    }
}

/// Each feature is identified by its position in the feature list; the list
/// itself is the identifier-to-path table.
pub fn map_paths_to_id(paths: &Vec<QualifiedPath>) -> (r: Vec<QualifiedPath>)
    ensures
        r@.map_values(|p: QualifiedPath| p@) == paths@.map_values(|p: QualifiedPath| p@),
{
    let n = paths.len();
    let mut r: Vec<QualifiedPath> = Vec::new();
    let mut i: usize = 0;
    while i < n
        invariant
            0 <= i <= n,
            n == paths@.len(),
            r@.len() == i,
            forall|k: int| 0 <= k < i ==> (#[trigger] r@[k])@ == paths@[k]@,
        decreases n - i,
    {
        r.push(paths[i].clone());
        i = i + 1;
    }
    proof {
        assert(r@.map_values(|p: QualifiedPath| p@) =~= paths@.map_values(|p: QualifiedPath| p@));
    }
    r
}

/// The identifier of a path: its first position in the feature list.
pub fn path_to_id(paths: &Vec<QualifiedPath>, p: &QualifiedPath) -> (r: Option<usize>)
    ensures
        r is Some <==> paths@.map_values(|q: QualifiedPath| q@).contains(p@),
        r matches Some(i) ==> i as int == first_index_of(
            paths@.map_values(|q: QualifiedPath| q@),
            p@,
        ) && i < paths@.len() && paths@[i as int]@ == p@,
{
    let ghost vs = paths@.map_values(|q: QualifiedPath| q@);
    let n = paths.len();
    let mut i: usize = 0;
    while i < n
        invariant
            0 <= i <= n,
            n == vs.len(),
            paths@.map_values(|q: QualifiedPath| q@) == vs,
            paths@.len() == n,
            forall|k: int| 0 <= k < i ==> vs[k] != p@,
        decreases n - i,
    {
        proof {
            assert(vs[i as int] == paths@[i as int]@);
        }
        if paths[i] == *p {
            proof {
                assert(vs.contains(p@)) by {
                    assert(vs[i as int] == p@);
                }
                lemma_first_index_prefix(vs, p@, i as int);
            }
            return Some(i);
        }
        i = i + 1;
    }
    proof {
        if vs.contains(p@) {
            let j = choose|j: int| 0 <= j < vs.len() && vs[j] == p@;
            assert(false);
        }
    }
    None
}

proof fn lemma_first_index_prefix(vs: Seq<Seq<Seq<char>>>, x: Seq<Seq<char>>, i: int)
    requires
        0 <= i < vs.len(),
        vs[i] == x,
        forall|k: int| 0 <= k < i ==> vs[k] != x,
    ensures
        first_index_of(vs, x) == i,
    decreases i,
{
    if i > 0 {
        assert(vs[0] != x);
        assert(vs.drop_first()[i - 1] == x);
        assert forall|k: int| 0 <= k < i - 1 implies vs.drop_first()[k] != x by {
            assert(vs.drop_first()[k] == vs[k + 1]);
        }
        lemma_first_index_prefix(vs.drop_first(), x, i - 1);
    }
}

/// The conflict-free graph's edge list: one edge per cleanly merging pair,
/// each endpoint the first position of its path among the feature views.
pub open spec fn conflict_graph_edges(
    oks: Seq<ConflictStatistic>,
    vs: Seq<Seq<Seq<char>>>,
) -> Seq<(u32, u32)> {
    Seq::new(
        oks.len(),
        |k: int|
            (
                first_index_of(vs, stat_paths(oks[k])[0]) as u32,
                first_index_of(vs, stat_paths(oks[k])[1]) as u32,
            ),
    )
}

/// `out` names, in order and without repetition, the features at the
/// positions `ids`, and `ids` is a maximum clique of the graph `es`: a
/// maximal clique no other maximal clique outsizes, or empty exactly when
/// the graph has no clique at all.
pub open spec fn is_max_clique_translation(
    vs: Seq<Seq<Seq<char>>>,
    es: Seq<(u32, u32)>,
    ids: Seq<u32>,
    out: Seq<Seq<Seq<char>>>,
) -> bool {
    &&& ids.no_duplicates()
    &&& ids.len() > 0 ==> is_maximal_clique(es, ids.to_set())
    &&& forall|c: Set<u32>| is_maximal_clique(es, c) ==> c.len() <= ids.len()
    &&& ids.len() == 0 ==> (forall|c: Set<u32>| !is_maximal_clique(es, c))
    &&& out.len() == ids.len()
    &&& forall|k: int|
        0 <= k < ids.len() ==> (#[trigger] ids[k]) < vs.len() && out[k] == vs[ids[k] as int]
}

/// The chosen merge order `out` is the translation of a maximum clique
/// `ids` of the graph whose edges are the cleanly merging pairs among
/// `features`.
/// Some maximum clique of the conflict-free graph translates to `out`.
pub open spec fn mergeable_choice(
    features: Seq<QualifiedPath>,
    oks: Seq<ConflictStatistic>,
    out: Seq<QualifiedPath>,
) -> bool {
    exists|ids: Seq<u32>| #[trigger] mergeable_selection(features, oks, ids, out)
}

#[verifier::opaque]
pub open spec fn mergeable_selection(
    features: Seq<QualifiedPath>,
    oks: Seq<ConflictStatistic>,
    ids: Seq<u32>,
    out: Seq<QualifiedPath>,
) -> bool {
    is_max_clique_translation(
        features.map_values(|q: QualifiedPath| q@),
        conflict_graph_edges(oks, features.map_values(|q: QualifiedPath| q@)),
        ids,
        out.map_values(|p: QualifiedPath| p@),
    )
}

/// The edges of the conflict-free graph: one per cleanly merging pair,
/// naming each feature by its identifier.
pub fn build_edges(conflict_data: &ConflictStatistics, paths: &Vec<QualifiedPath>) -> (r: Vec<
    (u32, u32),
>)
    requires
        conflict_data.wf(),
        paths@.len() <= u32::MAX,
        forall|i: int|
            0 <= i < conflict_data.oks().len() ==> {
                let pr = stat_paths(#[trigger] conflict_data.oks()[i]);
                pr.len() == 2 && pr[0] != pr[1] && paths@.map_values(
                    |q: QualifiedPath| q@,
                ).contains(pr[0]) && paths@.map_values(|q: QualifiedPath| q@).contains(pr[1])
            },
    ensures
        r@.len() == conflict_data.oks().len(),
        forall|i: int|
            0 <= i < r@.len() ==> {
                let pr = stat_paths(#[trigger] conflict_data.oks()[i]);
                let vs = paths@.map_values(|q: QualifiedPath| q@);
                r@[i].0 as int == first_index_of(vs, pr[0]) && r@[i].1 as int == first_index_of(
                    vs,
                    pr[1],
                ) && r@[i].0 != r@[i].1
            },
        r@ == conflict_graph_edges(
            conflict_data.oks(),
            paths@.map_values(|q: QualifiedPath| q@),
        ),
{
    let ghost vs = paths@.map_values(|q: QualifiedPath| q@);
    let oks = conflict_data.iter_ok();
    let n = oks.len();
    let mut r: Vec<(u32, u32)> = Vec::new();
    let mut i: usize = 0;
    while i < n
        invariant
            0 <= i <= n,
            n == conflict_data.oks().len(),
            oks@ == conflict_data.oks(),
            conflict_data.wf(),
            paths@.map_values(|q: QualifiedPath| q@) == vs,
            paths@.len() == vs.len() <= u32::MAX,
            forall|k: int|
                0 <= k < conflict_data.oks().len() ==> {
                    let pr = stat_paths(#[trigger] conflict_data.oks()[k]);
                    pr.len() == 2 && pr[0] != pr[1] && vs.contains(pr[0]) && vs.contains(pr[1])
                },
            r@.len() == i,
            forall|k: int|
                0 <= k < i ==> {
                    let pr = stat_paths(#[trigger] conflict_data.oks()[k]);
                    r@[k].0 as int == first_index_of(vs, pr[0]) && r@[k].1 as int
                        == first_index_of(vs, pr[1]) && r@[k].0 != r@[k].1
                },
        decreases n - i,
    {
        let stat = &oks[i];
        let ghost pr = stat_paths(conflict_data.oks()[i as int]);
        let pair = match stat {
            ConflictStatistic::OK(ps) => {
                proof {
                    assert(ps@.map_values(|q: QualifiedPath| q@) == pr);
                    assert(pr[0] == ps@[0]@);
                    assert(pr[1] == ps@[1]@);
                }
                (&ps[0], &ps[1])
            },
            _ => {
                proof {
                    assert(false);
                }
                (&paths[0], &paths[0])
            },
        };
        let l_id = match path_to_id(paths, pair.0) {
            Some(x) => x,
            None => {
                proof {
                    assert(false);
                }
                0
            },
        };
        let r_id = match path_to_id(paths, pair.1) {
            Some(x) => x,
            None => {
                proof {
                    assert(false);
                }
                0
            },
        };
        proof {
            lemma_first_index_of(vs, pr[0]);
            lemma_first_index_of(vs, pr[1]);
            assert(vs[l_id as int] == pr[0]);
            assert(vs[r_id as int] == pr[1]);
            assert(l_id != r_id);
        }
        r.push((l_id as u32, r_id as u32));
        i = i + 1;
    }
    proof {
        let es = conflict_graph_edges(conflict_data.oks(), vs);
        assert forall|k: int| 0 <= k < r@.len() implies #[trigger] r@[k] == es[k] by {
            let pr = stat_paths(conflict_data.oks()[k]);
            lemma_first_index_of(vs, pr[0]);
            lemma_first_index_of(vs, pr[1]);
        }
        assert(r@ =~= es);
    }
    r
}

/// The clique's identifiers translated back into paths.
pub fn clique_to_paths(clique: &Vec<u32>, id_to_path: &Vec<QualifiedPath>) -> (r: Vec<
    QualifiedPath,
>)
    requires
        forall|k: int| 0 <= k < clique@.len() ==> (#[trigger] clique@[k]) < id_to_path@.len(),
    ensures
        r@.len() == clique@.len(),
        forall|k: int| 0 <= k < r@.len() ==> (#[trigger] r@[k])@ == id_to_path@[clique@[k] as int]@,
{
    let n = clique.len();
    let mut r: Vec<QualifiedPath> = Vec::new();
    let mut i: usize = 0;
    while i < n
        invariant
            0 <= i <= n,
            n == clique@.len(),
            forall|k: int| 0 <= k < clique@.len() ==> (#[trigger] clique@[k]) < id_to_path@.len(),
            r@.len() == i,
            forall|k: int|
                0 <= k < i ==> (#[trigger] r@[k])@ == id_to_path@[clique@[k] as int]@,
        decreases n - i,
    {
        let id = clique[i];
        r.push(id_to_path[id as usize].clone());
        i = i + 1;
    }
    r
}

/// The subset of the features that can all merge together: the maximum
/// clique of the graph whose edges are the cleanly merging pairs. Any
/// backend error among the statistics refuses to compute an order at all.
#[verifier::rlimit(60)]
pub fn calculate_mergeable_features(
    features: &Vec<QualifiedPath>,
    conflicts: &ConflictStatistics,
) -> (r: Result<Vec<QualifiedPath>, DerivationFlowError>)
    requires
        conflicts.wf(),
        features@.len() <= u32::MAX,
        forall|i: int|
            0 <= i < conflicts.oks().len() ==> {
                let pr = stat_paths(#[trigger] conflicts.oks()[i]);
                pr.len() == 2 && pr[0] != pr[1] && features@.map_values(
                    |q: QualifiedPath| q@,
                ).contains(pr[0]) && features@.map_values(|q: QualifiedPath| q@).contains(pr[1])
            },
    ensures
        r is Err <==> conflicts.errors().len() > 0,
        r matches Ok(v) ==> forall|k: int|
            0 <= k < v@.len() ==> features@.map_values(|q: QualifiedPath| q@).contains(
                (#[trigger] v@[k])@,
            ),
        r is Ok ==> mergeable_choice(features@, conflicts.oks(), r->Ok_0@),
{
    if conflicts.n_errors() > 0 {
        return Err(DerivationFlowError::new("errors occurred while checking for conflicts"));
    }
    let id_to_path = map_paths_to_id(features);
    let edges = build_edges(conflicts, features);
    let ghost vs = features@.map_values(|q: QualifiedPath| q@);
    proof {
        assert forall|k: int|
            0 <= k < edges@.len() implies (((#[trigger] edges@[k]).0 as int) < vs.len() && ((
        edges@[k].1) as int) < vs.len() && edges@[k].0 != edges@[k].1) by {
            let pr = stat_paths(conflicts.oks()[k]);
            lemma_first_index_of(vs, pr[0]);
            lemma_first_index_of(vs, pr[1]);
        }
    }
    let max_clique = get_max_clique(&edges);
    proof {
        assert(id_to_path@.map_values(|q: QualifiedPath| q@).len() == vs.len());
        assert(id_to_path@.len() == features@.len());
        assert forall|k: int| 0 <= k < max_clique@.len() implies (((#[trigger] max_clique@[k]) as int)
            < features@.len()) by {
            let c = max_clique@.to_set();
            assert(max_clique@.to_set().contains(max_clique@[k]));
            assert(is_maximal_clique(edges@, c));
            assert(node_in_graph(edges@, max_clique@[k]));
            assert(edges@.len() > 0);
            assert((edges@[0].0 as int) < vs.len());
            lemma_endpoints_bounded(edges@, vs.len() as int);
        }
    }
    let v = clique_to_paths(&max_clique, &id_to_path);
    proof {
        let vs = features@.map_values(|q: QualifiedPath| q@);
        assert forall|k: int| 0 <= k < v@.len() implies vs.contains((#[trigger] v@[k])@) by {
            assert(v@[k]@ == id_to_path@[max_clique@[k] as int]@);
            assert(vs[max_clique@[k] as int] == features@[max_clique@[k] as int]@);
        }
        let es = conflict_graph_edges(conflicts.oks(), vs);
        assert(edges@ == es);
        let out = v@.map_values(|p: QualifiedPath| p@);
        assert forall|k: int| 0 <= k < max_clique@.len() implies (#[trigger] max_clique@[k])
            < vs.len() && out[k] == vs[max_clique@[k] as int] by {
            assert(out[k] == v@[k]@);
            assert(v@[k]@ == id_to_path@[max_clique@[k] as int]@);
            assert(vs[max_clique@[k] as int] == features@[max_clique@[k] as int]@);
        }
        assert(is_max_clique_translation(vs, es, max_clique@, out));
        reveal(mergeable_selection);
        assert(mergeable_selection(features@, conflicts.oks(), max_clique@, v@));
        assert(exists|ids: Seq<u32>|
            #[trigger] mergeable_selection(features@, conflicts.oks(), ids, v@));
        assert(mergeable_choice(features@, conflicts.oks(), v@));
    }
    Ok(v)
}

/// Every node of the graph lies below the feature count, because every edge
/// endpoint is a feature identifier.
proof fn lemma_endpoints_bounded(edges: Seq<(u32, u32)>, bound: int)
    requires
        forall|k: int|
            0 <= k < edges.len() ==> ((#[trigger] edges[k]).0 < bound && edges[k].1 < bound),
    ensures
        max_endpoint(edges) < bound || edges.len() == 0,
        edges.len() > 0 && bound > 0 ==> max_endpoint(edges) < bound,
    decreases edges.len(),
{
    if edges.len() > 0 {
        lemma_endpoints_bounded(edges.drop_last(), bound);
    }
}

} // verus!
