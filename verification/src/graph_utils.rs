//! Dijkstra's exploration of a weighted graph: the cheapest known cost of
//! reaching every node from a start, and the step each cost came from.
use crate::graph_search::SearchGraph;
use crate::search::{count_unset, lemma_count_unset_set};
use vstd::prelude::*;

verus! {

/// The costs found from the start, `None` for nodes never reached, and for
/// each reached node other than the start the node its cost came from.
pub struct PathsResult {
    pub scores: Vec<Option<u64>>,
    pub predecessor: Vec<Option<usize>>,
}

/// A cost plus a step, held at `u64::MAX` when it would pass it.
pub open spec fn step_cost(cost: u64, weight: u64) -> u64 {
    if cost + weight > u64::MAX {
        u64::MAX
    } else {
        (cost + weight) as u64
    }
}

/// The `j`th edge leaving `u` goes to `v`.
pub open spec fn edge_to<G: SearchGraph>(graph: &G, u: usize, j: int, v: int) -> bool {
    0 <= j < graph.spec_neighbours(u).len() && graph.spec_neighbours(u)[j].0 == v
}

/// Every edge from a node with a cost leads to a node whose cost is at most
/// the step's.
pub open spec fn relaxed<G: SearchGraph>(graph: &G, scores: Seq<Option<u64>>) -> bool {
    forall|u: int, j: int|
        0 <= u < scores.len() && scores[u] is Some && 0 <= j < graph.spec_neighbours(u as usize).len()
            ==> #[trigger] reached_within(graph, scores, u, j)
}

/// The `j`th edge from `u` leads to a node with a cost no higher than the
/// step's.
pub open spec fn reached_within<G: SearchGraph>(graph: &G, scores: Seq<Option<u64>>, u: int, j: int) -> bool {
    let (v, w) = graph.spec_neighbours(u as usize)[j];
    &&& scores[v as int] is Some
    &&& scores[v as int]->0 <= step_cost(scores[u]->0, w)
}

/// Every node with a cost, but the start, names a node with a cost and an
/// edge from it whose step gives exactly that cost; nodes without a cost
/// name none.
pub open spec fn tree_ok<G: SearchGraph>(
    graph: &G,
    start: int,
    scores: Seq<Option<u64>>,
    pred: Seq<Option<usize>>,
) -> bool {
    forall|v: int|
        0 <= v < scores.len() ==> #[trigger] pred_ok(graph, start, scores, pred, v)
}

/// The predecessor named for `v` fits its cost.
pub open spec fn pred_ok<G: SearchGraph>(
    graph: &G,
    start: int,
    scores: Seq<Option<u64>>,
    pred: Seq<Option<usize>>,
    v: int,
) -> bool {
    if v == start || scores[v] is None {
        pred[v] is None
    } else {
        &&& pred[v] is Some
        &&& pred[v]->0 < scores.len()
        &&& scores[pred[v]->0 as int] is Some
        &&& exists|j: int|
            #[trigger] edge_to(graph, pred[v]->0, j, v) && scores[v]->0 == step_cost(
                scores[pred[v]->0 as int]->0,
                graph.spec_neighbours(pred[v]->0)[j].1,
            )
    }
}

/// The unvisited node with the lowest cost, if any has one.
fn closest_unvisited(scores: &Vec<Option<u64>>, visited: &Vec<bool>) -> (r: Option<(usize, u64)>)
    requires
        scores.len() == visited.len(),
    ensures
        r matches Some((u, su)) ==> {
            &&& u < scores.len()
            &&& !visited@[u as int]
            &&& scores@[u as int] == Some(su)
            &&& forall|y: int|
                0 <= y < scores.len() && !visited@[y] && #[trigger] scores@[y] is Some ==> su <= scores@[y]->0
        },
        r is None ==> forall|y: int| 0 <= y < scores.len() && !visited@[y] ==> #[trigger] scores@[y] is None,
{
    let mut best: Option<(usize, u64)> = None;
    let mut i: usize = 0;
    while i < scores.len()
        invariant
            scores.len() == visited.len(),
            i <= scores.len(),
            best matches Some((b, bs)) ==> {
                &&& b < i
                &&& !visited@[b as int]
                &&& scores@[b as int] == Some(bs)
                &&& forall|y: int|
                    0 <= y < i && !visited@[y] && #[trigger] scores@[y] is Some ==> bs <= scores@[y]->0
            },
            best is None ==> forall|y: int| 0 <= y < i && !visited@[y] ==> #[trigger] scores@[y] is None,
        decreases scores.len() - i,
    {
        if !visited[i] {
            if let Some(s) = scores[i] {
                let take = match best {
                    None => true,
                    Some((_, bs)) => s < bs,
                };
                if take {
                    best = Some((i, s));
                }
            }
        }
        i += 1;
    }
    best
}

/// Some walk from `start` ends at `v` and costs `cost`.
pub open spec fn walk_to<G: SearchGraph>(graph: &G, start: int, v: int, cost: u64) -> bool {
    exists|w: Seq<usize>, js: Seq<int>|
        #[trigger] weighted_walk(graph, w, js) && w[0] == start && w.last() == v && walk_cost(
            graph,
            w,
            js,
            js.len() as int,
        ) == cost
}

proof fn lemma_walk_step<G: SearchGraph>(graph: &G, start: int, u: usize, cost: u64, k: int, v: int)
    requires
        walk_to(graph, start, u as int, cost),
        edge_to(graph, u, k, v),
        0 <= v,
    ensures
        walk_to(graph, start, v, step_cost(cost, graph.spec_neighbours(u)[k].1)),
{
    let (w, js) = choose|w: Seq<usize>, js: Seq<int>|
        #[trigger] weighted_walk(graph, w, js) && w[0] == start && w.last() == u && walk_cost(
            graph,
            w,
            js,
            js.len() as int,
        ) == cost;
    let w2 = w.push(v as usize);
    let js2 = js.push(k);
    assert(w2.drop_last() == w);
    assert(js2.drop_last() == js);
    assert forall|i: int| 0 <= i < js2.len() implies #[trigger] edge_to(graph, w2[i], js2[i], w2[i + 1] as int) by {
        if i < js.len() {
            assert(edge_to(graph, w[i], js[i], w[i + 1] as int));
        }
    }
    assert(weighted_walk(graph, w2, js2));
    lemma_walk_cost_prefix(graph, w2, js2, js.len() as int);
    assert(walk_cost(graph, w2, js2, js2.len() as int) == step_cost(
        walk_cost(graph, w2, js2, js.len() as int),
        graph.spec_neighbours(w2[js.len() as int])[js2[js.len() as int]].1,
    ));
    assert(w2[0] == start);
}

/// Explores the graph from `start` in order of cost, Dijkstra's way: the
/// cheapest unvisited node is visited next, and each edge from it to an
/// unvisited node lowers that node's cost when the step is cheaper. Costs
/// add up to at most `u64::MAX`.
pub fn dijkstra_explore<G: SearchGraph>(graph: &G, start: usize) -> (r: PathsResult)
    requires
        start < graph.spec_node_count(),
    ensures
        r.scores.len() == graph.spec_node_count(),
        r.predecessor.len() == graph.spec_node_count(),
        r.scores@[start as int] == Some(0u64),
        relaxed(graph, r.scores@),
        tree_ok(graph, start as int, r.scores@, r.predecessor@),
        forall|v: int|
            0 <= v < r.scores.len() && #[trigger] r.scores@[v] is Some ==> walk_to(
                graph,
                start as int,
                v,
                r.scores@[v]->0,
            ),
{
    let n = graph.node_count();
    let mut scores: Vec<Option<u64>> = Vec::new();
    let mut pred: Vec<Option<usize>> = Vec::new();
    let mut visited: Vec<bool> = Vec::new();
    let mut i: usize = 0;
    while i < n
        invariant
            i <= n,
            scores@ == Seq::new(i as nat, |k: int| None::<u64>),
            pred@ == Seq::new(i as nat, |k: int| None::<usize>),
            visited@ == Seq::new(i as nat, |k: int| false),
        decreases n - i,
    {
        scores.push(None);
        pred.push(None);
        visited.push(false);
        i += 1;
    }
    scores.set(start, Some(0));
    proof {
        let w = seq![start];
        let js = Seq::<int>::empty();
        assert(weighted_walk(graph, w, js));
        assert(walk_cost(graph, w, js, 0) == 0);
        assert(walk_to(graph, start as int, start as int, 0));
    }
    loop
        invariant
            n == graph.spec_node_count(),
            start < n,
            scores.len() == n,
            pred.len() == n,
            visited.len() == n,
            scores@[start as int] == Some(0u64),
            tree_ok(graph, start as int, scores@, pred@),
            forall|v: int|
                0 <= v < n && #[trigger] scores@[v] is Some ==> walk_to(graph, start as int, v, scores@[v]->0),
            forall|v: int| 0 <= v < n && #[trigger] visited@[v] ==> scores@[v] is Some,
            forall|v: int| 0 <= v < n && v != start && #[trigger] pred@[v] is Some ==> pred@[v]->0 < n && visited@[pred@[v]->0 as int],
            forall|x: int, y: int|
                0 <= x < n && 0 <= y < n && #[trigger] visited@[x] && !#[trigger] visited@[y] && scores@[y] is Some
                    ==> scores@[x]->0 <= scores@[y]->0,
            forall|u: int, j: int|
                0 <= u < n && visited@[u] && 0 <= j < graph.spec_neighbours(u as usize).len()
                    ==> #[trigger] reached_within(graph, scores@, u, j),
            forall|u: int, j: int|
                0 <= u < n && visited@[u] && 0 <= j < graph.spec_neighbours(u as usize).len()
                    ==> (#[trigger] graph.spec_neighbours(u as usize)[j]).0 < n,
        ensures
            scores.len() == n,
            pred.len() == n,
            scores@[start as int] == Some(0u64),
            relaxed(graph, scores@),
            tree_ok(graph, start as int, scores@, pred@),
            forall|v: int|
                0 <= v < n && #[trigger] scores@[v] is Some ==> walk_to(graph, start as int, v, scores@[v]->0),
        decreases count_unset(visited@),
    {
        let (u, su) = match closest_unvisited(&scores, &visited) {
            Some(best) => best,
            None => {
                proof {
                    assert forall|u: int, j: int|
                        0 <= u < scores@.len() && scores@[u] is Some && 0 <= j < graph.spec_neighbours(
                            u as usize,
                        ).len() implies #[trigger] reached_within(graph, scores@, u, j) by {
                        assert(visited@[u]);
                    }
                }
                break;
            },
        };
        let ghost s0 = scores@;
        let ghost v0 = visited@;
        let ghost p0 = pred@;
        proof {
            lemma_count_unset_set(visited@, u as int);
        }
        visited.set(u, true);
        let edges = graph.neighbours(u);
        let mut k: usize = 0;
        while k < edges.len()
            invariant
                n == graph.spec_node_count(),
                start < n,
                u < n,
                scores.len() == n,
                pred.len() == n,
                visited.len() == n,
                edges@ == graph.spec_neighbours(u),
                forall|i: int| 0 <= i < edges.len() ==> (#[trigger] edges@[i]).0 < n,
                k <= edges.len(),
                v0.len() == n,
                visited@ == v0.update(u as int, true),
                !v0[u as int],
                s0[u as int] == Some(su),
                scores@[u as int] == Some(su),
                scores@[start as int] == Some(0u64),
                tree_ok(graph, start as int, scores@, pred@),
                forall|v: int|
                    0 <= v < n && #[trigger] scores@[v] is Some ==> walk_to(graph, start as int, v, scores@[v]->0),
                forall|y: int|
                    0 <= y < n && !v0[y] && #[trigger] s0[y] is Some ==> su <= s0[y]->0,
                forall|v: int| 0 <= v < n && #[trigger] v0[v] ==> s0[v] is Some,
                forall|v: int| 0 <= v < n && #[trigger] visited@[v] ==> scores@[v] is Some,
                forall|v: int| 0 <= v < n && v != start && #[trigger] pred@[v] is Some ==> pred@[v]->0 < n && visited@[pred@[v]->0 as int],
                forall|v: int| 0 <= v < n && #[trigger] visited@[v] ==> scores@[v] == s0[v] && pred@[v] == p0[v],
                forall|v: int|
                    0 <= v < n && #[trigger] s0[v] is Some ==> scores@[v] is Some && scores@[v]->0 <= s0[v]->0,
                forall|v: int|
                    0 <= v < n && !#[trigger] visited@[v] && scores@[v] is Some ==> su <= scores@[v]->0,
                forall|x: int, y: int|
                    0 <= x < n && 0 <= y < n && #[trigger] v0[x] && !#[trigger] v0[y] && s0[y] is Some
                        ==> s0[x]->0 <= s0[y]->0,
                forall|x: int, j: int|
                    0 <= x < n && v0[x] && 0 <= j < graph.spec_neighbours(x as usize).len()
                        ==> #[trigger] reached_within(graph, s0, x, j),
                forall|x: int, j: int|
                    0 <= x < n && v0[x] && 0 <= j < graph.spec_neighbours(x as usize).len()
                        ==> (#[trigger] graph.spec_neighbours(x as usize)[j]).0 < n,
                forall|i: int| 0 <= i < k ==> #[trigger] reached_within(graph, scores@, u as int, i),
            decreases edges.len() - k,
        {
            let (v, w) = edges[k];
            let ghost before = scores@;
            proof {
                assert(edges@[k as int] == (v, w));
            }
            if !visited[v] {
                let ns: u64 = if w > u64::MAX - su {
                    u64::MAX
                } else {
                    su + w
                };
                proof {
                    assert(ns == step_cost(su, w));
                }
                let better = match scores[v] {
                    None => true,
                    Some(sv) => ns < sv,
                };
                if better {
                    let ghost pb = pred@;
                    scores.set(v, Some(ns));
                    pred.set(v, Some(u));
                    proof {
                        assert(v != start);
                        assert(edge_to(graph, u, k as int, v as int));
                        assert(before[u as int] is Some);
                        lemma_walk_step(graph, start as int, u, su, k as int, v as int);
                        assert forall|x: int|
                            0 <= x < n && #[trigger] scores@[x] is Some implies walk_to(
                                graph,
                                start as int,
                                x,
                                scores@[x]->0,
                            ) by {
                            if x != v {
                                assert(before[x] is Some);
                            }
                        }
                        assert forall|x: int| 0 <= x < n implies #[trigger] pred_ok(
                            graph,
                            start as int,
                            scores@,
                            pred@,
                            x,
                        ) by {
                            if x != v {
                                assert(pred_ok(graph, start as int, before, pb, x));
                                if x != start && scores@[x] is Some {
                                    let j = choose|j: int|
                                        #[trigger] edge_to(graph, pb[x]->0, j, x) && before[x]->0 == step_cost(
                                            before[pb[x]->0 as int]->0,
                                            graph.spec_neighbours(pb[x]->0)[j].1,
                                        );
                                    assert(pb[x]->0 != v);
                                    assert(edge_to(graph, pred@[x]->0, j, x));
                                }
                            }
                        }
                        assert forall|x: int| 0 <= x < n && x != start && #[trigger] pred@[x] is Some implies pred@[x]->0
                            < n && visited@[pred@[x]->0 as int] by {
                            if x != v {
                                assert(pb[x] is Some);
                            }
                        }
                    }
                }
                proof {
                    assert(scores@[v as int] is Some && scores@[v as int]->0 <= step_cost(su, w));
                }
            } else {
                proof {
                    if v != u {
                        assert(visited@[v as int] == v0[v as int]);
                        assert(v0[v as int] && !v0[u as int]);
                        assert(s0[v as int]->0 <= s0[u as int]->0);
                    }
                    assert(scores@[v as int] is Some && scores@[v as int]->0 <= step_cost(su, w));
                }
            }
            proof {
                assert(reached_within(graph, scores@, u as int, k as int));
                assert forall|i: int| 0 <= i < k + 1 implies #[trigger] reached_within(graph, scores@, u as int, i) by {
                    if i < k {
                        assert(reached_within(graph, before, u as int, i));
                    }
                }
            }
            k += 1;
        }
        proof {
            assert forall|x: int, j: int|
                0 <= x < n && visited@[x] && 0 <= j < graph.spec_neighbours(x as usize).len() implies (
                #[trigger] graph.spec_neighbours(x as usize)[j]).0 < n by {
                if x == u {
                    assert(edges@[j] == graph.spec_neighbours(x as usize)[j]);
                }
            }
            assert forall|x: int, j: int|
                0 <= x < n && visited@[x] && 0 <= j < graph.spec_neighbours(x as usize).len() implies #[trigger] reached_within(
                graph,
                scores@,
                x,
                j,
            ) by {
                if x != u {
                    assert(v0[x]);
                    assert(reached_within(graph, s0, x, j));
                    let t = graph.spec_neighbours(x as usize)[j].0;
                    assert(s0[t as int] is Some);
                }
            }
            assert forall|x: int, y: int|
                0 <= x < n && 0 <= y < n && #[trigger] visited@[x] && !#[trigger] visited@[y] && scores@[y] is Some
                    implies scores@[x]->0 <= scores@[y]->0 by {
                if x != u {
                    assert(v0[x] && !v0[u as int]);
                    assert(s0[x]->0 <= s0[u as int]->0);
                }
            }
        }
    }
    PathsResult { scores, predecessor: pred }
}

/// `w` is a walk whose `i`th step takes edge `js[i]` of `w[i]`, which leads
/// to `w[i + 1]`.
pub open spec fn weighted_walk<G: SearchGraph>(graph: &G, w: Seq<usize>, js: Seq<int>) -> bool {
    &&& w.len() == js.len() + 1
    &&& forall|i: int| 0 <= i < js.len() ==> #[trigger] edge_to(graph, w[i], js[i], w[i + 1] as int)
}

/// The cost of the first `k` steps of a walk, held at `u64::MAX`.
pub open spec fn walk_cost<G: SearchGraph>(graph: &G, w: Seq<usize>, js: Seq<int>, k: int) -> u64
    decreases k,
{
    if k <= 0 {
        0
    } else {
        step_cost(walk_cost(graph, w, js, k - 1), graph.spec_neighbours(w[k - 1])[js[k - 1]].1)
    }
}

/// Costs in which every edge is relaxed and the start costs nothing bound
/// every walk from the start: each node costs at most what any walk to it
/// costs. As `dijkstra_explore` also gives each cost by a walk from the
/// start, its costs are those of the cheapest walks.
pub proof fn lemma_costs_are_cheapest<G: SearchGraph>(
    graph: &G,
    start: usize,
    scores: Seq<Option<u64>>,
    w: Seq<usize>,
    js: Seq<int>,
)
    requires
        relaxed(graph, scores),
        start < scores.len(),
        scores[start as int] == Some(0u64),
        weighted_walk(graph, w, js),
        w[0] == start,
        forall|i: int| 0 <= i < w.len() ==> #[trigger] w[i] < scores.len(),
    ensures
        scores[w.last() as int] is Some,
        scores[w.last() as int]->0 <= walk_cost(graph, w, js, js.len() as int),
    decreases js.len(),
{
    if js.len() > 0 {
        let k = js.len() - 1;
        let w1 = w.drop_last();
        let js1 = js.drop_last();
        assert forall|i: int| 0 <= i < js1.len() implies #[trigger] edge_to(graph, w1[i], js1[i], w1[i + 1] as int) by {
            assert(edge_to(graph, w[i], js[i], w[i + 1] as int));
        }
        assert forall|i: int| 0 <= i < w1.len() implies #[trigger] w1[i] < scores.len() by {
            assert(w[i] < scores.len());
        }
        lemma_costs_are_cheapest(graph, start, scores, w1, js1);
        assert forall|m: int| 0 <= m <= k implies #[trigger] walk_cost(graph, w1, js1, m) == walk_cost(graph, w, js, m) by {
            lemma_walk_cost_prefix(graph, w, js, m);
        }
        let u = w[k];
        assert(w1.last() == u);
        assert(edge_to(graph, w[k], js[k], w[k + 1] as int));
        assert(w[k] < scores.len());
        assert(reached_within(graph, scores, u as int, js[k]));
    }
}

pub proof fn lemma_walk_cost_prefix<G: SearchGraph>(graph: &G, w: Seq<usize>, js: Seq<int>, m: int)
    requires
        js.len() > 0,
        w.len() == js.len() + 1,
        0 <= m <= js.len() - 1,
    ensures
        walk_cost(graph, w.drop_last(), js.drop_last(), m) == walk_cost(graph, w, js, m),
    decreases m,
{
    if m > 0 {
        lemma_walk_cost_prefix(graph, w, js, m - 1);
    }
}

} // verus!
