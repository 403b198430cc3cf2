//! Best-first search over graphs whose nodes are numbered: A* with a
//! caller's heuristic, returning the path that reached a goal.
use crate::graph_utils::{edge_to, lemma_walk_cost_prefix, step_cost, walk_cost, weighted_walk};
use vstd::prelude::*;

verus! {

/// A graph whose nodes are `0..node_count`, with weighted edges.
pub trait SearchGraph {
    /// The number of nodes.
    spec fn spec_node_count(&self) -> nat;

    /// The edges leaving `node`: each target with the cost of the step.
    spec fn spec_neighbours(&self, node: usize) -> Seq<(usize, u64)>;

    fn node_count(&self) -> (r: usize)
        ensures
            r == self.spec_node_count(),
    ;

    fn neighbours(&self, node: usize) -> (r: Vec<(usize, u64)>)
        requires
            node < self.spec_node_count(),
        ensures
            r@ == self.spec_neighbours(node),
            forall|i: int| 0 <= i < r.len() ==> (#[trigger] r@[i]).0 < self.spec_node_count(),
    ;
}

/// A graph with goal nodes and an estimate of the cost left from a node.
pub trait SearchGraphWithGoal: SearchGraph {
    /// `node` is a goal.
    spec fn spec_is_goal(&self, node: usize) -> bool;

    fn is_goal(&self, node: usize) -> (r: bool)
        requires
            node < self.spec_node_count(),
        ensures
            r == self.spec_is_goal(node),
    ;

    /// The estimated cost from `node` to a goal.
    spec fn spec_heuristic(&self, node: usize) -> u64;

    /// The estimated cost from `node` to a goal.
    fn heuristic(&self, node: usize) -> (r: u64)
        requires
            node < self.spec_node_count(),
        ensures
            r == self.spec_heuristic(node),
    ;
}

/// There is an edge from `from` to `to`.
pub open spec fn is_edge<G: SearchGraph>(graph: &G, from: usize, to: usize) -> bool {
    exists|j: int| 0 <= j < graph.spec_neighbours(from).len() && (#[trigger] graph.spec_neighbours(from)[j]).0 == to
}

/// Every node of `w` is followed by one it has an edge to.
pub open spec fn is_walk<G: SearchGraph>(graph: &G, w: Seq<usize>) -> bool {
    forall|i: int| 0 <= i < w.len() - 1 ==> is_edge(graph, #[trigger] w[i], w[i + 1])
}

/// `path` runs backwards from a goal to `start`: each node is reached by an
/// edge from the one after it.
pub open spec fn is_path_back<G: SearchGraphWithGoal>(graph: &G, start: usize, path: Seq<usize>) -> bool {
    &&& path.len() > 0
    &&& graph.spec_is_goal(path[0])
    &&& path.last() == start
    &&& forall|i: int| 0 <= i < path.len() - 1 ==> is_edge(graph, #[trigger] path[i + 1], path[i])
}

/// No walk from `start` meets a goal.
pub open spec fn no_goal_reachable<G: SearchGraphWithGoal>(graph: &G, start: usize) -> bool {
    forall|w: Seq<usize>, i: int|
        w.len() > 0 && w[0] == start && is_walk(graph, w) && 0 <= i < w.len() ==> !graph.spec_is_goal(
            #[trigger] w[i],
        )
}

/// The best score known for a node and the node it was reached from.
type State = Option<(u64, Option<usize>)>;

/// The score of a reached node.
spec fn score(s: State) -> u64 {
    match s {
        Some((g, _)) => g,
        None => 0,
    }
}

/// The node a reached node was reached from.
spec fn from_of(s: State) -> Option<usize> {
    match s {
        Some((_, p)) => p,
        None => None,
    }
}

/// How far the search still is from being done: an unreached node counts
/// more than any score.
spec fn state_weight(s: State) -> int {
    match s {
        None => u64::MAX + 1,
        Some((g, _)) => g as int,
    }
}

spec fn potential(states: Seq<State>) -> int
    decreases states.len(),
{
    if states.len() == 0 {
        0
    } else {
        potential(states.drop_last()) + state_weight(states.last())
    }
}

spec fn open_count(open: Seq<Option<u64>>) -> int
    decreases open.len(),
{
    if open.len() == 0 {
        0
    } else {
        open_count(open.drop_last()) + if open.last() is Some {
            1int
        } else {
            0
        }
    }
}

proof fn lemma_potential_update(states: Seq<State>, i: int, v: State)
    requires
        0 <= i < states.len(),
    ensures
        potential(states.update(i, v)) == potential(states) - state_weight(states[i]) + state_weight(v),
        potential(states) >= 0,
    decreases states.len(),
{
    let u = states.update(i, v);
    if i == states.len() - 1 {
        assert(u.drop_last() =~= states.drop_last());
        lemma_potential_nonneg(states.drop_last());
    } else {
        assert(u.drop_last() =~= states.drop_last().update(i, v));
        lemma_potential_update(states.drop_last(), i, v);
    }
}

proof fn lemma_potential_nonneg(states: Seq<State>)
    ensures
        potential(states) >= 0,
    decreases states.len(),
{
    if states.len() > 0 {
        lemma_potential_nonneg(states.drop_last());
    }
}

proof fn lemma_open_update(open: Seq<Option<u64>>, i: int, v: Option<u64>)
    requires
        0 <= i < open.len(),
    ensures
        open_count(open.update(i, v)) == open_count(open) - (if open[i] is Some {
            1int
        } else {
            0
        }) + (if v is Some {
            1int
        } else {
            0
        }),
        open_count(open) >= 0,
    decreases open.len(),
{
    let u = open.update(i, v);
    if i == open.len() - 1 {
        assert(u.drop_last() =~= open.drop_last());
        lemma_open_nonneg(open.drop_last());
    } else {
        assert(u.drop_last() =~= open.drop_last().update(i, v));
        lemma_open_update(open.drop_last(), i, v);
    }
}

proof fn lemma_open_nonneg(open: Seq<Option<u64>>)
    ensures
        open_count(open) >= 0,
    decreases open.len(),
{
    if open.len() > 0 {
        lemma_open_nonneg(open.drop_last());
    }
}

/// The reached nodes point back along edges to `start`, never to a node of
/// higher score, and to one of equal score only if it was settled earlier.
spec fn states_ok<G: SearchGraph>(graph: &G, start: usize, states: Seq<State>, stamp: Seq<nat>) -> bool {
    &&& states.len() == graph.spec_node_count()
    &&& stamp.len() == states.len()
    &&& start < states.len()
    &&& states[start as int] == Some((0u64, None::<usize>))
    &&& forall|v: int|
        #![trigger states[v]]
        0 <= v < states.len() && v != start && states[v] is Some ==> {
            let g = score(states[v]);
            let p = from_of(states[v]);
            &&& p is Some
            &&& p->0 < states.len()
            &&& states[p->0 as int] is Some
            &&& is_edge(graph, p->0, v as usize)
            &&& score(states[p->0 as int]) <= g
            &&& (score(states[p->0 as int]) < g || stamp[p->0 as int] < stamp[v])
        }
}

/// A node that was reached and is no longer open is no goal, and every
/// node it has an edge to was reached.
spec fn expanded_ok<G: SearchGraphWithGoal>(graph: &G, states: Seq<State>, open: Seq<Option<u64>>, skip: int) -> bool {
    forall|v: int|
        #![trigger states[v], open[v]]
        0 <= v < states.len() && v != skip && states[v] is Some && open[v] is None ==> {
            &&& !graph.spec_is_goal(v as usize)
            &&& forall|j: int|
                #![trigger graph.spec_neighbours(v as usize)[j]]
                0 <= j < graph.spec_neighbours(v as usize).len() ==> graph.spec_neighbours(v as usize)[j].0
                    < states.len() && states[graph.spec_neighbours(v as usize)[j].0 as int] is Some
        }
}

/// The open node of lowest priority, the first such one.
fn take_lowest(open: &mut Vec<Option<u64>>) -> (r: Option<usize>)
    ensures
        final(open).len() == old(open).len(),
        r is None ==> forall|v: int| 0 <= v < old(open).len() ==> old(open)@[v] is None,
        r is None ==> final(open)@ == old(open)@,
        r matches Some(v) ==> v < old(open).len() && old(open)@[v as int] is Some && final(open)@ == old(open)@.update(
            v as int,
            None,
        ),
        r matches Some(v) ==> forall|u: int|
            0 <= u < old(open).len() && #[trigger] old(open)@[u] is Some ==> old(open)@[v as int]->0
                <= old(open)@[u]->0 && (u < v ==> old(open)@[v as int]->0 < old(open)@[u]->0),
{
    let mut best: Option<usize> = None;
    let mut best_f: u64 = 0;
    let mut i: usize = 0;
    while i < open.len()
        invariant
            i <= open.len(),
            best is None ==> forall|v: int| 0 <= v < i ==> open@[v] is None,
            best matches Some(b) ==> b < i && open@[b as int] == Some(best_f),
            best matches Some(b) ==> forall|u: int|
                0 <= u < i && #[trigger] open@[u] is Some ==> best_f <= open@[u]->0 && (u < b ==> best_f
                    < open@[u]->0),
        decreases open.len() - i,
    {
        match open[i] {
            Some(f) => {
                if best.is_none() || f < best_f {
                    best = Some(i);
                    best_f = f;
                }
            },
            None => {},
        }
        i += 1;
    }
    match best {
        Some(b) => {
            open.set(b, None);
            Some(b)
        },
        None => None,
    }
}

proof fn lemma_update_keeps<G: SearchGraphWithGoal>(
    graph: &G,
    start: usize,
    states: Seq<State>,
    open: Seq<Option<u64>>,
    stamp: Seq<nat>,
    clock: nat,
    m: usize,
    node: usize,
    new_g: u64,
    f: u64,
)
    requires
        states_ok(graph, start, states, stamp),
        open.len() == states.len(),
        forall|v: int| 0 <= v < states.len() ==> #[trigger] stamp[v] < clock,
        forall|v: int| 0 <= v < states.len() && #[trigger] open[v] is Some ==> states[v] is Some,
        expanded_ok(graph, states, open, node as int),
        m < states.len(),
        node < states.len(),
        m != start,
        m != node,
        is_edge(graph, node, m),
        states[node as int] is Some,
        score(states[node as int]) <= new_g,
        states[m as int] is Some ==> new_g < score(states[m as int]),
    ensures
        states_ok(graph, start, states.update(m as int, Some((new_g, Some(node)))), stamp.update(m as int, clock)),
        forall|v: int|
            0 <= v < states.len() ==> #[trigger] stamp.update(m as int, clock)[v] < clock + 1,
        forall|v: int|
            0 <= v < states.len() && #[trigger] open.update(m as int, Some(f))[v] is Some ==> states.update(
                m as int,
                Some((new_g, Some(node))),
            )[v] is Some,
        expanded_ok(graph, states.update(m as int, Some((new_g, Some(node)))), open.update(m as int, Some(f)), node as int),
{
    let s1 = states.update(m as int, Some((new_g, Some(node))));
    let t1 = stamp.update(m as int, clock);
    let o1 = open.update(m as int, Some(f));
    assert forall|v: int|
        #![trigger s1[v]]
        0 <= v < s1.len() && v != start && s1[v] is Some implies {
            let g = score(s1[v]);
            let p = from_of(s1[v]);
            &&& p is Some
            &&& p->0 < s1.len()
            &&& s1[p->0 as int] is Some
            &&& is_edge(graph, p->0, v as usize)
            &&& score(s1[p->0 as int]) <= g
            &&& (score(s1[p->0 as int]) < g || t1[p->0 as int] < t1[v])
        } by {
        if v != m {
            assert(s1[v] == states[v]);
            assert(states[v] is Some);
        }
    }
    assert forall|v: int|
        #![trigger s1[v], o1[v]]
        0 <= v < s1.len() && v != node && s1[v] is Some && o1[v] is None implies {
            &&& !graph.spec_is_goal(v as usize)
            &&& forall|j: int|
                #![trigger graph.spec_neighbours(v as usize)[j]]
                0 <= j < graph.spec_neighbours(v as usize).len() ==> graph.spec_neighbours(v as usize)[j].0
                    < s1.len() && s1[graph.spec_neighbours(v as usize)[j].0 as int] is Some
        } by {
        assert(v != m);
        assert(s1[v] == states[v] && o1[v] == open[v]);
        assert forall|j: int|
            #![trigger graph.spec_neighbours(v as usize)[j]]
            0 <= j < graph.spec_neighbours(v as usize).len() implies graph.spec_neighbours(v as usize)[j].0
                < s1.len() && s1[graph.spec_neighbours(v as usize)[j].0 as int] is Some by {
            let t = graph.spec_neighbours(v as usize)[j].0 as int;
            assert(states[t] is Some);
            if t != m {
                assert(s1[t] == states[t]);
            }
        }
    }
}

/// The path back from `end` to `start`, following the nodes each was
/// reached from.
fn reconstruct_path<G: SearchGraphWithGoal>(
    graph: &G,
    start: usize,
    end: usize,
    states: &Vec<State>,
    Ghost(stamp): Ghost<Seq<nat>>,
) -> (r: Vec<usize>)
    requires
        states_ok(graph, start, states@, stamp),
        end < states.len(),
        states@[end as int] is Some,
        graph.spec_is_goal(end),
    ensures
        is_path_back(graph, start, r@),
        forall|i: int| 0 <= i < r.len() ==> #[trigger] r@[i] < states.len(),
        r@[0] == end,
        forall|i: int|
            0 <= i < r.len() - 1 ==> #[trigger] r@[i] != start && states@[r@[i] as int] is Some && from_of(
                states@[r@[i] as int],
            ) == Some(r@[i + 1]),
{
    let mut path: Vec<usize> = Vec::new();
    path.push(end);
    let mut curr = end;
    loop
        invariant
            states_ok(graph, start, states@, stamp),
            curr < states.len(),
            states@[curr as int] is Some,
            path.len() > 0,
            path@[0] == end,
            graph.spec_is_goal(end),
            path@.last() == curr,
            forall|i: int| 0 <= i < path.len() ==> #[trigger] path@[i] < states.len(),
            forall|i: int| 0 <= i < path.len() - 1 ==> is_edge(graph, #[trigger] path@[i + 1], path@[i]),
            forall|i: int|
                0 <= i < path.len() - 1 ==> #[trigger] path@[i] != start && states@[path@[i] as int] is Some
                    && from_of(states@[path@[i] as int]) == Some(path@[i + 1]),
        ensures
            is_path_back(graph, start, path@),
            path@[0] == end,
            forall|i: int| 0 <= i < path.len() ==> #[trigger] path@[i] < states.len(),
            forall|i: int|
                0 <= i < path.len() - 1 ==> #[trigger] path@[i] != start && states@[path@[i] as int] is Some
                    && from_of(states@[path@[i] as int]) == Some(path@[i + 1]),
        decreases score(states@[curr as int]), stamp[curr as int],
    {
        match states[curr] {
            Some((_, Some(p))) => {
                proof {
                    assert(curr != start);
                    assert(states@[curr as int] == Some((score(states@[curr as int]), Some(p))));
                }
                let ghost before = path@;
                path.push(p);
                proof {
                    assert forall|i: int| 0 <= i < path.len() - 1 implies is_edge(graph, #[trigger] path@[i + 1], path@[i]) by {
                        if i < before.len() - 1 {
                            assert(path@[i] == before[i] && path@[i + 1] == before[i + 1]);
                        } else {
                            assert(path@[i] == curr && path@[i + 1] == p);
                        }
                    }
                    assert forall|i: int| 0 <= i < path.len() - 1 implies #[trigger] path@[i] != start
                        && states@[path@[i] as int] is Some && from_of(states@[path@[i] as int]) == Some(
                        path@[i + 1],
                    ) by {
                        if i < before.len() - 1 {
                            assert(path@[i] == before[i] && path@[i + 1] == before[i + 1]);
                        } else {
                            assert(path@[i] == curr && path@[i + 1] == p);
                        }
                    }
                }
                curr = p;
            },
            _ => {
                proof {
                    if curr != start {
                        assert(from_of(states@[curr as int]) is Some);
                    }
                }
                break;
            },
        }
    }
    path
}

proof fn lemma_walk_reached<G: SearchGraphWithGoal>(
    graph: &G,
    start: usize,
    states: Seq<State>,
    open: Seq<Option<u64>>,
    stamp: Seq<nat>,
    w: Seq<usize>,
    i: int,
)
    requires
        states_ok(graph, start, states, stamp),
        open.len() == states.len(),
        forall|v: int| 0 <= v < open.len() ==> open[v] is None,
        expanded_ok(graph, states, open, -1),
        w.len() > 0,
        w[0] == start,
        is_walk(graph, w),
        0 <= i < w.len(),
    ensures
        w[i] < states.len(),
        states[w[i] as int] is Some,
    decreases i,
{
    if i > 0 {
        lemma_walk_reached(graph, start, states, open, stamp, w, i - 1);
        let v = w[i - 1] as int;
        assert(is_edge(graph, w[i - 1], w[i]));
        assert(states[v] is Some && open[v] is None);
        let j = choose|j: int|
            0 <= j < graph.spec_neighbours(w[i - 1]).len() && (#[trigger] graph.spec_neighbours(w[i - 1])[j]).0
                == w[i];
        assert(graph.spec_neighbours(v as usize)[j].0 == w[i]);
    }
}

proof fn lemma_none_reachable<G: SearchGraphWithGoal>(
    graph: &G,
    start: usize,
    states: Seq<State>,
    open: Seq<Option<u64>>,
    stamp: Seq<nat>,
)
    requires
        states_ok(graph, start, states, stamp),
        open.len() == states.len(),
        forall|v: int| 0 <= v < open.len() ==> open[v] is None,
        expanded_ok(graph, states, open, -1),
    ensures
        no_goal_reachable(graph, start),
{
    assert forall|w: Seq<usize>, i: int|
        w.len() > 0 && w[0] == start && is_walk(graph, w) && 0 <= i < w.len() implies !graph.spec_is_goal(
            #[trigger] w[i],
        ) by {
        lemma_walk_reached(graph, start, states, open, stamp, w, i);
        let v = w[i] as int;
        assert(states[v] is Some && open[v] is None);
    }
}

/// The estimate falls by at most the cost of every step, and is 0 at every
/// goal.
pub open spec fn consistent<G: SearchGraphWithGoal>(graph: &G) -> bool {
    &&& forall|v: usize, j: int|
        v < graph.spec_node_count() && 0 <= j < graph.spec_neighbours(v).len() ==> graph.spec_heuristic(v)
            <= (#[trigger] graph.spec_neighbours(v)[j]).1 + graph.spec_heuristic(graph.spec_neighbours(v)[j].0)
    &&& forall|v: usize| v < graph.spec_node_count() && #[trigger] graph.spec_is_goal(v) ==> graph.spec_heuristic(v) == 0
}

/// Read from `start`, `path` (which runs back from its goal) is a walk
/// that costs no more than any walk from `start` to a goal.
pub open spec fn cheapest_back<G: SearchGraphWithGoal>(graph: &G, start: usize, path: Seq<usize>) -> bool {
    exists|js: Seq<int>|
        #[trigger] weighted_walk(graph, path.reverse(), js) && forall|w: Seq<usize>, js2: Seq<int>|
            #[trigger] weighted_walk(graph, w, js2) && w.len() > 0 && w[0] == start && graph.spec_is_goal(w.last())
                && (forall|i: int| 0 <= i < w.len() ==> #[trigger] w[i] < graph.spec_node_count()) ==> walk_cost(
                graph,
                path.reverse(),
                js,
                js.len() as int,
            ) <= walk_cost(graph, w, js2, js2.len() as int)
}

/// The cost of the first `k` steps of a walk, without a cap.
spec fn real_cost<G: SearchGraph>(graph: &G, w: Seq<usize>, js: Seq<int>, k: int) -> int
    decreases k,
{
    if k <= 0 {
        0
    } else {
        real_cost(graph, w, js, k - 1) + graph.spec_neighbours(w[k - 1])[js[k - 1]].1
    }
}

proof fn lemma_walk_cost_capped<G: SearchGraph>(graph: &G, w: Seq<usize>, js: Seq<int>, k: int)
    requires
        0 <= k,
    ensures
        walk_cost(graph, w, js, k) == if real_cost(graph, w, js, k) <= u64::MAX {
            real_cost(graph, w, js, k)
        } else {
            u64::MAX as int
        },
        real_cost(graph, w, js, k) >= 0,
    decreases k,
{
    if k > 0 {
        lemma_walk_cost_capped(graph, w, js, k - 1);
    }
}

proof fn lemma_real_cost_grows<G: SearchGraph>(graph: &G, w: Seq<usize>, js: Seq<int>, i: int, k: int)
    requires
        0 <= i <= k,
    ensures
        real_cost(graph, w, js, i) <= real_cost(graph, w, js, k),
    decreases k - i,
{
    if i < k {
        lemma_real_cost_grows(graph, w, js, i, k - 1);
    }
}

/// Along a walk to a goal, a consistent estimate is at most the cost left.
proof fn lemma_estimate_bound<G: SearchGraphWithGoal>(graph: &G, w: Seq<usize>, js: Seq<int>, i: int)
    requires
        consistent(graph),
        weighted_walk(graph, w, js),
        graph.spec_is_goal(w.last()),
        forall|t: int| 0 <= t < w.len() ==> #[trigger] w[t] < graph.spec_node_count(),
        0 <= i < w.len(),
    ensures
        graph.spec_heuristic(w[i]) <= real_cost(graph, w, js, js.len() as int) - real_cost(graph, w, js, i),
    decreases w.len() - i,
{
    if i == w.len() - 1 {
        assert(w[i] == w.last());
    } else {
        lemma_estimate_bound(graph, w, js, i + 1);
        assert(edge_to(graph, w[i], js[i], w[i + 1] as int));
        assert(w[i] < graph.spec_node_count());
        let e = graph.spec_neighbours(w[i])[js[i]];
        assert(graph.spec_heuristic(w[i]) <= e.1 + graph.spec_heuristic(e.0));
    }
}

/// Every reached node but the start was reached along a step whose cost,
/// added to its predecessor's score, is at most its own score.
spec fn weights_ok<G: SearchGraph>(graph: &G, start: usize, states: Seq<State>) -> bool {
    forall|v: int|
        #![trigger states[v]]
        0 <= v < states.len() && v != start && states[v] is Some ==> exists|j: int|
            #[trigger] edge_to(graph, from_of(states[v])->0, j, v) && step_cost(
                score(states[from_of(states[v])->0 as int]),
                graph.spec_neighbours(from_of(states[v])->0)[j].1,
            ) <= score(states[v])
}

/// Every open node's priority lies between its score and its score plus
/// its estimate.
spec fn open_ok<G: SearchGraphWithGoal>(graph: &G, states: Seq<State>, open: Seq<Option<u64>>) -> bool {
    forall|v: int|
        #![trigger open[v]]
        0 <= v < open.len() && open[v] is Some ==> score(states[v]) <= open[v]->0 <= step_cost(
            score(states[v]),
            graph.spec_heuristic(v as usize),
        )
}

/// From every reached node that is no longer open, but `skip`, each edge
/// leads to a node scored at most the step's cost more.
spec fn closed_relaxed<G: SearchGraph>(graph: &G, states: Seq<State>, open: Seq<Option<u64>>, skip: int) -> bool {
    forall|v: int, j: int|
        #![trigger states[v], graph.spec_neighbours(v as usize)[j]]
        0 <= v < states.len() && v != skip && states[v] is Some && open[v] is None && 0 <= j
            < graph.spec_neighbours(v as usize).len() ==> score(states[graph.spec_neighbours(v as usize)[j].0 as int])
            <= step_cost(score(states[v]), graph.spec_neighbours(v as usize)[j].1)
}

/// A path back from `r[0]` to `start` along the nodes each was reached from
/// costs, read forwards, at most the score of `r[0]`.
proof fn lemma_path_cost<G: SearchGraphWithGoal>(
    graph: &G,
    start: usize,
    states: Seq<State>,
    stamp: Seq<nat>,
    r: Seq<usize>,
) -> (js: Seq<int>)
    requires
        states_ok(graph, start, states, stamp),
        weights_ok(graph, start, states),
        r.len() > 0,
        r.last() == start,
        forall|i: int| 0 <= i < r.len() ==> #[trigger] r[i] < states.len(),
        forall|i: int|
            0 <= i < r.len() - 1 ==> #[trigger] r[i] != start && states[r[i] as int] is Some && from_of(
                states[r[i] as int],
            ) == Some(r[i + 1]),
    ensures
        weighted_walk(graph, r.reverse(), js),
        walk_cost(graph, r.reverse(), js, js.len() as int) <= score(states[r[0] as int]),
    decreases r.len(),
{
    if r.len() == 1 {
        let js = Seq::<int>::empty();
        assert(r.reverse() =~= seq![start]);
        js
    } else {
        let r1 = r.drop_first();
        assert forall|i: int| 0 <= i < r1.len() implies #[trigger] r1[i] < states.len() by {
            assert(r1[i] == r[i + 1]);
        }
        assert forall|i: int| 0 <= i < r1.len() - 1 implies #[trigger] r1[i] != start && states[r1[i] as int] is Some
            && from_of(states[r1[i] as int]) == Some(r1[i + 1]) by {
            assert(r1[i] == r[i + 1] && r1[i + 1] == r[i + 2]);
            assert(r[i + 1] != start && from_of(states[r[i + 1] as int]) == Some(r[i + 2]));
        }
        let js1 = lemma_path_cost(graph, start, states, stamp, r1);
        let v = r[0];
        let p = r[1];
        assert(r[0] != start && states[v as int] is Some && from_of(states[v as int]) == Some(p));
        assert(states[v as int] is Some);
        let j = choose|j: int|
            #[trigger] edge_to(graph, from_of(states[v as int])->0, j, v as int) && step_cost(
                score(states[from_of(states[v as int])->0 as int]),
                graph.spec_neighbours(from_of(states[v as int])->0)[j].1,
            ) <= score(states[v as int]);
        let rev = r.reverse();
        let rev1 = r1.reverse();
        assert(rev =~= rev1.push(v));
        let js = js1.push(j);
        assert(rev.drop_last() =~= rev1);
        assert(js.drop_last() =~= js1);
        assert forall|i: int| 0 <= i < js.len() implies #[trigger] edge_to(graph, rev[i], js[i], rev[i + 1] as int) by {
            if i < js1.len() {
                assert(edge_to(graph, rev1[i], js1[i], rev1[i + 1] as int));
                assert(rev[i] == rev1[i] && rev[i + 1] == rev1[i + 1]);
            } else {
                assert(rev[i] == rev1.last());
                assert(rev1.last() == r1[0]);
                assert(rev[i + 1] == v);
            }
        }
        lemma_walk_cost_prefix(graph, rev, js, js1.len() as int);
        assert(score(states[p as int]) == score(states[r1[0] as int]));
        js
    }
}

/// Node `w[i]` is open with a score at most the cost of the walk up to it.
spec fn open_within<G: SearchGraph>(
    graph: &G,
    states: Seq<State>,
    open: Seq<Option<u64>>,
    w: Seq<usize>,
    js: Seq<int>,
    i: int,
) -> bool {
    open[w[i] as int] is Some && score(states[w[i] as int]) <= walk_cost(graph, w, js, i)
}

/// Along a walk from the start, some node so far is open with a score at
/// most the walk's cost to it, or else the node `w[m]` is reached, closed,
/// and scored at most that cost.
proof fn lemma_frontier<G: SearchGraphWithGoal>(
    graph: &G,
    start: usize,
    states: Seq<State>,
    open: Seq<Option<u64>>,
    stamp: Seq<nat>,
    w: Seq<usize>,
    js: Seq<int>,
    m: int,
)
    requires
        states_ok(graph, start, states, stamp),
        closed_relaxed(graph, states, open, -1),
        expanded_ok(graph, states, open, -1),
        open.len() == states.len(),
        weighted_walk(graph, w, js),
        w.len() > 0,
        w[0] == start,
        forall|t: int| 0 <= t < w.len() ==> #[trigger] w[t] < states.len(),
        0 <= m < w.len(),
    ensures
        (exists|i: int| 0 <= i <= m && #[trigger] open_within(graph, states, open, w, js, i)) || (
        states[w[m] as int] is Some && open[w[m] as int] is None && score(states[w[m] as int]) <= walk_cost(
            graph,
            w,
            js,
            m,
        )),
    decreases m,
{
    if m == 0 {
        assert(w[0] < states.len());
        if open[w[0] as int] is Some {
            assert(open_within(graph, states, open, w, js, 0));
        }
    } else {
        lemma_frontier(graph, start, states, open, stamp, w, js, m - 1);
        if !(exists|i: int| 0 <= i <= m - 1 && #[trigger] open_within(graph, states, open, w, js, i)) {
            let v = w[m - 1];
            let j = js[m - 1];
            let pi = m - 1;
            assert(edge_to(graph, w[pi], js[pi], w[pi + 1] as int));
            assert(pi + 1 == m);
            assert(w[m - 1] < states.len());
            assert(states[v as int] is Some && open[v as int] is None);
            let e = graph.spec_neighbours(v as usize)[j];
            assert(e.0 < states.len() && states[e.0 as int] is Some);
            assert(score(states[e.0 as int]) <= step_cost(score(states[v as int]), e.1));
            assert(walk_cost(graph, w, js, m) == step_cost(walk_cost(graph, w, js, m - 1), e.1));
            if open[w[m] as int] is Some {
                assert(open_within(graph, states, open, w, js, m));
            }
        }
    }
}

/// With a consistent estimate, the lowest priority of the open nodes is at
/// most the cost of any walk from the start to a goal.
proof fn lemma_goal_cheapest<G: SearchGraphWithGoal>(
    graph: &G,
    start: usize,
    states: Seq<State>,
    open: Seq<Option<u64>>,
    stamp: Seq<nat>,
    u: usize,
    w: Seq<usize>,
    js: Seq<int>,
)
    requires
        consistent(graph),
        states_ok(graph, start, states, stamp),
        closed_relaxed(graph, states, open, -1),
        expanded_ok(graph, states, open, -1),
        open_ok(graph, states, open),
        open.len() == states.len(),
        u < open.len(),
        open[u as int] is Some,
        forall|v: int| 0 <= v < open.len() && #[trigger] open[v] is Some ==> open[u as int]->0 <= open[v]->0,
        weighted_walk(graph, w, js),
        w.len() > 0,
        w[0] == start,
        graph.spec_is_goal(w.last()),
        forall|t: int| 0 <= t < w.len() ==> #[trigger] w[t] < graph.spec_node_count(),
    ensures
        open[u as int]->0 <= walk_cost(graph, w, js, js.len() as int),
{
    let k = js.len() as int;
    assert(w.last() == w[k]);
    lemma_frontier(graph, start, states, open, stamp, w, js, k);
    if !(exists|i: int| 0 <= i <= k && #[trigger] open_within(graph, states, open, w, js, i)) {
        assert(states[w[k] as int] is Some && open[w[k] as int] is None);
        assert(!graph.spec_is_goal(w[k]));
    }
    let i = choose|i: int| 0 <= i <= k && #[trigger] open_within(graph, states, open, w, js, i);
    let v = w[i] as int;
    assert(open[u as int]->0 <= open[v]->0);
    assert(open[v]->0 <= step_cost(score(states[v]), graph.spec_heuristic(v as usize)));
    lemma_estimate_bound(graph, w, js, i);
    lemma_walk_cost_capped(graph, w, js, i);
    lemma_walk_cost_capped(graph, w, js, k);
    lemma_real_cost_grows(graph, w, js, i, k);
}

/// Lowering node `m`'s score to the step from `node` along edge `j`, and
/// opening it with its score plus its estimate, keeps the costs in order.
proof fn lemma_update_costs<G: SearchGraphWithGoal>(
    graph: &G,
    start: usize,
    states: Seq<State>,
    open: Seq<Option<u64>>,
    stamp: Seq<nat>,
    m: usize,
    node: usize,
    j: int,
    new_g: u64,
    f: u64,
    done: int,
)
    requires
        states_ok(graph, start, states, stamp),
        weights_ok(graph, start, states),
        open_ok(graph, states, open),
        closed_relaxed(graph, states, open, node as int),
        expanded_ok(graph, states, open, node as int),
        open.len() == states.len(),
        m < states.len(),
        node < states.len(),
        m != start,
        m != node,
        states[node as int] is Some,
        open[node as int] is None,
        0 <= j < graph.spec_neighbours(node).len(),
        graph.spec_neighbours(node)[j].0 == m,
        new_g == step_cost(score(states[node as int]), graph.spec_neighbours(node)[j].1),
        states[m as int] is Some ==> new_g < score(states[m as int]),
        f == step_cost(new_g, graph.spec_heuristic(m)),
        0 <= done <= graph.spec_neighbours(node).len(),
        forall|i: int|
            0 <= i < done ==> graph.spec_neighbours(node)[i].0 < states.len() && states[(
            #[trigger] graph.spec_neighbours(node)[i]).0 as int] is Some && score(
                states[graph.spec_neighbours(node)[i].0 as int],
            ) <= step_cost(score(states[node as int]), graph.spec_neighbours(node)[i].1),
    ensures
        ({
            let s1 = states.update(m as int, Some((new_g, Some(node))));
            let o1 = open.update(m as int, Some(f));
            &&& weights_ok(graph, start, s1)
            &&& open_ok(graph, s1, o1)
            &&& closed_relaxed(graph, s1, o1, node as int)
            &&& forall|i: int|
                0 <= i < done ==> graph.spec_neighbours(node)[i].0 < s1.len() && s1[(
                #[trigger] graph.spec_neighbours(node)[i]).0 as int] is Some && score(
                    s1[graph.spec_neighbours(node)[i].0 as int],
                ) <= step_cost(score(s1[node as int]), graph.spec_neighbours(node)[i].1)
        }),
{
    let s1 = states.update(m as int, Some((new_g, Some(node))));
    let o1 = open.update(m as int, Some(f));
    assert forall|v: int|
        #![trigger s1[v]]
        0 <= v < s1.len() && v != start && s1[v] is Some implies exists|jj: int|
            #[trigger] edge_to(graph, from_of(s1[v])->0, jj, v) && step_cost(
                score(s1[from_of(s1[v])->0 as int]),
                graph.spec_neighbours(from_of(s1[v])->0)[jj].1,
            ) <= score(s1[v]) by {
        if v == m {
            assert(edge_to(graph, node, j, v));
            assert(from_of(s1[v]) == Some(node));
            assert(s1[node as int] == states[node as int]);
            assert(score(s1[v]) == new_g);
            assert(step_cost(score(s1[node as int]), graph.spec_neighbours(node)[j].1) <= score(s1[v]));
            assert(edge_to(graph, from_of(s1[v])->0, j, v));
            assert(step_cost(
                score(s1[from_of(s1[v])->0 as int]),
                graph.spec_neighbours(from_of(s1[v])->0)[j].1,
            ) <= score(s1[v]));
        } else {
            assert(s1[v] == states[v]);
            assert(states[v] is Some);
            let p = from_of(states[v])->0;
            assert(p < states.len() && states[p as int] is Some);
            let jj = choose|jj: int|
                #[trigger] edge_to(graph, p, jj, v) && step_cost(
                    score(states[p as int]),
                    graph.spec_neighbours(p)[jj].1,
                ) <= score(states[v]);
            assert(edge_to(graph, from_of(s1[v])->0, jj, v));
            if p == m {
                assert(new_g < score(states[m as int]));
                assert(score(s1[p as int]) == new_g);
            } else {
                assert(s1[p as int] == states[p as int]);
            }
            assert(step_cost(score(s1[p as int]), graph.spec_neighbours(p)[jj].1) <= score(s1[v]));
            assert(from_of(s1[v])->0 == p);
        }
    }
    assert forall|v: int|
        #![trigger o1[v]]
        0 <= v < o1.len() && o1[v] is Some implies score(s1[v]) <= o1[v]->0 <= step_cost(
            score(s1[v]),
            graph.spec_heuristic(v as usize),
        ) by {
        if v != m {
            assert(o1[v] == open[v] && s1[v] == states[v]);
        }
    }
    assert forall|v: int, jj: int|
        #![trigger s1[v], graph.spec_neighbours(v as usize)[jj]]
        0 <= v < s1.len() && v != node && s1[v] is Some && o1[v] is None && 0 <= jj
            < graph.spec_neighbours(v as usize).len() implies score(s1[graph.spec_neighbours(v as usize)[jj].0 as int])
        <= step_cost(score(s1[v]), graph.spec_neighbours(v as usize)[jj].1) by {
        assert(v != m);
        assert(s1[v] == states[v] && o1[v] == open[v]);
        let t = graph.spec_neighbours(v as usize)[jj].0 as int;
        assert(score(states[t]) <= step_cost(score(states[v]), graph.spec_neighbours(v as usize)[jj].1));
        assert(t < states.len() && states[t] is Some);
    }
    assert forall|i: int|
        0 <= i < done implies graph.spec_neighbours(node)[i].0 < s1.len() && s1[(
        #[trigger] graph.spec_neighbours(node)[i]).0 as int] is Some && score(
            s1[graph.spec_neighbours(node)[i].0 as int],
        ) <= step_cost(score(s1[node as int]), graph.spec_neighbours(node)[i].1) by {
        assert(s1[node as int] == states[node as int]);
    }
}

/// A* search from `start`: the open node of lowest estimated total cost is
/// taken next, and a node is opened again whenever a cheaper way to it is
/// found. Returns the path back from the first goal taken to `start`, or
/// `None` when no goal can be reached. Scores that would pass `u64::MAX`
/// stay at `u64::MAX`.
#[verifier::spinoff_prover]
#[verifier::rlimit(40)]
pub fn a_star_search<G: SearchGraphWithGoal>(graph: &G, start: usize) -> (r: Option<Vec<usize>>)
    requires
        start < graph.spec_node_count(),
    ensures
        r matches Some(path) ==> is_path_back(graph, start, path@),
        r is None ==> no_goal_reachable(graph, start),
        consistent(graph) ==> (r matches Some(path) ==> cheapest_back(graph, start, path@)),
{
    let n = graph.node_count();
    let mut states: Vec<State> = Vec::new();
    let mut open: Vec<Option<u64>> = Vec::new();
    let mut k: usize = 0;
    while k < n
        invariant
            k <= n,
            states.len() == k,
            open.len() == k,
            forall|v: int| 0 <= v < k ==> #[trigger] states@[v] is None && open@[v] is None,
        decreases n - k,
    {
        states.push(None);
        open.push(None);
        k += 1;
    }
    let ghost open_none = open@;
    let ghost states_none = states@;
    states.set(start, Some((0, None)));
    open.set(start, Some(0));
    let ghost mut stamp: Seq<nat> = Seq::new(n as nat, |v: int| 0nat);
    let ghost mut clock: nat = 1;
    proof {
        assert forall|v: int| #![trigger open@[v]] 0 <= v < open@.len() && open@[v] is Some implies score(states@[v])
            <= open@[v]->0 <= step_cost(score(states@[v]), graph.spec_heuristic(v as usize)) by {
            if v != start {
                assert(open@[v] == open_none[v]);
                assert(states_none[v] is None && open_none[v] is None);
            }
        }
        assert(weights_ok(graph, start, states@));
    }
    loop
        invariant
            n == graph.spec_node_count(),
            open.len() == n,
            states_ok(graph, start, states@, stamp),
            weights_ok(graph, start, states@),
            open_ok(graph, states@, open@),
            closed_relaxed(graph, states@, open@, -1),
            forall|v: int| 0 <= v < n ==> #[trigger] stamp[v] < clock,
            forall|v: int| 0 <= v < n && #[trigger] open@[v] is Some ==> states@[v] is Some,
            expanded_ok(graph, states@, open@, -1),
        ensures
            no_goal_reachable(graph, start),
        decreases potential(states@), open_count(open@),
    {
        let ghost pot0 = potential(states@);
        let ghost cnt0 = open_count(open@);
        let ghost o_before = open@;
        let node = match take_lowest(&mut open) {
            Some(v) => v,
            None => {
                proof {
                    lemma_none_reachable(graph, start, states@, open@, stamp);
                }
                break;
            },
        };
        proof {
            lemma_open_update(o_before, node as int, None);
        }
        if graph.is_goal(node) {
            let path = reconstruct_path(graph, start, node, &states, Ghost(stamp));
            proof {
                if consistent(graph) {
                    let js = lemma_path_cost(graph, start, states@, stamp, path@);
                    assert(path@[0] == node);
                    assert(score(states@[node as int]) <= o_before[node as int]->0);
                    assert forall|w: Seq<usize>, js2: Seq<int>|
                        #[trigger] weighted_walk(graph, w, js2) && w.len() > 0 && w[0] == start && graph.spec_is_goal(
                            w.last(),
                        ) && (forall|i: int| 0 <= i < w.len() ==> #[trigger] w[i] < graph.spec_node_count())
                        implies walk_cost(graph, path@.reverse(), js, js.len() as int) <= walk_cost(
                        graph,
                        w,
                        js2,
                        js2.len() as int,
                    ) by {
                        lemma_goal_cheapest(graph, start, states@, o_before, stamp, node, w, js2);
                    }
                    assert(cheapest_back(graph, start, path@));
                }
            }
            return Some(path);
        }
        proof {
            assert forall|v: int| #![trigger open@[v]] 0 <= v < open@.len() && open@[v] is Some implies score(
                states@[v],
            ) <= open@[v]->0 <= step_cost(score(states@[v]), graph.spec_heuristic(v as usize)) by {
                assert(open@[v] == o_before[v]);
            }
            assert forall|v: int, jj: int|
                #![trigger states@[v], graph.spec_neighbours(v as usize)[jj]]
                0 <= v < states@.len() && v != node && states@[v] is Some && open@[v] is None && 0 <= jj
                    < graph.spec_neighbours(v as usize).len() implies score(
                    states@[graph.spec_neighbours(v as usize)[jj].0 as int],
                ) <= step_cost(score(states@[v]), graph.spec_neighbours(v as usize)[jj].1) by {
                assert(open@[v] == o_before[v]);
            }
        }
        let (g_node, p_node) = states[node].unwrap();
        let nbrs = graph.neighbours(node);
        let ghost mut changed = false;
        let mut j: usize = 0;
        while j < nbrs.len()
            invariant
                n == graph.spec_node_count(),
                node < n,
                nbrs@ == graph.spec_neighbours(node),
                forall|i: int| 0 <= i < nbrs.len() ==> (#[trigger] nbrs@[i]).0 < n,
                j <= nbrs.len(),
                open.len() == n,
                !graph.spec_is_goal(node),
                states@[node as int] == Some((g_node, p_node)),
                open@[node as int] is None,
                states_ok(graph, start, states@, stamp),
                forall|v: int| 0 <= v < n ==> #[trigger] stamp[v] < clock,
                forall|v: int| 0 <= v < n && #[trigger] open@[v] is Some ==> states@[v] is Some,
                expanded_ok(graph, states@, open@, node as int),
                forall|i: int| 0 <= i < j ==> states@[(#[trigger] nbrs@[i]).0 as int] is Some,
                weights_ok(graph, start, states@),
                open_ok(graph, states@, open@),
                closed_relaxed(graph, states@, open@, node as int),
                forall|i: int|
                    0 <= i < j ==> graph.spec_neighbours(node)[i].0 < states@.len() && states@[(
                    #[trigger] graph.spec_neighbours(node)[i]).0 as int] is Some && score(
                        states@[graph.spec_neighbours(node)[i].0 as int],
                    ) <= step_cost(score(states@[node as int]), graph.spec_neighbours(node)[i].1),
                changed ==> potential(states@) < pot0,
                !changed ==> potential(states@) == pot0 && open_count(open@) == cnt0 - 1,
            decreases nbrs.len() - j,
        {
            let (m, d) = nbrs[j];
            let new_g = g_node.saturating_add(d);
            proof {
                assert(nbrs@[j as int] == graph.spec_neighbours(node)[j as int]);
                assert(new_g == step_cost(g_node, d));
            }
            let better = match states[m] {
                None => true,
                Some((gm, _)) => new_g < gm,
            };
            if better {
                let f = new_g.saturating_add(graph.heuristic(m));
                let ghost s0 = states@;
                let ghost o0 = open@;
                proof {
                    assert(f == step_cost(new_g, graph.spec_heuristic(m)));
                    lemma_update_costs(graph, start, s0, o0, stamp, m, node, j as int, new_g, f, j as int);
                    assert(m != start);
                    assert(m != node);
                    assert(is_edge(graph, node, m)) by {
                        assert(graph.spec_neighbours(node)[j as int] == nbrs@[j as int]);
                    }
                    lemma_potential_update(s0, m as int, Some((new_g, Some(node))));
                    lemma_open_update(o0, m as int, Some(f));
                }
                states.set(m, Some((new_g, Some(node))));
                open.set(m, Some(f));
                proof {
                    lemma_update_keeps(graph, start, s0, o0, stamp, clock, m, node, new_g, f);
                    stamp = stamp.update(m as int, clock);
                    clock = clock + 1;
                    changed = true;
                }
            }
            proof {
                assert(states@[(nbrs@[j as int]).0 as int] is Some);
                assert(score(states@[m as int]) <= step_cost(score(states@[node as int]), graph.spec_neighbours(node)[j as int].1));
                assert forall|i: int|
                    0 <= i < j + 1 implies graph.spec_neighbours(node)[i].0 < states@.len() && states@[(
                    #[trigger] graph.spec_neighbours(node)[i]).0 as int] is Some && score(
                        states@[graph.spec_neighbours(node)[i].0 as int],
                    ) <= step_cost(score(states@[node as int]), graph.spec_neighbours(node)[i].1) by {
                    if i == j {
                        assert(graph.spec_neighbours(node)[i] == nbrs@[j as int]);
                    }
                }
            }
            j += 1;
        }
        proof {
            assert forall|v: int|
                #![trigger states@[v], open@[v]]
                0 <= v < states@.len() && v != -1 && states@[v] is Some && open@[v] is None implies {
                    &&& !graph.spec_is_goal(v as usize)
                    &&& forall|jj: int|
                        #![trigger graph.spec_neighbours(v as usize)[jj]]
                        0 <= jj < graph.spec_neighbours(v as usize).len() ==> graph.spec_neighbours(v as usize)[jj].0
                            < states@.len() && states@[graph.spec_neighbours(v as usize)[jj].0 as int] is Some
                } by {
                if v == node {
                    assert forall|jj: int|
                        #![trigger graph.spec_neighbours(v as usize)[jj]]
                        0 <= jj < graph.spec_neighbours(v as usize).len() implies graph.spec_neighbours(
                            v as usize,
                        )[jj].0 < states@.len() && states@[graph.spec_neighbours(v as usize)[jj].0 as int] is Some by {
                        assert(nbrs@[jj] == graph.spec_neighbours(node)[jj]);
                    }
                }
            }
            assert forall|v: int, jj: int|
                #![trigger states@[v], graph.spec_neighbours(v as usize)[jj]]
                0 <= v < states@.len() && v != -1 && states@[v] is Some && open@[v] is None && 0 <= jj
                    < graph.spec_neighbours(v as usize).len() implies score(
                    states@[graph.spec_neighbours(v as usize)[jj].0 as int],
                ) <= step_cost(score(states@[v]), graph.spec_neighbours(v as usize)[jj].1) by {
                if v == node {
                    assert(jj < nbrs@.len());
                }
            }
            lemma_potential_nonneg(states@);
            lemma_open_nonneg(open@);
        }
    }
    None
}

/// A graph given by the list of edges leaving each node, with the goals
/// marked.
pub struct WeightedGraph {
    edges: Vec<Vec<(usize, u64)>>,
    goals: Vec<bool>,
}

impl WeightedGraph {
    #[verifier::type_invariant]
    spec fn inv(self) -> bool {
        &&& self.goals.len() == self.edges.len()
        &&& forall|v: int, j: int|
            0 <= v < self.edges.len() && 0 <= j < self.edges@[v].len() ==> (#[trigger] self.edges@[v]@[j]).0
                < self.edges.len()
    }

    /// The edges leaving each node.
    pub closed spec fn edges_of(self) -> Seq<Seq<(usize, u64)>> {
        self.edges@.map_values(|e: Vec<(usize, u64)>| e@)
    }

    /// Which nodes are goals.
    pub closed spec fn goals_of(self) -> Seq<bool> {
        self.goals@
    }

    /// The graph with these edges and goals; `None` when an edge leads to
    /// no node or the goals are not one per node.
    pub fn new(edges: Vec<Vec<(usize, u64)>>, goals: Vec<bool>) -> (r: Option<WeightedGraph>)
        ensures
            r is Some <==> goals.len() == edges.len() && forall|v: int, j: int|
                0 <= v < edges.len() && 0 <= j < edges@[v].len() ==> (#[trigger] edges@[v]@[j]).0 < edges.len(),
            r matches Some(g) ==> g.edges_of() == edges@.map_values(|e: Vec<(usize, u64)>| e@) && g.goals_of()
                == goals@,
    {
        if goals.len() != edges.len() {
            return None;
        }
        let mut v: usize = 0;
        while v < edges.len()
            invariant
                v <= edges.len(),
                forall|a: int, j: int|
                    0 <= a < v && 0 <= j < edges@[a].len() ==> (#[trigger] edges@[a]@[j]).0 < edges.len(),
            decreases edges.len() - v,
        {
            let mut j: usize = 0;
            while j < edges[v].len()
                invariant
                    v < edges.len(),
                    j <= edges@[v as int].len(),
                    forall|a: int, k: int|
                        0 <= a < v && 0 <= k < edges@[a].len() ==> (#[trigger] edges@[a]@[k]).0 < edges.len(),
                    forall|k: int| 0 <= k < j ==> (#[trigger] edges@[v as int]@[k]).0 < edges.len(),
                decreases edges@[v as int].len() - j,
            {
                if edges[v][j].0 >= edges.len() {
                    return None;
                }
                j += 1;
            }
            v += 1;
        }
        Some(WeightedGraph { edges, goals })
    }
}

impl SearchGraph for WeightedGraph {
    open spec fn spec_node_count(&self) -> nat {
        self.edges_of().len()
    }

    open spec fn spec_neighbours(&self, node: usize) -> Seq<(usize, u64)> {
        self.edges_of()[node as int]
    }

    fn node_count(&self) -> (r: usize) {
        self.edges.len()
    }

    fn neighbours(&self, node: usize) -> (r: Vec<(usize, u64)>) {
        proof {
            use_type_invariant(self);
        }
        let mut out: Vec<(usize, u64)> = Vec::new();
        let mut j: usize = 0;
        while j < self.edges[node].len()
            invariant
                node < self.edges.len(),
                j <= self.edges@[node as int].len(),
                out@ == self.edges@[node as int]@.subrange(0, j as int),
                forall|v: int, k: int|
                    0 <= v < self.edges.len() && 0 <= k < self.edges@[v].len() ==> (#[trigger] self.edges@[v]@[k]).0
                        < self.edges.len(),
            decreases self.edges@[node as int].len() - j,
        {
            out.push(self.edges[node][j]);
            j += 1;
        }
        proof {
            assert(self.edges@[node as int]@.subrange(0, j as int) =~= self.edges@[node as int]@);
        }
        out
    }
}

impl SearchGraphWithGoal for WeightedGraph {
    open spec fn spec_is_goal(&self, node: usize) -> bool {
        self.goals_of()[node as int]
    }

    open spec fn spec_heuristic(&self, node: usize) -> u64 {
        0
    }

    /// No estimate: 0 everywhere.
    fn heuristic(&self, node: usize) -> (r: u64) {
        0
    }

    fn is_goal(&self, node: usize) -> (r: bool) {
        proof {
            use_type_invariant(self);
        }
        self.goals[node]
    }
}

} // verus!
