//! Hill climbing: a height map of letters, with the start `S` at height 0
//! and the end `E` at height 26.
use crate::aoc2022::search::{a_star_search, SearchGraph as StartedGraph};
use crate::graph_search::{
    cheapest_back, consistent, is_edge, is_path_back, no_goal_reachable, SearchGraph, SearchGraphWithGoal,
};
use crate::graph_utils::{edge_to, walk_cost, weighted_walk};
use crate::parsing::{split_lines, span_view, text_lines};
use vstd::prelude::*;

verus! {

/// A square of the map: its letter, height and place.
#[derive(Copy, Clone, Debug, PartialEq, Eq, Structural)]
pub struct Node {
    pub c: u8,
    pub height: i32,
    pub x: usize,
    pub y: usize,
}

/// The height of a map letter: `a` to `z` are 0 to 25, `S` is 0, `E` 26.
pub open spec fn height_of(c: u8) -> int {
    if c == 83 {
        0
    } else if c == 69 {
        26
    } else {
        c - 97
    }
}

/// The letters a map may hold.
pub open spec fn map_letter(c: u8) -> bool {
    c == 83 || c == 69 || (97 <= c <= 122)
}

impl Node {
    /// The square with letter `c` at `(x, y)`; only `S`, `E` and `a` to `z`
    /// are squares.
    pub fn new(c: u8, x: usize, y: usize) -> (r: Node)
        requires
            map_letter(c),
        ensures
            r == (Node { c, height: height_of(c) as i32, x, y }),
    {
        if c == 83 {
            Node { c, x, y, height: 0 }
        } else if c == 69 {
            Node { c, x, y, height: 26 }
        } else {
            Node { c, x, y, height: (c - 97) as i32 }
        }
    }
}

/// The map, row by row.
pub struct Graph {
    pub nodes: Vec<Node>,
    pub width: usize,
    pub height: usize,
}

impl Graph {
    /// Every square sits at its own place in the rows.
    pub open spec fn wf(&self) -> bool {
        &&& self.nodes.len() == self.width * self.height
        &&& forall|i: int|
            0 <= i < self.nodes.len() ==> #[trigger] self.nodes@[i].x + self.nodes@[i].y * self.width == i
                && self.nodes@[i].x < self.width
    }

    /// The square at `(x, y)`.
    pub open spec fn at(&self, x: int, y: int) -> Node {
        self.nodes@[x + y * self.width]
    }

    /// The squares next to `node` horizontally or vertically, in the order
    /// left, right, up, down, each a step of cost 1.
    pub fn neighbours<'a>(&'a self, node: &'a Node) -> (r: Vec<(&'a Node, u32)>)
        requires
            self.wf(),
            node.x < self.width,
            node.y < self.height,
        ensures
            r@.map_values(|p: (&Node, u32)| (*p.0, p.1)) == {
                let l = if node.x > 0 { seq![(self.at(node.x - 1, node.y as int), 1u32)] } else { seq![] };
                let rt = if node.x + 1 < self.width { seq![(self.at(node.x + 1, node.y as int), 1u32)] } else { seq![] };
                let u = if node.y > 0 { seq![(self.at(node.x as int, node.y - 1), 1u32)] } else { seq![] };
                let d = if node.y + 1 < self.height { seq![(self.at(node.x as int, node.y + 1), 1u32)] } else { seq![] };
                l + rt + u + d
            },
    {
        let ghost w = self.width as int;
        let ghost h = self.height as int;
        proof {
            assert(node.y * w + node.x < w * h) by (nonlinear_arith)
                requires
                    node.x < w,
                    node.y < h;
            assert((node.y + 1) * w == node.y * w + w) by (nonlinear_arith);
            assert(node.y * w + w <= w * h) by (nonlinear_arith)
                requires
                    node.y < h,
                    w >= 0;
            assert((node.y - 1) * w == node.y * w - w) by (nonlinear_arith);
            assert(node.y + 1 < h ==> (node.y + 1) * w + node.x < w * h) by (nonlinear_arith)
                requires
                    node.x < w;
        }
        let mut neighbours: Vec<(&'a Node, u32)> = Vec::new();
        let ghost mut expected: Seq<(Node, u32)> = seq![];
        if node.x > 0 {
            neighbours.push((&self.nodes[node.y * self.width + (node.x - 1)], 1));
            proof {
                expected = expected.push((self.at(node.x - 1, node.y as int), 1u32));
            }
        }
        if node.x < self.width - 1 {
            neighbours.push((&self.nodes[node.y * self.width + (node.x + 1)], 1));
            proof {
                expected = expected.push((self.at(node.x + 1, node.y as int), 1u32));
            }
        }
        if node.y > 0 {
            neighbours.push((&self.nodes[(node.y - 1) * self.width + node.x], 1));
            proof {
                expected = expected.push((self.at(node.x as int, node.y - 1), 1u32));
            }
        }
        if node.y < self.height - 1 {
            neighbours.push((&self.nodes[(node.y + 1) * self.width + node.x], 1));
            proof {
                expected = expected.push((self.at(node.x as int, node.y + 1), 1u32));
            }
        }
        proof {
            assert(neighbours@.map_values(|p: (&Node, u32)| (*p.0, p.1)) =~= expected);
            let l = if node.x > 0 { seq![(self.at(node.x - 1, node.y as int), 1u32)] } else { seq![] };
            let rt = if node.x + 1 < self.width { seq![(self.at(node.x + 1, node.y as int), 1u32)] } else { seq![] };
            let u = if node.y > 0 { seq![(self.at(node.x as int, node.y - 1), 1u32)] } else { seq![] };
            let d = if node.y + 1 < self.height { seq![(self.at(node.x as int, node.y + 1), 1u32)] } else { seq![] };
            assert(expected =~= l + rt + u + d);
        }
        neighbours
    }
}

/// The squares next to `node`, each with a step cost of 1: left, right, up,
/// down, as far as the map reaches.
pub open spec fn candidates(g: Graph, node: Node) -> Seq<(Node, u32)> {
    let l = if node.x > 0 { seq![(g.at(node.x - 1, node.y as int), 1u32)] } else { seq![] };
    let rt = if node.x + 1 < g.width { seq![(g.at(node.x + 1, node.y as int), 1u32)] } else { seq![] };
    let u = if node.y > 0 { seq![(g.at(node.x as int, node.y - 1), 1u32)] } else { seq![] };
    let d = if node.y + 1 < g.height { seq![(g.at(node.x as int, node.y + 1), 1u32)] } else { seq![] };
    l + rt + u + d
}

/// A step may be taken: at most one up when climbing from the start, at
/// most one down when walking back from the end.
pub open spec fn step_ok(upwards: bool, from: Node, to: Node) -> bool {
    if upwards {
        to.height - from.height <= 1
    } else {
        to.height - from.height >= -1
    }
}

/// The steps among `cands` that may be taken from `from`, as node numbers
/// with their costs.
pub open spec fn allowed_steps(cands: Seq<(Node, u32)>, from: Node, upwards: bool, width: int) -> Seq<(usize, u64)>
    decreases cands.len(),
{
    if cands.len() == 0 {
        Seq::empty()
    } else {
        let prev = allowed_steps(cands.drop_last(), from, upwards, width);
        let (to, cost) = cands.last();
        if step_ok(upwards, from, to) {
            prev.push(((to.x + to.y * width) as usize, cost as u64))
        } else {
            prev
        }
    }
}

/// The steps from the square numbered `node`.
pub open spec fn climb_steps(g: Graph, upwards: bool, node: usize) -> Seq<(usize, u64)> {
    let from = g.nodes@[node as int];
    allowed_steps(candidates(g, from), from, upwards, g.width as int)
}

/// The number of the first square with letter `c`.
pub open spec fn first_with(nodes: Seq<Node>, c: u8, i: int) -> int
    decreases nodes.len() - i,
{
    if i < 0 || i >= nodes.len() || nodes[i].c == c {
        i
    } else {
        first_with(nodes, c, i + 1)
    }
}

/// The letter the search starts from: `S` when climbing, `E` when walking
/// back.
pub open spec fn start_letter(upwards: bool) -> u8 {
    if upwards {
        83
    } else {
        69
    }
}

/// The goal of the search: `E` when climbing, any square of height 0 when
/// walking back.
pub open spec fn climb_goal(g: Graph, upwards: bool, node: usize) -> bool {
    if upwards {
        g.nodes@[node as int].c == 69
    } else {
        g.nodes@[node as int].height == 0
    }
}

/// The search may step from square `a` to square `b`.
pub open spec fn climb_edge(g: Graph, upwards: bool, a: usize, b: usize) -> bool {
    exists|j: int| 0 <= j < climb_steps(g, upwards, a).len() && (#[trigger] climb_steps(g, upwards, a)[j]).0 == b
}

/// A walk back from a goal to the start of the search.
pub open spec fn climb_path(g: Graph, upwards: bool, p: Seq<usize>) -> bool {
    &&& p.len() > 0
    &&& climb_goal(g, upwards, p[0])
    &&& p.last() == first_with(g.nodes@, start_letter(upwards), 0)
    &&& forall|i: int| 0 <= i < p.len() - 1 ==> #[trigger] climb_edge(g, upwards, p[i + 1], p[i])
}

/// `w` is a walk from the start of the search whose node `i` is a goal.
pub open spec fn reaches_goal(g: Graph, upwards: bool, w: Seq<usize>, i: int) -> bool {
    &&& w.len() > 0
    &&& w[0] == first_with(g.nodes@, start_letter(upwards), 0)
    &&& forall|k: int| 0 <= k < w.len() - 1 ==> #[trigger] climb_edge(g, upwards, w[k], w[k + 1])
    &&& 0 <= i < w.len()
    &&& climb_goal(g, upwards, w[i])
}

/// Some walk from the start of the search meets a goal.
pub open spec fn climb_goal_reachable(g: Graph, upwards: bool) -> bool {
    exists|w: Seq<usize>, i: int| #[trigger] reaches_goal(g, upwards, w, i)
}

/// The map seen as a search graph, climbing from `S` to `E` or walking back
/// from `E` to the lowest squares.
pub struct Climb<'a> {
    graph: &'a Graph,
    upwards: bool,
}

impl<'a> Climb<'a> {
    #[verifier::type_invariant]
    spec fn inv(self) -> bool {
        &&& self.graph.wf()
        &&& 0 <= first_with(self.graph.nodes@, start_letter(self.upwards), 0) < self.graph.nodes.len()
    }

    /// The map.
    pub closed spec fn graph_of(self) -> Graph {
        *self.graph
    }

    /// Whether the search climbs from `S`.
    pub closed spec fn upwards_of(self) -> bool {
        self.upwards
    }

    /// The search over `graph`, which must hold the letter it starts from.
    pub fn new(graph: &'a Graph, upwards: bool) -> (r: Climb<'a>)
        requires
            graph.wf(),
            exists|k: int| 0 <= k < graph.nodes.len() && graph.nodes@[k].c == start_letter(upwards),
        ensures
            r.graph_of() == *graph,
            r.upwards_of() == upwards,
            0 <= first_with(graph.nodes@, start_letter(upwards), 0) < graph.nodes.len(),
    {
        proof {
            let k = choose|k: int| 0 <= k < graph.nodes.len() && graph.nodes@[k].c == start_letter(upwards);
            lemma_first_with(graph.nodes@, start_letter(upwards), 0, k);
        }
        Climb { graph, upwards }
    }
}

proof fn lemma_first_with(nodes: Seq<Node>, c: u8, i: int, k: int)
    requires
        0 <= i <= k < nodes.len(),
        nodes[k].c == c,
    ensures
        i <= first_with(nodes, c, i) <= k,
        nodes[first_with(nodes, c, i)].c == c,
    decreases k - i,
{
    if nodes[i].c != c {
        lemma_first_with(nodes, c, i + 1, k);
    }
}

/// The square at index `i` of a well-formed map lies inside it, and its
/// neighbouring squares are squares of the map.
proof fn lemma_candidates(g: Graph, i: int)
    requires
        g.wf(),
        0 <= i < g.nodes.len(),
    ensures
        g.nodes@[i].x < g.width,
        g.nodes@[i].y < g.height,
        forall|k: int|
            #![trigger candidates(g, g.nodes@[i])[k]]
            0 <= k < candidates(g, g.nodes@[i]).len() ==> exists|m: int|
                0 <= m < g.nodes.len() && candidates(g, g.nodes@[i])[k].0 == #[trigger] g.nodes@[m],
{
    let n = g.nodes@[i];
    let w = g.width as int;
    let h = g.height as int;
    assert(n.x + n.y * w == i);
    assert(n.y < h) by (nonlinear_arith)
        requires
            n.x + n.y * w == i,
            i < w * h,
            n.x >= 0,
            n.y >= 0,
            w >= 0;
    assert((n.y + 1) * w == n.y * w + w) by (nonlinear_arith);
    assert((n.y - 1) * w == n.y * w - w) by (nonlinear_arith);
    assert(n.y + 1 < h ==> (n.y + 1) * w <= (h - 1) * w) by (nonlinear_arith)
        requires
            w >= 0;
    assert((h - 1) * w == h * w - w) by (nonlinear_arith);
    let c = candidates(g, n);
    assert forall|k: int| #![trigger c[k]] 0 <= k < c.len() implies exists|m: int|
        0 <= m < g.nodes.len() && c[k].0 == #[trigger] g.nodes@[m] by {
        let l = if n.x > 0 { seq![(g.at(n.x - 1, n.y as int), 1u32)] } else { seq![] };
        let rt = if n.x + 1 < g.width { seq![(g.at(n.x + 1, n.y as int), 1u32)] } else { seq![] };
        let u = if n.y > 0 { seq![(g.at(n.x as int, n.y - 1), 1u32)] } else { seq![] };
        let d = if n.y + 1 < g.height { seq![(g.at(n.x as int, n.y + 1), 1u32)] } else { seq![] };
        assert(c == l + rt + u + d);
        if n.x > 0 {
            assert(g.nodes@[i - 1] == g.at(n.x - 1, n.y as int));
        }
        if n.x + 1 < g.width {
            assert(g.nodes@[i + 1] == g.at(n.x + 1, n.y as int));
        }
        if n.y > 0 {
            assert(g.nodes@[i - w] == g.at(n.x as int, n.y - 1));
        }
        if n.y + 1 < g.height {
            assert(g.nodes@[i + w] == g.at(n.x as int, n.y + 1));
        }
    }
}

/// Some step among `steps` leads to square `b`.
spec fn steps_reach(steps: Seq<(usize, u64)>, b: usize) -> bool {
    exists|j: int| 0 <= j < steps.len() && #[trigger] steps[j].0 == b
}

/// Some candidate among `cands` that may be taken from `from` is square `b`.
spec fn cands_reach(cands: Seq<(Node, u32)>, from: Node, upwards: bool, width: int, b: usize) -> bool {
    exists|k: int|
        0 <= k < cands.len() && step_ok(upwards, from, (#[trigger] cands[k]).0) && (cands[k].0.x + cands[k].0.y
            * width) as usize == b
}

proof fn lemma_allowed_reach(cands: Seq<(Node, u32)>, from: Node, upwards: bool, width: int, b: usize)
    ensures
        steps_reach(allowed_steps(cands, from, upwards, width), b) <==> cands_reach(cands, from, upwards, width, b),
    decreases cands.len(),
{
    if cands.len() > 0 {
        let c0 = cands.drop_last();
        lemma_allowed_reach(c0, from, upwards, width, b);
        let prev = allowed_steps(c0, from, upwards, width);
        let all = allowed_steps(cands, from, upwards, width);
        let (to, cost) = cands.last();
        if steps_reach(all, b) {
            let j = choose|j: int| 0 <= j < all.len() && #[trigger] all[j].0 == b;
            if step_ok(upwards, from, to) && j == prev.len() {
                assert(cands[cands.len() - 1] == cands.last());
            } else {
                assert(all[j] == prev[j]);
                let k = choose|k: int|
                    0 <= k < c0.len() && step_ok(upwards, from, (#[trigger] c0[k]).0) && (c0[k].0.x + c0[k].0.y * width) as usize == b;
                assert(cands[k] == c0[k]);
            }
        }
        if cands_reach(cands, from, upwards, width, b) {
            let k = choose|k: int|
                0 <= k < cands.len() && step_ok(upwards, from, (#[trigger] cands[k]).0) && (cands[k].0.x + cands[k].0.y * width) as usize == b;
            if k == cands.len() - 1 {
                assert(all[prev.len() as int].0 == b);
            } else {
                assert(cands[k] == c0[k]);
                assert(cands_reach(c0, from, upwards, width, b));
                let j = choose|j: int| 0 <= j < prev.len() && #[trigger] prev[j].0 == b;
                assert(all[j] == prev[j]);
            }
        }
    }
}

/// Squares `p` and `q` are next to each other, horizontally or vertically.
pub open spec fn adjacent(p: Node, q: Node) -> bool {
    ||| p.y == q.y && (p.x == q.x + 1 || q.x == p.x + 1)
    ||| p.x == q.x && (p.y == q.y + 1 || q.y == p.y + 1)
}

/// The facts about the squares around `a` that the step rule rests on: each
/// neighbour in the map is the square at the index its place gives.
proof fn lemma_around(g: Graph, a: int)
    requires
        g.wf(),
        0 <= a < g.nodes.len(),
    ensures
        ({
            let an = g.nodes@[a];
            let w = g.width as int;
            &&& an.x + an.y * w == a
            &&& an.x < g.width && an.y < g.height
            &&& an.x > 0 ==> g.nodes@[a - 1].x == an.x - 1 && g.nodes@[a - 1].y == an.y && g.at(an.x - 1, an.y as int)
                == g.nodes@[a - 1]
            &&& an.x + 1 < g.width ==> a + 1 < g.nodes.len() && g.nodes@[a + 1].x == an.x + 1 && g.nodes@[a + 1].y == an.y
                && g.at(an.x + 1, an.y as int) == g.nodes@[a + 1]
            &&& an.y > 0 ==> a - w >= 0 && g.nodes@[a - w].x == an.x && g.nodes@[a - w].y == an.y - 1 && g.at(
                an.x as int,
                an.y - 1,
            ) == g.nodes@[a - w]
            &&& an.y + 1 < g.height ==> a + w < g.nodes.len() && g.nodes@[a + w].x == an.x && g.nodes@[a + w].y == an.y + 1
                && g.at(an.x as int, an.y + 1) == g.nodes@[a + w]
        }),
{
    let an = g.nodes@[a];
    let w = g.width as int;
    lemma_candidates(g, a);
    assert(an.x + an.y * w == a);
    assert((an.y + 1) * w == an.y * w + w) by (nonlinear_arith);
    assert((an.y - 1) * w == an.y * w - w) by (nonlinear_arith);
    if an.x > 0 {
        let n = g.nodes@[a - 1];
        assert(n.x + n.y * w == a - 1);
        crate::grid::lemma_index_unique(n.x as int, n.y as int, an.x - 1, an.y as int, w);
    }
    if an.x + 1 < g.width {
        assert(a + 1 < g.nodes.len()) by (nonlinear_arith)
            requires
                an.x + an.y * w == a,
                an.x + 1 < w,
                an.y < g.height,
                g.nodes.len() == w * g.height,
        ;
        let n = g.nodes@[a + 1];
        assert(n.x + n.y * w == a + 1);
        crate::grid::lemma_index_unique(n.x as int, n.y as int, an.x + 1, an.y as int, w);
    }
    if an.y > 0 {
        assert(a - w >= 0) by (nonlinear_arith)
            requires
                an.x + an.y * w == a,
                an.y > 0,
                an.x >= 0,
                w >= 0,
        ;
        let n = g.nodes@[a - w];
        assert(n.x + n.y * w == a - w);
        crate::grid::lemma_index_unique(n.x as int, n.y as int, an.x as int, an.y - 1, w);
    }
    if an.y + 1 < g.height {
        assert(a + w < g.nodes.len()) by (nonlinear_arith)
            requires
                an.x + an.y * w == a,
                an.x < w,
                an.y + 1 < g.height,
                g.nodes.len() == w * g.height,
                (an.y + 1) * w == an.y * w + w,
        ;
        let n = g.nodes@[a + w];
        assert(n.x + n.y * w == a + w);
        crate::grid::lemma_index_unique(n.x as int, n.y as int, an.x as int, an.y + 1, w);
    }
}

/// Every candidate step from square `a` leads to a square next to it, found
/// at the index its place gives.
proof fn lemma_candidate_adjacent(g: Graph, a: int, k: int)
    requires
        g.wf(),
        0 <= a < g.nodes.len(),
        0 <= k < candidates(g, g.nodes@[a]).len(),
    ensures
        ({
            let to = candidates(g, g.nodes@[a])[k].0;
            let m = to.x + to.y * g.width;
            &&& 0 <= m < g.nodes.len()
            &&& g.nodes@[m] == to
            &&& adjacent(g.nodes@[a], to)
        }),
{
    let an = g.nodes@[a];
    let w = g.width as int;
    lemma_around(g, a);
    let c = candidates(g, an);
    let l = if an.x > 0 { seq![(g.at(an.x - 1, an.y as int), 1u32)] } else { seq![] };
    let rt = if an.x + 1 < g.width { seq![(g.at(an.x + 1, an.y as int), 1u32)] } else { seq![] };
    let u = if an.y > 0 { seq![(g.at(an.x as int, an.y - 1), 1u32)] } else { seq![] };
    let d = if an.y + 1 < g.height { seq![(g.at(an.x as int, an.y + 1), 1u32)] } else { seq![] };
    assert(c == l + rt + u + d);
    let m: int = if k < l.len() {
        assert(c[k] == l[0]);
        a - 1
    } else if k < l.len() + rt.len() {
        assert(c[k] == rt[0]);
        a + 1
    } else if k < l.len() + rt.len() + u.len() {
        assert(c[k] == u[0]);
        a - w
    } else {
        assert(c[k] == d[0]);
        a + w
    };
    let to = c[k].0;
    assert(to == g.nodes@[m]);
    assert(to.x + to.y * w == m);
}

/// A square next to square `a` is among the candidate steps from `a`.
proof fn lemma_adjacent_candidate(g: Graph, a: int, b: int) -> (k: int)
    requires
        g.wf(),
        0 <= a < g.nodes.len(),
        0 <= b < g.nodes.len(),
        adjacent(g.nodes@[a], g.nodes@[b]),
    ensures
        0 <= k < candidates(g, g.nodes@[a]).len(),
        candidates(g, g.nodes@[a])[k] == (g.nodes@[b], 1u32),
{
    let an = g.nodes@[a];
    let bn = g.nodes@[b];
    let w = g.width as int;
    lemma_around(g, a);
    lemma_candidates(g, b);
    assert(bn.x + bn.y * w == b);
    let c = candidates(g, an);
    let l = if an.x > 0 { seq![(g.at(an.x - 1, an.y as int), 1u32)] } else { seq![] };
    let rt = if an.x + 1 < g.width { seq![(g.at(an.x + 1, an.y as int), 1u32)] } else { seq![] };
    let u = if an.y > 0 { seq![(g.at(an.x as int, an.y - 1), 1u32)] } else { seq![] };
    let d = if an.y + 1 < g.height { seq![(g.at(an.x as int, an.y + 1), 1u32)] } else { seq![] };
    assert(c == l + rt + u + d);
    if bn.y == an.y && bn.x + 1 == an.x {
        assert(bn.y * w == an.y * w);
        assert(b == a - 1);
        assert(c[0] == l[0]);
        0
    } else if bn.y == an.y && bn.x == an.x + 1 {
        assert(bn.y * w == an.y * w);
        assert(b == a + 1);
        assert(c[l.len() as int] == rt[0]);
        l.len() as int
    } else if bn.x == an.x && bn.y + 1 == an.y {
        assert(bn.y * w == an.y * w - w) by (nonlinear_arith)
            requires
                bn.y + 1 == an.y,
        ;
        assert(b == a - w);
        assert(c[(l.len() + rt.len()) as int] == u[0]);
        (l.len() + rt.len()) as int
    } else {
        assert(bn.y * w == an.y * w + w) by (nonlinear_arith)
            requires
                bn.y == an.y + 1,
        ;
        assert(b == a + w);
        assert(c[(l.len() + rt.len() + u.len()) as int] == d[0]);
        (l.len() + rt.len() + u.len()) as int
    }
}

/// The search may step from square `a` to square `b` exactly when they are
/// next to each other and, climbing, `b` is at most one higher than `a`
/// (any drop is allowed), or, walking back, at most one lower (any rise is
/// allowed).
pub proof fn lemma_climb_edge_rule(g: Graph, upwards: bool, a: usize, b: usize)
    requires
        g.wf(),
        a < g.nodes.len(),
        b < g.nodes.len(),
    ensures
        climb_edge(g, upwards, a, b) <==> adjacent(g.nodes@[a as int], g.nodes@[b as int]) && if upwards {
            g.nodes@[b as int].height - g.nodes@[a as int].height <= 1
        } else {
            g.nodes@[b as int].height - g.nodes@[a as int].height >= -1
        },
{
    let an = g.nodes@[a as int];
    let bn = g.nodes@[b as int];
    let w = g.width as int;
    let c = candidates(g, an);
    lemma_allowed_reach(c, an, upwards, w, b);
    if climb_edge(g, upwards, a, b) {
        let j = choose|j: int|
            0 <= j < climb_steps(g, upwards, a).len() && (#[trigger] climb_steps(g, upwards, a)[j]).0 == b;
        assert(steps_reach(climb_steps(g, upwards, a), b));
        let k = choose|k: int|
            0 <= k < c.len() && step_ok(upwards, an, (#[trigger] c[k]).0) && (c[k].0.x + c[k].0.y * w) as usize == b;
        lemma_candidate_adjacent(g, a as int, k);
    }
    if adjacent(an, bn) && (if upwards {
        bn.height - an.height <= 1
    } else {
        bn.height - an.height >= -1
    }) {
        let k = lemma_adjacent_candidate(g, a as int, b as int);
        lemma_candidates(g, b as int);
        assert(bn.x + bn.y * w == b);
        assert(cands_reach(c, an, upwards, w, b));
        let j = choose|j: int| 0 <= j < climb_steps(g, upwards, a).len() && #[trigger] climb_steps(g, upwards, a)[j].0 == b;
    }
}

impl<'a> SearchGraph for Climb<'a> {
    open spec fn spec_node_count(&self) -> nat {
        self.graph_of().nodes.len() as nat
    }

    open spec fn spec_neighbours(&self, node: usize) -> Seq<(usize, u64)> {
        climb_steps(self.graph_of(), self.upwards_of(), node)
    }

    fn node_count(&self) -> (r: usize) {
        self.graph.nodes.len()
    }

    /// The squares next to `node` that the search may step to.
    fn neighbours(&self, node: usize) -> (r: Vec<(usize, u64)>) {
        proof {
            use_type_invariant(self);
            lemma_candidates(*self.graph, node as int);
        }
        let from = &self.graph.nodes[node];
        let cands = self.graph.neighbours(from);
        let ghost cs = candidates(*self.graph, *from);
        proof {
            assert(cands@.map_values(|p: (&Node, u32)| (*p.0, p.1)) == cs);
            assert(cands.len() == cs.len());
        }
        let mut out: Vec<(usize, u64)> = Vec::new();
        let mut i: usize = 0;
        while i < cands.len()
            invariant
                self.graph.wf(),
                *from == self.graph.nodes@[node as int],
                cs == candidates(*self.graph, *from),
                cands@.map_values(|p: (&Node, u32)| (*p.0, p.1)) == cs,
                cands.len() == cs.len(),
                i <= cands.len(),
                forall|k: int|
                    #![trigger cs[k]]
                    0 <= k < cs.len() ==> exists|m: int|
                        0 <= m < self.graph.nodes.len() && cs[k].0 == #[trigger] self.graph.nodes@[m],
                out@ == allowed_steps(cs.subrange(0, i as int), *from, self.upwards, self.graph.width as int),
                forall|k: int| 0 <= k < out.len() ==> (#[trigger] out@[k]).0 < self.graph.nodes.len(),
            decreases cands.len() - i,
        {
            let (to, cost) = cands[i];
            proof {
                assert(cs[i as int] == (*to, cost));
                let m = choose|m: int| 0 <= m < self.graph.nodes.len() && cs[i as int].0 == #[trigger] self.graph.nodes@[m];
                assert(self.graph.nodes@[m].x + self.graph.nodes@[m].y * self.graph.width == m);
                assert(cs.subrange(0, i + 1).drop_last() =~= cs.subrange(0, i as int));
            }
            let rise = (to.height as i64) - (from.height as i64);
            let ok = if self.upwards {
                rise <= 1
            } else {
                rise >= -1
            };
            if ok {
                out.push((to.x + to.y * self.graph.width, cost as u64));
            }
            i += 1;
        }
        proof {
            assert(cs.subrange(0, cs.len() as int) =~= cs);
        }
        out
    }
}

impl<'a> SearchGraphWithGoal for Climb<'a> {
    open spec fn spec_is_goal(&self, node: usize) -> bool {
        climb_goal(self.graph_of(), self.upwards_of(), node)
    }

    open spec fn spec_heuristic(&self, node: usize) -> u64 {
        0
    }

    /// No estimate: 0 everywhere.
    fn heuristic(&self, node: usize) -> (r: u64) {
        0
    }

    /// `E` when climbing, height 0 when walking back.
    fn is_goal(&self, node: usize) -> (r: bool) {
        if self.upwards {
            self.graph.nodes[node].c == 69
        } else {
            self.graph.nodes[node].height == 0
        }
    }
}

impl<'a> StartedGraph for Climb<'a> {
    open spec fn spec_start_node(&self) -> usize {
        first_with(self.graph_of().nodes@, start_letter(self.upwards_of()), 0) as usize
    }

    /// The first square with the letter the search starts from.
    fn start_node(&self) -> (r: usize) {
        proof {
            use_type_invariant(self);
        }
        let c: u8 = if self.upwards {
            83
        } else {
            69
        };
        let mut i: usize = 0;
        while self.graph.nodes[i].c != c
            invariant
                0 <= first_with(self.graph.nodes@, c, 0) < self.graph.nodes.len(),
                i <= first_with(self.graph.nodes@, c, 0),
                first_with(self.graph.nodes@, c, 0) == first_with(self.graph.nodes@, c, i as int),
            decreases self.graph.nodes.len() - i,
        {
            proof {
                lemma_first_ge(self.graph.nodes@, c, i + 1);
            }
            i += 1;
        }
        i
    }
}

proof fn lemma_first_ge(nodes: Seq<Node>, c: u8, i: int)
    requires
        0 <= i,
    ensures
        first_with(nodes, c, i) >= i,
    decreases nodes.len() - i,
{
    if i < nodes.len() && nodes[i].c != c {
        lemma_first_ge(nodes, c, i + 1);
    }
}

proof fn lemma_found_path(climb: &Climb, graph: &Graph, upwards: bool, path: Seq<usize>)
    requires
        0 <= first_with(graph.nodes@, start_letter(upwards), 0) < graph.nodes.len(),
        climb.graph_of() == *graph,
        climb.upwards_of() == upwards,
        is_path_back(climb, climb.spec_start_node(), path),
    ensures
        climb_path(*graph, upwards, path),
{
    assert forall|i: int| 0 <= i < path.len() - 1 implies #[trigger] climb_edge(*graph, upwards, path[i + 1], path[i]) by {
        assert(is_edge(climb, path[i + 1], path[i]));
    }
}

proof fn lemma_reachable_goal_found(climb: &Climb, graph: &Graph, upwards: bool)
    requires
        0 <= first_with(graph.nodes@, start_letter(upwards), 0) < graph.nodes.len(),
        climb.graph_of() == *graph,
        climb.upwards_of() == upwards,
        climb_goal_reachable(*graph, upwards),
    ensures
        !no_goal_reachable(climb, climb.spec_start_node()),
{
    let (w, i) = choose|w: Seq<usize>, i: int| #[trigger] reaches_goal(*graph, upwards, w, i);
    assert forall|k: int| 0 <= k < w.len() - 1 implies is_edge(climb, #[trigger] w[k], w[k + 1]) by {
        assert(climb_edge(*graph, upwards, w[k], w[k + 1]));
        let j = choose|j: int|
            0 <= j < climb_steps(*graph, upwards, w[k]).len() && (#[trigger] climb_steps(*graph, upwards, w[k])[j]).0
                == w[k + 1];
        assert(climb.spec_neighbours(w[k]) == climb_steps(*graph, upwards, w[k]));
        assert(climb.spec_neighbours(w[k])[j].0 == w[k + 1]);
    }
    assert(climb.spec_is_goal(w[i]));
    assert(w[0] == climb.spec_start_node());
}

proof fn lemma_path_reaches(graph: &Graph, upwards: bool, p: Seq<usize>)
    requires
        climb_path(*graph, upwards, p),
    ensures
        climb_goal_reachable(*graph, upwards),
{
    let w = p.reverse();
    assert forall|k: int| 0 <= k < w.len() - 1 implies #[trigger] climb_edge(*graph, upwards, w[k], w[k + 1]) by {
        let i = p.len() - 2 - k;
        assert(w[k] == p[i + 1] && w[k + 1] == p[i]);
        assert(climb_edge(*graph, upwards, p[i + 1], p[i]));
    }
    assert(w[0] == p.last());
    assert(w[w.len() - 1] == p[0]);
    assert(reaches_goal(*graph, upwards, w, w.len() - 1));
}

/// Every candidate step leads to a square of the map.
spec fn cands_in_map(cands: Seq<(Node, u32)>, g: Graph) -> bool {
    forall|k: int|
        #![trigger cands[k]]
        0 <= k < cands.len() ==> 0 <= cands[k].0.x + cands[k].0.y * g.width < g.nodes.len()
}

proof fn lemma_allowed_steps(
    cands: Seq<(Node, u32)>,
    from: Node,
    upwards: bool,
    g: Graph,
)
    requires
        g.wf(),
        forall|k: int| 0 <= k < cands.len() ==> (#[trigger] cands[k]).1 == 1,
        cands_in_map(cands, g),
    ensures
        forall|j: int|
            0 <= j < allowed_steps(cands, from, upwards, g.width as int).len() ==> (#[trigger] allowed_steps(
                cands,
                from,
                upwards,
                g.width as int,
            )[j]).0 < g.nodes.len() && allowed_steps(cands, from, upwards, g.width as int)[j].1 == 1,
    decreases cands.len(),
{
    if cands.len() > 0 {
        let c0 = cands.drop_last();
        assert(cands_in_map(c0, g)) by {
            assert forall|k: int| #![trigger c0[k]] 0 <= k < c0.len() implies 0 <= c0[k].0.x + c0[k].0.y * g.width
                < g.nodes.len() by {
                assert(c0[k] == cands[k]);
            }
        }
        assert forall|k: int| 0 <= k < c0.len() implies (#[trigger] c0[k]).1 == 1 by {
            assert(c0[k] == cands[k]);
        }
        lemma_allowed_steps(c0, from, upwards, g);
        let last = cands.last();
        assert(cands[cands.len() - 1] == last);
        let prev = allowed_steps(c0, from, upwards, g.width as int);
        let (to, cost) = last;
        assert(0 <= to.x + to.y * g.width < g.nodes.len());
        assert(cost == 1);
        let all = allowed_steps(cands, from, upwards, g.width as int);
        if step_ok(upwards, from, to) {
            assert(all == prev.push(((to.x + to.y * g.width) as usize, cost as u64)));
            assert forall|j: int| 0 <= j < all.len() implies (#[trigger] all[j]).0 < g.nodes.len() && all[j].1 == 1 by {
                if j < prev.len() {
                    assert(all[j] == prev[j]);
                }
            }
        } else {
            assert(all == prev);
        }
    }
}

/// Every step of the search from a square of the map costs 1 and leads to
/// a square of the map.
proof fn lemma_steps(g: Graph, upwards: bool, a: usize)
    requires
        g.wf(),
        a < g.nodes.len(),
    ensures
        forall|j: int|
            0 <= j < climb_steps(g, upwards, a).len() ==> (#[trigger] climb_steps(g, upwards, a)[j]).0 < g.nodes.len()
                && climb_steps(g, upwards, a)[j].1 == 1,
{
    lemma_candidates(g, a as int);
    let c = candidates(g, g.nodes@[a as int]);
    assert forall|k: int| 0 <= k < c.len() implies (#[trigger] c[k]).1 == 1 by {}
    assert forall|k: int| #![trigger c[k]] 0 <= k < c.len() implies 0 <= c[k].0.x + c[k].0.y * g.width
        < g.nodes.len() by {
        let m = choose|m: int| 0 <= m < g.nodes.len() && c[k].0 == #[trigger] g.nodes@[m];
        assert(g.nodes@[m].x + g.nodes@[m].y * g.width == m);
    }
    lemma_allowed_steps(c, g.nodes@[a as int], upwards, g);
}

/// A walk of the search with steps of cost 1 costs its number of steps,
/// held at `u64::MAX`.
proof fn lemma_unit_cost(climb: &Climb, w: Seq<usize>, js: Seq<int>, k: int)
    requires
        climb.graph_of().wf(),
        weighted_walk(climb, w, js),
        forall|t: int| 0 <= t < w.len() ==> #[trigger] w[t] < climb.graph_of().nodes.len(),
        0 <= k <= js.len(),
    ensures
        walk_cost(climb, w, js, k) == if k <= u64::MAX {
            k
        } else {
            u64::MAX as int
        },
    decreases k,
{
    if k > 0 {
        lemma_unit_cost(climb, w, js, k - 1);
        let t = k - 1;
        assert(edge_to(climb, w[t], js[t], w[t + 1] as int));
        lemma_steps(climb.graph_of(), climb.upwards_of(), w[t]);
        assert(climb.spec_neighbours(w[t]) == climb_steps(climb.graph_of(), climb.upwards_of(), w[t]));
        assert(climb.spec_neighbours(w[t])[js[t]].1 == 1);
    }
}

/// The squares of a walk back to the start lie in the map.
proof fn lemma_path_in_map(g: Graph, upwards: bool, q: Seq<usize>, k: int)
    requires
        g.wf(),
        climb_path(g, upwards, q),
        0 <= first_with(g.nodes@, start_letter(upwards), 0) < g.nodes.len(),
        0 <= k < q.len(),
    ensures
        q[k] < g.nodes.len(),
    decreases q.len() - k,
{
    if k < q.len() - 1 {
        lemma_path_in_map(g, upwards, q, k + 1);
        assert(climb_edge(g, upwards, q[k + 1], q[k]));
        lemma_steps(g, upwards, q[k + 1]);
        let j = choose|j: int|
            0 <= j < climb_steps(g, upwards, q[k + 1]).len() && (#[trigger] climb_steps(g, upwards, q[k + 1])[j]).0
                == q[k];
    }
}

/// The path the search finds, when it is the cheapest, has no more squares
/// than any walk back from a goal to the start.
proof fn lemma_fewest_steps(climb: &Climb, graph: &Graph, upwards: bool, path: Seq<usize>, q: Seq<usize>)
    requires
        graph.wf(),
        0 <= first_with(graph.nodes@, start_letter(upwards), 0) < graph.nodes.len(),
        climb.graph_of() == *graph,
        climb.upwards_of() == upwards,
        cheapest_back(climb, climb.spec_start_node(), path),
        path.len() > 0,
        path.last() == climb.spec_start_node(),
        path.len() <= usize::MAX,
        climb_path(*graph, upwards, q),
    ensures
        path.len() <= q.len(),
{
    let w = q.reverse();
    let n = w.len() - 1;
    let js = Seq::new(
        n as nat,
        |i: int|
            choose|j: int|
                0 <= j < climb_steps(*graph, upwards, w[i]).len() && (#[trigger] climb_steps(*graph, upwards, w[i])[j]).0
                    == w[i + 1],
    );
    assert forall|i: int| 0 <= i < js.len() implies #[trigger] edge_to(climb, w[i], js[i], w[i + 1] as int) by {
        let k = q.len() - 2 - i;
        assert(w[i] == q[k + 1] && w[i + 1] == q[k]);
        assert(climb_edge(*graph, upwards, q[k + 1], q[k]));
        assert(climb.spec_neighbours(w[i]) == climb_steps(*graph, upwards, w[i]));
    }
    assert(weighted_walk(climb, w, js));
    assert forall|t: int| 0 <= t < w.len() implies #[trigger] w[t] < climb.spec_node_count() by {
        lemma_path_in_map(*graph, upwards, q, q.len() - 1 - t);
    }
    assert(w[0] == q.last());
    assert(w.last() == q[0]);
    let jp = choose|jp: Seq<int>|
        #[trigger] weighted_walk(climb, path.reverse(), jp) && forall|w2: Seq<usize>, js2: Seq<int>|
            #[trigger] weighted_walk(climb, w2, js2) && w2.len() > 0 && w2[0] == climb.spec_start_node()
                && climb.spec_is_goal(w2.last()) && (forall|i: int|
                0 <= i < w2.len() ==> #[trigger] w2[i] < climb.spec_node_count()) ==> walk_cost(
                climb,
                path.reverse(),
                jp,
                jp.len() as int,
            ) <= walk_cost(climb, w2, js2, js2.len() as int);
    assert(walk_cost(climb, path.reverse(), jp, jp.len() as int) <= walk_cost(climb, w, js, js.len() as int));
    lemma_unit_cost(climb, w, js, js.len() as int);
    assert(path.reverse().len() == jp.len() + 1);
    assert(path.reverse()[0] == path.last());
    assert forall|t: int| 0 <= t < path.reverse().len() implies #[trigger] path.reverse()[t] < graph.nodes.len() by {
        lemma_walk_in_map(climb, graph, path.reverse(), jp, t);
    }
    lemma_unit_cost(climb, path.reverse(), jp, jp.len() as int);
}

/// The nodes of a walk of the search from the start lie in the map.
proof fn lemma_walk_in_map(climb: &Climb, graph: &Graph, w: Seq<usize>, js: Seq<int>, t: int)
    requires
        graph.wf(),
        climb.graph_of() == *graph,
        weighted_walk(climb, w, js),
        w.len() > 0,
        w[0] < graph.nodes.len(),
        0 <= t < w.len(),
    ensures
        w[t] < graph.nodes.len(),
    decreases t,
{
    if t > 0 {
        lemma_walk_in_map(climb, graph, w, js, t - 1);
        let i = t - 1;
        assert(edge_to(climb, w[i], js[i], w[i + 1] as int));
        lemma_steps(*graph, climb.upwards_of(), w[i]);
        assert(climb.spec_neighbours(w[i]) == climb_steps(*graph, climb.upwards_of(), w[i]));
    }
}

/// The number of steps of the path the search finds from `S` to `E`
/// (climbing) or from `E` to a lowest square (walking back); `None` when no
/// goal can be reached. The map must hold the start letter.
fn climb_length(graph: &Graph, upwards: bool) -> (r: Option<usize>)
    requires
        graph.wf(),
        exists|k: int| 0 <= k < graph.nodes.len() && graph.nodes@[k].c == start_letter(upwards),
    ensures
        r is Some <==> climb_goal_reachable(*graph, upwards),
        r matches Some(n) ==> exists|p: Seq<usize>| climb_path(*graph, upwards, p) && p.len() == n + 1,
        r matches Some(n) ==> forall|q: Seq<usize>| #[trigger] climb_path(*graph, upwards, q) ==> n + 1 <= q.len(),
{
    let climb = Climb::new(graph, upwards);
    proof {
        assert(consistent(&climb));
    }
    match a_star_search(&climb) {
        Some(path) => {
            proof {
                lemma_found_path(&climb, graph, upwards, path@);
                lemma_path_reaches(graph, upwards, path@);
                assert forall|q: Seq<usize>| #[trigger] climb_path(*graph, upwards, q) implies path@.len() <= q.len() by {
                    lemma_fewest_steps(&climb, graph, upwards, path@, q);
                }
            }
            Some(path.len() - 1)
        },
        None => {
            proof {
                if climb_goal_reachable(*graph, upwards) {
                    lemma_reachable_goal_found(&climb, graph, upwards);
                }
            }
            None
        },
    }
}

/// The fewest steps from `S` to `E`; `None` when `E` cannot be reached.
pub fn calculate_part1(graph: &Graph) -> (r: Option<usize>)
    requires
        graph.wf(),
        exists|k: int| 0 <= k < graph.nodes.len() && graph.nodes@[k].c == start_letter(true),
    ensures
        r is Some <==> climb_goal_reachable(*graph, true),
        r matches Some(n) ==> exists|p: Seq<usize>| climb_path(*graph, true, p) && p.len() == n + 1,
        r matches Some(n) ==> forall|q: Seq<usize>| #[trigger] climb_path(*graph, true, q) ==> n + 1 <= q.len(),
{
    climb_length(graph, true)
}

/// The fewest steps from `E` down to a square of height 0; `None` when
/// there is none to reach.
pub fn calculate_part2(graph: &Graph) -> (r: Option<usize>)
    requires
        graph.wf(),
        exists|k: int| 0 <= k < graph.nodes.len() && graph.nodes@[k].c == start_letter(false),
    ensures
        r is Some <==> climb_goal_reachable(*graph, false),
        r matches Some(n) ==> exists|p: Seq<usize>| climb_path(*graph, false, p) && p.len() == n + 1,
        r matches Some(n) ==> forall|q: Seq<usize>| #[trigger] climb_path(*graph, false, q) ==> n + 1 <= q.len(),
{
    climb_length(graph, false)
}

/// The text is a rectangle of map letters: at least one line, all as long
/// as the first, which is not empty.
pub open spec fn map_text_ok(s: Seq<u8>) -> bool {
    let lines = text_lines(s);
    &&& lines.len() > 0
    &&& lines[0].1 > 0
    &&& forall|k: int| 0 <= k < lines.len() ==> (#[trigger] lines[k]).1 == lines[0].1
    &&& forall|k: int, x: int|
        0 <= k < lines.len() && 0 <= x < lines[0].1 ==> map_letter(#[trigger] s[(#[trigger] lines[k]).0 + x])
}

/// The map of a text: one square per letter, row by row.
pub fn parse_input(input: &[u8]) -> (r: Option<Graph>)
    ensures
        r is Some <==> map_text_ok(input@),
        r matches Some(g) ==> {
            let lines = text_lines(input@);
            &&& g.wf()
            &&& g.width == lines[0].1
            &&& g.height == lines.len()
            &&& forall|i: int|
                0 <= i < g.nodes.len() ==> {
                    let n = #[trigger] g.nodes@[i];
                    &&& n.c == input@[lines[n.y as int].0 + n.x]
                    &&& n.height == height_of(n.c)
                }
        },
{
    let lines = split_lines(input);
    let ghost tl = text_lines(input@);
    if lines.len() == 0 || lines[0].1 == 0 {
        proof {
            if lines.len() > 0 {
                assert(tl[0] == (lines@[0].0 as int, lines@[0].1 as int));
            }
        }
        return None;
    }
    let width = lines[0].1;
    let height = lines.len();
    proof {
        assert(tl[0] == (lines@[0].0 as int, lines@[0].1 as int));
    }
    let mut nodes: Vec<Node> = Vec::new();
    let mut y: usize = 0;
    while y < height
        invariant
            span_view(lines@) == tl,
            tl == text_lines(input@),
            forall|j: int| 0 <= j < lines.len() ==> #[trigger] lines@[j].0 + lines@[j].1 <= input.len(),
            height == lines.len(),
            width == tl[0].1,
            width > 0,
            y <= height,
            nodes.len() == y * width,
            forall|k: int| 0 <= k < y ==> (#[trigger] tl[k]).1 == width,
            forall|k: int, x: int| 0 <= k < y && 0 <= x < width ==> map_letter(#[trigger] input@[(#[trigger] tl[k]).0 + x]),
            forall|i: int|
                0 <= i < nodes.len() ==> {
                    let n = #[trigger] nodes@[i];
                    &&& n.x + n.y * width == i
                    &&& n.x < width
                    &&& n.y < y
                    &&& n.c == input@[tl[n.y as int].0 + n.x]
                    &&& n.height == height_of(n.c)
                },
        decreases height - y,
    {
        let (start, len) = lines[y];
        proof {
            assert(tl[y as int] == (start as int, len as int));
        }
        if len != width {
            proof {
                assert(!map_text_ok(input@));
            }
            return None;
        }
        let mut x: usize = 0;
        while x < width
            invariant
                span_view(lines@) == tl,
                tl == text_lines(input@),
                height == lines.len(),
                width == tl[0].1,
                width > 0,
                y < height,
                tl[y as int] == (start as int, len as int),
                len == width,
                start + len <= input.len(),
                x <= width,
                nodes.len() == y * width + x,
                forall|k: int| 0 <= k <= y ==> (#[trigger] tl[k]).1 == width,
                forall|k: int, xx: int| 0 <= k < y && 0 <= xx < width ==> map_letter(#[trigger] input@[(#[trigger] tl[k]).0 + xx]),
                forall|xx: int| 0 <= xx < x ==> map_letter(#[trigger] input@[start + xx]),
                forall|i: int|
                    0 <= i < nodes.len() ==> {
                        let n = #[trigger] nodes@[i];
                        &&& n.x + n.y * width == i
                        &&& n.x < width
                        &&& n.y <= y
                        &&& n.c == input@[tl[n.y as int].0 + n.x]
                        &&& n.height == height_of(n.c)
                    },
            decreases width - x,
        {
            let c = input[start + x];
            if !(c == 83 || c == 69 || (c >= 97 && c <= 122)) {
                proof {
                    assert(!map_letter(input@[tl[y as int].0 + x]));
                }
                return None;
            }
            let node = Node::new(c, x, y);
            let ghost before = nodes@;
            nodes.push(node);
            proof {
                assert(nodes@[nodes.len() - 1] == node);
                assert(forall|i: int| 0 <= i < before.len() ==> nodes@[i] == before[i]);
            }
            x += 1;
        }
        proof {
            assert((y + 1) * width == y * width + width) by (nonlinear_arith);
            assert forall|k: int, xx: int| 0 <= k < y + 1 && 0 <= xx < width implies map_letter(
                #[trigger] input@[(#[trigger] tl[k]).0 + xx],
            ) by {
                if k == y {
                    assert(input@[start + xx] == input@[tl[k].0 + xx]);
                }
            }
        }
        y += 1;
    }
    proof {
        assert(nodes.len() == width * height) by (nonlinear_arith)
            requires
                nodes.len() == y * width,
                y == height;
    }
    Some(Graph { nodes, width, height })
}

} // verus!
