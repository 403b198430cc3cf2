//! Search graphs that know where their search starts.
use crate::graph_search::{cheapest_back, consistent, is_path_back, no_goal_reachable, SearchGraphWithGoal};
use vstd::prelude::*;

verus! {

/// A graph with goals that also names the node a search starts from.
pub trait SearchGraph: SearchGraphWithGoal {
    /// The node the search starts from.
    spec fn spec_start_node(&self) -> usize;

    fn start_node(&self) -> (r: usize)
        ensures
            r == self.spec_start_node(),
            r < self.spec_node_count(),
    ;
}

/// A* search from the graph's start node: the path back from the first goal
/// taken, the cheapest there is when the estimate is consistent, or `None`
/// when no goal can be reached.
pub fn a_star_search<G: SearchGraph>(graph: &G) -> (r: Option<Vec<usize>>)
    ensures
        r matches Some(path) ==> is_path_back(graph, graph.spec_start_node(), path@),
        r is None ==> no_goal_reachable(graph, graph.spec_start_node()),
        consistent(graph) ==> (r matches Some(path) ==> cheapest_back(graph, graph.spec_start_node(), path@)),
{
    let start = graph.start_node();
    crate::graph_search::a_star_search(graph, start)
}

} // verus!
