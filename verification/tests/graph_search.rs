use advent_lib::graph_search::{a_star_search, WeightedGraph};
use advent_lib::graph_utils::dijkstra_explore;

fn graph(edges: Vec<Vec<(usize, u64)>>, goals: &[usize]) -> WeightedGraph {
    let flags = (0..edges.len()).map(|v| goals.contains(&v)).collect();
    WeightedGraph::new(edges, flags).unwrap()
}

#[test]
fn cheapest_path_is_found() {
    // 0 -> 1 (1), 1 -> 3 (10), 0 -> 2 (2), 2 -> 3 (2)
    let g = graph(vec![vec![(1, 1), (2, 2)], vec![(3, 10)], vec![(3, 2)], vec![]], &[3]);
    assert_eq!(a_star_search(&g, 0), Some(vec![3, 2, 0]));
}

#[test]
fn start_may_be_the_goal() {
    let g = graph(vec![vec![(1, 1)], vec![]], &[0]);
    assert_eq!(a_star_search(&g, 0), Some(vec![0]));
}

#[test]
fn unreachable_goal_gives_none() {
    let g = graph(vec![vec![(1, 1)], vec![(0, 1)], vec![]], &[2]);
    assert_eq!(a_star_search(&g, 0), None);
}

#[test]
fn cheaper_route_reopens_a_node() {
    // 1 is first reached at cost 5 and then at cost 2 through 2.
    let g = graph(vec![vec![(1, 5), (2, 1)], vec![(3, 1)], vec![(1, 1)], vec![]], &[3]);
    assert_eq!(a_star_search(&g, 0), Some(vec![3, 1, 2, 0]));
}

#[test]
fn weighted_graph_checks_its_edges() {
    assert!(WeightedGraph::new(vec![vec![(2, 1)], vec![]], vec![false, false]).is_none());
    assert!(WeightedGraph::new(vec![vec![(1, 1)], vec![]], vec![false]).is_none());
}

#[test]
fn dijkstra_finds_cheapest_costs() {
    let edges = vec![vec![(1, 4), (2, 1)], vec![(3, 1)], vec![(1, 2), (3, 5)], vec![], vec![(0, 1)]];
    let graph = WeightedGraph::new(edges, vec![false; 5]).unwrap();
    let result = dijkstra_explore(&graph, 0);
    assert_eq!(result.scores, vec![Some(0), Some(3), Some(1), Some(4), None]);
    assert_eq!(result.predecessor, vec![None, Some(2), Some(0), Some(1), None]);
}

#[test]
fn dijkstra_holds_costs_at_the_maximum() {
    let edges = vec![vec![(1, u64::MAX)], vec![(2, 5)], vec![]];
    let graph = WeightedGraph::new(edges, vec![false; 3]).unwrap();
    let result = dijkstra_explore(&graph, 0);
    assert_eq!(result.scores, vec![Some(0), Some(u64::MAX), Some(u64::MAX)]);
}
