use pathfind::a_star::{a_star_offline, trace_prev, AStarState, ZeroHeuristic};
use pathfind::frontier::Frontier;
use pathfind::graph::{DirectedEdge, Graph, SimpleGraph, WithCost};
use pathfind::grid_world::{torus_step, Direction, Vec2D};
use pathfind::Color;

fn triangle_graph() -> SimpleGraph {
    // nodes 0 (A), 1 (B), 2 (C), 3 (D, isolated)
    let mut g = SimpleGraph::new(4);
    assert!(g.add_edge(0, 1, 1));
    assert!(g.add_edge(0, 2, 4));
    assert!(g.add_edge(1, 2, 1));
    g
}

#[test]
fn concrete_scenario_prefers_cheaper_detour() {
    let g = triangle_graph();
    let path = a_star_offline(&g, 0, 2, &ZeroHeuristic {});
    assert_eq!(path, Some(vec![0, 1, 2]));
}

#[test]
fn no_path_scenario_returns_none() {
    let g = triangle_graph();
    assert_eq!(a_star_offline(&g, 0, 3, &ZeroHeuristic {}), None);
    // and nothing leads back from the triangle's sink to its source
    assert_eq!(a_star_offline(&g, 2, 0, &ZeroHeuristic {}), None);
}

#[test]
fn trivial_case_start_equals_goal() {
    let g = triangle_graph();
    let path = a_star_offline(&g, 1, 1, &ZeroHeuristic {});
    assert_eq!(path, Some(vec![1]));
}

#[test]
fn repeated_runs_are_identical() {
    let g = triangle_graph();
    let first = a_star_offline(&g, 0, 2, &ZeroHeuristic {});
    for _ in 0..10 {
        assert_eq!(a_star_offline(&g, 0, 2, &ZeroHeuristic {}), first);
    }
}

#[test]
fn decrease_key_reroutes_through_cheaper_path() {
    let mut g = SimpleGraph::new(4);
    assert!(g.add_edge(0, 1, 5));
    assert!(g.add_edge(0, 2, 1));
    assert!(g.add_edge(2, 1, 1));
    assert!(g.add_edge(1, 3, 1));
    let path = a_star_offline(&g, 0, 3, &ZeroHeuristic {});
    assert_eq!(path, Some(vec![0, 2, 1, 3]));
}

#[test]
fn longer_chain_of_nodes() {
    let mut g = SimpleGraph::new(6);
    for u in 0..5 {
        assert!(g.add_edge(u, u + 1, 2));
    }
    // an expensive shortcut must lose against the chain
    assert!(g.add_edge(0, 5, 11));
    let path = a_star_offline(&g, 0, 5, &ZeroHeuristic {});
    assert_eq!(path, Some(vec![0, 1, 2, 3, 4, 5]));
}

#[test]
fn add_edge_rejects_invalid_endpoints() {
    let mut g = SimpleGraph::new(2);
    assert!(!g.add_edge(0, 2, 1));
    assert!(!g.add_edge(2, 0, 1));
    assert!(g.add_edge(0, 1, 1));
}

#[test]
fn graph_trait_reports_nodes_and_edges() {
    let g = triangle_graph();
    assert_eq!(g.nodes(), vec![0, 1, 2, 3]);
    let out = Graph::edges(&g, 0);
    assert_eq!(out.len(), 2);
    assert_eq!(out[0].from_node(), 0);
    assert_eq!(out[0].to_node(), 1);
    assert_eq!(out[0].cost(), 1);
    assert_eq!(out[1].to_node(), 2);
    assert_eq!(out[1].cost(), 4);
    assert_eq!(Graph::edges(&g, 3).len(), 0);
}

#[test]
fn trace_prev_walks_back_and_reverses() {
    let prev: Vec<Option<usize>> = vec![None, Some(0), Some(1)];
    assert_eq!(trace_prev(&prev, 2), vec![0, 1, 2]);
    assert_eq!(trace_prev(&prev, 1), vec![0, 1]);
    assert_eq!(trace_prev(&prev, 0), vec![0]);
}

#[test]
fn frontier_keeps_best_priority_and_pops_minimum() {
    let mut fr = Frontier::new();
    let (newly, discarded) = fr.insert_or_improve(7, 5, 5);
    assert!(newly);
    assert_eq!(discarded, None);
    // a better pair replaces the old one
    let (newly, discarded) = fr.insert_or_improve(7, 3, 3);
    assert!(newly);
    assert_eq!(discarded, Some((5, 5)));
    // a worse pair is discarded
    let (newly, discarded) = fr.insert_or_improve(7, 9, 9);
    assert!(!newly);
    assert_eq!(discarded, Some((9, 9)));
    fr.insert_or_improve(4, 3, 2);
    // node 4 wins: equal f, smaller g
    assert_eq!(fr.pop_min(), Some((4, 3, 2)));
    assert_eq!(fr.pop_min(), Some((7, 3, 3)));
    assert_eq!(fr.pop_min(), None);
}

#[test]
fn direction_vectors() {
    assert_eq!(Vec2D::from(Direction::Up), Vec2D { x: 0, y: 1 });
    assert_eq!(Vec2D::from(Direction::Down), Vec2D { x: 0, y: -1 });
    assert_eq!(Vec2D::from(Direction::Left), Vec2D { x: -1, y: 0 });
    assert_eq!(Vec2D::from(Direction::Right), Vec2D { x: 1, y: 0 });
}

#[test]
fn torus_step_wraps_both_ways() {
    assert_eq!(torus_step(0, 1, 3), 1);
    assert_eq!(torus_step(2, 1, 3), 0);
    assert_eq!(torus_step(0, -1, 3), 2);
    assert_eq!(torus_step(1, -1, 3), 0);
    assert_eq!(torus_step(1, 0, 3), 1);
}

#[test]
fn default_color_is_black() {
    let c = Color::default();
    assert_eq!(c, Color { r: 0, g: 0, b: 0 });
}

#[test]
fn astar_state_placeholder_exists() {
    let _ = AStarState {};
}
