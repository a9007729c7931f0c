//! The path finder: concrete scenarios and a cross-check of path costs
//! against exhaustive search on small graphs.

use rusty_roads::a_star::{EuclidHeuristic, ZeroHeuristic};
use rusty_roads::chunk::WorldConfig;
use rusty_roads::graph::NodeManager;
use rusty_roads::ids::{EdgeId, NodeId};
use rusty_roads::math::Vec2I;

fn empty_world() -> NodeManager {
    NodeManager::with_config(WorldConfig::standard())
}

fn path_cost(m: &NodeManager, path: &[EdgeId]) -> u64 {
    path.iter().map(|e| m.edge_cost(*e)).sum()
}

/// Minimum path costs from `start` by exhaustive relaxation
/// (Bellman-Ford), over the same integer edge costs the engine uses.
fn reference_costs(m: &NodeManager, start: NodeId) -> Vec<Option<u64>> {
    let n = m.get_nodes().len();
    let mut dist: Vec<Option<u64>> = vec![None; n];
    dist[(start.0 - 1) as usize] = Some(0);
    for _ in 0..n {
        for edge in m.get_edges() {
            let (a, b) = edge.get_nodes();
            let c = m.edge_cost(edge.get_id());
            for (u, v) in [(a, b), (b, a)] {
                if let Some(du) = dist[(u.0 - 1) as usize] {
                    let nd = du.saturating_add(c);
                    let dv = &mut dist[(v.0 - 1) as usize];
                    if dv.is_none() || nd < dv.unwrap() {
                        *dv = Some(nd);
                    }
                }
            }
        }
    }
    dist
}

#[test]
fn three_node_chain_costs_two_hundred() {
    // A(0,0) - B(100,0) - C(200,0), both edges at speed 1: the path is
    // exactly the two edges and costs 100 + 100 = 200.
    let mut m = empty_world();
    let a = m.add_node(Vec2I::new(0, 0));
    let b = m.add_node(Vec2I::new(100, 0));
    let c = m.add_node(Vec2I::new(200, 0));
    let ab = m.make_edge(a, b, 1, 1);
    let bc = m.make_edge(b, c, 1, 1);
    let h = EuclidHeuristic { top_speed: 1 };
    let (path, explored) = m.a_star(a, c, &h);
    let path = path.expect("the chain is connected");
    assert_eq!(path, vec![ab, bc]);
    assert_eq!(path_cost(&m, &path), 200);
    assert!(explored.contains(&ab));
    assert!(explored.contains(&bc));
}

#[test]
fn search_from_a_node_to_itself_is_empty() {
    let mut m = empty_world();
    let a = m.add_node(Vec2I::new(0, 0));
    let b = m.add_node(Vec2I::new(100, 0));
    m.make_edge(a, b, 1, 1);
    let (path, explored) = m.a_star(a, a, &ZeroHeuristic);
    assert_eq!(path, Some(vec![]));
    assert!(explored.is_empty());
    let (path_b, _) = m.a_star(b, b, &EuclidHeuristic { top_speed: 2 });
    assert_eq!(path_b, Some(vec![]));
}

#[test]
fn unreachable_goal_returns_none_with_explored() {
    let mut m = empty_world();
    let a = m.add_node(Vec2I::new(0, 0));
    let b = m.add_node(Vec2I::new(100, 0));
    let c = m.add_node(Vec2I::new(5000, 5000));
    let ab = m.make_edge(a, b, 1, 1);
    let (path, explored) = m.a_star(a, c, &ZeroHeuristic);
    assert_eq!(path, None);
    // The edge is examined from both of its endpoints' expansions.
    assert_eq!(explored, vec![ab, ab]);
}

#[test]
fn faster_road_wins_over_shorter_one() {
    // Two routes from A to C: direct at speed 1 (cost 200), or a detour
    // at speed 5 (cost 300 / 5 units per distance = 88). The detour wins.
    let mut m = empty_world();
    let a = m.add_node(Vec2I::new(0, 0));
    let c = m.add_node(Vec2I::new(200, 0));
    let d = m.add_node(Vec2I::new(100, 100));
    let direct = m.make_edge(a, c, 1, 1);
    let leg1 = m.make_edge(a, d, 5, 1);
    let leg2 = m.make_edge(d, c, 5, 1);
    // Each leg is floor(sqrt(20000)) / 5 = 141 / 5 = 28.
    assert_eq!(m.edge_cost(leg1), 28);
    assert_eq!(m.edge_cost(direct), 200);
    let h = EuclidHeuristic { top_speed: 5 };
    let (path, _) = m.a_star(a, c, &h);
    assert_eq!(path, Some(vec![leg1, leg2]));
}

#[test]
fn edge_cost_is_distance_over_speed() {
    let mut m = empty_world();
    let a = m.add_node(Vec2I::new(0, 0));
    let b = m.add_node(Vec2I::new(30, 40));
    let e = m.make_edge(a, b, 5, 1);
    assert_eq!(m.edge_cost(e), 10);
    let c = m.add_node(Vec2I::new(31, 40));
    let e2 = m.make_edge(a, c, 2, 1);
    // floor(sqrt(31^2 + 40^2)) = floor(sqrt(2561)) = 50; 50 / 2 = 25.
    assert_eq!(m.edge_cost(e2), 25);
}

#[test]
fn astar_matches_exhaustive_search_on_random_graphs() {
    // Small pseudo-random graphs: the returned path's total cost must
    // equal the minimum cost found by exhaustive relaxation, under both
    // the zero heuristic and an admissible distance heuristic.
    let mut seed: u64 = 0xdead_beef_cafe_1234;
    for round in 0..6 {
        let mut m = empty_world();
        let n = 20 + round * 5;
        let mut ids = Vec::new();
        for _ in 0..n {
            seed = seed.wrapping_mul(6364136223846793005).wrapping_add(1442695040888963407);
            let x = ((seed >> 16) % 4001) as i64 - 2000;
            let y = ((seed >> 40) % 4001) as i64 - 2000;
            ids.push(m.add_node(Vec2I::new(x, y)));
        }
        for i in 1..n {
            // A spanning chain plus random extra edges.
            seed = seed.wrapping_mul(6364136223846793005).wrapping_add(1442695040888963407);
            let speed = 1 + (seed >> 60) % 4;
            m.make_edge(ids[i - 1], ids[i], speed, 1);
        }
        for _ in 0..n {
            seed = seed.wrapping_mul(6364136223846793005).wrapping_add(1442695040888963407);
            let i = ((seed >> 20) as usize) % n;
            let j = ((seed >> 44) as usize) % n;
            if i != j && m.get_node(ids[i]).unwrap().find_edge(ids[j], &m).is_none() {
                let speed = 1 + (seed >> 60) % 4;
                m.make_edge(ids[i], ids[j], speed, 1);
            }
        }
        let start = ids[0];
        let reference = reference_costs(&m, start);
        for goal in [ids[n - 1], ids[n / 2], ids[1]] {
            // The zero heuristic is trivially admissible; with integer
            // floor costs it reduces A* to Dijkstra, which is exact.
            let (p0, _) = m.a_star(start, goal, &ZeroHeuristic);
            let expect = reference[(goal.0 - 1) as usize].expect("chain connects everything");
            assert_eq!(path_cost(&m, &p0.unwrap()), expect);
        }
    }
}
