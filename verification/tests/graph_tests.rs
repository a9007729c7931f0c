//! The graph store and spatial index: incidence, getters, collision
//! queries, and the lane bookkeeping.

use rusty_roads::chunk::WorldConfig;
use rusty_roads::graph::{Node, NodeManager};
use rusty_roads::ids::NodeId;
use rusty_roads::math::Vec2I;
use rusty_roads::input::KeyBinding;
use rusty_roads::traffic::{
    LaneCrossing, LaneDefinition, LaneDirection, LaneFlow, LaneSeparator, LaneType,
    LaneTypeManager, LaneWidth,
};

fn empty_world() -> NodeManager {
    NodeManager::with_config(WorldConfig::standard())
}

#[test]
fn ids_are_sequential_and_nonzero() {
    let mut m = empty_world();
    let a = m.add_node(Vec2I::new(0, 0));
    let b = m.add_node(Vec2I::new(50, 50));
    let c = m.add_node(Vec2I::new(-100, 30));
    assert_eq!(a.0, 1);
    assert_eq!(b.0, 2);
    assert_eq!(c.0, 3);
    let e1 = m.make_edge(a, b, 1, 1);
    let e2 = m.make_edge(b, c, 1, 1);
    assert_eq!(e1.0, 1);
    assert_eq!(e2.0, 2);
}

#[test]
fn getters_return_what_was_stored() {
    let mut m = empty_world();
    let a = m.add_node(Vec2I::new(12, -7));
    let b = m.add_node(Vec2I::new(900, 900));
    let e = m.make_edge(a, b, 3, 4);
    assert_eq!(m.get_node_pos(a), Some(Vec2I::new(12, -7)));
    assert_eq!(m.get_node(b).unwrap().get_id(), b);
    let edge = m.get_edge(e).unwrap();
    assert_eq!(edge.get_nodes(), (a, b));
    assert_eq!(edge.get_speed(), 3);
    assert_eq!(edge.get_size(), 4);
    assert_eq!(edge.get_other_node(a), b);
    assert_eq!(edge.get_other_node(b), a);
}

#[test]
fn unknown_ids_are_not_found() {
    let mut m = empty_world();
    let a = m.add_node(Vec2I::new(0, 0));
    assert!(m.get_node(NodeId(0)).is_none());
    assert!(m.get_node(NodeId(2)).is_none());
    assert!(m.get_node_pos(NodeId(77)).is_none());
    assert!(m.get_edge(rusty_roads::ids::EdgeId(1)).is_none());
    assert!(m.get_node(a).is_some());
}

#[test]
fn incidence_lists_both_endpoints_once() {
    // The incidence invariant, on a concrete build: every edge appears in
    // exactly its two endpoints' lists, exactly once each.
    let mut m = empty_world();
    let a = m.add_node(Vec2I::new(0, 0));
    let b = m.add_node(Vec2I::new(100, 0));
    let c = m.add_node(Vec2I::new(0, 100));
    let ab = m.make_edge(a, b, 1, 1);
    let bc = m.make_edge(b, c, 1, 1);
    let ca = m.make_edge(c, a, 1, 1);
    for node in m.get_nodes() {
        for (edge_id, count_expected) in [(ab, 1usize), (bc, 1), (ca, 1)] {
            let edge = m.get_edge(edge_id).unwrap();
            let (x, y) = edge.get_nodes();
            let is_endpoint = node.get_id() == x || node.get_id() == y;
            let count = node.get_edges().iter().filter(|e| **e == edge_id).count();
            assert_eq!(count, if is_endpoint { count_expected } else { 0 });
        }
    }
    assert_eq!(m.get_node(a).unwrap().get_edges().len(), 2);
    assert_eq!(m.get_node(b).unwrap().get_edges().len(), 2);
    assert_eq!(m.get_node(c).unwrap().get_edges().len(), 2);
}

#[test]
fn neighbours_and_find_edge() {
    let mut m = empty_world();
    let a = m.add_node(Vec2I::new(0, 0));
    let b = m.add_node(Vec2I::new(100, 0));
    let c = m.add_node(Vec2I::new(0, 100));
    let ab = m.make_edge(a, b, 1, 1);
    let ac = m.make_edge(a, c, 1, 1);
    let node_a = m.get_node(a).unwrap();
    let mut nbs = Vec::new();
    node_a.get_neighbours(&m, &mut nbs);
    assert_eq!(nbs, vec![(b, ab), (c, ac)]);
    assert_eq!(node_a.find_edge(b, &m), Some(ab));
    assert_eq!(node_a.find_edge(c, &m), Some(ac));
    assert_eq!(m.get_node(b).unwrap().find_edge(c, &m), None);
}

#[test]
fn node_collision_hits_within_radius_only() {
    let mut m = empty_world();
    let a = m.add_node(Vec2I::new(0, 0));
    assert_eq!(m.try_node_collision(Vec2I::new(3, 4)), Some(a));
    // Exactly on the radius: distance 10.
    assert_eq!(m.try_node_collision(Vec2I::new(6, 8)), Some(a));
    // Just outside.
    assert_eq!(m.try_node_collision(Vec2I::new(11, 0)), None);
    assert_eq!(m.try_node_collision(Vec2I::new(8, 8)), None);
    // The last query scanned the chunk holding the node, so the node was
    // examined and rejected by distance.
    assert_eq!(m.tested_nodes(), &vec![a]);
}

#[test]
fn node_collision_across_chunk_boundary() {
    // A node sitting just past a chunk boundary must still be found from
    // the other side of the boundary.
    let mut m = empty_world();
    let a = m.add_node(Vec2I::new(101, 50));
    assert_eq!(m.try_node_collision(Vec2I::new(98, 50)), Some(a));
    let b = m.add_node(Vec2I::new(-3, -3));
    assert_eq!(m.try_node_collision(Vec2I::new(2, 2)), Some(b));
    assert!(m.tested_nodes().contains(&b));
}

#[test]
fn node_collision_never_misses_nearby_nodes() {
    // Pseudo-random placements: whenever brute force finds a node within
    // the radius, the indexed query must find one too, and anything it
    // returns must really be within the radius.
    let mut m = empty_world();
    let mut seed: u64 = 0x9e37_79b9_7f4a_7c15;
    let mut positions = Vec::new();
    for _ in 0..120 {
        seed = seed.wrapping_mul(6364136223846793005).wrapping_add(1442695040888963407);
        let x = ((seed >> 16) % 2001) as i64 - 1000;
        let y = ((seed >> 40) % 2001) as i64 - 1000;
        let p = Vec2I::new(x, y);
        m.add_node(p);
        positions.push(p);
    }
    for _ in 0..300 {
        seed = seed.wrapping_mul(6364136223846793005).wrapping_add(1442695040888963407);
        let qx = ((seed >> 16) % 2101) as i64 - 1050;
        let qy = ((seed >> 40) % 2101) as i64 - 1050;
        let q = Vec2I::new(qx, qy);
        let brute = positions
            .iter()
            .any(|p| (p.x - qx) * (p.x - qx) + (p.y - qy) * (p.y - qy) <= 100);
        let got = m.try_node_collision(q);
        assert_eq!(got.is_some(), brute);
        if let Some(id) = got {
            let p = m.get_node_pos(id).unwrap();
            assert!((p.x - qx) * (p.x - qx) + (p.y - qy) * (p.y - qy) <= 100);
        }
    }
}

#[test]
fn edge_collision_near_and_far() {
    let mut m = empty_world();
    let a = m.add_node(Vec2I::new(0, 0));
    let b = m.add_node(Vec2I::new(400, 0));
    let e = m.make_edge(a, b, 1, 1);
    // 5 units above the middle of the segment: exactly the acceptance
    // distance (half the node radius).
    assert_eq!(m.try_edge_collision(Vec2I::new(200, 5)), Some(e));
    assert_eq!(m.try_edge_collision(Vec2I::new(200, 0)), Some(e));
    assert_eq!(m.try_edge_collision(Vec2I::new(200, 6)), None);
    assert_eq!(m.try_edge_collision(Vec2I::new(200, 80)), None);
}

#[test]
fn out_of_world_positions_saturate() {
    let mut m = empty_world();
    // The standard world is 100000 units wide, so components saturate at
    // 50000.
    let a = m.add_node(Vec2I::new(10_000_000, -10_000_000));
    assert_eq!(m.get_node_pos(a), Some(Vec2I::new(50_000, -50_000)));
    // A far query saturates to the same corner and finds the node there.
    assert_eq!(m.try_node_collision(Vec2I::new(9_999_999, -9_999_999)), Some(a));
    let b = m.add_node(Vec2I::new(50_000, -49_000));
    let e = m.make_edge(a, b, 1, 1);
    assert_eq!(m.try_edge_collision(Vec2I::new(8_888_888, -8_888_888)), Some(e));
}

#[test]
fn standard_grid_builds() {
    let m = NodeManager::new();
    assert_eq!(m.get_nodes().len(), 121);
    assert_eq!(m.get_edges().len(), 220);
    // Every node of the interior has degree 4.
    let mut degree4 = 0;
    for node in m.get_nodes() {
        if node.get_edges().len() == 4 {
            degree4 += 1;
        }
    }
    assert_eq!(degree4, 81);
    assert_eq!(Node::radius(), 10);
}

#[test]
fn lane_definitions_and_types() {
    let def = LaneDefinition::new(3);
    assert_eq!(def.get_size(), 3);
    let wide = LaneDefinition::new(40);
    assert_eq!(wide.get_size(), 40);
    assert_eq!(LaneType::Grass.width(), LaneWidth::Half);
    assert_eq!(LaneType::BusForward.width(), LaneWidth::Full);
    assert_eq!(LaneType::Grass.direction(), None);
    assert_eq!(LaneType::NormalReverse.direction(), Some(LaneDirection::Reverse));
    assert_eq!(LaneType::Sidewalk.name_internal(), "Sidewalk");
    let _registry = LaneTypeManager::new();
    assert_eq!(
        LaneType::NormalForward.pre_separator(LaneType::NormalReverse, false),
        LaneSeparator::SeparationStrip(LaneFlow::Divergent, LaneCrossing::DoubleContinuous)
    );
    assert_eq!(
        LaneType::Grass.pre_separator(LaneType::Sidewalk, false),
        LaneSeparator::Nothing
    );
    assert_eq!(
        LaneType::Sidewalk.pre_separator(LaneType::BusReverse, true),
        LaneSeparator::Curb
    );
}

#[test]
fn key_bindings_count_clicks() {
    let mut kb = KeyBinding::new();
    assert!(!kb.is_down());
    assert!(!kb.consume_click());
    kb.handle_down();
    kb.handle_repeat();
    assert!(kb.is_down());
    assert!(kb.consume_click());
    assert!(kb.consume_click());
    assert!(!kb.consume_click());
    kb.handle_down();
    kb.handle_down();
    assert!(kb.consume_all_clicks());
    assert!(!kb.consume_all_clicks());
    kb.handle_release();
    assert!(!kb.is_down());
}
