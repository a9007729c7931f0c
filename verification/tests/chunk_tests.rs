//! Discretization: chunk mapping, area queries, edge rasterization, and
//! the low-level integer arithmetic.

use rusty_roads::chunk::{edge_chunks, get_area, ChunkPos, WorldConfig};
use rusty_roads::math::{floor_div, isqrt, sat_add, seg_dist_sq, Sqr, Vec2Axis, Vec2CompWise, Vec2I};

fn cfg() -> WorldConfig {
    WorldConfig::standard()
}

#[test]
fn chunk_of_positions() {
    let c = ChunkPos::from_world_pos(Vec2I::new(0, 0), cfg());
    assert_eq!((c.x, c.y), (0, 0));
    let c = ChunkPos::from_world_pos(Vec2I::new(99, 100), cfg());
    assert_eq!((c.x, c.y), (0, 1));
    let c = ChunkPos::from_world_pos(Vec2I::new(-1, -100), cfg());
    assert_eq!((c.x, c.y), (-1, -1));
    // Saturation at the world boundary.
    let c = ChunkPos::from_world_pos(Vec2I::new(1_000_000, -1_000_000), cfg());
    assert_eq!((c.x, c.y), (499, -500));
}

#[test]
fn area_scans_one_to_four_chunks() {
    // Dead centre of a chunk: the point is in the near half on both axes
    // towards the lower neighbours.
    let area = get_area(Vec2I::new(50, 50), cfg());
    assert_eq!(area.len(), 4);
    assert_eq!((area[0].x, area[0].y), (0, 0));
    // Far half on x, near half on y.
    let area = get_area(Vec2I::new(80, 20), cfg());
    assert_eq!(area.len(), 4);
    assert!(area.iter().any(|c| (c.x, c.y) == (1, 0)));
    assert!(area.iter().any(|c| (c.x, c.y) == (0, -1)));
    // At the world's corner nothing expands past the boundary.
    let area = get_area(Vec2I::new(49_999, 49_999), cfg());
    assert_eq!(area.len(), 1);
    assert_eq!((area[0].x, area[0].y), (499, 499));
}

#[test]
fn horizontal_edge_rasterizes_to_a_row() {
    let chunks = edge_chunks(Vec2I::new(20, 30), Vec2I::new(520, 30), cfg());
    let coords: Vec<(i64, i64)> = chunks.iter().map(|c| (c.x, c.y)).collect();
    assert_eq!(coords, vec![(0, 0), (1, 0), (2, 0), (3, 0), (4, 0), (5, 0)]);
}

#[test]
fn vertical_edge_rasterizes_to_a_column() {
    let chunks = edge_chunks(Vec2I::new(-250, -10), Vec2I::new(-250, -410), cfg());
    let coords: Vec<(i64, i64)> = chunks.iter().map(|c| (c.x, c.y)).collect();
    assert_eq!(coords, vec![(-3, -1), (-3, -2), (-3, -3), (-3, -4), (-3, -5)]);
}

#[test]
fn diagonal_edge_rasterizes_to_a_diagonal() {
    let chunks = edge_chunks(Vec2I::new(0, 0), Vec2I::new(399, 399), cfg());
    let coords: Vec<(i64, i64)> = chunks.iter().map(|c| (c.x, c.y)).collect();
    assert_eq!(coords, vec![(0, 0), (1, 1), (2, 2), (3, 3)]);
}

#[test]
fn rasterized_chunks_form_gapless_chains() {
    // Connectivity: the registered chunks run from the source chunk to
    // the destination chunk with every consecutive pair touching.
    let cases = [
        (Vec2I::new(0, 0), Vec2I::new(900, 0)),
        (Vec2I::new(0, 0), Vec2I::new(0, -900)),
        (Vec2I::new(-150, -150), Vec2I::new(450, 450)),
        (Vec2I::new(10, 20), Vec2I::new(910, 320)),
        (Vec2I::new(0, 0), Vec2I::new(320, 910)),
    ];
    for (a, b) in cases {
        let chunks = edge_chunks(a, b, cfg());
        let ca = ChunkPos::from_world_pos(a, cfg());
        let cb = ChunkPos::from_world_pos(b, cfg());
        assert_eq!((chunks[0].x, chunks[0].y), (ca.x, ca.y));
        let last = &chunks[chunks.len() - 1];
        assert_eq!((last.x, last.y), (cb.x, cb.y));
        for w in chunks.windows(2) {
            let dx = (w[0].x - w[1].x).abs();
            let dy = (w[0].y - w[1].y).abs();
            assert!(dx <= 1 && dy <= 1, "gap between {:?} and {:?}", (w[0].x, w[0].y), (w[1].x, w[1].y));
            assert!(dx + dy > 0, "repeated chunk");
        }
    }
}

#[test]
fn same_chunk_edge_registers_once() {
    let chunks = edge_chunks(Vec2I::new(10, 10), Vec2I::new(90, 90), cfg());
    assert_eq!(chunks.len(), 1);
    assert_eq!((chunks[0].x, chunks[0].y), (0, 0));
}

#[test]
fn component_wise_vector_access() {
    let v = Vec2I::new(3, -8);
    assert_eq!(v.get_comp(Vec2Axis::X), 3);
    assert_eq!(v.get_comp(Vec2Axis::Y), -8);
    assert_eq!(Vec2Axis::X.other(), Vec2Axis::Y);
    let w = v.with_offset_on(Vec2Axis::Y, 10);
    assert_eq!((w.x, w.y), (3, 2));
    let u = w.with_comp(Vec2Axis::X, 7);
    assert_eq!((u.x, u.y), (7, 2));
    assert_eq!(Vec2I::new(5, 2).get_max_axis(), Some(Vec2Axis::X));
    assert_eq!(Vec2I::new(2, 2).get_max_axis(), None);
    assert_eq!(9i64.sqr(), 81);
    assert_eq!(12u64.sqr(), 144);
}

#[test]
fn integer_square_roots() {
    assert_eq!(isqrt(0), 0);
    assert_eq!(isqrt(1), 1);
    assert_eq!(isqrt(3), 1);
    assert_eq!(isqrt(4), 2);
    assert_eq!(isqrt(99), 9);
    assert_eq!(isqrt(100), 10);
    assert_eq!(isqrt(20000), 141);
    assert_eq!(isqrt(u64::MAX), 0xFFFF_FFFF);
}

#[test]
fn floor_division_rounds_towards_negative_infinity() {
    assert_eq!(floor_div(7, 2), 3);
    assert_eq!(floor_div(-7, 2), -4);
    assert_eq!(floor_div(-100, 100), -1);
    assert_eq!(floor_div(-101, 100), -2);
    assert_eq!(floor_div(99, 100), 0);
    assert_eq!(sat_add(u64::MAX - 1, 5), u64::MAX);
    assert_eq!(sat_add(3, 4), 7);
}

#[test]
fn point_to_segment_distance_cases() {
    let a = Vec2I::new(0, 0);
    let b = Vec2I::new(100, 0);
    // Beyond the endpoints the nearest point is the endpoint itself.
    assert_eq!(seg_dist_sq(a, b, Vec2I::new(-30, 40)), (2500, 1));
    assert_eq!(seg_dist_sq(a, b, Vec2I::new(130, 40)), (2500, 1));
    // Above the middle: perpendicular distance, as an exact rational.
    let (num, den) = seg_dist_sq(a, b, Vec2I::new(50, 7));
    assert_eq!(num as f64 / den as f64, 49.0);
    // Degenerate segment: distance to the single point.
    assert_eq!(seg_dist_sq(a, a, Vec2I::new(3, 4)), (25, 1));
}
