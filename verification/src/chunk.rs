//! Discretization of the world into chunks: the chunk coordinate of a
//! position, the small neighbourhood of chunks a point query must scan, and
//! the chain of chunks an edge's segment traverses.

use crate::math::{dist_sq, floor_div, floor_div_i128, Vec2Axis, Vec2CompWise, Vec2I};
use vstd::arithmetic::div_mod::{lemma_fundamental_div_mod, lemma_mod_bound};
use vstd::prelude::*;

verus! {

/// Interaction radius of a node, in world units.
pub const NODE_RADIUS: i64 = 10;

/// Half the node radius: the acceptance distance of edge collision
/// queries.
pub const NODE_HALF_RADIUS: i64 = 5;

/// The world: a square of chunks centred at the origin. Chunk coordinates
/// run from `-chunk_radius` to `chunk_radius - 1` on each axis, and a world
/// position component is meaningful between `-world_limit()` and
/// `world_limit()`.
#[derive(Copy, Clone, Eq, PartialEq, Structural, Debug)]
pub struct WorldConfig {
    pub chunk_size: i64,
    pub chunk_radius: i64,
}

impl WorldConfig {
    /// A configuration the arithmetic is safe for: chunks are wide enough
    /// that a node's interaction disc spans at most two chunks per axis,
    /// and the world is small enough that squared distances fit `i64`.
    pub open spec fn wf(self) -> bool {
        &&& 2 * NODE_RADIUS < self.chunk_size
        &&& 1 <= self.chunk_radius
        &&& self.chunk_size * self.chunk_radius <= 0x10_0000
    }

    /// Largest meaningful magnitude of a position component.
    pub open spec fn world_limit(self) -> int {
        self.chunk_size * self.chunk_radius
    }

    /// Smallest chunk coordinate.
    pub open spec fn min_comp(self) -> int {
        -self.chunk_radius
    }

    /// Largest chunk coordinate.
    pub open spec fn max_comp(self) -> int {
        self.chunk_radius - 1
    }

    pub fn new(chunk_size: i64, chunk_radius: i64) -> (r: WorldConfig)
        requires
            2 * NODE_RADIUS < chunk_size,
            1 <= chunk_radius,
            chunk_size * chunk_radius <= 0x10_0000,
        ensures
            r.wf(),
            r.chunk_size == chunk_size,
            r.chunk_radius == chunk_radius,
    {
        WorldConfig { chunk_size, chunk_radius }
    }

    /// The configuration the interactive tool uses: 100-unit chunks over a
    /// 100000-unit-wide world.
    pub fn standard() -> (r: WorldConfig)
        ensures
            r.wf(),
            r.chunk_size == 100,
            r.chunk_radius == 500,
    {
        WorldConfig { chunk_size: 100, chunk_radius: 500 }
    }

    /// Executable bound check for a position.
    pub fn pos_in_world(self, pos: Vec2I) -> (r: bool)
        requires
            self.wf(),
        ensures
            r == crate::math::comp_bounded(pos, self.world_limit()),
    {
        proof {
            assert(1 <= self.chunk_size * self.chunk_radius) by (nonlinear_arith)
                requires
                    1 <= self.chunk_size && 1 <= self.chunk_radius,
            ;
        }
        let limit = self.chunk_size * self.chunk_radius;
        -limit <= pos.x && pos.x <= limit && -limit <= pos.y && pos.y <= limit
    }
}

/// A world position with each component saturated at the world bound:
/// coordinates beyond the edge of the world are treated as lying on it.
pub open spec fn spec_clamp_world(pos: Vec2I, cfg: WorldConfig) -> Vec2I {
    Vec2I {
        x: clamp_s(pos.x as int, -cfg.world_limit(), cfg.world_limit()) as i64,
        y: clamp_s(pos.y as int, -cfg.world_limit(), cfg.world_limit()) as i64,
    }
}

/// Saturate a position at the world bound.
pub fn clamp_world(pos: Vec2I, cfg: WorldConfig) -> (r: Vec2I)
    requires
        cfg.wf(),
    ensures
        r == spec_clamp_world(pos, cfg),
        crate::math::comp_bounded(r, cfg.world_limit()),
        crate::math::comp_bounded(pos, cfg.world_limit()) ==> r == pos,
{
    proof {
        assert(1 <= cfg.chunk_size * cfg.chunk_radius) by (nonlinear_arith)
            requires
                1 <= cfg.chunk_size && 1 <= cfg.chunk_radius,
        ;
    }
    let limit = cfg.chunk_size * cfg.chunk_radius;
    Vec2I { x: clamp_i64(pos.x, -limit, limit), y: clamp_i64(pos.y, -limit, limit) }
}

/// Integer 2D coordinate of a chunk.
#[derive(Copy, Clone, Eq, PartialEq, Structural, Hash, Debug)]
pub struct ChunkPos {
    pub x: i64,
    pub y: i64,
}

/// `v`, pulled into `[lo, hi]`.
pub open spec fn clamp_s(v: int, lo: int, hi: int) -> int {
    if v < lo {
        lo
    } else if v > hi {
        hi
    } else {
        v
    }
}

pub fn clamp_i64(v: i64, lo: i64, hi: i64) -> (r: i64)
    requires
        lo <= hi,
    ensures
        r == clamp_s(v as int, lo as int, hi as int),
{
    if v < lo {
        lo
    } else if v > hi {
        hi
    } else {
        v
    }
}

/// Chunk coordinate of a position component: floor division by the chunk
/// size, saturated at the world boundary.
pub open spec fn chunk_comp(p: int, cfg: WorldConfig) -> int {
    clamp_s(p / (cfg.chunk_size as int), cfg.min_comp(), cfg.max_comp())
}

/// The home chunk of a position.
pub open spec fn spec_chunk_of(pos: Vec2I, cfg: WorldConfig) -> ChunkPos {
    ChunkPos { x: chunk_comp(pos.x as int, cfg) as i64, y: chunk_comp(pos.y as int, cfg) as i64 }
}

/// Whether a chunk coordinate lies within the world.
pub open spec fn in_chunk_bounds(c: ChunkPos, cfg: WorldConfig) -> bool {
    cfg.min_comp() <= c.x <= cfg.max_comp() && cfg.min_comp() <= c.y <= cfg.max_comp()
}

/// The floor-division result is the mathematical quotient.
proof fn lemma_floor_div_is_div(a: int, b: int, q: int)
    requires
        b >= 1,
        b * q <= a < b * (q + 1),
    ensures
        q == a / b,
{
    lemma_fundamental_div_mod(a, b);
    lemma_mod_bound(a, b);
    let d = a / b;
    let m = a % b;
    assert(q == d) by (nonlinear_arith)
        requires
            a == b * d + m,
            0 <= m < b,
            b * q <= a < b * (q + 1),
    ;
}

impl ChunkPos {
    /// The home chunk of a world position.
    pub fn from_world_pos(pos: Vec2I, cfg: WorldConfig) -> (c: ChunkPos)
        requires
            cfg.wf(),
        ensures
            c == spec_chunk_of(pos, cfg),
            in_chunk_bounds(c, cfg),
    {
        let qx = floor_div(pos.x, cfg.chunk_size);
        let qy = floor_div(pos.y, cfg.chunk_size);
        proof {
            lemma_floor_div_is_div(pos.x as int, cfg.chunk_size as int, qx as int);
            lemma_floor_div_is_div(pos.y as int, cfg.chunk_size as int, qy as int);
        }
        ChunkPos {
            x: clamp_i64(qx, -cfg.chunk_radius, cfg.chunk_radius - 1),
            y: clamp_i64(qy, -cfg.chunk_radius, cfg.chunk_radius - 1),
        }
    }

    /// The component of this chunk coordinate on the given axis.
    pub open spec fn spec_axis_comp(self, axis: Vec2Axis) -> i64 {
        match axis {
            Vec2Axis::X => self.x,
            Vec2Axis::Y => self.y,
        }
    }

    pub fn axis_comp(&self, axis: Vec2Axis) -> (r: i64)
        ensures
            r == self.spec_axis_comp(axis),
    {
        match axis {
            Vec2Axis::X => self.x,
            Vec2Axis::Y => self.y,
        }
    }

    pub fn with_offset(&self, dx: i64, dy: i64) -> (r: ChunkPos)
        requires
            i64::MIN <= self.x + dx <= i64::MAX,
            i64::MIN <= self.y + dy <= i64::MAX,
        ensures
            r.x == self.x + dx,
            r.y == self.y + dy,
    {
        ChunkPos { x: self.x + dx, y: self.y + dy }
    }
}

/// Injective encoding of an in-bounds chunk coordinate as a map key.
pub open spec fn spec_encode(c: ChunkPos) -> int {
    (c.x + 0x8000_0000) * 0x1_0000_0000 + (c.y + 0x8000_0000)
}

/// The 64-bit spatial-index key of an in-range chunk coordinate.
pub open spec fn chunk_key(c: ChunkPos) -> u64 {
    spec_encode(c) as u64
}

/// The encoding of an in-range chunk coordinate fits a 64-bit key.
pub proof fn lemma_encode_range(c: ChunkPos)
    requires
        -0x8000_0000 <= c.x < 0x8000_0000,
        -0x8000_0000 <= c.y < 0x8000_0000,
    ensures
        0 <= spec_encode(c) < 0x1_0000_0000_0000_0000,
{
    assert(0 <= (c.x + 0x8000_0000) * 0x1_0000_0000 + (c.y + 0x8000_0000)
        < 0x1_0000_0000_0000_0000) by (nonlinear_arith)
        requires
            -0x8000_0000 <= c.x < 0x8000_0000,
            -0x8000_0000 <= c.y < 0x8000_0000,
    ;
}

/// Map key for a chunk of the spatial index.
pub fn encode_chunk(c: ChunkPos) -> (k: u64)
    requires
        -0x8000_0000 <= c.x < 0x8000_0000,
        -0x8000_0000 <= c.y < 0x8000_0000,
    ensures
        k == spec_encode(c),
{
    let hx: u64 = (c.x + 0x8000_0000) as u64;
    let hy: u64 = (c.y + 0x8000_0000) as u64;
    proof {
        assert(hx * 0x1_0000_0000 + hy < 0x1_0000_0000_0000_0000) by (nonlinear_arith)
            requires
                hx < 0x1_0000_0000,
                hy < 0x1_0000_0000,
        ;
    }
    hx * 0x1_0000_0000 + hy
}

/// The exact chunk neighbourhood a point query scans: the point's home
/// chunk first, then, per axis, the neighbour on the side whose half of
/// the cell holds the point (ties towards the lower neighbour), each
/// omitted at the world boundary; with both neighbours present, the
/// shared corner chunk completes the square. The result has 1, 2 or 4
/// entries, never 3: the corner appears exactly when both axes expand.
pub open spec fn spec_area(pos: Vec2I, cfg: WorldConfig) -> Seq<ChunkPos> {
    let cs = cfg.chunk_size as int;
    let lo = cfg.min_comp();
    let hi = cfg.max_comp();
    let fx = (pos.x as int) / cs;
    let fy = (pos.y as int) / cs;
    let fracx = pos.x - cs * fx;
    let fracy = pos.y - cs * fy;
    let mx = clamp_s(fx, lo, hi);
    let my = clamp_s(fy, lo, hi);
    let ox: int = if 2 * fracx > cs {
        if mx < hi {
            1
        } else {
            0
        }
    } else {
        if mx > lo {
            -1
        } else {
            0
        }
    };
    let oy: int = if 2 * fracy > cs {
        if my < hi {
            1
        } else {
            0
        }
    } else {
        if my > lo {
            -1
        } else {
            0
        }
    };
    let base = seq![ChunkPos { x: mx as i64, y: my as i64 }];
    let with_x = if ox != 0 {
        base.push(ChunkPos { x: (mx + ox) as i64, y: my as i64 })
    } else {
        base
    };
    if oy != 0 {
        let with_y = with_x.push(ChunkPos { x: mx as i64, y: (my + oy) as i64 });
        if ox != 0 {
            with_y.push(ChunkPos { x: (mx + ox) as i64, y: (my + oy) as i64 })
        } else {
            with_y
        }
    } else {
        with_x
    }
}

/// One chunk coordinate near `p` can only fall in `p`'s own chunk or in
/// the single neighbour on the near side of `p`'s fractional offset.
proof fn lemma_axis_cover(p: int, q: int, cfg: WorldConfig, m: int, o: int)
    requires
        cfg.wf(),
        -NODE_RADIUS <= q - p <= NODE_RADIUS,
        m == chunk_comp(p, cfg),
        o == ({
            let f = p - (cfg.chunk_size as int) * (p / (cfg.chunk_size as int));
            if 2 * f > cfg.chunk_size {
                if m < cfg.max_comp() {
                    1int
                } else {
                    0int
                }
            } else {
                if m > cfg.min_comp() {
                    -1int
                } else {
                    0int
                }
            }
        }),
    ensures
        chunk_comp(q, cfg) == m || chunk_comp(q, cfg) == m + o,
{
    let cs = cfg.chunk_size as int;
    let lo = cfg.min_comp();
    let hi = cfg.max_comp();
    let c = p / cs;
    let cq = q / cs;
    lemma_fundamental_div_mod(p, cs);
    lemma_mod_bound(p, cs);
    lemma_fundamental_div_mod(q, cs);
    lemma_mod_bound(q, cs);
    let f = p - cs * c;
    assert(f == p % cs);
    assert(0 <= f < cs);
    let g = q - cs * cq;
    assert(0 <= g < cs);
    // q is within NODE_RADIUS of p and chunks are wider than twice that,
    // so cq is c - 1, c, or c + 1.
    assert(c - 1 <= cq <= c + 1) by (nonlinear_arith)
        requires
            p == cs * c + f,
            q == cs * cq + g,
            0 <= f < cs,
            0 <= g < cs,
            -NODE_RADIUS <= q - p <= NODE_RADIUS,
            2 * NODE_RADIUS < cs,
    ;
    if cq == c {
        assert(chunk_comp(q, cfg) == m);
    } else if cq == c + 1 {
        // q reached the chunk above, so p sits in the far half of its chunk.
        assert(2 * f > cs) by (nonlinear_arith)
            requires
                p == cs * c + f,
                q == cs * cq + g,
                cq == c + 1,
                0 <= f < cs,
                0 <= g < cs,
                q - p <= NODE_RADIUS,
                2 * NODE_RADIUS < cs,
        ;
        if c + 1 <= lo {
            assert(clamp_s(cq, lo, hi) == lo);
            assert(m == lo);
        } else if c + 1 > hi {
            assert(m == hi);
            assert(o == 0);
            assert(clamp_s(cq, lo, hi) == hi);
        } else {
            assert(clamp_s(cq, lo, hi) == c + 1);
            assert(m == c);
            assert(o == 1);
        }
    } else {
        assert(cq == c - 1);
        // q reached the chunk below, so p sits in the near half of its chunk.
        assert(2 * f <= cs) by (nonlinear_arith)
            requires
                p == cs * c + f,
                q == cs * cq + g,
                cq == c - 1,
                0 <= f < cs,
                0 <= g < cs,
                p - q <= NODE_RADIUS,
                2 * NODE_RADIUS < cs,
        ;
        if c - 1 >= hi {
            assert(clamp_s(cq, lo, hi) == hi);
            assert(m == hi);
        } else if c - 1 < lo {
            assert(m == lo);
            assert(o == 0);
            assert(clamp_s(cq, lo, hi) == lo);
        } else {
            assert(clamp_s(cq, lo, hi) == c - 1);
            assert(m == c);
            assert(o == -1);
        }
    }
}

/// The 1, 2 or 4 chunks a point query must scan: the point's own chunk,
/// expanded per axis towards the half the point sits in, never past the
/// world boundary. Any position within `NODE_RADIUS` of the query point has
/// its home chunk in this set.
pub fn get_area(pos: Vec2I, cfg: WorldConfig) -> (r: Vec<ChunkPos>)
    requires
        cfg.wf(),
        crate::math::comp_bounded(pos, cfg.world_limit()),
    ensures
        r@ == spec_area(pos, cfg),
        1 <= r@.len() <= 4,
        forall|i: int| 0 <= i < r@.len() ==> in_chunk_bounds(#[trigger] r@[i], cfg),
        r@[0] == spec_chunk_of(pos, cfg),
        forall|q: Vec2I|
            crate::math::comp_bounded(q, cfg.world_limit()) && dist_sq(q, pos) <= NODE_RADIUS
                * NODE_RADIUS ==> r@.contains(spec_chunk_of(q, cfg)),
{
    let cs = cfg.chunk_size;
    let lo = -cfg.chunk_radius;
    let hi = cfg.chunk_radius - 1;
    let fx = floor_div(pos.x, cs);
    let fy = floor_div(pos.y, cs);
    proof {
        lemma_floor_div_is_div(pos.x as int, cs as int, fx as int);
        lemma_floor_div_is_div(pos.y as int, cs as int, fy as int);
    }
    proof {
        assert(21 <= cs <= 0x10_0000) by (nonlinear_arith)
            requires
                cs == cfg.chunk_size,
                1 <= cfg.chunk_radius,
                2 * NODE_RADIUS < cs,
                cs * cfg.chunk_radius <= 0x10_0000,
        ;
        assert(0 <= pos.x - cs * fx < cs && 0 <= pos.y - cs * fy < cs) by (nonlinear_arith)
            requires
                cs * fx <= pos.x < cs * (fx + 1),
                cs * fy <= pos.y < cs * (fy + 1),
                cs >= 1,
        ;
    }
    let fracx: i64 = pos.x - cs * fx;
    let fracy: i64 = pos.y - cs * fy;
    let mx = clamp_i64(fx, lo, hi);
    let my = clamp_i64(fy, lo, hi);
    let ox: i64 = if 2 * fracx > cs {
        if mx < hi {
            1
        } else {
            0
        }
    } else {
        if mx > lo {
            -1
        } else {
            0
        }
    };
    let oy: i64 = if 2 * fracy > cs {
        if my < hi {
            1
        } else {
            0
        }
    } else {
        if my > lo {
            -1
        } else {
            0
        }
    };
    let mut r: Vec<ChunkPos> = Vec::new();
    r.push(ChunkPos { x: mx, y: my });
    if ox != 0 {
        r.push(ChunkPos { x: mx + ox, y: my });
    }
    if oy != 0 {
        r.push(ChunkPos { x: mx, y: my + oy });
        if ox != 0 {
            r.push(ChunkPos { x: mx + ox, y: my + oy });
        }
    }
    proof {
        assert(r@ =~= spec_area(pos, cfg));
    }
    proof {
        assert forall|q: Vec2I|
            crate::math::comp_bounded(q, cfg.world_limit()) && dist_sq(q, pos) <= NODE_RADIUS
                * NODE_RADIUS implies r@.contains(spec_chunk_of(q, cfg)) by {
            assert((q.x - pos.x) * (q.x - pos.x) <= NODE_RADIUS * NODE_RADIUS && (q.y - pos.y) * (
            q.y - pos.y) <= NODE_RADIUS * NODE_RADIUS) by (nonlinear_arith)
                requires
                    dist_sq(q, pos) <= NODE_RADIUS * NODE_RADIUS,
            ;
            assert(-NODE_RADIUS <= q.x - pos.x <= NODE_RADIUS && -NODE_RADIUS <= q.y - pos.y
                <= NODE_RADIUS) by (nonlinear_arith)
                requires
                    (q.x - pos.x) * (q.x - pos.x) <= NODE_RADIUS * NODE_RADIUS,
                    (q.y - pos.y) * (q.y - pos.y) <= NODE_RADIUS * NODE_RADIUS,
            ;
            lemma_axis_cover(pos.x as int, q.x as int, cfg, mx as int, ox as int);
            lemma_axis_cover(pos.y as int, q.y as int, cfg, my as int, oy as int);
            let cq = spec_chunk_of(q, cfg);
            if cq.x == mx && cq.y == my {
                assert(r@[0] == cq);
            } else if cq.x == mx + ox && cq.y == my {
                assert(ox != 0);
                assert(r@[1] == cq);
            } else if cq.x == mx && cq.y == my + oy {
                assert(oy != 0);
                if ox != 0 {
                    assert(r@[2] == cq);
                } else {
                    assert(r@[1] == cq);
                }
            } else {
                assert(cq.x == mx + ox && cq.y == my + oy);
                assert(ox != 0 && oy != 0);
                assert(r@[3] == cq);
            }
        }
    }
    r
}

/// The sign of an integer: -1, 0 or 1.
pub open spec fn sign_i(v: int) -> int {
    if v > 0 {
        1
    } else if v < 0 {
        -1
    } else {
        0
    }
}

/// Magnitude of an integer.
pub open spec fn abs_i(v: int) -> int {
    if v >= 0 {
        v
    } else {
        -v
    }
}

pub open spec fn max_i(a: int, b: int) -> int {
    if a > b {
        a
    } else {
        b
    }
}

/// The `i`-th chunk on the straight chunk walk from `ca` towards `cb`:
/// each step moves one chunk on every axis on which the two differ.
pub open spec fn chunk_step(ca: ChunkPos, cb: ChunkPos, i: int) -> ChunkPos {
    ChunkPos {
        x: (ca.x + i * sign_i(cb.x - ca.x)) as i64,
        y: (ca.y + i * sign_i(cb.y - ca.y)) as i64,
    }
}

/// The axis along which a rasterized edge outside the straight-walk
/// cases steps one chunk at a time: the dominant axis of the direction
/// vector, or, for a perfectly diagonal edge, the axis with the lesser
/// chunk span.
pub open spec fn raster_walk_axis(a: Vec2I, b: Vec2I, cfg: WorldConfig) -> Vec2Axis {
    let pdx = abs_i(b.x - a.x);
    let pdy = abs_i(b.y - a.y);
    if pdx != pdy {
        if pdx > pdy {
            Vec2Axis::X
        } else {
            Vec2Axis::Y
        }
    } else {
        let ca = spec_chunk_of(a, cfg);
        let cb = spec_chunk_of(b, cfg);
        if abs_i(cb.x - ca.x) <= abs_i(cb.y - ca.y) {
            Vec2Axis::X
        } else {
            Vec2Axis::Y
        }
    }
}

/// The cases in which the rasterizer registers exactly the straight chunk
/// walk between the endpoint chunks: the endpoints share a chunk row or
/// column, or the edge is perfectly diagonal and its endpoint chunks are
/// diagonally aligned.
pub open spec fn raster_regular(a: Vec2I, b: Vec2I, cfg: WorldConfig) -> bool {
    let ca = spec_chunk_of(a, cfg);
    let cb = spec_chunk_of(b, cfg);
    ||| ca.x == cb.x
    ||| ca.y == cb.y
    ||| (abs_i(b.x - a.x) == abs_i(b.y - a.y) && abs_i(cb.x - ca.x) == abs_i(cb.y - ca.y))
}

/// The straight chunk walk from `ca` to `cb`, endpoints included.
fn chunk_progression(ca: ChunkPos, cb: ChunkPos, cfg: WorldConfig) -> (r: Vec<ChunkPos>)
    requires
        cfg.wf(),
        in_chunk_bounds(ca, cfg),
        in_chunk_bounds(cb, cfg),
        ca.x == cb.x || ca.y == cb.y || abs_i(cb.x - ca.x) == abs_i(cb.y - ca.y),
    ensures
        r@.len() == max_i(abs_i(cb.x - ca.x), abs_i(cb.y - ca.y)) + 1,
        forall|i: int| 0 <= i < r@.len() ==> r@[i] == chunk_step(ca, cb, i),
        forall|i: int| 0 <= i < r@.len() ==> in_chunk_bounds(#[trigger] r@[i], cfg),
        r@[0] == ca,
        r@[r@.len() - 1] == cb,
{
    proof {
        assert(cfg.chunk_radius <= 0x10_0000) by (nonlinear_arith)
            requires
                2 * NODE_RADIUS < cfg.chunk_size,
                1 <= cfg.chunk_radius,
                cfg.chunk_size * cfg.chunk_radius <= 0x10_0000,
        ;
    }
    let dx = cb.x - ca.x;
    let dy = cb.y - ca.y;
    let adx = if dx >= 0 {
        dx
    } else {
        -dx
    };
    let ady = if dy >= 0 {
        dy
    } else {
        -dy
    };
    let ux: i64 = if dx > 0 {
        1
    } else if dx < 0 {
        -1
    } else {
        0
    };
    let uy: i64 = if dy > 0 {
        1
    } else if dy < 0 {
        -1
    } else {
        0
    };
    let steps = if adx > ady {
        adx
    } else {
        ady
    };
    proof {
        assert(cfg.chunk_radius <= 0x10_0000) by (nonlinear_arith)
            requires
                2 * NODE_RADIUS < cfg.chunk_size,
                1 <= cfg.chunk_radius,
                cfg.chunk_size * cfg.chunk_radius <= 0x10_0000,
        ;
    }
    let mut r: Vec<ChunkPos> = Vec::new();
    let mut i: i64 = 0;
    while i <= steps
        invariant
            0 <= i <= steps + 1,
            cfg.chunk_radius <= 0x10_0000,
            steps == max_i(abs_i(cb.x - ca.x), abs_i(cb.y - ca.y)),
            ux == sign_i(cb.x - ca.x),
            uy == sign_i(cb.y - ca.y),
            ux != 0 ==> steps == abs_i(cb.x - ca.x),
            uy != 0 ==> steps == abs_i(cb.y - ca.y),
            in_chunk_bounds(ca, cfg),
            in_chunk_bounds(cb, cfg),
            cfg.wf(),
            r@.len() == i,
            forall|j: int| 0 <= j < i ==> r@[j] == chunk_step(ca, cb, j),
            forall|j: int| 0 <= j < i ==> in_chunk_bounds(#[trigger] r@[j], cfg),
        decreases steps + 1 - i,
    {
        proof {
            assert(i * 1 == i && i * -1 == -i && i * 0 == 0) by (nonlinear_arith);
        }
        r.push(ChunkPos { x: ca.x + i * ux, y: ca.y + i * uy });
        i = i + 1;
    }
    proof {
        assert(r@[r@.len() - 1] == chunk_step(ca, cb, steps as int));
        assert(steps * 1 == steps && steps * -1 == -steps && steps * 0 == 0) by (nonlinear_arith);
        assert(chunk_step(ca, cb, steps as int) == cb);
    }
    r
}

/// The chunks an edge's segment is registered under. The endpoint chunks
/// are always included; for edges within one chunk row or column and for
/// aligned diagonal edges the result is exactly the straight chunk walk
/// between them; for every other edge the walk steps one chunk at a time
/// along one axis — the dominant one, or the lesser chunk span of an
/// unaligned diagonal — sampling or closing the perpendicular
/// coordinate. Midline sampling can skip a perpendicular row at the hop
/// next to an endpoint that sits low in its cell, so a gap-free chain is
/// guaranteed only for the straight-walk cases.
pub fn edge_chunks(a: Vec2I, b: Vec2I, cfg: WorldConfig) -> (r: Vec<ChunkPos>)
    requires
        cfg.wf(),
        crate::math::comp_bounded(a, cfg.world_limit()),
        crate::math::comp_bounded(b, cfg.world_limit()),
    ensures
        r@.len() >= 1,
        r@[0] == spec_chunk_of(a, cfg),
        r@[r@.len() - 1] == spec_chunk_of(b, cfg),
        forall|i: int| 0 <= i < r@.len() ==> in_chunk_bounds(#[trigger] r@[i], cfg),
        raster_regular(a, b, cfg) ==> {
            let ca = spec_chunk_of(a, cfg);
            let cb = spec_chunk_of(b, cfg);
            &&& r@.len() == max_i(abs_i(cb.x - ca.x), abs_i(cb.y - ca.y)) + 1
            &&& forall|i: int| 0 <= i < r@.len() ==> r@[i] == chunk_step(ca, cb, i)
        },
        !raster_regular(a, b, cfg) ==> ({
            let axis = raster_walk_axis(a, b, cfg);
            let ca = spec_chunk_of(a, cfg);
            let cb = spec_chunk_of(b, cfg);
            &&& r@.len() == abs_i(cb.spec_axis_comp(axis) - ca.spec_axis_comp(axis)) + 1
            &&& forall|i: int|
                0 <= i < r@.len() ==> (#[trigger] r@[i]).spec_axis_comp(axis)
                    == ca.spec_axis_comp(axis) + i * sign_i(
                    cb.spec_axis_comp(axis) - ca.spec_axis_comp(axis),
                )
        }),
{
    let ca = ChunkPos::from_world_pos(a, cfg);
    let cb = ChunkPos::from_world_pos(b, cfg);
    proof {
        assert(cfg.chunk_radius <= 0x10_0000) by (nonlinear_arith)
            requires
                2 * NODE_RADIUS < cfg.chunk_size,
                1 <= cfg.chunk_radius,
                cfg.chunk_size * cfg.chunk_radius <= 0x10_0000,
        ;
    }
    if ca.x == cb.x || ca.y == cb.y {
        // Same chunk, or a straight run within one row or column.
        chunk_progression(ca, cb, cfg)
    } else {
        let pdx = if b.x >= a.x {
            b.x - a.x
        } else {
            a.x - b.x
        };
        let pdy = if b.y >= a.y {
            b.y - a.y
        } else {
            a.y - b.y
        };
        let abs_ab = Vec2I::new(pdx, pdy);
        match abs_ab.get_max_axis() {
            None => {
                // Perfectly diagonal direction vector: step both axes together.
                let dx = cb.x - ca.x;
                let dy = cb.y - ca.y;
                let adx = if dx >= 0 {
                    dx
                } else {
                    -dx
                };
                let ady = if dy >= 0 {
                    dy
                } else {
                    -dy
                };
                if adx == ady {
                    chunk_progression(ca, cb, cfg)
                } else {
                    // The endpoint chunks are not diagonally aligned; walk
                    // diagonally as far as both axes allow, then close at
                    // the destination chunk.
                    let r = diagonal_partial(ca, cb, cfg);
                    proof {
                        let witness: Vec2Axis = if abs_i(cb.x - ca.x) <= abs_i(cb.y - ca.y) {
                            Vec2Axis::X
                        } else {
                            Vec2Axis::Y
                        };
                        assert(r@.len() == abs_i(
                            cb.spec_axis_comp(witness) - ca.spec_axis_comp(witness),
                        ) + 1);
                    }
                    r
                }
            },
            Some(axis) => {
                // Oblique edge: walk the dominant axis, sampling the
                // perpendicular chunk at each crossed chunk's midline.
                let r = oblique_chunks(a, b, ca, cb, axis, cfg);
                proof {
                    assert(r@.len() == abs_i(
                        cb.spec_axis_comp(axis) - ca.spec_axis_comp(axis),
                    ) + 1);
                }
                r
            },
        }
    }
}

/// Diagonal walk from `ca` towards `cb` for as long as both axes still
/// differ, closed with `cb` itself.
fn diagonal_partial(ca: ChunkPos, cb: ChunkPos, cfg: WorldConfig) -> (r: Vec<ChunkPos>)
    requires
        cfg.wf(),
        in_chunk_bounds(ca, cfg),
        in_chunk_bounds(cb, cfg),
        ca.x != cb.x,
        ca.y != cb.y,
    ensures
        r@.len() >= 1,
        r@[0] == ca,
        r@[r@.len() - 1] == cb,
        forall|i: int| 0 <= i < r@.len() ==> in_chunk_bounds(#[trigger] r@[i], cfg),
        ({
            let axis = if abs_i(cb.x - ca.x) <= abs_i(cb.y - ca.y) {
                Vec2Axis::X
            } else {
                Vec2Axis::Y
            };
            &&& r@.len() == abs_i(cb.spec_axis_comp(axis) - ca.spec_axis_comp(axis)) + 1
            &&& forall|i: int|
                0 <= i < r@.len() ==> (#[trigger] r@[i]).spec_axis_comp(axis)
                    == ca.spec_axis_comp(axis) + i * sign_i(
                    cb.spec_axis_comp(axis) - ca.spec_axis_comp(axis),
                )
        }),
{
    proof {
        assert(cfg.chunk_radius <= 0x10_0000) by (nonlinear_arith)
            requires
                2 * NODE_RADIUS < cfg.chunk_size,
                1 <= cfg.chunk_radius,
                cfg.chunk_size * cfg.chunk_radius <= 0x10_0000,
        ;
    }
    let dx = cb.x - ca.x;
    let dy = cb.y - ca.y;
    let adx = if dx >= 0 {
        dx
    } else {
        -dx
    };
    let ady = if dy >= 0 {
        dy
    } else {
        -dy
    };
    let ux: i64 = if dx > 0 {
        1
    } else {
        -1
    };
    let uy: i64 = if dy > 0 {
        1
    } else {
        -1
    };
    let m = if adx < ady {
        adx
    } else {
        ady
    };
    let mut r: Vec<ChunkPos> = Vec::new();
    r.push(ca);
    let mut i: i64 = 1;
    while i < m
        invariant
            1 <= i <= m,
            cfg.chunk_radius <= 0x10_0000,
            m == (if abs_i(cb.x - ca.x) < abs_i(cb.y - ca.y) {
                abs_i(cb.x - ca.x)
            } else {
                abs_i(cb.y - ca.y)
            }),
            ux == sign_i(cb.x - ca.x),
            uy == sign_i(cb.y - ca.y),
            ca.x != cb.x,
            ca.y != cb.y,
            in_chunk_bounds(ca, cfg),
            in_chunk_bounds(cb, cfg),
            cfg.wf(),
            r@.len() == i,
            r@[0] == ca,
            forall|j: int| 0 <= j < i ==> in_chunk_bounds(#[trigger] r@[j], cfg),
            forall|j: int|
                0 <= j < i ==> (#[trigger] r@[j]).x == ca.x + j * ux && r@[j].y == ca.y + j * uy,
        decreases m - i,
    {
        proof {
            assert(i * 1 == i && i * -1 == -i) by (nonlinear_arith);
        }
        r.push(ChunkPos { x: ca.x + i * ux, y: ca.y + i * uy });
        i = i + 1;
    }
    r.push(cb);
    proof {
        let axis = if abs_i(cb.x - ca.x) <= abs_i(cb.y - ca.y) {
            Vec2Axis::X
        } else {
            Vec2Axis::Y
        };
        let mm = m as int;
        assert(mm == abs_i(cb.spec_axis_comp(axis) - ca.spec_axis_comp(axis)));
        assert(mm * sign_i(cb.spec_axis_comp(axis) - ca.spec_axis_comp(axis))
            == cb.spec_axis_comp(axis) - ca.spec_axis_comp(axis)) by (nonlinear_arith)
            requires
                mm == abs_i(cb.spec_axis_comp(axis) - ca.spec_axis_comp(axis)),
        ;
        assert forall|j: int| 0 <= j < r@.len() implies (#[trigger] r@[j]).spec_axis_comp(axis)
            == ca.spec_axis_comp(axis) + j * sign_i(
            cb.spec_axis_comp(axis) - ca.spec_axis_comp(axis),
        ) by {
            if j < mm {
                assert(r@[j].x == ca.x + j * ux && r@[j].y == ca.y + j * uy);
                assert(ux == sign_i(cb.x - ca.x) && uy == sign_i(cb.y - ca.y));
            } else {
                assert(r@[j] == cb);
            }
        }
    }
    r
}

/// Oblique rasterization: step one chunk at a time along the dominant
/// axis; at each intermediate step, interpolate the perpendicular world
/// coordinate at the chunk's midline and register the chunk it falls in.
fn oblique_chunks(a: Vec2I, b: Vec2I, ca: ChunkPos, cb: ChunkPos, axis: Vec2Axis, cfg: WorldConfig) -> (r:
    Vec<ChunkPos>)
    requires
        cfg.wf(),
        crate::math::comp_bounded(a, cfg.world_limit()),
        crate::math::comp_bounded(b, cfg.world_limit()),
        ca == spec_chunk_of(a, cfg),
        cb == spec_chunk_of(b, cfg),
        ca.x != cb.x,
        ca.y != cb.y,
        a.spec_comp(axis) != b.spec_comp(axis),
    ensures
        r@.len() >= 1,
        r@[0] == ca,
        r@[r@.len() - 1] == cb,
        forall|i: int| 0 <= i < r@.len() ==> in_chunk_bounds(#[trigger] r@[i], cfg),
        r@.len() == abs_i(cb.spec_axis_comp(axis) - ca.spec_axis_comp(axis)) + 1,
        forall|i: int|
            0 <= i < r@.len() ==> (#[trigger] r@[i]).spec_axis_comp(axis)
                == ca.spec_axis_comp(axis) + i * sign_i(
                cb.spec_axis_comp(axis) - ca.spec_axis_comp(axis),
            ),
{
    let cs = cfg.chunk_size;
    let lo = -cfg.chunk_radius;
    let hi = cfg.chunk_radius - 1;
    proof {
        assert(21 <= cs <= 0x10_0000 && cfg.chunk_radius <= 0x10_0000) by (nonlinear_arith)
            requires
                cs == cfg.chunk_size,
                1 <= cfg.chunk_radius,
                2 * NODE_RADIUS < cs,
                cs * cfg.chunk_radius <= 0x10_0000,
        ;
        assert(in_chunk_bounds(ca, cfg) && in_chunk_bounds(cb, cfg));
    }
    let cam = ca.axis_comp(axis);
    let cbm = cb.axis_comp(axis);
    let am = a.get_comp(axis);
    let bm = b.get_comp(axis);
    let ao = a.get_comp(axis.other());
    let bo = b.get_comp(axis.other());
    let spam = cbm - cam;
    let s: i64 = if spam > 0 {
        1
    } else {
        -1
    };
    let aspam = if spam >= 0 {
        spam
    } else {
        -spam
    };
    let mut r: Vec<ChunkPos> = Vec::new();
    r.push(ca);
    let mut k: i64 = 1;
    while k < aspam
        invariant
            1 <= k <= aspam,
            aspam == abs_i(cbm - cam),
            s == sign_i(cbm - cam),
            cam == ca.spec_axis_comp(axis),
            cbm == cb.spec_axis_comp(axis),
            am == a.spec_comp(axis),
            bm == b.spec_comp(axis),
            ao == a.spec_comp(axis.spec_other()),
            bo == b.spec_comp(axis.spec_other()),
            am != bm,
            in_chunk_bounds(ca, cfg),
            in_chunk_bounds(cb, cfg),
            cfg.wf(),
            21 <= cfg.chunk_size <= 0x10_0000,
            cfg.chunk_radius <= 0x10_0000,
            -0x10_0000 <= am <= 0x10_0000,
            -0x10_0000 <= bm <= 0x10_0000,
            -0x10_0000 <= ao <= 0x10_0000,
            -0x10_0000 <= bo <= 0x10_0000,
            crate::math::comp_bounded(a, cfg.world_limit()),
            crate::math::comp_bounded(b, cfg.world_limit()),
            cs == cfg.chunk_size,
            lo == cfg.min_comp(),
            hi == cfg.max_comp(),
            r@.len() == k,
            r@[0] == ca,
            forall|j: int| 0 <= j < k ==> in_chunk_bounds(#[trigger] r@[j], cfg),
            forall|j: int|
                0 <= j < k ==> (#[trigger] r@[j]).spec_axis_comp(axis) == cam + j * s,
        decreases aspam - k,
    {
        proof {
            assert(k * s == k || k * s == -k) by (nonlinear_arith)
                requires
                    s == 1 || s == -1,
            ;
            assert(lo <= cam + k * s <= hi);
            assert(-0x10_0000 <= cam + k * s <= 0x10_0000);
            assert(-0x100_0000_0000 <= (cam + k * s) * cs <= 0x100_0000_0000) by (nonlinear_arith)
                requires
                    -0x10_0000 <= cam + k * s <= 0x10_0000,
                    0 < cs <= 0x10_0000,
            ;
        }
        let main_chunk: i64 = cam + k * s;
        let main_mid: i64 = main_chunk * cs + cs / 2;
        proof {
            assert(-0x2000_0000_0000_0000 <= (ao as int) * ((bm - am) as int)
                <= 0x2000_0000_0000_0000) by (nonlinear_arith)
                requires
                    -0x10_0000 <= ao <= 0x10_0000,
                    -0x20_0000 <= bm - am <= 0x20_0000,
            ;
            assert(-0x4000_0000_0000_0000 <= ((bo - ao) as int) * ((main_mid - am) as int)
                <= 0x4000_0000_0000_0000) by (nonlinear_arith)
                requires
                    -0x20_0000 <= bo - ao <= 0x20_0000,
                    -0x102_0000_0000 <= main_mid - am <= 0x102_0000_0000,
            ;
            assert(cs <= ((bm - am) as int) * (cs as int) <= 0x200_0000_0000 || -0x200_0000_0000
                <= ((bm - am) as int) * (cs as int) <= -cs) by (nonlinear_arith)
                requires
                    -0x20_0000 <= bm - am <= 0x20_0000,
                    bm != am,
                    0 < cs <= 0x10_0000,
            ;
        }
        // Perpendicular world coordinate of the edge at the midline,
        // as the floor of the exact rational value, then its chunk.
        let num_base: i128 = (ao as i128) * ((bm - am) as i128) + ((bo - ao) as i128) * ((main_mid
            - am) as i128);
        let den_base: i128 = ((bm - am) as i128) * (cs as i128);
        let (num, den): (i128, i128) = if den_base < 0 {
            (-num_base, -den_base)
        } else {
            (num_base, den_base)
        };
        let oq = floor_div_i128(num, den);
        proof {
            assert(den * oq <= num < den * (oq + 1));
            assert(-0x6000_0000_0000_0000 <= oq <= 0x6000_0000_0000_0000) by (nonlinear_arith)
                requires
                    den * oq <= num < den * (oq + 1),
                    1 <= den,
                    -0x6000_0000_0000_0000 <= num <= 0x6000_0000_0000_0000,
            ;
        }
        let other_chunk: i64 = clamp_i64(oq as i64, lo, hi);
        let step_pos = match axis {
            Vec2Axis::X => ChunkPos { x: main_chunk, y: other_chunk },
            Vec2Axis::Y => ChunkPos { x: other_chunk, y: main_chunk },
        };
        proof {
            assert(in_chunk_bounds(step_pos, cfg));
            assert(step_pos.spec_axis_comp(axis) == cam + (k as int) * s);
        }
        r.push(step_pos);
        k = k + 1;
    }
    r.push(cb);
    proof {
        assert(aspam * s == cbm - cam) by (nonlinear_arith)
            requires
                s == 1 || s == -1,
                s == sign_i(cbm - cam),
                aspam == abs_i(cbm - cam),
        ;
        assert(cb.spec_axis_comp(axis) == cam + (aspam as int) * s);
        assert forall|i: int| 0 <= i < r@.len() implies (#[trigger] r@[i]).spec_axis_comp(axis)
            == cam + i * s by {
        }
    }
    r
}

/// Whether two chunks share a side.
pub open spec fn side_adjacent(c1: ChunkPos, c2: ChunkPos) -> bool {
    abs_i(c1.x - c2.x) + abs_i(c1.y - c2.y) == 1
}

/// Whether two distinct chunks touch, at a side or a corner.
pub open spec fn chunks_touch(c1: ChunkPos, c2: ChunkPos) -> bool {
    abs_i(c1.x - c2.x) <= 1 && abs_i(c1.y - c2.y) <= 1 && c1 != c2
}

/// Rasterization connectivity: for an edge within one chunk row or column
/// and for an aligned diagonal edge, the registered chunk sequence is a
/// gap-free chain from the source chunk to the destination chunk. Each
/// consecutive pair of chunks touches, and when the edge stays within one
/// row or column the chain even moves by single side steps.
pub proof fn lemma_raster_chain(a: Vec2I, b: Vec2I, cfg: WorldConfig, r: Seq<ChunkPos>)
    requires
        cfg.wf(),
        raster_regular(a, b, cfg),
        r.len() == max_i(
            abs_i(spec_chunk_of(b, cfg).x - spec_chunk_of(a, cfg).x),
            abs_i(spec_chunk_of(b, cfg).y - spec_chunk_of(a, cfg).y),
        ) + 1,
        forall|i: int|
            0 <= i < r.len() ==> r[i] == chunk_step(spec_chunk_of(a, cfg), spec_chunk_of(b, cfg), i),
    ensures
        r[0] == spec_chunk_of(a, cfg),
        r[r.len() - 1] == spec_chunk_of(b, cfg),
        forall|i: int| 0 <= i < r.len() - 1 ==> chunks_touch(#[trigger] r[i], r[i + 1]),
        spec_chunk_of(a, cfg).x == spec_chunk_of(b, cfg).x || spec_chunk_of(a, cfg).y
            == spec_chunk_of(b, cfg).y ==> forall|i: int|
            0 <= i < r.len() - 1 ==> side_adjacent(#[trigger] r[i], r[i + 1]),
{
    let ca = spec_chunk_of(a, cfg);
    let cb = spec_chunk_of(b, cfg);
    let n = r.len() as int;
    let ux = sign_i(cb.x - ca.x);
    let uy = sign_i(cb.y - ca.y);
    assert(in_chunk_bounds(ca, cfg) && in_chunk_bounds(cb, cfg)) by {
        lemma_chunk_of_in_bounds(a, cfg);
        lemma_chunk_of_in_bounds(b, cfg);
    }
    assert forall|i: int| 0 <= i < n implies #[trigger] r[i] == chunk_step(ca, cb, i) && (ca.x
        + i * ux == chunk_step(ca, cb, i).x) && (ca.y + i * uy == chunk_step(ca, cb, i).y) by {
        assert(i * 1 == i && i * -1 == -i && i * 0 == 0) by (nonlinear_arith);
        assert((n - 1) * 1 == n - 1 && (n - 1) * -1 == -(n - 1) && (n - 1) * 0 == 0)
            by (nonlinear_arith);
        assert(i * ux <= n - 1 && i * ux >= -(n - 1)) by (nonlinear_arith)
            requires
                0 <= i <= n - 1,
                ux == 1 || ux == -1 || ux == 0,
        ;
        assert(i * uy <= n - 1 && i * uy >= -(n - 1)) by (nonlinear_arith)
            requires
                0 <= i <= n - 1,
                uy == 1 || uy == -1 || uy == 0,
        ;
    }
    assert(r[0] == ca);
    assert((n - 1) * ux == cb.x - ca.x && (n - 1) * uy == cb.y - ca.y) by (nonlinear_arith)
        requires
            ux == sign_i(cb.x - ca.x),
            uy == sign_i(cb.y - ca.y),
            n - 1 == max_i(abs_i(cb.x - ca.x), abs_i(cb.y - ca.y)),
            ux != 0 ==> n - 1 == abs_i(cb.x - ca.x),
            uy != 0 ==> n - 1 == abs_i(cb.y - ca.y),
    ;
    assert(r[n - 1] == cb);
    assert forall|i: int| 0 <= i < n - 1 implies chunks_touch(#[trigger] r[i], r[i + 1]) by {
        assert((i + 1) * ux == i * ux + ux && (i + 1) * uy == i * uy + uy) by (nonlinear_arith);
        assert(ux != 0 || uy != 0);
    }
    if ca.x == cb.x || ca.y == cb.y {
        assert forall|i: int| 0 <= i < n - 1 implies side_adjacent(#[trigger] r[i], r[i + 1]) by {
            assert((i + 1) * ux == i * ux + ux && (i + 1) * uy == i * uy + uy) by (nonlinear_arith);
            assert(ux == 0 || uy == 0);
            assert(ux != 0 || uy != 0);
        }
    }
}

/// The home chunk of any position lies within the world bounds.
pub proof fn lemma_chunk_of_in_bounds(pos: Vec2I, cfg: WorldConfig)
    requires
        cfg.wf(),
    ensures
        in_chunk_bounds(spec_chunk_of(pos, cfg), cfg),
{
}

} // verus!
