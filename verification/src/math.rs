//! Integer 2D vectors, axis selection, floor division, integer square
//! roots and saturating sums: the arithmetic that the chunk index and the
//! path finder are built on.

use vstd::prelude::*;

verus! {

/// One of the two axes of the world plane.
#[derive(Copy, Clone, Eq, PartialEq, Structural, Debug)]
pub enum Vec2Axis {
    X,
    Y,
}

impl Vec2Axis {
    /// The axis perpendicular to this one.
    pub fn other(self) -> (r: Vec2Axis)
        ensures
            r == self.spec_other(),
    {
        match self {
            Vec2Axis::X => Vec2Axis::Y,
            Vec2Axis::Y => Vec2Axis::X,
        }
    }

    pub open spec fn spec_other(self) -> Vec2Axis {
        match self {
            Vec2Axis::X => Vec2Axis::Y,
            Vec2Axis::Y => Vec2Axis::X,
        }
    }
}

/// A 2D vector with integer components; positions and chunk coordinates
/// are both held in this type.
#[derive(Copy, Clone, Eq, PartialEq, Structural, Hash, Debug)]
pub struct Vec2I {
    pub x: i64,
    pub y: i64,
}

impl Vec2I {
    pub fn new(x: i64, y: i64) -> (r: Vec2I)
        ensures
            r.x == x && r.y == y,
    {
        Vec2I { x, y }
    }
}

/// Squaring, for the numeric types the engine squares.
pub trait Sqr: Sized + Copy {
    /// Whether the square fits the type.
    spec fn sqr_fits(self) -> bool;

    /// The mathematical square, as a value of the type.
    spec fn sqr_spec(self) -> Self;

    fn sqr(self) -> (r: Self)
        requires
            self.sqr_fits(),
        ensures
            r == self.sqr_spec(),
    ;
}

impl Sqr for i64 {
    open spec fn sqr_fits(self) -> bool {
        -3_037_000_499 <= self <= 3_037_000_499
    }

    open spec fn sqr_spec(self) -> i64 {
        (self * self) as i64
    }

    fn sqr(self) -> (r: i64) {
        proof {
            assert(0 <= self * self <= i64::MAX) by (nonlinear_arith)
                requires
                    -3_037_000_499 <= self <= 3_037_000_499,
            ;
        }
        self * self
    }
}

impl Sqr for u64 {
    open spec fn sqr_fits(self) -> bool {
        self <= 4_294_967_295
    }

    open spec fn sqr_spec(self) -> u64 {
        (self * self) as u64
    }

    fn sqr(self) -> (r: u64) {
        proof {
            assert(0 <= self * self <= u64::MAX) by (nonlinear_arith)
                requires
                    self <= 4_294_967_295,
            ;
        }
        self * self
    }
}

/// Component-wise access and update for 2D vectors.
pub trait Vec2CompWise: Sized + Copy {
    type Primitive;

    spec fn spec_comp(self, comp: Vec2Axis) -> Self::Primitive;

    spec fn spec_with_comp(self, comp: Vec2Axis, value: Self::Primitive) -> Self;

    spec fn offset_fits(self, comp: Vec2Axis, offset: Self::Primitive) -> bool;

    spec fn spec_with_offset_on(self, comp: Vec2Axis, offset: Self::Primitive) -> Self;

    spec fn spec_max_axis(self) -> Option<Vec2Axis>;

    fn get_comp(&self, comp: Vec2Axis) -> (r: Self::Primitive)
        ensures
            r == self.spec_comp(comp),
    ;

    /// The axis whose component is strictly the larger, `None` on a tie.
    fn get_max_axis(&self) -> (r: Option<Vec2Axis>)
        ensures
            r == self.spec_max_axis(),
    ;

    fn with_offset_on(self, comp: Vec2Axis, offset: Self::Primitive) -> (r: Self)
        requires
            self.offset_fits(comp, offset),
        ensures
            r == self.spec_with_offset_on(comp, offset),
    ;

    fn with_comp(self, comp: Vec2Axis, value: Self::Primitive) -> (r: Self)
        ensures
            r == self.spec_with_comp(comp, value),
    ;
}

impl Vec2CompWise for Vec2I {
    type Primitive = i64;

    open spec fn spec_comp(self, comp: Vec2Axis) -> i64 {
        match comp {
            Vec2Axis::X => self.x,
            Vec2Axis::Y => self.y,
        }
    }

    open spec fn spec_with_comp(self, comp: Vec2Axis, value: i64) -> Vec2I {
        match comp {
            Vec2Axis::X => Vec2I { x: value, y: self.y },
            Vec2Axis::Y => Vec2I { x: self.x, y: value },
        }
    }

    open spec fn offset_fits(self, comp: Vec2Axis, offset: i64) -> bool {
        i64::MIN <= self.spec_comp(comp) + offset <= i64::MAX
    }

    open spec fn spec_with_offset_on(self, comp: Vec2Axis, offset: i64) -> Vec2I {
        self.spec_with_comp(comp, (self.spec_comp(comp) + offset) as i64)
    }

    open spec fn spec_max_axis(self) -> Option<Vec2Axis> {
        if self.x > self.y {
            Some(Vec2Axis::X)
        } else if self.y > self.x {
            Some(Vec2Axis::Y)
        } else {
            None
        }
    }

    fn get_comp(&self, comp: Vec2Axis) -> (r: i64) {
        match comp {
            Vec2Axis::X => self.x,
            Vec2Axis::Y => self.y,
        }
    }

    fn get_max_axis(&self) -> (r: Option<Vec2Axis>) {
        if self.x > self.y {
            Some(Vec2Axis::X)
        } else if self.y > self.x {
            Some(Vec2Axis::Y)
        } else {
            None
        }
    }

    fn with_offset_on(self, comp: Vec2Axis, offset: i64) -> (r: Vec2I) {
        match comp {
            Vec2Axis::X => Vec2I { x: self.x + offset, y: self.y },
            Vec2Axis::Y => Vec2I { x: self.x, y: self.y + offset },
        }
    }

    fn with_comp(self, comp: Vec2Axis, value: i64) -> (r: Vec2I) {
        match comp {
            Vec2Axis::X => Vec2I { x: value, y: self.y },
            Vec2Axis::Y => Vec2I { x: self.x, y: value },
        }
    }
}

/// Floor division: the unique `q` with `b * q <= a < b * (q + 1)`.
pub fn floor_div(a: i64, b: i64) -> (q: i64)
    requires
        1 <= b,
    ensures
        b * q <= a < b * (q + 1),
{
    if a >= 0 {
        let ua: u64 = a as u64;
        let ub: u64 = b as u64;
        let uq: u64 = ua / ub;
        assert(ub * uq <= ua < ub * (uq + 1)) by (nonlinear_arith)
            requires
                uq == ua / ub,
                ub >= 1,
        ;
        uq as i64
    } else {
        let m: u64 = (-(a + 1)) as u64;
        let ub: u64 = b as u64;
        let uq: u64 = m / ub;
        assert(ub * uq <= m < ub * (uq + 1)) by (nonlinear_arith)
            requires
                uq == m / ub,
                ub >= 1,
        ;
        let q: i64 = -1 - (uq as i64);
        assert(b * q <= a < b * (q + 1)) by (nonlinear_arith)
            requires
                q == -1 - uq,
                a == -(m as int) - 1,
                ub * uq <= m < ub * (uq + 1),
                ub == b,
                b >= 1,
        ;
        q
    }
}

/// Floor division on wide integers, for the rational interpolation of the
/// edge rasterizer.
pub fn floor_div_i128(a: i128, b: i128) -> (q: i128)
    requires
        1 <= b,
        -0x1_0000_0000_0000_0000_0000_0000 <= a <= 0x1_0000_0000_0000_0000_0000_0000,
    ensures
        b * q <= a < b * (q + 1),
{
    if a >= 0 {
        let ua: u128 = a as u128;
        let ub: u128 = b as u128;
        let uq: u128 = ua / ub;
        assert(ub * uq <= ua < ub * (uq + 1)) by (nonlinear_arith)
            requires
                uq == ua / ub,
                ub >= 1,
        ;
        uq as i128
    } else {
        let m: u128 = (-(a + 1)) as u128;
        let ub: u128 = b as u128;
        let uq: u128 = m / ub;
        assert(ub * uq <= m < ub * (uq + 1)) by (nonlinear_arith)
            requires
                uq == m / ub,
                ub >= 1,
        ;
        let q: i128 = -1 - (uq as i128);
        assert(b * q <= a < b * (q + 1)) by (nonlinear_arith)
            requires
                q == -1 - uq,
                a == -(m as int) - 1,
                ub * uq <= m < ub * (uq + 1),
                ub == b,
                b >= 1,
        ;
        q
    }
}

/// Whether `r` is the floor of the square root of `n`.
pub open spec fn is_sqrt_floor(n: int, r: int) -> bool {
    0 <= r && r * r <= n < (r + 1) * (r + 1)
}

/// The floor of the square root of a nonnegative integer.
pub open spec fn sqrt_floor(n: int) -> int {
    choose|r: int| is_sqrt_floor(n, r)
}

pub proof fn lemma_sqrt_floor_exists(n: nat)
    ensures
        is_sqrt_floor(n as int, sqrt_floor(n as int)),
    decreases n,
{
    if n == 0 {
        assert(is_sqrt_floor(0, 0));
    } else {
        lemma_sqrt_floor_exists((n - 1) as nat);
        let r = sqrt_floor(n - 1);
        if n < (r + 1) * (r + 1) {
            assert(is_sqrt_floor(n as int, r));
        } else {
            assert((r + 1) * (r + 1) <= n);
            assert(n - 1 < (r + 1) * (r + 1));
            assert(n == (r + 1) * (r + 1));
            assert((r + 2) * (r + 2) > n) by (nonlinear_arith)
                requires
                    n == (r + 1) * (r + 1),
                    r >= 0,
            ;
            assert(is_sqrt_floor(n as int, r + 1));
        }
    }
}

pub proof fn lemma_sqrt_floor_unique(n: int, r: int)
    requires
        is_sqrt_floor(n, r),
    ensures
        r == sqrt_floor(n),
{
    let s = sqrt_floor(n);
    assert(is_sqrt_floor(n, s));
    if r < s {
        assert((r + 1) * (r + 1) <= s * s) by (nonlinear_arith)
            requires
                0 <= r + 1 <= s,
        ;
    } else if s < r {
        assert((s + 1) * (s + 1) <= r * r) by (nonlinear_arith)
            requires
                0 <= s + 1 <= r,
        ;
    }
}

/// Floor integer square root, by bisection.
pub fn isqrt(n: u64) -> (r: u64)
    ensures
        is_sqrt_floor(n as int, r as int),
        r == sqrt_floor(n as int),
{
    let mut lo: u64 = 0;
    let mut hi: u64 = 0x1_0000_0000;
    while lo + 1 < hi
        invariant
            lo < hi <= 0x1_0000_0000,
            lo * lo <= n < hi * hi,
        decreases hi - lo,
    {
        let mid = lo + (hi - lo) / 2;
        assert(lo < mid < hi);
        proof {
            assert(mid * mid < 0x1_0000_0000_0000_0000) by (nonlinear_arith)
                requires
                    mid < 0x1_0000_0000,
            ;
        }
        if mid * mid <= n {
            lo = mid;
        } else {
            hi = mid;
        }
    }
    assert(hi == lo + 1);
    proof {
        lemma_sqrt_floor_unique(n as int, lo as int);
    }
    lo
}

/// `a + b`, capped at the largest `u64`.
pub open spec fn sat_add_s(a: u64, b: u64) -> u64 {
    if a + b > u64::MAX {
        u64::MAX
    } else {
        (a + b) as u64
    }
}

pub fn sat_add(a: u64, b: u64) -> (r: u64)
    ensures
        r == sat_add_s(a, b),
{
    if a > u64::MAX - b {
        u64::MAX
    } else {
        a + b
    }
}

/// The squared Euclidean distance between two positions.
pub open spec fn dist_sq(a: Vec2I, b: Vec2I) -> int {
    (a.x - b.x) * (a.x - b.x) + (a.y - b.y) * (a.y - b.y)
}

/// Positions whose components the distance arithmetic is safe for.
pub open spec fn comp_bounded(v: Vec2I, bound: int) -> bool {
    -bound <= v.x <= bound && -bound <= v.y <= bound
}

/// Squared Euclidean distance; components must be small enough that the
/// squares fit (the world bound guarantees far less than this).
pub fn dist_sq_exec(a: Vec2I, b: Vec2I) -> (r: u64)
    requires
        comp_bounded(a, 0x2000_0000),
        comp_bounded(b, 0x2000_0000),
    ensures
        r == dist_sq(a, b),
{
    let dx: i64 = a.x - b.x;
    let dy: i64 = a.y - b.y;
    proof {
        assert(0 <= dx * dx <= 0x1000_0000_0000_0000 && 0 <= dy * dy <= 0x1000_0000_0000_0000)
            by (nonlinear_arith)
            requires
                -0x4000_0000 <= dx <= 0x4000_0000,
                -0x4000_0000 <= dy <= 0x4000_0000,
        ;
    }
    let r: i64 = dx * dx + dy * dy;
    r as u64
}

/// Denominator of the exact squared point-to-segment distance from `p` to
/// the segment `a`-`b`: 1 when the nearest point is an endpoint, else the
/// squared segment length.
pub open spec fn seg_dist_sq_den(a: Vec2I, b: Vec2I, p: Vec2I) -> int {
    let abx = b.x - a.x;
    let aby = b.y - a.y;
    let den = abx * abx + aby * aby;
    let tn = (p.x - a.x) * abx + (p.y - a.y) * aby;
    if den == 0 || tn <= 0 || tn >= den {
        1
    } else {
        den
    }
}

/// Numerator of the exact squared point-to-segment distance from `p` to
/// the segment `a`-`b`: the projection of `p` onto the segment's line is
/// clamped to the segment, and the squared distance to the clamped point
/// is `num / den`.
pub open spec fn seg_dist_sq_num(a: Vec2I, b: Vec2I, p: Vec2I) -> int {
    let abx = b.x - a.x;
    let aby = b.y - a.y;
    let den = abx * abx + aby * aby;
    let tn = (p.x - a.x) * abx + (p.y - a.y) * aby;
    if den == 0 || tn <= 0 {
        dist_sq(p, a)
    } else if tn >= den {
        dist_sq(p, b)
    } else {
        dist_sq(p, a) * den - tn * tn
    }
}

/// The exact squared point-to-segment distance, as the nonnegative
/// rational `num / den` with `den >= 1`.
#[verifier::rlimit(100)]
pub fn seg_dist_sq(a: Vec2I, b: Vec2I, p: Vec2I) -> (r: (u128, u128))
    requires
        comp_bounded(a, 0x10_0000),
        comp_bounded(b, 0x10_0000),
        comp_bounded(p, 0x10_0000),
    ensures
        r.0 == seg_dist_sq_num(a, b, p),
        r.1 == seg_dist_sq_den(a, b, p),
        1 <= r.1 <= 0x20_0000_0000_0000,
{
    let abx: i64 = b.x - a.x;
    let aby: i64 = b.y - a.y;
    let apx: i64 = p.x - a.x;
    let apy: i64 = p.y - a.y;
    proof {
        assert(0 <= abx * abx <= 0x10_0000_0000_0000 && 0 <= aby * aby <= 0x10_0000_0000_0000
            && 0 <= apx * apx <= 0x10_0000_0000_0000 && 0 <= apy * apy <= 0x10_0000_0000_0000
            && -0x10_0000_0000_0000 <= apx * abx <= 0x10_0000_0000_0000 && -0x10_0000_0000_0000
            <= apy * aby <= 0x10_0000_0000_0000) by (nonlinear_arith)
            requires
                -0x20_0000 <= abx <= 0x20_0000,
                -0x20_0000 <= aby <= 0x20_0000,
                -0x20_0000 <= apx <= 0x20_0000,
                -0x20_0000 <= apy <= 0x20_0000,
        ;
    }
    let den: i64 = abx * abx + aby * aby;
    let tn: i64 = apx * abx + apy * aby;
    if den == 0 || tn <= 0 {
        (dist_sq_exec(p, a) as u128, 1)
    } else if tn >= den {
        (dist_sq_exec(p, b) as u128, 1)
    } else {
        let dpa: u64 = dist_sq_exec(p, a);
        proof {
            assert(dpa == apx * apx + apy * apy);
            assert(0 <= (dpa as int) * (den as int) <= 0x400_0000_0000_0000_0000_0000_0000)
                by (nonlinear_arith)
                requires
                    0 <= dpa <= 0x20_0000_0000_0000,
                    0 < den <= 0x20_0000_0000_0000,
            ;
            assert(0 <= (tn as int) * (tn as int) <= 0x400_0000_0000_0000_0000_0000_0000)
                by (nonlinear_arith)
                requires
                    0 < tn <= 0x20_0000_0000_0000,
            ;
        }
        let num: i128 = (dpa as i128) * (den as i128) - (tn as i128) * (tn as i128);
        proof {
            // Lagrange's identity, one monomial at a time: the numerator
            // equals (apx*aby - apy*abx)^2, so it is nonnegative.
            let x2 = apx as int * apx as int;
            let y2 = apy as int * apy as int;
            let u2 = abx as int * abx as int;
            let v2 = aby as int * aby as int;
            let q1 = apx as int * abx as int;
            let q2 = apy as int * aby as int;
            let q3 = apx as int * aby as int;
            let q4 = apy as int * abx as int;
            assert((x2 + y2) * (u2 + v2) == x2 * u2 + x2 * v2 + y2 * u2 + y2 * v2)
                by (nonlinear_arith);
            assert((q1 + q2) * (q1 + q2) == q1 * q1 + 2 * (q1 * q2) + q2 * q2)
                by (nonlinear_arith);
            assert((q3 - q4) * (q3 - q4) == q3 * q3 - 2 * (q3 * q4) + q4 * q4)
                by (nonlinear_arith);
            assert(q1 * q1 == x2 * u2 && q2 * q2 == y2 * v2 && q3 * q3 == x2 * v2 && q4 * q4 == y2
                * u2 && q1 * q2 == q3 * q4) by (nonlinear_arith)
                requires
                    x2 == apx as int * apx as int,
                    y2 == apy as int * apy as int,
                    u2 == abx as int * abx as int,
                    v2 == aby as int * aby as int,
                    q1 == apx as int * abx as int,
                    q2 == apy as int * aby as int,
                    q3 == apx as int * aby as int,
                    q4 == apy as int * abx as int,
            ;
            assert((q3 - q4) * (q3 - q4) >= 0) by (nonlinear_arith);
            assert(num == (x2 + y2) * (u2 + v2) - (q1 + q2) * (q1 + q2));
            assert(num == (q3 - q4) * (q3 - q4));
        }
        (num as u128, den as u128)
    }
}

/// Floor of the Euclidean distance between two positions.
pub fn dist_floor(a: Vec2I, b: Vec2I) -> (r: u64)
    requires
        comp_bounded(a, 0x2000_0000),
        comp_bounded(b, 0x2000_0000),
    ensures
        r == sqrt_floor(dist_sq(a, b)),
{
    let sq = dist_sq_exec(a, b);
    isqrt(sq)
}

} // verus!
