use vstd::prelude::*;

verus! {

/// Largest magnitude accepted for a coordinate of a point or of a ray direction.
pub const COORD_LIMIT: i64 = 1_048_576;

/// A point or a displacement in three-dimensional space, on the integer grid.
#[derive(Clone, Copy, Debug, PartialEq, Eq, Structural)]
pub struct Vector3 {
    pub x: i64,
    pub y: i64,
    pub z: i64,
}

impl Vector3 {
    /// Every coordinate lies within `COORD_LIMIT` of zero.
    pub open spec fn in_range(self) -> bool {
        &&& -COORD_LIMIT <= self.x <= COORD_LIMIT
        &&& -COORD_LIMIT <= self.y <= COORD_LIMIT
        &&& -COORD_LIMIT <= self.z <= COORD_LIMIT
    }

    pub fn new(x: i64, y: i64, z: i64) -> (r: Vector3)
        ensures
            r == (Vector3 { x, y, z }),
    {
        Vector3 { x, y, z }
    }
}

/// Squared Euclidean length of `(x, y, z)`.
pub open spec fn norm2(x: int, y: int, z: int) -> int {
    x * x + y * y + z * z
}

/// Dot product of `(ax, ay, az)` and `(bx, by, bz)`.
pub open spec fn dot(ax: int, ay: int, az: int, bx: int, by: int, bz: int) -> int {
    ax * bx + ay * by + az * bz
}

/// Squared distance between two grid points.
pub open spec fn dist2(a: Vector3, b: Vector3) -> int {
    norm2(a.x - b.x, a.y - b.y, a.z - b.z)
}

/// A half-line: the points `origin + t * dir` for every `t >= 0`.
/// The direction need not be normalised; a zero direction leaves only the origin.
#[derive(Clone, Copy, Debug, PartialEq, Eq, Structural)]
pub struct Ray {
    pub origin: Vector3,
    pub dir: Vector3,
}

impl Ray {
    pub open spec fn in_range(self) -> bool {
        self.origin.in_range() && self.dir.in_range()
    }

    pub fn new(origin: Vector3, dir: Vector3) -> (r: Ray)
        ensures
            r == (Ray { origin, dir }),
    {
        Ray { origin, dir }
    }
}

pub proof fn lemma_norm2_nonneg(x: int, y: int, z: int)
    ensures
        norm2(x, y, z) >= 0,
{
    assert(x * x >= 0) by (nonlinear_arith);
    assert(y * y >= 0) by (nonlinear_arith);
    assert(z * z >= 0) by (nonlinear_arith);
}

pub proof fn lemma_square_product(a: int, b: int)
    ensures
        (a * a) * (b * b) == (a * b) * (a * b),
{
    assert((a * a) * (b * b) == (a * b) * (a * b)) by (nonlinear_arith);
}

proof fn lemma_lagrange_identity(ax: int, ay: int, az: int, bx: int, by: int, bz: int)
    ensures
        (ax * ax + ay * ay + az * az) * (bx * bx + by * by + bz * bz) - (ax * bx + ay * by + az
            * bz) * (ax * bx + ay * by + az * bz) == (ax * by - ay * bx) * (ax * by - ay * bx) + (
        ax * bz - az * bx) * (ax * bz - az * bx) + (ay * bz - az * by) * (ay * bz - az * by),
{
    let (xx, yy, zz) = (ax * bx, ay * by, az * bz);
    let (xy, yx, xz, zx, yz, zy) = (ax * by, ay * bx, ax * bz, az * bx, ay * bz, az * by);
    let (a1, a2, a3, b1, b2, b3) = (ax * ax, ay * ay, az * az, bx * bx, by * by, bz * bz);
    assert((a1 + a2 + a3) * (b1 + b2 + b3) == a1 * b1 + a1 * b2 + a1 * b3 + a2 * b1 + a2 * b2 + a2
        * b3 + a3 * b1 + a3 * b2 + a3 * b3) by (nonlinear_arith);
    lemma_square_product(ax, bx);
    lemma_square_product(ax, by);
    lemma_square_product(ax, bz);
    lemma_square_product(ay, bx);
    lemma_square_product(ay, by);
    lemma_square_product(ay, bz);
    lemma_square_product(az, bx);
    lemma_square_product(az, by);
    lemma_square_product(az, bz);
    assert((xx + yy + zz) * (xx + yy + zz) == xx * xx + yy * yy + zz * zz + 2 * (xx * yy) + 2 * (
    xx * zz) + 2 * (yy * zz)) by (nonlinear_arith);
    assert(xx * yy == xy * yx) by (nonlinear_arith)
        requires
            xx == ax * bx,
            yy == ay * by,
            xy == ax * by,
            yx == ay * bx,
    ;
    assert(xx * zz == xz * zx) by (nonlinear_arith)
        requires
            xx == ax * bx,
            zz == az * bz,
            xz == ax * bz,
            zx == az * bx,
    ;
    assert(yy * zz == yz * zy) by (nonlinear_arith)
        requires
            yy == ay * by,
            zz == az * bz,
            yz == ay * bz,
            zy == az * by,
    ;
    assert((xy - yx) * (xy - yx) == xy * xy + yx * yx - 2 * (xy * yx)) by (nonlinear_arith);
    assert((xz - zx) * (xz - zx) == xz * xz + zx * zx - 2 * (xz * zx)) by (nonlinear_arith);
    assert((yz - zy) * (yz - zy) == yz * yz + zy * zy - 2 * (yz * zy)) by (nonlinear_arith);
}

/// Lagrange's identity in three dimensions gives Cauchy-Schwarz.
proof fn lemma_cauchy_schwarz(ax: int, ay: int, az: int, bx: int, by: int, bz: int)
    ensures
        dot(ax, ay, az, bx, by, bz) * dot(ax, ay, az, bx, by, bz) <= norm2(ax, ay, az) * norm2(
            bx,
            by,
            bz,
        ),
{
    let p = ax * by - ay * bx;
    let q = ax * bz - az * bx;
    let u = ay * bz - az * by;
    lemma_lagrange_identity(ax, ay, az, bx, by, bz);
    lemma_norm2_nonneg(p, q, u);
}

/// If `|x| <= a` and `|y| <= b` then `|x + y| <= a + b`, squared.
pub proof fn lemma_triangle(
    x1: int,
    x2: int,
    x3: int,
    y1: int,
    y2: int,
    y3: int,
    a: int,
    b: int,
)
    requires
        a >= 0,
        b >= 0,
        norm2(x1, x2, x3) <= a * a,
        norm2(y1, y2, y3) <= b * b,
    ensures
        norm2(x1 + y1, x2 + y2, x3 + y3) <= (a + b) * (a + b),
{
    let d = dot(x1, x2, x3, y1, y2, y3);
    let nx = norm2(x1, x2, x3);
    let ny = norm2(y1, y2, y3);
    lemma_cauchy_schwarz(x1, x2, x3, y1, y2, y3);
    lemma_norm2_nonneg(x1, x2, x3);
    lemma_norm2_nonneg(y1, y2, y3);
    assert(nx * ny <= (a * a) * (b * b)) by (nonlinear_arith)
        requires
            0 <= nx <= a * a,
            0 <= ny <= b * b,
    ;
    assert(d <= a * b) by (nonlinear_arith)
        requires
            d * d <= (a * a) * (b * b),
            a >= 0,
            b >= 0,
    ;
    assert(norm2(x1 + y1, x2 + y2, x3 + y3) == nx + 2 * d + ny) by (nonlinear_arith)
        requires
            d == dot(x1, x2, x3, y1, y2, y3),
            nx == norm2(x1, x2, x3),
            ny == norm2(y1, y2, y3),
    ;
    assert((a + b) * (a + b) == a * a + 2 * (a * b) + b * b) by (nonlinear_arith);
}

/// The least non-negative `s` with `s * s >= x`.
pub open spec fn ceil_sqrt(x: int) -> int
    decreases x,
{
    if x <= 0 {
        0
    } else {
        let s = ceil_sqrt(x - 1);
        if s * s >= x {
            s
        } else {
            s + 1
        }
    }
}

pub open spec fn is_ceil_sqrt(x: int, s: int) -> bool {
    &&& s >= 0
    &&& s * s >= x
    &&& s == 0 || (s - 1) * (s - 1) < x
}

pub proof fn lemma_ceil_sqrt(x: int)
    ensures
        is_ceil_sqrt(x, ceil_sqrt(x)),
    decreases x,
{
    if x > 0 {
        lemma_ceil_sqrt(x - 1);
        let s = ceil_sqrt(x - 1);
        if s * s < x {
            assert((s + 1) * (s + 1) == s * s + 2 * s + 1) by (nonlinear_arith);
        }
    }
}

/// Only one value meets the defining property of `ceil_sqrt`.
pub proof fn lemma_ceil_sqrt_unique(x: int, s: int)
    requires
        is_ceil_sqrt(x, s),
    ensures
        s == ceil_sqrt(x),
{
    lemma_ceil_sqrt(x);
    let t = ceil_sqrt(x);
    if s < t {
        assert((t - 1) * (t - 1) >= s * s) by (nonlinear_arith)
            requires
                0 <= s <= t - 1,
        ;
    } else if t < s {
        assert((s - 1) * (s - 1) >= t * t) by (nonlinear_arith)
            requires
                0 <= t <= s - 1,
        ;
    }
}

/// Upper bound on the argument of `ceil_sqrt_exec`.
pub const SQRT_ARG_LIMIT: i128 = 70_368_744_177_664;

/// Computes `ceil_sqrt(x)` by bisection.
pub fn ceil_sqrt_exec(x: i128) -> (s: i64)
    requires
        0 <= x <= SQRT_ARG_LIMIT,
    ensures
        s == ceil_sqrt(x as int),
        0 <= s <= 8_388_608,
{
    let mut lo: i64 = 0;
    let mut hi: i64 = 8_388_608;
    assert(8_388_608 * 8_388_608 == SQRT_ARG_LIMIT);
    while lo < hi
        invariant
            0 <= lo <= hi <= 8_388_608,
            hi * hi >= x,
            lo == 0 || (lo - 1) * (lo - 1) < x,
        decreases hi - lo,
    {
        let mid: i64 = lo + (hi - lo) / 2;
        assert(mid * mid <= 8_388_608 * 8_388_608) by (nonlinear_arith)
            requires
                0 <= mid <= 8_388_608,
        ;
        let sq: i128 = (mid as i128) * (mid as i128);
        if sq >= x {
            hi = mid;
        } else {
            lo = mid + 1;
        }
    }
    proof {
        lemma_ceil_sqrt_unique(x as int, lo as int);
    }
    lo
}

} // verus!
