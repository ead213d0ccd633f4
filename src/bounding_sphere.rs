use vstd::prelude::*;

use crate::geometry::{
    ceil_sqrt, ceil_sqrt_exec, dist2, dot, lemma_ceil_sqrt, lemma_norm2_nonneg, lemma_square_product,
    lemma_triangle,
    norm2, Ray, Vector3, COORD_LIMIT,
};

verus! {

/// Largest radius a bounding sphere may have.
pub const RADIUS_LIMIT: i64 = 1_099_511_627_776;

/// The most a merge can add to the larger of the two radii it merges.
pub const MERGE_GROWTH: i64 = 2_097_154;

/// A ball given by its center and radius, used as a conservative enclosure.
#[derive(Clone, Copy, Debug, PartialEq, Eq, Structural)]
pub struct BoundingSphere {
    pub center: Vector3,
    pub radius: i64,
}

/// `big` contains every point of `small`.
pub open spec fn encloses(big: BoundingSphere, small: BoundingSphere) -> bool {
    &&& big.radius >= small.radius
    &&& dist2(big.center, small.center) <= (big.radius - small.radius) * (big.radius
        - small.radius)
}

/// The point of `ray` at parameter `num / den` lies in `s` (scaled by `den`).
pub open spec fn ray_point_within(ray: Ray, s: BoundingSphere, num: int, den: int) -> bool {
    norm2(
        den * ray.origin.x + num * ray.dir.x - den * s.center.x,
        den * ray.origin.y + num * ray.dir.y - den * s.center.y,
        den * ray.origin.z + num * ray.dir.z - den * s.center.z,
    ) <= (den * s.radius) * (den * s.radius)
}

/// Some point of the half-line of `ray` lies in the ball `s`.
pub open spec fn hits(s: BoundingSphere, ray: Ray) -> bool {
    exists|num: int, den: int| num >= 0 && den > 0 && #[trigger] ray_point_within(ray, s, num, den)
}

/// The closed-form test: the origin is in the ball, or the ray heads towards the
/// center and the line passes within the radius of it.
pub open spec fn hit_test(ww: int, dd: int, wd: int, rr: int) -> bool {
    ww <= rr || (dd > 0 && wd >= 0 && ww * dd - wd * wd <= rr * dd)
}

/// Squared distance from the ray's origin to the center of `s`.
pub open spec fn offset_norm2(s: BoundingSphere, ray: Ray) -> int {
    dist2(s.center, ray.origin)
}

/// Squared length of the ray's direction.
pub open spec fn dir_norm2(ray: Ray) -> int {
    norm2(ray.dir.x as int, ray.dir.y as int, ray.dir.z as int)
}

/// Dot product of the offset from origin to center with the ray's direction.
pub open spec fn offset_dot_dir(s: BoundingSphere, ray: Ray) -> int {
    dot(
        s.center.x - ray.origin.x,
        s.center.y - ray.origin.y,
        s.center.z - ray.origin.z,
        ray.dir.x as int,
        ray.dir.y as int,
        ray.dir.z as int,
    )
}

/// Floor of the midpoint of two coordinates.
pub open spec fn mid(a: i64, b: i64) -> i64 {
    ((a + b) / 2) as i64
}

pub open spec fn midpoint(a: Vector3, b: Vector3) -> Vector3 {
    Vector3 { x: mid(a.x, b.x), y: mid(a.y, b.y), z: mid(a.z, b.z) }
}

pub open spec fn max_int(a: int, b: int) -> int {
    if a >= b {
        a
    } else {
        b
    }
}

/// The merge of two spheres: the one that holds the other if there is one,
/// else a sphere about the midpoint of the centers that reaches both.
pub open spec fn spec_merge(a: BoundingSphere, b: BoundingSphere) -> BoundingSphere {
    if encloses(a, b) {
        a
    } else if encloses(b, a) {
        b
    } else {
        let m = midpoint(a.center, b.center);
        let e = ceil_sqrt(max_int(dist2(m, a.center), dist2(m, b.center)));
        BoundingSphere { center: m, radius: (e + max_int(a.radius as int, b.radius as int)) as i64 }
    }
}

impl BoundingSphere {
    /// The center lies in the coordinate range and the radius in `0..=RADIUS_LIMIT`.
    pub open spec fn in_range(self) -> bool {
        self.center.in_range() && 0 <= self.radius <= RADIUS_LIMIT
    }

    pub fn new(center: Vector3, radius: i64) -> (r: BoundingSphere)
        ensures
            r == (BoundingSphere { center, radius }),
    {
        BoundingSphere { center, radius }
    }

    /// Whether some point of the ray's half-line lies in this ball.
    pub fn intersects_ray(&self, ray: &Ray) -> (r: bool)
        requires
            self.in_range(),
            ray.in_range(),
        ensures
            r == hits(*self, *ray),
    {
        let l: i128 = 2 * COORD_LIMIT as i128;
        let wx: i128 = self.center.x as i128 - ray.origin.x as i128;
        let wy: i128 = self.center.y as i128 - ray.origin.y as i128;
        let wz: i128 = self.center.z as i128 - ray.origin.z as i128;
        let dx: i128 = ray.dir.x as i128;
        let dy: i128 = ray.dir.y as i128;
        let dz: i128 = ray.dir.z as i128;
        let rad: i128 = self.radius as i128;
        proof {
            lemma_mul_within(wx as int, dx as int, l as int, COORD_LIMIT as int);
            lemma_mul_within(wy as int, dy as int, l as int, COORD_LIMIT as int);
            lemma_mul_within(wz as int, dz as int, l as int, COORD_LIMIT as int);
            lemma_mul_within(dx as int, 0, COORD_LIMIT as int, 0);
            lemma_mul_within(dy as int, 0, COORD_LIMIT as int, 0);
            lemma_mul_within(dz as int, 0, COORD_LIMIT as int, 0);
            lemma_mul_within(rad as int, 0, RADIUS_LIMIT as int, 0);
            lemma_hits_iff_test(*self, *ray);
        }
        let ww: i128 = wx * wx + wy * wy + wz * wz;
        let dd: i128 = dx * dx + dy * dy + dz * dz;
        let wd: i128 = wx * dx + wy * dy + wz * dz;
        let rr: i128 = rad * rad;
        if ww <= rr {
            true
        } else if dd > 0 && wd >= 0 {
            proof {
                let bw = 3 * (l * l);
                let bd = 3 * (COORD_LIMIT * COORD_LIMIT);
                let bx = 3 * (l * COORD_LIMIT);
                lemma_mul_within(ww as int, dd as int, bw, bd);
                lemma_mul_within(wd as int, wd as int, bx, bx);
                lemma_mul_within(rr as int, dd as int, RADIUS_LIMIT * RADIUS_LIMIT, bd);
            }
            ww * dd - wd * wd <= rr * dd
        } else {
            false
        }
    }

    /// Whether this ball contains every point of `other`.
    pub fn encloses(&self, other: &BoundingSphere) -> (r: bool)
        requires
            self.in_range(),
            other.in_range(),
        ensures
            r == encloses(*self, *other),
    {
        if self.radius < other.radius {
            return false;
        }
        let l: i128 = 2 * COORD_LIMIT as i128;
        let ux: i128 = self.center.x as i128 - other.center.x as i128;
        let uy: i128 = self.center.y as i128 - other.center.y as i128;
        let uz: i128 = self.center.z as i128 - other.center.z as i128;
        let gap: i128 = self.radius as i128 - other.radius as i128;
        proof {
            lemma_mul_within(ux as int, 0, l as int, 0);
            lemma_mul_within(uy as int, 0, l as int, 0);
            lemma_mul_within(uz as int, 0, l as int, 0);
            lemma_mul_within(gap as int, 0, RADIUS_LIMIT as int, 0);
        }
        ux * ux + uy * uy + uz * uz <= gap * gap
    }

    /// A sphere that encloses both `self` and `other`: the one of them that holds
    /// the other, else a sphere about the midpoint of the two centers.
    pub fn merge(&self, other: &BoundingSphere) -> (r: BoundingSphere)
        requires
            self.in_range(),
            other.in_range(),
            self.radius <= RADIUS_LIMIT - MERGE_GROWTH,
            other.radius <= RADIUS_LIMIT - MERGE_GROWTH,
        ensures
            r == spec_merge(*self, *other),
            r.in_range(),
            encloses(r, *self),
            encloses(r, *other),
            r.radius <= max_int(self.radius as int, other.radius as int) + MERGE_GROWTH,
            2 * (r.radius - max_int(self.radius as int, other.radius as int)) <= ceil_sqrt(
                dist2(self.center, other.center),
            ) + 3,
    {
        proof {
            lemma_merge_encloses(*self, *other);
            lemma_merge_tight(*self, *other);
        }
        if self.encloses(other) {
            return *self;
        }
        if other.encloses(self) {
            return *other;
        }
        let m = Vector3 {
            x: mid_exec(self.center.x, other.center.x),
            y: mid_exec(self.center.y, other.center.y),
            z: mid_exec(self.center.z, other.center.z),
        };
        let da = dist2_exec(&m, &self.center);
        let db = dist2_exec(&m, &other.center);
        let far = if da >= db {
            da
        } else {
            db
        };
        proof {
            lemma_offset_bound(m, self.center);
            lemma_offset_bound(m, other.center);
        }
        let e = ceil_sqrt_exec(far);
        let big = if self.radius >= other.radius {
            self.radius
        } else {
            other.radius
        };
        BoundingSphere { center: m, radius: e + big }
    }
}

/// Floor of the midpoint of two in-range coordinates.
fn mid_exec(a: i64, b: i64) -> (r: i64)
    requires
        -COORD_LIMIT <= a <= COORD_LIMIT,
        -COORD_LIMIT <= b <= COORD_LIMIT,
    ensures
        r == mid(a, b),
        -COORD_LIMIT <= r <= COORD_LIMIT,
{
    let shifted: u64 = (a + b + 2 * COORD_LIMIT) as u64;
    (shifted / 2) as i64 - COORD_LIMIT
}

/// Squared distance between `m` and `c`, whose coordinates differ by at most
/// `COORD_LIMIT + 1`.
fn dist2_exec(m: &Vector3, c: &Vector3) -> (r: i128)
    requires
        c.in_range(),
        -COORD_LIMIT - 1 <= m.x - c.x <= COORD_LIMIT + 1,
        -COORD_LIMIT - 1 <= m.y - c.y <= COORD_LIMIT + 1,
        -COORD_LIMIT - 1 <= m.z - c.z <= COORD_LIMIT + 1,
    ensures
        r == dist2(*m, *c),
{
    let ux: i128 = m.x as i128 - c.x as i128;
    let uy: i128 = m.y as i128 - c.y as i128;
    let uz: i128 = m.z as i128 - c.z as i128;
    proof {
        lemma_offset_bound(*m, *c);
        lemma_mul_within(ux as int, 0, COORD_LIMIT + 1, 0);
        lemma_mul_within(uy as int, 0, COORD_LIMIT + 1, 0);
        lemma_mul_within(uz as int, 0, COORD_LIMIT + 1, 0);
        assert((COORD_LIMIT + 1) * (COORD_LIMIT + 1) == 1_099_513_724_929) by (nonlinear_arith);
    }
    ux * ux + uy * uy + uz * uz
}


/// The scaled offset from the center of `s` to the point of `ray` at `n / e`,
/// squared and expanded in dot products.
proof fn lemma_scaled_offset(ray: Ray, s: BoundingSphere, n: int, e: int)
    ensures
        norm2(
            e * ray.origin.x + n * ray.dir.x - e * s.center.x,
            e * ray.origin.y + n * ray.dir.y - e * s.center.y,
            e * ray.origin.z + n * ray.dir.z - e * s.center.z,
        ) == (n * n) * dir_norm2(ray) - 2 * ((n * e) * offset_dot_dir(s, ray)) + (e * e)
            * offset_norm2(s, ray),
{
    let (wx, wy, wz) = (
        s.center.x - ray.origin.x,
        s.center.y - ray.origin.y,
        s.center.z - ray.origin.z,
    );
    let (dx, dy, dz) = (ray.dir.x as int, ray.dir.y as int, ray.dir.z as int);
    let (ox, oy, oz) = (ray.origin.x as int, ray.origin.y as int, ray.origin.z as int);
    let (cx, cy, cz) = (s.center.x as int, s.center.y as int, s.center.z as int);
    assert(e * ox + n * dx - e * cx == n * dx - e * wx) by (nonlinear_arith)
        requires
            wx == cx - ox,
    ;
    assert(e * oy + n * dy - e * cy == n * dy - e * wy) by (nonlinear_arith)
        requires
            wy == cy - oy,
    ;
    assert(e * oz + n * dz - e * cz == n * dz - e * wz) by (nonlinear_arith)
        requires
            wz == cz - oz,
    ;
    let nn = n * n;
    let ne = n * e;
    let ee = e * e;
    lemma_scaled_coordinate(n, e, wx, dx);
    lemma_scaled_coordinate(n, e, wy, dy);
    lemma_scaled_coordinate(n, e, wz, dz);
    assert(nn * (dx * dx + dy * dy + dz * dz) == nn * (dx * dx) + nn * (dy * dy) + nn * (dz * dz))
        by (nonlinear_arith);
    assert(ne * (wx * dx + wy * dy + wz * dz) == ne * (wx * dx) + ne * (wy * dy) + ne * (wz * dz))
        by (nonlinear_arith);
    assert(ee * (wx * wx + wy * wy + wz * wz) == ee * (wx * wx) + ee * (wy * wy) + ee * (wz * wz))
        by (nonlinear_arith);
}

proof fn lemma_scaled_coordinate(n: int, e: int, w: int, d: int)
    ensures
        (n * d - e * w) * (n * d - e * w) == (n * n) * (d * d) - 2 * ((n * e) * (w * d)) + (e * e)
            * (w * w),
{
    let a = n * d;
    let b = e * w;
    assert((a - b) * (a - b) == a * a - 2 * (a * b) + b * b) by (nonlinear_arith);
    lemma_square_product(n, d);
    lemma_square_product(e, w);
    assert(a * b == (n * e) * (w * d)) by (nonlinear_arith)
        requires
            a == n * d,
            b == e * w,
    ;
}

/// Completing the square in the ray parameter.
proof fn lemma_completed_square(n: int, e: int, dd: int, wd: int, ww: int)
    ensures
        dd * ((n * n) * dd - 2 * ((n * e) * wd) + (e * e) * ww) == (n * dd - e * wd) * (n * dd - e
            * wd) + (e * e) * (ww * dd - wd * wd),
{
    let a = n * dd;
    let b = e * wd;
    assert((a - b) * (a - b) == a * a - 2 * (a * b) + b * b) by (nonlinear_arith);
    assert(a * a == dd * ((n * n) * dd)) by (nonlinear_arith)
        requires
            a == n * dd,
    ;
    assert(a * b == dd * ((n * e) * wd)) by (nonlinear_arith)
        requires
            a == n * dd,
            b == e * wd,
    ;
    assert(b * b == (e * e) * (wd * wd)) by (nonlinear_arith)
        requires
            b == e * wd,
    ;
    let f1 = (n * n) * dd;
    let f2 = (n * e) * wd;
    let f3 = (e * e) * ww;
    assert(dd * (f1 - 2 * f2 + f3) == dd * f1 - 2 * (dd * f2) + dd * f3) by (nonlinear_arith);
    assert(dd * f3 == (e * e) * (ww * dd)) by (nonlinear_arith)
        requires
            f3 == (e * e) * ww,
    ;
    assert((e * e) * (ww * dd - wd * wd) == (e * e) * (ww * dd) - (e * e) * (wd * wd))
        by (nonlinear_arith);
}

/// The existential definition of `hits` agrees with the closed-form test.
pub proof fn lemma_hits_iff_test(s: BoundingSphere, ray: Ray)
    ensures
        hits(s, ray) == hit_test(
            offset_norm2(s, ray),
            dir_norm2(ray),
            offset_dot_dir(s, ray),
            s.radius * s.radius,
        ),
{
    let ww = offset_norm2(s, ray);
    let dd = dir_norm2(ray);
    let wd = offset_dot_dir(s, ray);
    let r = s.radius as int;
    let rr = r * r;
    lemma_norm2_nonneg(
        s.center.x - ray.origin.x,
        s.center.y - ray.origin.y,
        s.center.z - ray.origin.z,
    );
    lemma_norm2_nonneg(ray.dir.x as int, ray.dir.y as int, ray.dir.z as int);
    if hit_test(ww, dd, wd, rr) {
        if ww <= rr {
            lemma_scaled_offset(ray, s, 0, 1);
            assert(ray_point_within(ray, s, 0, 1));
        } else {
            lemma_scaled_offset(ray, s, wd, dd);
            assert((wd * wd) * dd - 2 * ((wd * dd) * wd) + (dd * dd) * ww <= (dd * r) * (dd * r))
                by (nonlinear_arith)
                requires
                    ww * dd - wd * wd <= rr * dd,
                    rr == r * r,
                    dd > 0,
            ;
            assert(ray_point_within(ray, s, wd, dd));
        }
    } else {
        if hits(s, ray) {
            let (n, e) = choose|n: int, e: int|
                n >= 0 && e > 0 && #[trigger] ray_point_within(ray, s, n, e);
            lemma_scaled_offset(ray, s, n, e);
            let f = (n * n) * dd - 2 * ((n * e) * wd) + (e * e) * ww;
            assert(f <= (e * r) * (e * r));
            if wd < 0 || dd == 0 {
                if dd == 0 {
                    let (dx, dy, dz) = (ray.dir.x as int, ray.dir.y as int, ray.dir.z as int);
                    assert(dx == 0 && dy == 0 && dz == 0) by (nonlinear_arith)
                        requires
                            dx * dx + dy * dy + dz * dz == 0,
                    ;
                    assert(wd == 0);
                }
                assert(ww <= rr) by (nonlinear_arith)
                    requires
                        f == (n * n) * dd - 2 * ((n * e) * wd) + (e * e) * ww,
                        f <= (e * r) * (e * r),
                        rr == r * r,
                        wd <= 0,
                        dd >= 0,
                        n >= 0,
                        e > 0,
                ;
            } else {
                let ee = e * e;
                lemma_completed_square(n, e, dd, wd, ww);
                assert((n * dd - e * wd) * (n * dd - e * wd) >= 0) by (nonlinear_arith);
                assert(dd * f <= dd * (ee * rr)) by (nonlinear_arith)
                    requires
                        f <= (e * r) * (e * r),
                        ee == e * e,
                        rr == r * r,
                        dd > 0,
                ;
                assert(ee > 0) by (nonlinear_arith)
                    requires
                        ee == e * e,
                        e > 0,
                ;
                assert(ww * dd - wd * wd <= rr * dd) by (nonlinear_arith)
                    requires
                        ee * (ww * dd - wd * wd) <= dd * (ee * rr),
                        ee > 0,
                ;
            }
        }
    }
}

/// Bounds a product by the product of bounds on the factors' magnitudes.
pub proof fn lemma_mul_within(a: int, b: int, ba: int, bb: int)
    requires
        -ba <= a <= ba,
        -bb <= b <= bb,
    ensures
        -(ba * bb) <= a * b <= ba * bb,
        0 <= a * a <= ba * ba,
{
    assert(-(ba * bb) <= a * b <= ba * bb) by (nonlinear_arith)
        requires
            -ba <= a <= ba,
            -bb <= b <= bb,
    ;
    assert(0 <= a * a <= ba * ba) by (nonlinear_arith)
        requires
            -ba <= a <= ba,
    ;
}

/// A ball that encloses another is hit by every ray that hits the other.
pub proof fn lemma_enclosure_keeps_hits(big: BoundingSphere, small: BoundingSphere, ray: Ray)
    requires
        encloses(big, small),
        small.radius >= 0,
        hits(small, ray),
    ensures
        hits(big, ray),
{
    let (n, e) = choose|n: int, e: int|
        n >= 0 && e > 0 && #[trigger] ray_point_within(ray, small, n, e);
    let (x1, x2, x3) = (
        e * ray.origin.x + n * ray.dir.x - e * small.center.x,
        e * ray.origin.y + n * ray.dir.y - e * small.center.y,
        e * ray.origin.z + n * ray.dir.z - e * small.center.z,
    );
    let (u1, u2, u3) = (
        small.center.x - big.center.x,
        small.center.y - big.center.y,
        small.center.z - big.center.z,
    );
    let rs = small.radius as int;
    let rb = big.radius as int;
    assert(e * small.center.x - e * big.center.x == e * u1) by (nonlinear_arith)
        requires
            u1 == small.center.x - big.center.x,
    ;
    assert(e * small.center.y - e * big.center.y == e * u2) by (nonlinear_arith)
        requires
            u2 == small.center.y - big.center.y,
    ;
    assert(e * small.center.z - e * big.center.z == e * u3) by (nonlinear_arith)
        requires
            u3 == small.center.z - big.center.z,
    ;
    lemma_square_product(e, u1);
    lemma_square_product(e, u2);
    lemma_square_product(e, u3);
    assert(norm2(u1, u2, u3) == dist2(big.center, small.center)) by (nonlinear_arith)
        requires
            u1 == small.center.x - big.center.x,
            u2 == small.center.y - big.center.y,
            u3 == small.center.z - big.center.z,
    ;
    let ee = e * e;
    let nu = norm2(u1, u2, u3);
    assert(ee * (u1 * u1) + ee * (u2 * u2) + ee * (u3 * u3) == ee * nu) by (nonlinear_arith)
        requires
            nu == norm2(u1, u2, u3),
    ;
    assert(ee * nu <= (e * (rb - rs)) * (e * (rb - rs))) by (nonlinear_arith)
        requires
            nu <= (rb - rs) * (rb - rs),
            ee == e * e,
    ;
    assert(e * rs >= 0 && e * (rb - rs) >= 0) by (nonlinear_arith)
        requires
            e > 0,
            rs >= 0,
            rb >= rs,
    ;
    lemma_triangle(x1, x2, x3, e * u1, e * u2, e * u3, e * rs, e * (rb - rs));
    assert(e * rs + e * (rb - rs) == e * rb) by (nonlinear_arith);
    assert(ray_point_within(ray, big, n, e));
}

/// The sphere that `spec_merge` builds encloses both inputs and stays in range.
pub proof fn lemma_merge_encloses(a: BoundingSphere, b: BoundingSphere)
    requires
        a.in_range(),
        b.in_range(),
        a.radius <= RADIUS_LIMIT - MERGE_GROWTH,
        b.radius <= RADIUS_LIMIT - MERGE_GROWTH,
    ensures
        encloses(spec_merge(a, b), a),
        encloses(spec_merge(a, b), b),
        spec_merge(a, b).in_range(),
        spec_merge(a, b).radius <= max_int(a.radius as int, b.radius as int) + MERGE_GROWTH,
{
    if !encloses(a, b) && !encloses(b, a) {
        let m = midpoint(a.center, b.center);
        let l = COORD_LIMIT + 1;
        lemma_offset_bound(m, a.center);
        lemma_offset_bound(m, b.center);
        let x = max_int(dist2(m, a.center), dist2(m, b.center));
        let e = ceil_sqrt(x);
        lemma_ceil_sqrt(x);
        assert(x <= 3 * (l * l));
        assert((2 * l) * (2 * l) == 4 * (l * l)) by (nonlinear_arith);
        assert(e <= MERGE_GROWTH) by {
            if e > MERGE_GROWTH {
                assert(MERGE_GROWTH == 2 * l);
                assert((e - 1) * (e - 1) >= (2 * l) * (2 * l)) by (nonlinear_arith)
                    requires
                        e - 1 >= 2 * l,
                        l > 0,
                ;
            }
        }
        let big = max_int(a.radius as int, b.radius as int);
        assert(e * e <= (e + big - a.radius) * (e + big - a.radius)) by (nonlinear_arith)
            requires
                e >= 0,
                big >= a.radius,
        ;
        assert(e * e <= (e + big - b.radius) * (e + big - b.radius)) by (nonlinear_arith)
            requires
                e >= 0,
                big >= b.radius,
        ;
    }
}

/// Each coordinate of the midpoint `m` of two centers lies within `COORD_LIMIT + 1`
/// of either center, so the squared distance is at most `3 (COORD_LIMIT + 1)^2`.
proof fn lemma_offset_bound(m: Vector3, c: Vector3)
    requires
        c.in_range(),
        -COORD_LIMIT - 1 <= m.x - c.x <= COORD_LIMIT + 1,
        -COORD_LIMIT - 1 <= m.y - c.y <= COORD_LIMIT + 1,
        -COORD_LIMIT - 1 <= m.z - c.z <= COORD_LIMIT + 1,
    ensures
        0 <= dist2(m, c) <= 3 * ((COORD_LIMIT + 1) * (COORD_LIMIT + 1)),
{
    let l = COORD_LIMIT + 1;
    lemma_mul_within(m.x - c.x, 0, l, 0);
    lemma_mul_within(m.y - c.y, 0, l, 0);
    lemma_mul_within(m.z - c.z, 0, l, 0);
}

/// The merge is close to the least enclosing sphere, whose radius is at least
/// the larger input radius and at least half the distance between centers:
/// the merge exceeds the larger input radius by at most half the distance
/// between the centers, rounded up, plus two.
pub proof fn lemma_merge_tight(a: BoundingSphere, b: BoundingSphere)
    requires
        a.in_range(),
        b.in_range(),
    ensures
        2 * (spec_merge(a, b).radius - max_int(a.radius as int, b.radius as int)) <= ceil_sqrt(
            dist2(a.center, b.center),
        ) + 3,
{
    let dd = ceil_sqrt(dist2(a.center, b.center));
    lemma_ceil_sqrt(dist2(a.center, b.center));
    if !encloses(a, b) && !encloses(b, a) {
        lemma_merge_tight_apart(a, b);
    }
}

proof fn lemma_merge_tight_apart(a: BoundingSphere, b: BoundingSphere)
    requires
        !encloses(a, b),
        !encloses(b, a),
    ensures
        2 * (spec_merge(a, b).radius - max_int(a.radius as int, b.radius as int)) <= ceil_sqrt(
            dist2(a.center, b.center),
        ) + 3,
{
    let dd = ceil_sqrt(dist2(a.center, b.center));
    lemma_ceil_sqrt(dist2(a.center, b.center));
    let m = midpoint(a.center, b.center);
    let (u1, u2, u3) = (
        2 * m.x - a.center.x - b.center.x,
        2 * m.y - a.center.y - b.center.y,
        2 * m.z - a.center.z - b.center.z,
    );
    assert(-1 <= u1 <= 0 && -1 <= u2 <= 0 && -1 <= u3 <= 0);
    lemma_mul_within(u1, 0, 1, 0);
    lemma_mul_within(u2, 0, 1, 0);
    lemma_mul_within(u3, 0, 1, 0);
    assert(norm2(u1, u2, u3) <= 2 * 2);
    let (v1, v2, v3) = (
        b.center.x - a.center.x,
        b.center.y - a.center.y,
        b.center.z - a.center.z,
    );
    assert(norm2(v1, v2, v3) == dist2(a.center, b.center)) by (nonlinear_arith)
        requires
            v1 == b.center.x - a.center.x,
            v2 == b.center.y - a.center.y,
            v3 == b.center.z - a.center.z,
    ;
    assert(norm2(-v1, -v2, -v3) == dist2(a.center, b.center)) by (nonlinear_arith)
        requires
            v1 == b.center.x - a.center.x,
            v2 == b.center.y - a.center.y,
            v3 == b.center.z - a.center.z,
    ;
    lemma_triangle(u1, u2, u3, v1, v2, v3, 2, dd);
    lemma_triangle(u1, u2, u3, -v1, -v2, -v3, 2, dd);
    lemma_scaled_norm2(m, a.center);
    lemma_scaled_norm2(m, b.center);
    let x = max_int(dist2(m, a.center), dist2(m, b.center));
    let e = ceil_sqrt(x);
    lemma_ceil_sqrt(x);
    assert(4 * x <= (dd + 2) * (dd + 2));
    if 2 * e > dd + 3 {
        assert(4 * ((e - 1) * (e - 1)) >= (dd + 2) * (dd + 2)) by (nonlinear_arith)
            requires
                2 * (e - 1) >= dd + 2,
                dd >= 0,
        ;
    }
}

/// Twice the offset from `c` to `m`, squared.
proof fn lemma_scaled_norm2(m: Vector3, c: Vector3)
    ensures
        norm2(2 * m.x - 2 * c.x, 2 * m.y - 2 * c.y, 2 * m.z - 2 * c.z) == 4 * dist2(m, c),
{
    let (w1, w2, w3) = (m.x - c.x, m.y - c.y, m.z - c.z);
    assert(norm2(2 * w1, 2 * w2, 2 * w3) == 4 * norm2(w1, w2, w3)) by (nonlinear_arith);
}

/// Merging keeps every ray hit: a ray that hits either input hits the merge.
pub proof fn lemma_merge_monotone(a: BoundingSphere, b: BoundingSphere, ray: Ray)
    requires
        a.in_range(),
        b.in_range(),
        a.radius <= RADIUS_LIMIT - MERGE_GROWTH,
        b.radius <= RADIUS_LIMIT - MERGE_GROWTH,
    ensures
        hits(a, ray) ==> hits(spec_merge(a, b), ray),
        hits(b, ray) ==> hits(spec_merge(a, b), ray),
{
    lemma_merge_encloses(a, b);
    if hits(a, ray) {
        lemma_enclosure_keeps_hits(spec_merge(a, b), a, ray);
    }
    if hits(b, ray) {
        lemma_enclosure_keeps_hits(spec_merge(a, b), b, ray);
    }
}

} // verus!
