//! The camera's frame: three axes that are orthonormal and right-handed to
//! within rounding, and square to the line of sight.
//!
//! An axis has 30 fraction bits, so 1073741824 stands for 1.0, and
//! 1152921504606846976, its square, for 1.0 among squared lengths and dot
//! products of axes.

use crate::fixed::{isqrt, lemma_isqrt_bounds, lemma_trunc_div_remainder, trunc_div};
use crate::vector::{
    abs, lemma_norm_sq_positive, lemma_product_bound, lemma_reduced, lemma_unit_component,
    lemma_unit_length, unit_component, Vec3,
};
use vstd::prelude::*;

verus! {

/// The axis that points from `look_at` back to `look_from`.
pub open spec fn axis_w(look_from: Vec3, look_at: Vec3) -> Vec3 {
    look_from.minus(look_at).normalized()
}

/// The camera's right axis: square to the up hint and to the line of sight.
pub open spec fn axis_u(look_from: Vec3, look_at: Vec3, vup: Vec3) -> Vec3 {
    vup.cross(look_from.minus(look_at)).normalized()
}

/// The camera's up axis.
pub open spec fn axis_v(look_from: Vec3, look_at: Vec3, vup: Vec3) -> Vec3 {
    axis_w(look_from, look_at).cross(axis_u(look_from, look_at, vup)).over(1073741824)
}

/// Two points and an up hint that a frame can be built from: 32-bit, the
/// points distinct, the hint not parallel to the line between them.
pub open spec fn valid_placement(look_from: Vec3, look_at: Vec3, vup: Vec3) -> bool {
    &&& look_from.within(0x8000_0000)
    &&& look_at.within(0x8000_0000)
    &&& vup.within(0x8000_0000)
    &&& look_from != look_at
    &&& vup.cross(look_from.minus(look_at)) != Vec3::zero()
}

/// The squared length of `a` is 1.0 less at most `slack`.
pub open spec fn unit_to_within(a: Vec3, slack: int) -> bool {
    1152921504606846976 - slack <= a.norm_sq() <= 1152921504606846976
}

/// The dot product of `a` and `b` is 0 give or take `slack`.
pub open spec fn perpendicular_to_within(a: Vec3, b: Vec3, slack: int) -> bool {
    -slack <= a.dot(b) <= slack
}

/// Squaring keeps the order of non-negative numbers.
proof fn lemma_square_order(x: int, y: int)
    requires
        x >= 0,
        y >= 0,
    ensures
        x * x <= y * y ==> x <= y,
        x * x < y * y ==> x < y,
{
    if x > y {
        assert(x * x > y * y) by (nonlinear_arith)
            requires
                x > y,
                y >= 0,
        ;
    }
    if x >= y {
        assert(x * x >= y * y) by (nonlinear_arith)
            requires
                x >= y,
                y >= 0,
        ;
    }
}

/// The floor of `c * sqrt(q)` is at least `c * m` where `m * m <= q`.
proof fn lemma_scaled_root(q: int, c: int, m: int) -> (r: int)
    requires
        q > 0,
        c > 0,
        m >= 1,
        m * m <= q,
    ensures
        r >= c * m,
        r >= c,
        r * r <= (c * c) * q,
        (c * c) * q < (r + 1) * (r + 1),
{
    let c2 = c * c;
    assert(c2 > 0) by (nonlinear_arith)
        requires
            c2 == c * c,
            c > 0,
    ;
    assert(c2 * q > 0) by (nonlinear_arith)
        requires
            c2 > 0,
            q > 0,
    ;
    let n = (c2 * q) as nat;
    let r = isqrt(n) as int;
    lemma_isqrt_bounds(n);
    let x = c * m;
    assert(x >= c && x >= 0) by (nonlinear_arith)
        requires
            x == c * m,
            c > 0,
            m >= 1,
    ;
    assert(x * x == c2 * (m * m)) by (nonlinear_arith)
        requires
            x == c * m,
            c2 == c * c,
    ;
    assert(c2 * (m * m) <= c2 * q) by (nonlinear_arith)
        requires
            m * m <= q,
            c2 > 0,
    ;
    lemma_square_order(x, r + 1);
    r
}

/// How far a component of a unit vector is from the exact quotient. With `r`
/// the floor of `c * sqrt(q)`, the exact component times `r` is
/// `c * 2^30 * a`; the rounded one misses it by at most `r + 2^30`.
proof fn lemma_unit_residual(a: int, q: int, c: int, r: int)
    requires
        q > 0,
        a * a <= q,
        c > 0,
        r >= 0,
        r * r <= (c * c) * q,
        (c * c) * q < (r + 1) * (r + 1),
    ensures
        -(r + 1073741824) <= c * 1073741824 * a - r * unit_component(a, q) <= r + 1073741824,
{
    lemma_unit_component(a, q);
    let u = unit_component(a, q);
    let m = abs(u);
    let aa = a * a;
    let mag = abs(a);
    let c2 = c * c;
    let n = c2 * q;
    let m2 = m * m;
    let t1 = (m + 1) * (m + 1);
    let x = c * 1073741824 * mag;
    let y = r * m;
    let z = (m + 1) * (r + 1);
    assert(c2 > 0) by (nonlinear_arith)
        requires
            c2 == c * c,
            c > 0,
    ;
    assert(m2 >= 0 && t1 > 0) by (nonlinear_arith)
        requires
            m2 == m * m,
            t1 == (m + 1) * (m + 1),
            m >= 0,
    ;
    assert(x >= 0 && y >= 0 && z >= 0) by (nonlinear_arith)
        requires
            x == c * 1073741824 * mag,
            y == r * m,
            z == (m + 1) * (r + 1),
            c > 0,
            mag >= 0,
            r >= 0,
            m >= 0,
    ;
    assert(x * x == c2 * (1152921504606846976 * aa)) by (nonlinear_arith)
        requires
            x == c * 1073741824 * mag,
            c2 == c * c,
            aa == a * a,
            mag == a || mag == -a,
    ;
    assert(y * y == (r * r) * m2) by (nonlinear_arith)
        requires
            y == r * m,
            m2 == m * m,
    ;
    assert((r * r) * m2 <= n * m2) by (nonlinear_arith)
        requires
            r * r <= n,
            m2 >= 0,
    ;
    assert(n * m2 == c2 * (m2 * q)) by (nonlinear_arith)
        requires
            n == c2 * q,
    ;
    assert(c2 * (m2 * q) <= c2 * (1152921504606846976 * aa)) by (nonlinear_arith)
        requires
            m2 * q <= 1152921504606846976 * aa,
            c2 > 0,
    ;
    lemma_square_order(y, x);
    assert(c2 * (1152921504606846976 * aa) < c2 * (t1 * q)) by (nonlinear_arith)
        requires
            1152921504606846976 * aa < t1 * q,
            c2 > 0,
    ;
    assert(c2 * (t1 * q) == t1 * n) by (nonlinear_arith)
        requires
            n == c2 * q,
    ;
    assert(t1 * n < t1 * ((r + 1) * (r + 1))) by (nonlinear_arith)
        requires
            n < (r + 1) * (r + 1),
            t1 > 0,
    ;
    assert(t1 * ((r + 1) * (r + 1)) == z * z) by (nonlinear_arith)
        requires
            t1 == (m + 1) * (m + 1),
            z == (m + 1) * (r + 1),
    ;
    lemma_square_order(x, z);
    assert(z == y + m + r + 1) by (nonlinear_arith)
        requires
            z == (m + 1) * (r + 1),
            y == r * m,
    ;
    if a >= 0 {
        assert(u == m && mag == a);
        assert(c * 1073741824 * a - r * u == x - y);
    } else {
        assert(u == -m && mag == -a);
        assert(c * 1073741824 * a == -x) by (nonlinear_arith)
            requires
                x == c * 1073741824 * mag,
                mag == -a,
        ;
        assert(r * u == -y) by (nonlinear_arith)
            requires
                y == r * m,
                u == -m,
        ;
    }
}

/// One term of a dot product, split into its exact part and its residual.
proof fn lemma_residual_term(g: int, a: int, r: int, u: int, b: int)
    ensures
        r * (u * b) == g * (a * b) - (g * a - r * u) * b,
{
    assert(r * (u * b) == g * (a * b) - (g * a - r * u) * b) by (nonlinear_arith);
}

/// The dot product of a unit vector with `b`, times the floor `r` of
/// `c * sqrt(q)`, is `c * 2^30` times the dot product of the vector itself
/// with `b`, give or take `(r + 2^30)` times the taxicab length of `b`.
proof fn lemma_unit_dot(a: Vec3, b: Vec3, c: int, r: int)
    requires
        a != Vec3::zero(),
        c > 0,
        r >= 0,
        r * r <= (c * c) * a.norm_sq(),
        (c * c) * a.norm_sq() < (r + 1) * (r + 1),
    ensures
        -((r + 1073741824) * b.taxicab()) <= r * a.unit().dot(b) - (c * 1073741824) * a.dot(b) <= (r + 1073741824)
            * b.taxicab(),
{
    let q = a.norm_sq();
    lemma_norm_sq_positive(a);
    lemma_unit_residual(a.x, q, c, r);
    lemma_unit_residual(a.y, q, c, r);
    lemma_unit_residual(a.z, q, c, r);
    let u = a.unit();
    let g = c * 1073741824;
    let ex = g * a.x - r * u.x;
    let ey = g * a.y - r * u.y;
    let ez = g * a.z - r * u.z;
    let d = u.dot(b);
    lemma_residual_term(g, a.x, r, u.x, b.x);
    lemma_residual_term(g, a.y, r, u.y, b.y);
    lemma_residual_term(g, a.z, r, u.z, b.z);
    assert(r * d == r * (u.x * b.x) + r * (u.y * b.y) + r * (u.z * b.z)) by (nonlinear_arith)
        requires
            d == u.x * b.x + u.y * b.y + u.z * b.z,
    ;
    assert(g * a.dot(b) == g * (a.x * b.x) + g * (a.y * b.y) + g * (a.z * b.z))
        by (nonlinear_arith)
        requires
            a.dot(b) == a.x * b.x + a.y * b.y + a.z * b.z,
    ;
    lemma_product_bound(ex, b.x, r + 1073741824, abs(b.x));
    lemma_product_bound(ey, b.y, r + 1073741824, abs(b.y));
    lemma_product_bound(ez, b.z, r + 1073741824, abs(b.z));
    assert((r + 1073741824) * abs(b.x) + (r + 1073741824) * abs(b.y) + (r + 1073741824) * abs(b.z) == (r + 1073741824)
        * b.taxicab()) by (nonlinear_arith)
        requires
            b.taxicab() == abs(b.x) + abs(b.y) + abs(b.z),
    ;
}

/// Taking the unit vector keeps a vector nearly perpendicular to what it was
/// nearly perpendicular to. Where the vector is at least `m` long and its
/// dot product with `b` is at most `slack`, the unit vector's dot product
/// with `b` is at most `2^30 * slack / m` plus the taxicab length of `b`.
pub proof fn lemma_unit_near_perpendicular(a: Vec3, b: Vec3, slack: int, m: int)
    requires
        a != Vec3::zero(),
        -slack <= a.dot(b) <= slack,
        m >= 1,
        m * m <= a.norm_sq(),
    ensures
        -(1073741824 * slack + m * b.taxicab()) <= m * a.unit().dot(b) <= 1073741824 * slack + m
            * b.taxicab(),
{
    let total = b.taxicab();
    let w = m * 1073741824 * total;
    assert(w >= 0) by (nonlinear_arith)
        requires
            w == m * 1073741824 * total,
            m >= 1,
            total >= 0,
    ;
    let c = w + 1;
    let q = a.norm_sq();
    lemma_norm_sq_positive(a);
    let r = lemma_scaled_root(q, c, m);
    lemma_unit_dot(a, b, c, r);
    let d = a.unit().dot(b);
    let p = r * d;
    let s1 = 1073741824 * slack;
    let g = c * 1073741824;
    lemma_product_bound(g, a.dot(b), g, slack);
    assert(g * slack == c * s1) by (nonlinear_arith)
        requires
            g == c * 1073741824,
            s1 == 1073741824 * slack,
    ;
    // |p| <= c * s1 + (r + 2^30) * total
    let x = m * d;
    let y = s1 + m * total;
    assert(m * p == r * x) by (nonlinear_arith)
        requires
            p == r * d,
            x == m * d,
    ;
    assert(m * (c * s1) <= r * s1) by (nonlinear_arith)
        requires
            c * m <= r,
            s1 >= 0,
    ;
    assert(m * ((r + 1073741824) * total) == r * (m * total) + w) by (nonlinear_arith)
        requires
            w == m * 1073741824 * total,
    ;
    assert(m * p <= m * (c * s1) + m * ((r + 1073741824) * total) && m * p >= -(m * (c * s1) + m * ((r
        + 1073741824) * total))) by (nonlinear_arith)
        requires
            -(c * s1 + (r + 1073741824) * total) <= p <= c * s1 + (r + 1073741824) * total,
            m >= 1,
    ;
    assert(r * y == r * s1 + r * (m * total)) by (nonlinear_arith)
        requires
            y == s1 + m * total,
    ;
    assert(-y <= x <= y) by (nonlinear_arith)
        requires
            -(r * y + w) <= r * x <= r * y + w,
            0 <= w < r,
    ;
}

/// A unit vector is parallel to the vector it was taken from: each component
/// of their cross product is at most the taxicab length of that vector.
pub proof fn lemma_unit_parallel(d: Vec3)
    requires
        d != Vec3::zero(),
    ensures
        d.cross(d.unit()).within(d.taxicab()),
{
    let total = d.taxicab();
    let c = 1073741824 * total + 1;
    let q = d.norm_sq();
    lemma_norm_sq_positive(d);
    assert(1 * 1 <= q);
    let r = lemma_scaled_root(q, c, 1);
    lemma_unit_residual(d.x, q, c, r);
    lemma_unit_residual(d.y, q, c, r);
    lemma_unit_residual(d.z, q, c, r);
    let w = d.unit();
    let g = c * 1073741824;
    lemma_parallel_component(d.y, d.z, w.y, w.z, g, r, total);
    lemma_parallel_component(d.z, d.x, w.z, w.x, g, r, total);
    lemma_parallel_component(d.x, d.y, w.x, w.y, g, r, total);
}

/// One component of the cross product of a vector and its unit vector.
proof fn lemma_parallel_component(dy: int, dz: int, wy: int, wz: int, g: int, r: int, total: int)
    requires
        -(r + 1073741824) <= g * dy - r * wy <= r + 1073741824,
        -(r + 1073741824) <= g * dz - r * wz <= r + 1073741824,
        abs(dy) + abs(dz) <= total,
        1073741824 * total < r,
    ensures
        -total <= dy * wz - dz * wy <= total,
{
    let ey = g * dy - r * wy;
    let ez = g * dz - r * wz;
    let x = dy * wz - dz * wy;
    let rwy = r * wy;
    let rwz = r * wz;
    assert(r * x == dy * rwz - dz * rwy) by (nonlinear_arith)
        requires
            x == dy * wz - dz * wy,
            rwy == r * wy,
            rwz == r * wz,
    ;
    let gy = g * dy;
    let gz = g * dz;
    assert(dy * gz == dz * gy) by (nonlinear_arith)
        requires
            gy == g * dy,
            gz == g * dz,
    ;
    assert(dy * rwz == dy * gz - dy * ez) by (nonlinear_arith)
        requires
            rwz == gz - ez,
    ;
    assert(dz * rwy == dz * gy - dz * ey) by (nonlinear_arith)
        requires
            rwy == gy - ey,
    ;
    assert(r * x == dz * ey - dy * ez);
    lemma_product_bound(dz, ey, abs(dz), r + 1073741824);
    lemma_product_bound(dy, ez, abs(dy), r + 1073741824);
    assert(abs(dz) * (r + 1073741824) + abs(dy) * (r + 1073741824) <= r * total + 1073741824 * total)
        by (nonlinear_arith)
        requires
            abs(dy) + abs(dz) <= total,
            r + 1073741824 >= 0,
    ;
    assert(-total <= x <= total) by (nonlinear_arith)
        requires
            -(r * total + 1073741824 * total) <= r * x <= r * total + 1073741824 * total,
            1073741824 * total < r,
            total >= 0,
    ;
}

/// The taxicab length squared is at most three times the squared length.
pub proof fn lemma_taxicab_square(d: Vec3)
    ensures
        d.taxicab() * d.taxicab() <= 3 * d.norm_sq(),
{
    let x = abs(d.x);
    let y = abs(d.y);
    let z = abs(d.z);
    assert(x * x == d.x * d.x && y * y == d.y * d.y && z * z == d.z * d.z) by (nonlinear_arith)
        requires
            x == d.x || x == -d.x,
            y == d.y || y == -d.y,
            z == d.z || z == -d.z,
    ;
    assert(2 * (x * y) <= x * x + y * y) by (nonlinear_arith);
    assert(2 * (y * z) <= y * y + z * z) by (nonlinear_arith);
    assert(2 * (x * z) <= x * x + z * z) by (nonlinear_arith);
    assert((x + y + z) * (x + y + z) == x * x + y * y + z * z + 2 * (x * y) + 2 * (y * z) + 2 * (x
        * z)) by (nonlinear_arith);
}

/// A vector of bounded components that is nearly perpendicular to `d`, its
/// dot product at most twice the taxicab length of `d`, is nearly
/// perpendicular to the unit vector of `d`: that dot product is at most
/// `7 * 2^30`.
pub proof fn lemma_dot_with_unit(u: Vec3, d: Vec3)
    requires
        d != Vec3::zero(),
        u.within(1073741824),
        -(2 * d.taxicab()) <= u.dot(d) <= 2 * d.taxicab(),
    ensures
        -7516192768 <= u.dot(d.unit()) <= 7516192768,
{
    let total = d.taxicab();
    let c: int = 3458764515968024577;
    let q = d.norm_sq();
    lemma_norm_sq_positive(d);
    assert(1 * 1 <= q);
    let r = lemma_scaled_root(q, c, 1);
    lemma_dot_commutes(u, d.unit());
    lemma_dot_commutes(u, d);
    lemma_unit_dot(d, u, c, r);
    // c * total < 2 * (r + 1)
    lemma_taxicab_square(d);
    let ct = c * total;
    assert(ct * ct == (c * c) * (total * total)) by (nonlinear_arith)
        requires
            ct == c * total,
    ;
    assert((c * c) * (total * total) <= 3 * ((c * c) * q)) by (nonlinear_arith)
        requires
            total * total <= 3 * q,
            c * c >= 0,
    ;
    assert(3 * ((r + 1) * (r + 1)) <= (2 * (r + 1)) * (2 * (r + 1))) by (nonlinear_arith);
    lemma_square_order(ct, 2 * (r + 1));
    let p = d.dot(u);
    let g = c * 1073741824;
    assert(-(2147483648 * ct) <= g * p <= 2147483648 * ct) by (nonlinear_arith)
        requires
            g == c * 1073741824,
            ct == c * total,
            -(2 * total) <= p <= 2 * total,
            c > 0,
    ;
    assert(u.taxicab() <= 3221225472);
    lemma_product_bound(r + 1073741824, u.taxicab(), r + 1073741824, 3221225472);
    assert((r + 1073741824) * 3221225472 == 3221225472 * r + 3458764513820540928) by (nonlinear_arith);
    let x = d.unit().dot(u);
    assert(-7516192768 <= x <= 7516192768) by (nonlinear_arith)
        requires
            -(7516192768 * r + 3458764515968024576) <= r * x <= 7516192768 * r + 3458764515968024576,
            r > 3458764515968024576,
    ;
}

/// The dot product does not depend on the order of its factors.
pub proof fn lemma_dot_commutes(a: Vec3, b: Vec3)
    ensures
        a.dot(b) == b.dot(a),
{
    assert(a.x * b.x == b.x * a.x && a.y * b.y == b.y * a.y && a.z * b.z == b.z * a.z)
        by (nonlinear_arith);
}

/// A cross product is perpendicular to both of its factors.
pub proof fn lemma_cross_perpendicular(a: Vec3, b: Vec3)
    ensures
        a.dot(a.cross(b)) == 0,
        b.dot(a.cross(b)) == 0,
{
    assert(a.x * (a.y * b.z - a.z * b.y) + a.y * (a.z * b.x - a.x * b.z) + a.z * (a.x * b.y - a.y
        * b.x) == 0) by (nonlinear_arith);
    assert(b.x * (a.y * b.z - a.z * b.y) + b.y * (a.z * b.x - a.x * b.z) + b.z * (a.x * b.y - a.y
        * b.x) == 0) by (nonlinear_arith);
}

/// One term of a scalar triple product, multiplied out.
proof fn lemma_triple_term(a: int, b: int, c: int, d: int, e: int)
    ensures
        (a * b - c * d) * e == b * (e * a) - d * (e * c),
        b * (e * a - e * c) == b * (e * a) - b * (e * c),
{
    assert((a * b - c * d) * e == b * (e * a) - d * (e * c)) by (nonlinear_arith);
    assert(b * (e * a - e * c) == b * (e * a) - b * (e * c)) by (nonlinear_arith);
}

/// The scalar triple product: `(w x u) . d` is `u . (d x w)`.
pub proof fn lemma_scalar_triple(w: Vec3, u: Vec3, d: Vec3)
    ensures
        w.cross(u).dot(d) == u.dot(d.cross(w)),
{
    lemma_triple_term(w.y, u.z, w.z, u.y, d.x);
    lemma_triple_term(w.z, u.x, w.x, u.z, d.y);
    lemma_triple_term(w.x, u.y, w.y, u.x, d.z);
    assert(u.x * (d.y * w.z - d.z * w.y) == u.x * (d.y * w.z) - u.x * (d.z * w.y))
        by (nonlinear_arith);
    assert(u.y * (d.z * w.x - d.x * w.z) == u.y * (d.z * w.x) - u.y * (d.x * w.z))
        by (nonlinear_arith);
    assert(u.z * (d.x * w.y - d.y * w.x) == u.z * (d.x * w.y) - u.z * (d.y * w.x))
        by (nonlinear_arith);
}

/// The square of one component of a cross product, multiplied out.
proof fn lemma_cross_component_square(p: int, q: int, r: int, s: int)
    ensures
        (p * s - q * r) * (p * s - q * r) == (p * p) * (s * s) - 2 * ((p * r) * (q * s)) + (q * q)
            * (r * r),
{
    let m = p * s;
    let n = q * r;
    assert((m - n) * (m - n) == m * m - 2 * (m * n) + n * n) by (nonlinear_arith);
    assert(m * m == (p * p) * (s * s)) by (nonlinear_arith)
        requires
            m == p * s,
    ;
    assert(n * n == (q * q) * (r * r)) by (nonlinear_arith)
        requires
            n == q * r,
    ;
    assert(m * n == (p * r) * (q * s)) by (nonlinear_arith)
        requires
            m == p * s,
            n == q * r,
    ;
}

/// A product of two sums of three, multiplied out.
proof fn lemma_product_of_sums(a: int, b: int, c: int, x: int, y: int, z: int)
    ensures
        (a + b + c) * (x + y + z) == a * x + a * y + a * z + b * x + b * y + b * z + c * x + c * y
            + c * z,
{
    let s = x + y + z;
    assert((a + b + c) * s == a * s + b * s + c * s) by (nonlinear_arith);
    assert(a * s == a * x + a * y + a * z) by (nonlinear_arith)
        requires
            s == x + y + z,
    ;
    assert(b * s == b * x + b * y + b * z) by (nonlinear_arith)
        requires
            s == x + y + z,
    ;
    assert(c * s == c * x + c * y + c * z) by (nonlinear_arith)
        requires
            s == x + y + z,
    ;
}

/// The square of a product is the product of the squares.
proof fn lemma_square_of_product(a: int, b: int)
    ensures
        (a * a) * (b * b) == (a * b) * (a * b),
{
    assert((a * a) * (b * b) == (a * b) * (a * b)) by (nonlinear_arith);
}

/// Lagrange's identity: the squared length of a cross product is the product
/// of the squared lengths less the squared dot product.
pub proof fn lemma_lagrange(a: Vec3, b: Vec3)
    ensures
        a.cross(b).norm_sq() == a.norm_sq() * b.norm_sq() - a.dot(b) * a.dot(b),
{
    let (ax, ay, az) = (a.x, a.y, a.z);
    let (bx, by, bz) = (b.x, b.y, b.z);
    lemma_cross_component_square(ay, az, by, bz);
    lemma_cross_component_square(az, ax, bz, bx);
    lemma_cross_component_square(ax, ay, bx, by);
    lemma_product_of_sums(ax * ax, ay * ay, az * az, bx * bx, by * by, bz * bz);
    lemma_product_of_sums(ax * bx, ay * by, az * bz, ax * bx, ay * by, az * bz);
    lemma_square_of_product(ax, bx);
    lemma_square_of_product(ay, by);
    lemma_square_of_product(az, bz);
    let (dx, dy, dz) = (ax * bx, ay * by, az * bz);
    assert(dy * dx == dx * dy && dz * dy == dy * dz && dx * dz == dz * dx) by (nonlinear_arith);
}

/// One component of the triple product `u x (w x u)`.
proof fn lemma_triple_component(ux: int, uy: int, uz: int, wx: int, wy: int, wz: int)
    ensures
        uy * (wx * uy - wy * ux) - uz * (wz * ux - wx * uz) == wx * (ux * ux + uy * uy + uz * uz)
            - ux * (ux * wx + uy * wy + uz * wz),
{
    assert(uy * (wx * uy - wy * ux) == wx * (uy * uy) - ux * (uy * wy)) by (nonlinear_arith);
    assert(uz * (wz * ux - wx * uz) == ux * (uz * wz) - wx * (uz * uz)) by (nonlinear_arith);
    assert(wx * (ux * ux + uy * uy + uz * uz) == wx * (ux * ux) + wx * (uy * uy) + wx * (uz * uz))
        by (nonlinear_arith);
    assert(ux * (ux * wx + uy * wy + uz * wz) == wx * (ux * ux) + ux * (uy * wy) + ux * (uz * wz))
        by (nonlinear_arith);
}

/// The triple product `u x (w x u)` is `w (u . u) - u (u . w)`.
pub proof fn lemma_triple_product(u: Vec3, w: Vec3)
    ensures
        u.cross(w.cross(u)).x == w.x * u.norm_sq() - u.x * u.dot(w),
        u.cross(w.cross(u)).y == w.y * u.norm_sq() - u.y * u.dot(w),
        u.cross(w.cross(u)).z == w.z * u.norm_sq() - u.z * u.dot(w),
{
    lemma_triple_component(u.x, u.y, u.z, w.x, w.y, w.z);
    lemma_triple_component(u.y, u.z, u.x, w.y, w.z, w.x);
    lemma_triple_component(u.z, u.x, u.y, w.z, w.x, w.y);
}

/// One term of a dot product with a quotient: the divisor times the term
/// misses the term of the dividend by what the division left over.
proof fn lemma_quotient_term(d: int, v: int, c: int, b: int)
    ensures
        d * (v * b) - c * b == -((c - d * v) * b),
        d * v == v * d,
{
    assert(d * (v * b) - c * b == -((c - d * v) * b)) by (nonlinear_arith);
    assert(d * v == v * d) by (nonlinear_arith);
}

/// A factor times a sum of three.
pub proof fn lemma_factor_of_sum(d: int, x: int, y: int, z: int)
    ensures
        d * (x + y + z) == d * x + d * y + d * z,
{
    assert(d * (x + y + z) == d * x + d * y + d * z) by (nonlinear_arith);
}

/// What dividing a vector does to its dot product with `b`: the quotient's
/// dot product times the divisor misses the dot product of the vector by
/// less than the divisor times the taxicab length of `b`.
pub proof fn lemma_over_dot(c: Vec3, b: Vec3, d: int)
    requires
        d > 0,
    ensures
        -((d - 1) * b.taxicab()) <= d * c.over(d).dot(b) - c.dot(b) <= (d - 1) * b.taxicab(),
{
    let v = c.over(d);
    lemma_trunc_div_remainder(c.x, d);
    lemma_trunc_div_remainder(c.y, d);
    lemma_trunc_div_remainder(c.z, d);
    lemma_quotient_term(d, v.x, c.x, b.x);
    lemma_quotient_term(d, v.y, c.y, b.y);
    lemma_quotient_term(d, v.z, c.z, b.z);
    lemma_factor_of_sum(d, v.x * b.x, v.y * b.y, v.z * b.z);
    let rx = c.x - d * v.x;
    let ry = c.y - d * v.y;
    let rz = c.z - d * v.z;
    assert(d * v.dot(b) - c.dot(b) == -(rx * b.x + ry * b.y + rz * b.z));
    lemma_product_bound(rx, b.x, d - 1, abs(b.x));
    lemma_product_bound(ry, b.y, d - 1, abs(b.y));
    lemma_product_bound(rz, b.z, d - 1, abs(b.z));
    lemma_factor_of_sum(d - 1, abs(b.x), abs(b.y), abs(b.z));
}

/// Reducing a vector keeps it nearly perpendicular to what it was
/// perpendicular to: the dot product is at most the taxicab length of `b`,
/// and 0 where nothing was divided.
pub proof fn lemma_reduced_perpendicular(a: Vec3, b: Vec3)
    requires
        a.dot(b) == 0,
    ensures
        -b.taxicab() <= a.reduced().dot(b) <= b.taxicab(),
        a.reduction() == 1 ==> a.reduced().dot(b) == 0,
{
    lemma_reduced(a);
    let k = a.reduction();
    let r = a.reduced();
    let rx = a.x - k * r.x;
    let ry = a.y - k * r.y;
    let rz = a.z - k * r.z;
    let x = r.dot(b);
    lemma_quotient_term(k, r.x, a.x, b.x);
    lemma_quotient_term(k, r.y, a.y, b.y);
    lemma_quotient_term(k, r.z, a.z, b.z);
    lemma_factor_of_sum(k, r.x * b.x, r.y * b.y, r.z * b.z);
    assert(k * x == -(rx * b.x + ry * b.y + rz * b.z));
    lemma_product_bound(rx, b.x, k - 1, abs(b.x));
    lemma_product_bound(ry, b.y, k - 1, abs(b.y));
    lemma_product_bound(rz, b.z, k - 1, abs(b.z));
    let total = b.taxicab();
    lemma_factor_of_sum(k - 1, abs(b.x), abs(b.y), abs(b.z));
    assert(-total <= x <= total) by (nonlinear_arith)
        requires
            -((k - 1) * total) <= k * x <= (k - 1) * total,
            k >= 1,
            total >= 0,
    ;
}

/// The unit vector of a reduced cross product is nearly perpendicular to
/// each factor: the dot product is at most twice the taxicab length of the
/// factor.
pub proof fn lemma_normalized_perpendicular(a: Vec3, b: Vec3)
    requires
        a != Vec3::zero(),
        a.dot(b) == 0,
    ensures
        -(2 * b.taxicab()) <= a.normalized().dot(b) <= 2 * b.taxicab(),
{
    lemma_reduced(a);
    lemma_reduced_perpendicular(a, b);
    let r = a.reduced();
    lemma_norm_sq_positive(r);
    if a.reduction() == 1 {
        assert(1 * 1 <= r.norm_sq());
        lemma_unit_near_perpendicular(r, b, 0, 1);
    } else {
        assert(4294967296 * 4294967296 == 18446744073709551616int) by (nonlinear_arith);
        lemma_unit_near_perpendicular(r, b, b.taxicab(), 4294967296);
    }
}

/// What dividing by `2^30` and multiplying back does to a square: it makes
/// the square no larger, and smaller by at most `2^31` times the magnitude.
pub proof fn lemma_over_square(c: int)
    ensures
        1152921504606846976 * (trunc_div(c, 1073741824) * trunc_div(c, 1073741824)) <= c * c,
        c * c - 2147483648 * abs(c) <= 1152921504606846976 * (trunc_div(c, 1073741824) * trunc_div(c, 1073741824)),
{
    let v = trunc_div(c, 1073741824);
    let k = v * 1073741824;
    let m = abs(c);
    let j = abs(k);
    lemma_trunc_div_remainder(c, 1073741824);
    assert(0 <= j <= m && m - j < 1073741824);
    assert(k * k == 1152921504606846976 * (v * v)) by (nonlinear_arith)
        requires
            k == v * 1073741824,
    ;
    assert(k * k == j * j) by (nonlinear_arith)
        requires
            j == k || j == -k,
    ;
    assert(c * c == m * m) by (nonlinear_arith)
        requires
            m == c || m == -c,
    ;
    assert(j * j <= m * m) by (nonlinear_arith)
        requires
            0 <= j <= m,
    ;
    assert(m * m - 2147483648 * m <= j * j) by (nonlinear_arith)
        requires
            0 <= j <= m,
            m - j < 1073741824,
    ;
}

/// The magnitude of a number whose square is at most `bound` squared.
proof fn lemma_component_bound(c: int, total: int, bound: int)
    requires
        c * c <= total,
        total <= bound * bound,
        bound >= 0,
    ensures
        abs(c) <= bound,
{
    let m = abs(c);
    assert(m * m == c * c) by (nonlinear_arith)
        requires
            m == c || m == -c,
    ;
    lemma_square_order(m, bound);
}

/// The frame of a camera is orthonormal to within rounding. Each axis has
/// length 1.0: the squared lengths of `u` and `w` fall short of 1.0 by at
/// most `6 * 2^30 + 2` units of `2^-60`, that of `v` by at most `19 * 2^30`,
/// which is less than 2 parts in 10^8. Each pair of axes is perpendicular:
/// the dot products are at most `7 * 2^30` units, less than 7 parts in 10^9.
pub proof fn lemma_frame_orthonormal(look_from: Vec3, look_at: Vec3, vup: Vec3)
    requires
        valid_placement(look_from, look_at, vup),
    ensures
        unit_to_within(axis_u(look_from, look_at, vup), 6442450946),
        unit_to_within(axis_v(look_from, look_at, vup), 20401094656),
        unit_to_within(axis_w(look_from, look_at), 6442450946),
        perpendicular_to_within(
            axis_u(look_from, look_at, vup),
            axis_v(look_from, look_at, vup),
            3221225472,
        ),
        perpendicular_to_within(
            axis_u(look_from, look_at, vup),
            axis_w(look_from, look_at),
            7516192768,
        ),
        perpendicular_to_within(
            axis_v(look_from, look_at, vup),
            axis_w(look_from, look_at),
            3221225472,
        ),
        axis_u(look_from, look_at, vup).within(1073741824),
        axis_v(look_from, look_at, vup).within(1073741824),
        axis_w(look_from, look_at).within(1073741824),
{
    let d = look_from.minus(look_at);
    assert(d != Vec3::zero());
    assert(d.reduced() == d);
    let w = axis_w(look_from, look_at);
    let a = vup.cross(d);
    lemma_reduced(a);
    let ar = a.reduced();
    let u = axis_u(look_from, look_at, vup);
    let c = w.cross(u);
    let v = axis_v(look_from, look_at, vup);
    lemma_unit_length(d);
    lemma_unit_length(ar);
    // u against the line of sight and against w
    lemma_cross_perpendicular(vup, d);
    lemma_dot_commutes(a, d);
    lemma_normalized_perpendicular(a, d);
    lemma_dot_with_unit(u, d);
    // v against u and w
    lemma_cross_perpendicular(w, u);
    lemma_dot_commutes(c, u);
    lemma_dot_commutes(c, w);
    lemma_over_dot(c, u, 1073741824);
    lemma_over_dot(c, w, 1073741824);
    lemma_dot_commutes(v, u);
    assert(u.taxicab() <= 3221225472 && w.taxicab() <= 3221225472);
    // the length of v
    lemma_lagrange(w, u);
    let nw = w.norm_sq();
    let nu = u.norm_sq();
    let duw = w.dot(u);
    lemma_dot_commutes(w, u);
    assert(1152921498164396030 * 1152921498164396030 <= nw * nu <= 1152921504606846976 * 1152921504606846976) by (nonlinear_arith)
        requires
            1152921498164396030 <= nw <= 1152921504606846976,
            1152921498164396030 <= nu <= 1152921504606846976,
    ;
    assert(0 <= duw * duw <= 7516192768 * 7516192768) by (nonlinear_arith)
        requires
            -7516192768 <= duw <= 7516192768,
    ;
    let cc = c.norm_sq();
    lemma_norm_sq_positive(c);
    lemma_component_bound(c.x, cc, 1152921504606846976);
    lemma_component_bound(c.y, cc, 1152921504606846976);
    lemma_component_bound(c.z, cc, 1152921504606846976);
    lemma_over_square(c.x);
    lemma_over_square(c.y);
    lemma_over_square(c.z);
    let nv = v.norm_sq();
    assert(1152921504606846976 * nv == 1152921504606846976 * (v.x * v.x) + 1152921504606846976 * (v.y * v.y) + 1152921504606846976 * (v.z * v.z));
    assert(1152921504606846976 * nv <= cc);
    assert(1152921504606846976 * nv >= cc - 2147483648 * (3 * 1152921504606846976));
    assert(1152921504606846976 * 1152921504606846976 == 1329227995784915872903807060280344576int) by (nonlinear_arith);
    assert(1152921498164396030 * 1152921498164396030 == 1329227980929635438372731934679760900int) by (nonlinear_arith);
    assert(7516192768 * 7516192768 == 56493153725735501824int) by (nonlinear_arith);
    lemma_norm_sq_positive(v);
    assert(1073741824 * 1073741824 == 1152921504606846976int) by (nonlinear_arith);
    lemma_component_bound(v.x, nv, 1073741824);
    lemma_component_bound(v.y, nv, 1073741824);
    lemma_component_bound(v.z, nv, 1073741824);
}

/// The frame of a camera is square to the line of sight and to the up hint.
/// With `d` the line from `look_at` to `look_from`, the dot products of `u`
/// and of `v` with `d` are at most 2 and 4 times the taxicab length of `d`,
/// in units of `2^-46`: less than 7 parts in 10^9 of the length of `d`. The
/// squares are stated too, against the squared length.
pub proof fn lemma_frame_square_to_sight(look_from: Vec3, look_at: Vec3, vup: Vec3)
    requires
        valid_placement(look_from, look_at, vup),
    ensures
        perpendicular_to_within(
            axis_u(look_from, look_at, vup),
            look_from.minus(look_at),
            2 * look_from.minus(look_at).taxicab(),
        ),
        perpendicular_to_within(
            axis_v(look_from, look_at, vup),
            look_from.minus(look_at),
            4 * look_from.minus(look_at).taxicab(),
        ),
        perpendicular_to_within(axis_u(look_from, look_at, vup), vup, 2 * vup.taxicab()),
        axis_u(look_from, look_at, vup).dot(look_from.minus(look_at)) * axis_u(
            look_from,
            look_at,
            vup,
        ).dot(look_from.minus(look_at)) <= 12 * look_from.minus(look_at).norm_sq(),
        axis_v(look_from, look_at, vup).dot(look_from.minus(look_at)) * axis_v(
            look_from,
            look_at,
            vup,
        ).dot(look_from.minus(look_at)) <= 48 * look_from.minus(look_at).norm_sq(),
{
    let d = look_from.minus(look_at);
    assert(d != Vec3::zero());
    assert(d.reduced() == d);
    let w = axis_w(look_from, look_at);
    let a = vup.cross(d);
    let u = axis_u(look_from, look_at, vup);
    let c = w.cross(u);
    let v = axis_v(look_from, look_at, vup);
    let total = d.taxicab();
    lemma_frame_orthonormal(look_from, look_at, vup);
    lemma_cross_perpendicular(vup, d);
    lemma_dot_commutes(a, d);
    lemma_dot_commutes(a, vup);
    lemma_normalized_perpendicular(a, d);
    lemma_normalized_perpendicular(a, vup);
    // v against the line of sight
    lemma_scalar_triple(w, u, d);
    lemma_unit_parallel(d);
    let x = d.cross(w);
    lemma_product_bound(u.x, x.x, 1073741824, total);
    lemma_product_bound(u.y, x.y, 1073741824, total);
    lemma_product_bound(u.z, x.z, 1073741824, total);
    lemma_over_dot(c, d, 1073741824);
    let pu = u.dot(d);
    let pv = v.dot(d);
    lemma_taxicab_square(d);
    assert(pu * pu <= 4 * (total * total)) by (nonlinear_arith)
        requires
            -(2 * total) <= pu <= 2 * total,
    ;
    assert(pv * pv <= 16 * (total * total)) by (nonlinear_arith)
        requires
            -(4 * total) <= pv <= 4 * total,
    ;
}

/// One component of `u x v` against the same component of `w`, where `v`
/// has the components that come from dividing `cy`, `cz` by `2^30`, and the
/// triple product gives the matching component of `u x c`.
proof fn lemma_right_handed_component(
    wx: int,
    ux: int,
    uy: int,
    uz: int,
    nu: int,
    duw: int,
    cy: int,
    cz: int,
)
    requires
        -1073741824 <= wx <= 1073741824,
        -1073741824 <= ux <= 1073741824,
        -1073741824 <= uy <= 1073741824,
        -1073741824 <= uz <= 1073741824,
        1152921504606846976 - 6442450946 <= nu <= 1152921504606846976,
        -7516192768 <= duw <= 7516192768,
        uy * cz - uz * cy == wx * nu - ux * duw,
    ensures
        -16 <= trunc_div(uy * trunc_div(cz, 1073741824) - uz * trunc_div(cy, 1073741824), 1073741824) - wx <= 16,
{
    let vy = trunc_div(cy, 1073741824);
    let vz = trunc_div(cz, 1073741824);
    lemma_trunc_div_remainder(cy, 1073741824);
    lemma_trunc_div_remainder(cz, 1073741824);
    let ry = cy - vy * 1073741824;
    let rz = cz - vz * 1073741824;
    let x = uy * vz - uz * vy;
    assert(1073741824 * x == (uy * cz - uz * cy) - (uy * rz - uz * ry)) by (nonlinear_arith)
        requires
            x == uy * vz - uz * vy,
            ry == cy - vy * 1073741824,
            rz == cz - vz * 1073741824,
    ;
    lemma_product_bound(uy, rz, 1073741824, 1073741824 - 1);
    lemma_product_bound(uz, ry, 1073741824, 1073741824 - 1);
    lemma_product_bound(wx, nu - 1152921504606846976, 1073741824, 6442450946);
    lemma_product_bound(ux, duw, 1073741824, 7516192768);
    assert(wx * nu == wx * (nu - 1152921504606846976) + 1152921504606846976 * wx) by (nonlinear_arith);
    assert(1073741824 * (1073741824 - 1) == 1152921503533105152int) by (nonlinear_arith);
    assert(1073741824 * 6442450946 == 6917529029788565504int) by (nonlinear_arith);
    assert(1073741824 * 7516192768 == 8070450532247928832int) by (nonlinear_arith);
    assert(-17293822569102704640 <= 1073741824 * x - 1152921504606846976 * wx <= 17293822569102704640);
    let y = trunc_div(x, 1073741824);
    lemma_trunc_div_remainder(x, 1073741824);
    assert(-1073741824 < x - y * 1073741824 < 1073741824);
}

/// The frame of a camera is right-handed: the cross product of `u` and `v`,
/// brought back to 30 fraction bits, is `w` to within 16 units of `2^-30` in
/// each component, less than 2 parts in 10^8. `w` itself is the exact axis
/// rounded toward zero, as `lemma_axis_w_exact` says.
pub proof fn lemma_frame_right_handed(look_from: Vec3, look_at: Vec3, vup: Vec3)
    requires
        valid_placement(look_from, look_at, vup),
    ensures
        axis_u(look_from, look_at, vup).cross(axis_v(look_from, look_at, vup)).over(
            1073741824,
        ).minus(axis_w(look_from, look_at)).within(16),
{
    let w = axis_w(look_from, look_at);
    let u = axis_u(look_from, look_at, vup);
    let c = w.cross(u);
    lemma_frame_orthonormal(look_from, look_at, vup);
    lemma_triple_product(u, w);
    lemma_right_handed_component(w.x, u.x, u.y, u.z, u.norm_sq(), u.dot(w), c.y, c.z);
    lemma_right_handed_component(w.y, u.y, u.z, u.x, u.norm_sq(), u.dot(w), c.z, c.x);
    lemma_right_handed_component(w.z, u.z, u.x, u.y, u.norm_sq(), u.dot(w), c.x, c.y);
}

/// Two numbers of one sign have a non-negative product, which is positive
/// when the first is not 0 and the second is 0 only where the first is.
proof fn lemma_same_sign_product(u: int, a: int)
    requires
        a >= 0 ==> u >= 0,
        a <= 0 ==> u <= 0,
    ensures
        u * a >= 0,
        u != 0 ==> u * a > 0,
{
    assert(u * a >= 0 && (u != 0 ==> u * a > 0)) by (nonlinear_arith)
        requires
            a >= 0 ==> u >= 0,
            a <= 0 ==> u <= 0,
    ;
}

/// The axis `w` is the exact unit vector from `look_at` back to `look_from`,
/// each component rounded toward zero at 30 fraction bits. With `d` the line
/// between the points, `q` its squared length and `m` the magnitude of a
/// component of `w`: `m / 2^30 <= |d| / sqrt(q) < (m + 1) / 2^30`, the signs
/// agree, and the dot product of `w` and `d` is positive. The camera looks
/// along `-w`.
pub proof fn lemma_axis_w_exact(look_from: Vec3, look_at: Vec3)
    requires
        look_from.within(0x8000_0000),
        look_at.within(0x8000_0000),
        look_from != look_at,
    ensures
        axis_w(look_from, look_at) == look_from.minus(look_at).unit(),
        axis_w(look_from, look_at).dot(look_from.minus(look_at)) > 0,
        ({
            let d = look_from.minus(look_at);
            let w = axis_w(look_from, look_at);
            let q = d.norm_sq();
            &&& (w.x * w.x) * q <= 1152921504606846976 * (d.x * d.x) < ((abs(w.x) + 1) * (abs(w.x) + 1)) * q
            &&& (w.y * w.y) * q <= 1152921504606846976 * (d.y * d.y) < ((abs(w.y) + 1) * (abs(w.y) + 1)) * q
            &&& (w.z * w.z) * q <= 1152921504606846976 * (d.z * d.z) < ((abs(w.z) + 1) * (abs(w.z) + 1)) * q
        }),
{
    let d = look_from.minus(look_at);
    assert(d != Vec3::zero());
    assert(d.reduced() == d);
    let q = d.norm_sq();
    let w = axis_w(look_from, look_at);
    lemma_norm_sq_positive(d);
    lemma_unit_length(d);
    lemma_unit_component(d.x, q);
    lemma_unit_component(d.y, q);
    lemma_unit_component(d.z, q);
    lemma_same_sign_product(w.x, d.x);
    lemma_same_sign_product(w.y, d.y);
    lemma_same_sign_product(w.z, d.z);
    assert(w.x * w.x == abs(w.x) * abs(w.x) && w.y * w.y == abs(w.y) * abs(w.y) && w.z * w.z
        == abs(w.z) * abs(w.z)) by (nonlinear_arith);
    if w.x == 0 && w.y == 0 && w.z == 0 {
        assert(w.norm_sq() == 0) by (nonlinear_arith)
            requires
                w.x == 0 && w.y == 0 && w.z == 0,
                w.norm_sq() == w.x * w.x + w.y * w.y + w.z * w.z,
        ;
    }
}

} // verus!
