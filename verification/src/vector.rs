//! Three-component vectors: the mathematical model `Vec3` over unbounded
//! integers, the 32-bit `V3` that callers hand in, and the 128-bit `Wide3`
//! that axes and results are held in.
//!
//! A unit vector has 30 fraction bits: 1073741824 stands for 1.0, and
//! 1152921504606846976, its square, for 1.0 among squared lengths and dot
//! products of unit vectors.

use crate::fixed::{
    div_trunc, floor_sqrt, isqrt, lemma_isqrt_bounds, lemma_trunc_div_bound, trunc_div,
};
use vstd::arithmetic::div_mod::lemma_fundamental_div_mod;
use vstd::prelude::*;

verus! {

/// A vector of mathematical integers.
pub struct Vec3 {
    pub x: int,
    pub y: int,
    pub z: int,
}

/// The absolute value of an integer.
pub open spec fn abs(a: int) -> int {
    if a >= 0 {
        a
    } else {
        -a
    }
}

/// One component of a unit vector: `2^30 * a / sqrt(q)` rounded toward zero,
/// where `q` is the squared length of the vector that `a` belongs to.
pub open spec fn unit_component(a: int, q: int) -> int {
    let m = isqrt(((1152921504606846976 * (a * a)) / q) as nat) as int;
    if a >= 0 {
        m
    } else {
        -m
    }
}

impl Vec3 {
    pub open spec fn zero() -> Vec3 {
        Vec3 { x: 0, y: 0, z: 0 }
    }

    pub open spec fn plus(self, o: Vec3) -> Vec3 {
        Vec3 { x: self.x + o.x, y: self.y + o.y, z: self.z + o.z }
    }

    pub open spec fn minus(self, o: Vec3) -> Vec3 {
        Vec3 { x: self.x - o.x, y: self.y - o.y, z: self.z - o.z }
    }

    /// The dot product, exact.
    pub open spec fn dot(self, o: Vec3) -> int {
        self.x * o.x + self.y * o.y + self.z * o.z
    }

    /// The squared length, exact.
    pub open spec fn norm_sq(self) -> int {
        self.dot(self)
    }

    /// The sum of the magnitudes of the components.
    pub open spec fn taxicab(self) -> int {
        abs(self.x) + abs(self.y) + abs(self.z)
    }

    /// The cross product, exact.
    pub open spec fn cross(self, o: Vec3) -> Vec3 {
        Vec3 {
            x: self.y * o.z - self.z * o.y,
            y: self.z * o.x - self.x * o.z,
            z: self.x * o.y - self.y * o.x,
        }
    }

    /// Each component times `k`, exact.
    pub open spec fn times(self, k: int) -> Vec3 {
        Vec3 { x: k * self.x, y: k * self.y, z: k * self.z }
    }

    /// Each component divided by `d`, rounded toward zero.
    pub open spec fn over(self, d: int) -> Vec3 {
        Vec3 { x: trunc_div(self.x, d), y: trunc_div(self.y, d), z: trunc_div(self.z, d) }
    }

    /// No component exceeds `bound` in absolute value.
    pub open spec fn within(self, bound: int) -> bool {
        &&& -bound <= self.x <= bound
        &&& -bound <= self.y <= bound
        &&& -bound <= self.z <= bound
    }

    /// The vector halved until every component is below 2^33 in magnitude.
    /// A vector that starts below that bound stays as it is.
    pub open spec fn reduced(self) -> Vec3
        decreases self.taxicab(),
    {
        if self.within(8589934591) {
            self
        } else {
            self.over(2).reduced()
        }
    }

    /// The power of two that `reduced` divides by.
    pub open spec fn reduction(self) -> int
        decreases self.taxicab(),
    {
        if self.within(8589934591) {
            1
        } else {
            2 * self.over(2).reduction()
        }
    }

    /// The vector of length 1.0 in the direction of `self`, each component
    /// rounded toward zero at 30 fraction bits.
    pub open spec fn unit(self) -> Vec3 {
        let q = self.norm_sq();
        Vec3 {
            x: unit_component(self.x, q),
            y: unit_component(self.y, q),
            z: unit_component(self.z, q),
        }
    }

    /// The unit vector of the reduced vector. Where reducing divides at all,
    /// it leaves a vector at least 2^32 long and moves each component by
    /// less than 1, so the direction changes by a few parts in 2^32 at most.
    pub open spec fn normalized(self) -> Vec3 {
        self.reduced().unit()
    }
}

/// A point or direction with 32-bit Q16.16 components.
#[derive(Clone, Copy, Debug, PartialEq, Eq, Structural)]
pub struct V3 {
    pub x: i32,
    pub y: i32,
    pub z: i32,
}

impl View for V3 {
    type V = Vec3;

    open spec fn view(&self) -> Vec3 {
        Vec3 { x: self.x as int, y: self.y as int, z: self.z as int }
    }
}

/// A vector with 128-bit components.
#[derive(Clone, Copy, Debug, PartialEq, Eq, Structural)]
pub struct Wide3 {
    pub x: i128,
    pub y: i128,
    pub z: i128,
}

impl View for Wide3 {
    type V = Vec3;

    open spec fn view(&self) -> Vec3 {
        Vec3 { x: self.x as int, y: self.y as int, z: self.z as int }
    }
}

/// The raw value that stands for 1.0 in a unit vector: 2^30.
pub const AXIS_ONE: i128 = 1073741824;

/// The largest component magnitude that `Wide3::cross` accepts: 2^62.
pub const WIDE_LIMIT: i128 = 0x4000_0000_0000_0000;

/// The largest component magnitude that `Wide3` sums accept: 2^125.
pub const SUM_LIMIT: i128 = 0x2000_0000_0000_0000_0000_0000_0000_0000;

/// The largest component magnitude of a reduced vector: 2^33 - 1.
pub const REDUCED_LIMIT: i128 = 8589934591;

impl V3 {
    pub fn new(x: i32, y: i32, z: i32) -> (r: V3)
        ensures
            r@ == (Vec3 { x: x as int, y: y as int, z: z as int }),
    {
        V3 { x, y, z }
    }

    /// The same vector with 128-bit components.
    pub fn widen(&self) -> (r: Wide3)
        ensures
            r@ == self@,
    {
        Wide3 { x: self.x as i128, y: self.y as i128, z: self.z as i128 }
    }
}

impl Wide3 {
    pub fn new(x: i128, y: i128, z: i128) -> (r: Wide3)
        ensures
            r@ == (Vec3 { x: x as int, y: y as int, z: z as int }),
    {
        Wide3 { x, y, z }
    }

    /// Whether every component is 0.
    pub fn is_zero(&self) -> (b: bool)
        ensures
            b == (self@ == Vec3::zero()),
    {
        self.x == 0 && self.y == 0 && self.z == 0
    }

    /// Whether no component exceeds `bound` in absolute value.
    pub fn fits(&self, bound: i128) -> (b: bool)
        requires
            bound >= 0,
        ensures
            b == self@.within(bound as int),
    {
        -bound <= self.x && self.x <= bound && -bound <= self.y && self.y <= bound && -bound
            <= self.z && self.z <= bound
    }

    pub fn plus(&self, o: &Wide3) -> (r: Wide3)
        requires
            self@.within(SUM_LIMIT as int),
            o@.within(SUM_LIMIT as int),
        ensures
            r@ == self@.plus(o@),
    {
        Wide3 { x: self.x + o.x, y: self.y + o.y, z: self.z + o.z }
    }

    pub fn minus(&self, o: &Wide3) -> (r: Wide3)
        requires
            self@.within(SUM_LIMIT as int),
            o@.within(SUM_LIMIT as int),
        ensures
            r@ == self@.minus(o@),
    {
        Wide3 { x: self.x - o.x, y: self.y - o.y, z: self.z - o.z }
    }

    /// The cross product, exact.
    pub fn cross(&self, o: &Wide3) -> (r: Wide3)
        requires
            self@.within(WIDE_LIMIT as int),
            o@.within(WIDE_LIMIT as int),
        ensures
            r@ == self@.cross(o@),
    {
        let yz = wide_product(self.y, o.z);
        let zy = wide_product(self.z, o.y);
        let zx = wide_product(self.z, o.x);
        let xz = wide_product(self.x, o.z);
        let xy = wide_product(self.x, o.y);
        let yx = wide_product(self.y, o.x);
        Wide3 { x: yz - zy, y: zx - xz, z: xy - yx }
    }

    /// Each component times `k`, where the products fit.
    pub fn times(&self, k: i128) -> (r: Wide3)
        requires
            self@.times(k as int).within(SUM_LIMIT as int),
        ensures
            r@ == self@.times(k as int),
    {
        Wide3 { x: k * self.x, y: k * self.y, z: k * self.z }
    }

    /// Each component divided by `d`, rounded toward zero.
    pub fn over(&self, d: i128) -> (r: Wide3)
        requires
            d > 0,
            self@.within(SUM_LIMIT as int),
        ensures
            r@ == self@.over(d as int),
    {
        Wide3 { x: div_trunc(self.x, d), y: div_trunc(self.y, d), z: div_trunc(self.z, d) }
    }

    /// The squared length of a reduced vector.
    pub fn norm_sq(&self) -> (q: u128)
        requires
            self@.within(REDUCED_LIMIT as int),
        ensures
            q == self@.norm_sq(),
            q <= 0xc_0000_0000_0000_0000,
    {
        let a = square(self.x);
        let b = square(self.y);
        let c = square(self.z);
        a + b + c
    }

    /// The vector of length 1.0 in the direction of `self`, with 30 fraction
    /// bits.
    pub fn normalized(&self) -> (r: Wide3)
        requires
            self@.within(SUM_LIMIT as int),
            self@ != Vec3::zero(),
        ensures
            r@ == self@.normalized(),
            r@.within(AXIS_ONE as int),
    {
        let mut cur = *self;
        while !cur.fits(REDUCED_LIMIT)
            invariant
                cur@.within(SUM_LIMIT as int),
                cur@.reduced() == self@.reduced(),
            decreases cur@.taxicab(),
        {
            proof {
                lemma_halving(cur@);
            }
            cur = cur.over(2);
        }
        proof {
            lemma_reduced(self@);
            lemma_norm_sq_positive(cur@);
        }
        let q = cur.norm_sq();
        Wide3 { x: unit_part(cur.x, q), y: unit_part(cur.y, q), z: unit_part(cur.z, q) }
    }
}

/// The exact product of two bounded integers.
fn wide_product(a: i128, b: i128) -> (r: i128)
    requires
        -WIDE_LIMIT <= a <= WIDE_LIMIT,
        -WIDE_LIMIT <= b <= WIDE_LIMIT,
    ensures
        r == a * b,
        -0x1000_0000_0000_0000_0000_0000_0000_0000 <= r <= 0x1000_0000_0000_0000_0000_0000_0000_0000,
{
    assert(-0x1000_0000_0000_0000_0000_0000_0000_0000 <= a * b
        <= 0x1000_0000_0000_0000_0000_0000_0000_0000) by (nonlinear_arith)
        requires
            -0x4000_0000_0000_0000 <= a <= 0x4000_0000_0000_0000,
            -0x4000_0000_0000_0000 <= b <= 0x4000_0000_0000_0000,
    ;
    a * b
}

/// The square of a component of a reduced vector.
fn square(a: i128) -> (r: u128)
    requires
        -REDUCED_LIMIT <= a <= REDUCED_LIMIT,
    ensures
        r == a * a,
        r <= 0x4_0000_0000_0000_0000,
{
    assert(0 <= a * a <= 0x4_0000_0000_0000_0000) by (nonlinear_arith)
        requires
            -0x2_0000_0000 <= a <= 0x2_0000_0000,
    ;
    (a * a) as u128
}

/// Halving a vector that is not yet reduced brings it nearer to zero.
pub proof fn lemma_halving(a: Vec3)
    requires
        !a.within(8589934591),
    ensures
        a.over(2).taxicab() < a.taxicab(),
        a.over(2).reduced() == a.reduced(),
        2 * a.over(2).reduction() == a.reduction(),
        a.within(0x2000_0000_0000_0000_0000_0000_0000_0000) ==> a.over(2).within(
            0x2000_0000_0000_0000_0000_0000_0000_0000,
        ),
{
}

/// What reducing does: it divides by a power of two, leaves less than that
/// power over in each component, and where it divides at all, what it yields
/// is at least 2^32 long.
pub proof fn lemma_reduced(a: Vec3)
    ensures
        a.reduced().within(8589934591),
        a.reduction() >= 1,
        a.reduction() == 1 ==> a.reduced() == a,
        a.reduction() > 1 ==> a.reduced().norm_sq() >= 18446744073709551616,
        a != Vec3::zero() ==> a.reduced() != Vec3::zero(),
        -a.reduction() < a.x - a.reduction() * a.reduced().x < a.reduction(),
        -a.reduction() < a.y - a.reduction() * a.reduced().y < a.reduction(),
        -a.reduction() < a.z - a.reduction() * a.reduced().z < a.reduction(),
    decreases a.taxicab(),
{
    if a.within(8589934591) {
        assert(1 * a.x == a.x && 1 * a.y == a.y && 1 * a.z == a.z);
    } else {
        let h = a.over(2);
        lemma_halving(a);
        lemma_reduced(h);
        let k = h.reduction();
        let r = h.reduced();
        assert((2 * k) * r.x == 2 * (k * r.x) && (2 * k) * r.y == 2 * (k * r.y) && (2 * k) * r.z
            == 2 * (k * r.z)) by (nonlinear_arith);
        lemma_norm_sq_positive(r);
        if k == 1 {
            lemma_long_component(h.x);
            lemma_long_component(h.y);
            lemma_long_component(h.z);
        }
        if r == Vec3::zero() {
            assert(r.norm_sq() == 0) by (nonlinear_arith)
                requires
                    r.x == 0 && r.y == 0 && r.z == 0,
                    r.norm_sq() == r.x * r.x + r.y * r.y + r.z * r.z,
            ;
        }
    }
}

/// A component of 2^32 or more has a square of 2^64 or more.
proof fn lemma_long_component(a: int)
    ensures
        (a >= 4294967296 || a <= -4294967296) ==> a * a >= 18446744073709551616,
{
    if a >= 4294967296 || a <= -4294967296 {
        assert(a * a >= 18446744073709551616) by (nonlinear_arith)
            requires
                a >= 4294967296 || a <= -4294967296,
        ;
    }
}

/// Where one component of a unit vector lies: with `m` its magnitude,
/// `m / 2^30 <= |a| / sqrt(q) < (m + 1) / 2^30`, and `m` is at most 2^30.
pub proof fn lemma_unit_component(a: int, q: int)
    requires
        q > 0,
        a * a <= q,
    ensures
        abs(unit_component(a, q)) * abs(unit_component(a, q)) * q <= 1152921504606846976 * (a * a),
        1152921504606846976 * (a * a) < (abs(unit_component(a, q)) + 1) * (abs(
            unit_component(a, q),
        ) + 1) * q,
        abs(unit_component(a, q)) <= 1073741824,
        a >= 0 ==> unit_component(a, q) >= 0,
        a <= 0 ==> unit_component(a, q) <= 0,
{
    let t = 1152921504606846976 * (a * a);
    assert(a * a >= 0) by (nonlinear_arith);
    let n = t / q;
    lemma_fundamental_div_mod(t, q);
    assert(0 <= n) by (nonlinear_arith)
        requires
            t == q * n + t % q,
            0 <= t % q < q,
            t >= 0,
            q > 0,
    ;
    assert(n <= 1152921504606846976) by (nonlinear_arith)
        requires
            t == q * n + t % q,
            0 <= t % q < q,
            t <= 1152921504606846976 * q,
            q > 0,
    ;
    let m = isqrt(n as nat) as int;
    lemma_isqrt_bounds(n as nat);
    assert(abs(unit_component(a, q)) == m);
    assert(m * m * q <= t) by (nonlinear_arith)
        requires
            m * m <= n,
            t == q * n + t % q,
            0 <= t % q,
            q > 0,
    ;
    assert(t < (m + 1) * (m + 1) * q) by (nonlinear_arith)
        requires
            n + 1 <= (m + 1) * (m + 1),
            t == q * n + t % q,
            t % q < q,
            q > 0,
    ;
    assert(m <= 1073741824) by (nonlinear_arith)
        requires
            m >= 0,
            m * m <= n,
            n <= 1152921504606846976,
    ;
    if a == 0 {
        assert(n == 0) by (nonlinear_arith)
            requires
                0 == q * n + t % q,
                0 <= t % q,
                n >= 0,
                q > 0,
        ;
        assert(isqrt(0) == 0);
    }
}

/// One component of the unit vector.
fn unit_part(a: i128, q: u128) -> (r: i128)
    requires
        -REDUCED_LIMIT <= a <= REDUCED_LIMIT,
        q > 0,
        a * a <= q,
    ensures
        r == unit_component(a as int, q as int),
        -1073741824 <= r <= 1073741824,
{
    let sq = square(a);
    let n: u128 = (1152921504606846976 * sq) / q;
    proof {
        lemma_unit_component(a as int, q as int);
        let t = 1152921504606846976 * (a * a);
        lemma_fundamental_div_mod(t, q as int);
        assert(n <= 1152921504606846976) by (nonlinear_arith)
            requires
                t == q * n + t % (q as int),
                0 <= t % (q as int),
                t <= 1152921504606846976 * q,
                q > 0,
        ;
    }
    let m = floor_sqrt(n as u64);
    if a >= 0 {
        m as i128
    } else {
        -(m as i128)
    }
}

/// The squared length of a vector bounds the square of each component, and
/// is positive unless the vector is zero.
pub proof fn lemma_norm_sq_positive(a: Vec3)
    ensures
        a.x * a.x <= a.norm_sq(),
        a.y * a.y <= a.norm_sq(),
        a.z * a.z <= a.norm_sq(),
        a != Vec3::zero() ==> a.norm_sq() > 0,
{
    assert(a.x * a.x >= 0 && (a.x != 0 ==> a.x * a.x > 0)) by (nonlinear_arith);
    assert(a.y * a.y >= 0 && (a.y != 0 ==> a.y * a.y > 0)) by (nonlinear_arith);
    assert(a.z * a.z >= 0 && (a.z != 0 ==> a.z * a.z > 0)) by (nonlinear_arith);
}

/// A unit vector has length 1.0 to within rounding: its squared length lies
/// between `2^60 - 6 * 2^30 - 3` and `2^60`.
pub proof fn lemma_unit_length(a: Vec3)
    requires
        a != Vec3::zero(),
    ensures
        a.unit().within(1073741824),
        a.unit().norm_sq() <= 1152921504606846976,
        a.unit().norm_sq() > 1152921504606846976 - 6 * 1073741824 - 3,
{
    let q = a.norm_sq();
    lemma_norm_sq_positive(a);
    lemma_unit_component(a.x, q);
    lemma_unit_component(a.y, q);
    lemma_unit_component(a.z, q);
    let u = a.unit();
    let mx = abs(u.x);
    let my = abs(u.y);
    let mz = abs(u.z);
    let ax = a.x * a.x;
    let ay = a.y * a.y;
    let az = a.z * a.z;
    let sx = mx * mx;
    let sy = my * my;
    let sz = mz * mz;
    assert(u.x * u.x == sx) by (nonlinear_arith)
        requires
            mx == u.x || mx == -u.x,
            sx == mx * mx,
    ;
    assert(u.y * u.y == sy) by (nonlinear_arith)
        requires
            my == u.y || my == -u.y,
            sy == my * my,
    ;
    assert(u.z * u.z == sz) by (nonlinear_arith)
        requires
            mz == u.z || mz == -u.z,
            sz == mz * mz,
    ;
    assert((sx + sy + sz) * q <= 1152921504606846976 * q) by (nonlinear_arith)
        requires
            sx * q <= 1152921504606846976 * ax,
            sy * q <= 1152921504606846976 * ay,
            sz * q <= 1152921504606846976 * az,
            q == ax + ay + az,
    ;
    assert(sx + sy + sz <= 1152921504606846976) by (nonlinear_arith)
        requires
            (sx + sy + sz) * q <= 1152921504606846976 * q,
            q > 0,
    ;
    let tx = (mx + 1) * (mx + 1);
    let ty = (my + 1) * (my + 1);
    let tz = (mz + 1) * (mz + 1);
    assert(1152921504606846976 * q < (tx + ty + tz) * q) by (nonlinear_arith)
        requires
            1152921504606846976 * ax < tx * q,
            1152921504606846976 * ay < ty * q,
            1152921504606846976 * az < tz * q,
            q == ax + ay + az,
    ;
    assert(1152921504606846976 < tx + ty + tz) by (nonlinear_arith)
        requires
            1152921504606846976 * q < (tx + ty + tz) * q,
            q > 0,
    ;
    assert(tx == sx + 2 * mx + 1) by (nonlinear_arith)
        requires
            tx == (mx + 1) * (mx + 1),
            sx == mx * mx,
    ;
    assert(ty == sy + 2 * my + 1) by (nonlinear_arith)
        requires
            ty == (my + 1) * (my + 1),
            sy == my * my,
    ;
    assert(tz == sz + 2 * mz + 1) by (nonlinear_arith)
        requires
            tz == (mz + 1) * (mz + 1),
            sz == mz * mz,
    ;
}

/// A vector times a bounded factor is bounded by the product of the bounds.
pub proof fn lemma_times_bound(a: Vec3, k: int, bound: int, bound_k: int)
    requires
        a.within(bound),
        -bound_k <= k <= bound_k,
    ensures
        a.times(k).within(bound_k * bound),
{
    lemma_product_bound(k, a.x, bound_k, bound);
    lemma_product_bound(k, a.y, bound_k, bound);
    lemma_product_bound(k, a.z, bound_k, bound);
}

/// A divided vector is bounded by the bound divided.
pub proof fn lemma_over_bound(a: Vec3, d: int, bound: int)
    requires
        a.within(bound),
        d > 0,
    ensures
        a.over(d).within(bound / d),
{
    lemma_trunc_div_bound(a.x, d, bound);
    lemma_trunc_div_bound(a.y, d, bound);
    lemma_trunc_div_bound(a.z, d, bound);
}

/// The cross product of two bounded vectors is within twice the product of
/// the bounds.
pub proof fn lemma_cross_bound(a: Vec3, b: Vec3, bound_a: int, bound_b: int)
    requires
        a.within(bound_a),
        b.within(bound_b),
    ensures
        a.cross(b).within(2 * (bound_a * bound_b)),
{
    lemma_product_bound(a.y, b.z, bound_a, bound_b);
    lemma_product_bound(a.z, b.y, bound_a, bound_b);
    lemma_product_bound(a.z, b.x, bound_a, bound_b);
    lemma_product_bound(a.x, b.z, bound_a, bound_b);
    lemma_product_bound(a.x, b.y, bound_a, bound_b);
    lemma_product_bound(a.y, b.x, bound_a, bound_b);
}

/// A product of bounded factors is bounded by the product of the bounds.
pub proof fn lemma_product_bound(a: int, b: int, bound_a: int, bound_b: int)
    requires
        -bound_a <= a <= bound_a,
        -bound_b <= b <= bound_b,
    ensures
        -(bound_a * bound_b) <= a * b <= bound_a * bound_b,
{
    assert(-(bound_a * bound_b) <= a * b <= bound_a * bound_b) by (nonlinear_arith)
        requires
            -bound_a <= a <= bound_a,
            -bound_b <= b <= bound_b,
    ;
}

} // verus!
