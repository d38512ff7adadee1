//! Points of the unit disk, and the rejection sampler that draws them.
//!
//! A disk coordinate is an integer in units of 2^-23, so 8388608 stands for
//! 1.0 and a point lies in the open unit disk when the sum of its squared
//! coordinates is below 2^46.

use rand::rngs::StdRng;
use rand::Rng;
use vstd::prelude::*;

verus! {

/// The raw disk coordinate that stands for 1.0.
pub const DISK_ONE: i32 = 8388608;

/// How many candidates `random_in_unit_disk` draws before it gives up.
pub const MAX_ATTEMPTS: u32 = 1000000;

/// The point lies strictly inside the unit disk.
pub open spec fn in_unit_disk(p: (int, int)) -> bool {
    p.0 * p.0 + p.1 * p.1 < 70368744177664
}

/// The candidate that two 32-bit draws stand for. The top 24 bits of a draw
/// are a fraction `k / 2^24` of [0, 1); doubled and shifted down by one it
/// becomes `(k - 2^23) / 2^23`, a coordinate of [-1, 1).
pub open spec fn candidate(x_bits: u32, y_bits: u32) -> (int, int) {
    (x_bits as int / 256 - 8388608, y_bits as int / 256 - 8388608)
}

/// A point strictly inside the unit disk.
#[derive(Clone, Copy, Debug, PartialEq, Eq, Structural)]
pub struct DiskPoint {
    x: i32,
    y: i32,
}

impl View for DiskPoint {
    type V = (int, int);

    closed spec fn view(&self) -> (int, int) {
        (self.x as int, self.y as int)
    }
}

/// `rand::rngs::StdRng`, the generator that draws are taken from. It is
/// carried through as an opaque value; nothing is claimed of its state.
#[verifier::external_type_specification]
#[verifier::external_body]
pub struct ExStdRng(StdRng);

/// `Rng::gen::<u32>` on a `StdRng`: the next 32 bits of the generator's
/// stream. Nothing is claimed of their value. These are the bits whose top
/// 24 the generator scales into a float of [0, 1).
#[verifier::external_body]
fn next_bits(rng: &mut StdRng) -> u32 {
    rng.gen::<u32>()
}

/// Inside the unit disk each coordinate is below 1.0 in magnitude.
pub proof fn lemma_disk_coordinates(p: (int, int))
    requires
        in_unit_disk(p),
    ensures
        -8388608 < p.0 < 8388608,
        -8388608 < p.1 < 8388608,
{
    assert(-8388608 < p.0 < 8388608) by (nonlinear_arith)
        requires
            p.0 * p.0 + p.1 * p.1 < 70368744177664,
    ;
    assert(-8388608 < p.1 < 8388608) by (nonlinear_arith)
        requires
            p.0 * p.0 + p.1 * p.1 < 70368744177664,
    ;
}

impl DiskPoint {
    /// The type's invariant.
    pub open spec fn wf(&self) -> bool {
        in_unit_disk(self@)
    }

    /// The point with the given coordinates, if it lies inside the disk.
    pub fn new(x: i32, y: i32) -> (r: Option<DiskPoint>)
        ensures
            r is Some <==> in_unit_disk((x as int, y as int)),
            r matches Some(p) ==> p@ == (x as int, y as int) && p.wf(),
    {
        let wx = x as i128;
        let wy = y as i128;
        assert(0 <= wx * wx <= 0x4000_0000_0000_0000) by (nonlinear_arith)
            requires
                -0x8000_0000 <= wx <= 0x8000_0000,
        ;
        assert(0 <= wy * wy <= 0x4000_0000_0000_0000) by (nonlinear_arith)
            requires
                -0x8000_0000 <= wy <= 0x8000_0000,
        ;
        if wx * wx + wy * wy < 70368744177664 {
            Some(DiskPoint { x, y })
        } else {
            None
        }
    }

    /// The centre of the disk.
    pub fn centre() -> (p: DiskPoint)
        ensures
            p@ == (0int, 0int),
            p.wf(),
    {
        assert(0int * 0int + 0int * 0int < 70368744177664) by (nonlinear_arith);
        DiskPoint { x: 0, y: 0 }
    }

    /// The candidate that two draws stand for, if it lies inside the disk.
    pub fn from_bits(x_bits: u32, y_bits: u32) -> (r: Option<DiskPoint>)
        ensures
            r is Some <==> in_unit_disk(candidate(x_bits, y_bits)),
            r matches Some(p) ==> p@ == candidate(x_bits, y_bits) && p.wf(),
    {
        let kx = x_bits >> 8;
        let ky = y_bits >> 8;
        assert(kx == x_bits / 256 && kx < 0x100_0000) by (bit_vector)
            requires
                kx == x_bits >> 8,
        ;
        assert(ky == y_bits / 256 && ky < 0x100_0000) by (bit_vector)
            requires
                ky == y_bits >> 8,
        ;
        DiskPoint::new(kx as i32 - DISK_ONE, ky as i32 - DISK_ONE)
    }

    pub fn x(&self) -> (r: i32)
        ensures
            r == self@.0,
    {
        self.x
    }

    pub fn y(&self) -> (r: i32)
        ensures
            r == self@.1,
    {
        self.y
    }
}

/// Draws candidates from `rng`, two draws for each, first the horizontal and
/// then the vertical coordinate, and returns the first that lies inside the
/// unit disk. A candidate is accepted with probability above 78.5%; after
/// `MAX_ATTEMPTS` rejections in a row the result is `None`.
///
/// The generator is borrowed mutably, so no two callers can draw from it at
/// once: give each rendering thread a generator of its own.
pub fn random_in_unit_disk(rng: &mut StdRng) -> (r: Option<DiskPoint>)
    ensures
        r matches Some(p) ==> p.wf(),
{
    let mut attempt: u32 = 0;
    while attempt < MAX_ATTEMPTS
        invariant
            attempt <= MAX_ATTEMPTS,
        decreases MAX_ATTEMPTS - attempt,
    {
        let x_bits = next_bits(rng);
        let y_bits = next_bits(rng);
        match DiskPoint::from_bits(x_bits, y_bits) {
            Some(p) => {
                return Some(p);
            },
            None => {},
        }
        attempt = attempt + 1;
    }
    None
}

} // verus!
