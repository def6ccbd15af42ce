//! Cities on an integer grid and the distances between them.
use vstd::prelude::*;

verus! {

/// A city at integer grid coordinates.
///
/// Distances are rounded down to whole grid units, so paths whose true lengths
/// differ by less than a unit per edge can come out equal. Coordinates should be
/// scaled up enough (for example by 1000, one grid unit to a thousandth of a
/// coordinate unit) that the rounding does not merge lengths that matter.
#[derive(Clone, Copy, Debug, PartialEq, Eq, Structural)]
pub struct City {
    pub x: i32,
    pub y: i32,
}

/// Every distance between two cities is below this bound.
pub const DISTANCE_BOUND: u64 = 0x2_0000_0000;

/// `r` is the integer square root of `v`, rounded down.
pub open spec fn is_floor_sqrt(r: nat, v: nat) -> bool {
    r * r <= v && v < (r + 1) * (r + 1)
}

/// The integer square root of `v`, rounded down.
pub open spec fn floor_sqrt(v: nat) -> nat {
    choose|r: nat| is_floor_sqrt(r, v)
}

/// Squared Euclidean distance between two cities.
pub open spec fn squared_distance(a: City, b: City) -> nat {
    ((a.x - b.x) * (a.x - b.x) + (a.y - b.y) * (a.y - b.y)) as nat
}

/// Euclidean distance between two cities, rounded down to an integer (see `City`
/// on scaling coordinates so that this rounding stays small).
pub open spec fn distance(a: City, b: City) -> nat {
    floor_sqrt(squared_distance(a, b))
}

/// There is at most one rounded-down square root.
pub proof fn lemma_floor_sqrt_unique(r1: nat, r2: nat, v: nat)
    requires
        is_floor_sqrt(r1, v),
        is_floor_sqrt(r2, v),
    ensures
        r1 == r2,
{
    if r1 < r2 {
        assert((r1 + 1) * (r1 + 1) <= r2 * r2) by (nonlinear_arith)
            requires r1 + 1 <= r2;
    } else if r2 < r1 {
        assert((r2 + 1) * (r2 + 1) <= r1 * r1) by (nonlinear_arith)
            requires r2 + 1 <= r1;
    }
}

/// Distance does not depend on the direction of travel.
pub proof fn lemma_distance_symmetric(a: City, b: City)
    ensures
        distance(a, b) == distance(b, a),
{
    assert((a.x - b.x) * (a.x - b.x) == (b.x - a.x) * (b.x - a.x)) by (nonlinear_arith);
    assert((a.y - b.y) * (a.y - b.y) == (b.y - a.y) * (b.y - a.y)) by (nonlinear_arith);
}

/// Rounded-down square root of `v`, by bisection.
pub fn isqrt(v: u128) -> (r: u64)
    requires
        v < 0x4_0000_0000_0000_0000,
    ensures
        is_floor_sqrt(r as nat, v as nat),
        r as nat == floor_sqrt(v as nat),
        r < DISTANCE_BOUND,
{
    let mut lo: u128 = 0;
    let mut hi: u128 = 0x2_0000_0000;
    assert(hi * hi == 0x4_0000_0000_0000_0000) by (nonlinear_arith)
        requires hi == 0x2_0000_0000;
    while hi - lo > 1
        invariant
            lo < hi <= 0x2_0000_0000,
            lo * lo <= v,
            v < hi * hi,
        decreases hi - lo,
    {
        let mid: u128 = lo + (hi - lo) / 2;
        assert(mid * mid <= 0x4_0000_0000_0000_0000) by (nonlinear_arith)
            requires mid <= 0x2_0000_0000;
        if mid * mid <= v {
            lo = mid;
        } else {
            hi = mid;
        }
    }
    assert(hi == lo + 1);
    proof {
        let w = lo as nat;
        assert(is_floor_sqrt(w, v as nat));
        lemma_floor_sqrt_unique(w, floor_sqrt(v as nat), v as nat);
    }
    lo as u64
}

impl City {
    /// A city at `(x, y)`.
    pub fn new(x: i32, y: i32) -> (r: City)
        ensures
            r.x == x,
            r.y == y,
    {
        City { x, y }
    }

    /// Euclidean distance to `other`, rounded down.
    pub fn distance_to(&self, other: &City) -> (r: u64)
        ensures
            r as nat == distance(*self, *other),
            r < DISTANCE_BOUND,
    {
        let dx: i64 = self.x as i64 - other.x as i64;
        let dy: i64 = self.y as i64 - other.y as i64;
        let ax: u128 = if dx < 0 { (-dx) as u128 } else { dx as u128 };
        let ay: u128 = if dy < 0 { (-dy) as u128 } else { dy as u128 };
        assert(ax * ax <= 0xFFFF_FFFF * 0xFFFF_FFFF) by (nonlinear_arith)
            requires ax <= 0xFFFF_FFFF;
        assert(ay * ay <= 0xFFFF_FFFF * 0xFFFF_FFFF) by (nonlinear_arith)
            requires ay <= 0xFFFF_FFFF;
        let sq: u128 = ax * ax + ay * ay;
        assert(sq as int == squared_distance(*self, *other)) by (nonlinear_arith)
            requires
                ax as int == dx || ax as int == -dx,
                ay as int == dy || ay as int == -dy,
                dx == self.x - other.x,
                dy == self.y - other.y,
                sq == ax * ax + ay * ay,
        ;
        isqrt(sq)
    }
}

} // verus!
