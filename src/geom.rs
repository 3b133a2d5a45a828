//! Integer vectors and floor division used by every stage.

use vstd::prelude::*;

verus! {

/// A 3-vector of signed integers: a fixed-point world position, a tile-space
/// coordinate or a per-axis tile count, depending on where it is used.
#[derive(Clone, Copy, Debug, PartialEq, Eq, Structural)]
pub struct IVec3 {
    pub x: i64,
    pub y: i64,
    pub z: i64,
}

impl IVec3 {
    /// The component along `axis` (0 = x, 1 = y, 2 = z).
    pub open spec fn at(self, axis: int) -> int {
        if axis == 0 {
            self.x as int
        } else if axis == 1 {
            self.y as int
        } else {
            self.z as int
        }
    }

    pub fn new(x: i64, y: i64, z: i64) -> (r: IVec3)
        ensures
            r == (IVec3 { x, y, z }),
    {
        IVec3 { x, y, z }
    }

    pub fn zero() -> (r: IVec3)
        ensures
            r.x == 0 && r.y == 0 && r.z == 0,
    {
        IVec3 { x: 0, y: 0, z: 0 }
    }

    pub fn get(&self, axis: usize) -> (r: i64)
        requires
            axis < 3,
        ensures
            r as int == self.at(axis as int),
    {
        if axis == 0 {
            self.x
        } else if axis == 1 {
            self.y
        } else {
            self.z
        }
    }

    pub fn is_zero(&self) -> (r: bool)
        ensures
            r == (self.x == 0 && self.y == 0 && self.z == 0),
    {
        self.x == 0 && self.y == 0 && self.z == 0
    }
}

/// `a` divided by `d`, rounded towards negative infinity.
pub fn floor_div(a: i64, d: i64) -> (r: i64)
    requires
        d > 0,
    ensures
        r as int == a as int / d as int,
{
    match a.checked_div_euclid(d) {
        Some(q) => q,
        None => {
            proof {
                lemma_floor_div_bounds(a as int, d as int);
            }
            0
        },
    }
}

/// The quotient of an `i64` by a positive divisor is itself an `i64`.
pub proof fn lemma_floor_div_bounds(a: int, d: int)
    requires
        i64::MIN <= a <= i64::MAX,
        d > 0,
    ensures
        i64::MIN <= a / d <= i64::MAX,
{
    let q = a / d;
    vstd::arithmetic::div_mod::lemma_fundamental_div_mod(a, d);
    if a >= 0 {
        vstd::arithmetic::div_mod::lemma_div_pos_is_pos(a, d);
        vstd::arithmetic::div_mod::lemma_div_is_ordered_by_denominator(a, 1, d);
    } else {
        assert(q >= a) by (nonlinear_arith)
            requires
                q * d <= a,
                a < q * d + d,
                a < 0,
                d > 0,
        ;
        assert(q <= 0) by (nonlinear_arith)
            requires
                q * d <= a,
                a < 0,
                d > 0,
        ;
    }
}

/// Floor division by a positive divisor: `n * d <= a` exactly when `n` is at
/// most the quotient.
pub proof fn lemma_floor_div_le(a: int, d: int, n: int)
    requires
        d > 0,
    ensures
        n * d <= a <==> n <= a / d,
{
    let q = a / d;
    vstd::arithmetic::div_mod::lemma_fundamental_div_mod(a, d);
    if n <= q {
        assert(n * d <= q * d) by (nonlinear_arith)
            requires
                n <= q,
                d > 0,
        ;
    } else {
        assert(n * d >= (q + 1) * d) by (nonlinear_arith)
            requires
                n >= q + 1,
                d > 0,
        ;
        assert((q + 1) * d == q * d + d) by (nonlinear_arith);
    }
}

} // verus!
