use vstd::prelude::*;

verus! {

/// A point in world space. Each coordinate is an IEEE-754 single-precision
/// number held as its bit pattern (what `f32::to_bits` gives), so that the
/// library keeps, compares and orders positions exactly as the renderer sees
/// them.
#[derive(Clone, Copy, Debug)]
pub struct Position {
    pub x: u32,
    pub y: u32,
}

/// Coordinates of a tile: column `x` and row `y`.
#[derive(Clone, Copy, PartialEq, Eq, Structural, Debug)]
pub struct TilePos {
    pub x: usize,
    pub y: usize,
}

/// The bit pattern of a NaN: all exponent bits set and a non-zero fraction.
pub open spec fn f32_is_nan(bits: u32) -> bool {
    (bits & 0x7f80_0000u32) == 0x7f80_0000u32 && (bits & 0x007f_ffffu32) != 0
}

/// Where a non-NaN number stands on the number line: IEEE-754 orders
/// numbers of one sign by the magnitude bits, and both zeros are equal.
pub open spec fn f32_rank(bits: u32) -> int {
    let magnitude = (bits & 0x7fff_ffffu32) as int;
    if bits >= 0x8000_0000u32 {
        -magnitude
    } else {
        magnitude
    }
}

/// IEEE-754 `a <= b`: false whenever either side is NaN.
pub open spec fn f32_le(a: u32, b: u32) -> bool {
    !f32_is_nan(a) && !f32_is_nan(b) && f32_rank(a) <= f32_rank(b)
}

/// IEEE-754 `a < b`: false whenever either side is NaN.
pub open spec fn f32_lt(a: u32, b: u32) -> bool {
    !f32_is_nan(a) && !f32_is_nan(b) && f32_rank(a) < f32_rank(b)
}

/// IEEE-754 `a == b`: false whenever either side is NaN; the two zeros are equal.
pub open spec fn f32_eq(a: u32, b: u32) -> bool {
    !f32_is_nan(a) && !f32_is_nan(b) && f32_rank(a) == f32_rank(b)
}

/// Tells whether the number with bit pattern `bits` is NaN.
pub fn is_nan(bits: u32) -> (r: bool)
    ensures
        r == f32_is_nan(bits),
{
    (bits & 0x7f80_0000u32) == 0x7f80_0000u32 && (bits & 0x007f_ffffu32) != 0
}

/// Compares the ranks of two bit patterns: `-1`, `0` or `1` as the first is
/// below, equal to or above the second.
fn compare_rank(a: u32, b: u32) -> (r: i8)
    ensures
        r == -1 <==> f32_rank(a) < f32_rank(b),
        r == 0 <==> f32_rank(a) == f32_rank(b),
        r == 1 <==> f32_rank(a) > f32_rank(b),
{
    let ma = a & 0x7fff_ffffu32;
    let mb = b & 0x7fff_ffffu32;
    let a_negative = a >= 0x8000_0000u32;
    let b_negative = b >= 0x8000_0000u32;
    // Signed rank: the magnitude, negated for negative numbers.
    let ra: i64 = if a_negative {
        -(ma as i64)
    } else {
        ma as i64
    };
    let rb: i64 = if b_negative {
        -(mb as i64)
    } else {
        mb as i64
    };
    if ra < rb {
        -1
    } else if ra == rb {
        0
    } else {
        1
    }
}

/// IEEE-754 `a == b` on two bit patterns.
pub fn equals(a: u32, b: u32) -> (r: bool)
    ensures
        r == f32_eq(a, b),
{
    !is_nan(a) && !is_nan(b) && compare_rank(a, b) == 0
}

/// IEEE-754 `a <= b` on two bit patterns.
pub fn le(a: u32, b: u32) -> (r: bool)
    ensures
        r == f32_le(a, b),
{
    !is_nan(a) && !is_nan(b) && compare_rank(a, b) <= 0
}

/// IEEE-754 `a < b` on two bit patterns.
pub fn lt(a: u32, b: u32) -> (r: bool)
    ensures
        r == f32_lt(a, b),
{
    !is_nan(a) && !is_nan(b) && compare_rank(a, b) < 0
}

/// Two positions are equal when both coordinates are, as numbers.
impl PartialEq for Position {
    fn eq(&self, other: &Self) -> (r: bool) {
        equals(self.x, other.x) && equals(self.y, other.y)
    }
}

impl vstd::std_specs::cmp::PartialEqSpecImpl for Position {
    open spec fn obeys_eq_spec() -> bool {
        true
    }

    open spec fn eq_spec(&self, other: &Self) -> bool {
        f32_eq(self.x, other.x) && f32_eq(self.y, other.y)
    }
}

impl Position {
    /// The origin, `(0.0, 0.0)`.
    pub fn zero() -> (r: Position)
        ensures
            r.x == 0 && r.y == 0,
    {
        Position { x: 0, y: 0 }
    }
}

} // verus!
