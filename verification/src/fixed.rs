//! Deterministic fixed-point numbers used by the simulation and the grids.
//!
//! A `FixedNum` is a signed 64-bit value with `FRAC_BITS` fractional bits:
//! the number it stands for is `bits / 2^FRAC_BITS`.  All contracts speak
//! of the raw `bits`, so every statement is an exact statement about integers.
use vstd::prelude::*;
use vstd::arithmetic::div_mod::lemma_fundamental_div_mod;
use vstd::arithmetic::div_mod::lemma_fundamental_div_mod_converse;
use vstd::arithmetic::div_mod::lemma_div_is_ordered;

verus! {

/// Number of fractional bits of a `FixedNum`.
pub const FRAC_BITS: u32 = 16;

/// Raw bits of the number one.
pub const ONE_BITS: i64 = 65536;

/// Raw bits of one half.
pub const HALF_BITS: i64 = 32768;

/// Largest magnitude of a coordinate accepted by the vector operations.
pub const COORD_LIMIT: i64 = 0x20_0000_0000;

/// Floor of `a * b / 2^FRAC_BITS`: the product of two fixed-point numbers given by their bits.
pub open spec fn fixed_mul_spec(a: int, b: int) -> int {
    (a * b) / (ONE_BITS as int)
}

/// Quotient of two fixed-point numbers given by their bits, for a positive
/// divisor, rounded down to the fixed-point grid.
pub open spec fn fixed_div_spec(a: int, b: int) -> int {
    (a * ONE_BITS) / b
}

/// A coordinate that the vector operations accept without overflow.
pub open spec fn coord_ok(bits: int) -> bool {
    -(COORD_LIMIT as int) <= bits <= COORD_LIMIT as int
}

/// Floor division of a possibly negative dividend by a positive divisor, as Verus's `/` on `int`.
proof fn lemma_floor_of_negative(a: int, d: int)
    requires
        d > 0,
        a < 0,
    ensures
        -((-a + d - 1) / d) == a / d,
{
    let q = a / d;
    let r = a % d;
    lemma_fundamental_div_mod(a, d);
    assert(0 <= r < d);
    assert(-a + d - 1 == (-q) * d + (d - 1 - r)) by (nonlinear_arith)
        requires
            a == d * q + r,
    ;
    lemma_fundamental_div_mod_converse(-a + d - 1, d, -q, d - 1 - r);
}

/// Floor of `a / d` for a positive divisor `d`.
pub fn floor_div_i128(a: i128, d: i128) -> (q: i128)
    requires
        d > 0,
        a > i128::MIN,
    ensures
        q == a as int / d as int,
{
    if a >= 0 {
        let q = (a as u128) / (d as u128);
        assert(q <= a as u128) by (nonlinear_arith)
            requires
                q == (a as u128) / (d as u128),
                d as u128 >= 1,
        ;
        q as i128
    } else {
        let n: u128 = (-a) as u128;
        let du: u128 = d as u128;
        let t: u128 = (n + du - 1) / du;
        assert(t <= n + du - 1) by (nonlinear_arith)
            requires
                t == (n + du - 1) / (du as int),
                du >= 1,
        ;
        assert(t <= n) by (nonlinear_arith)
            requires
                t == (n + du - 1) / (du as int),
                du >= 1,
                n >= 1,
        {
            if t > n {
                assert(t * du >= (n + 1) * du);
                assert((n + 1) * du > n + du - 1);
            }
        }
        proof {
            lemma_floor_of_negative(a as int, d as int);
        }
        -(t as i128)
    }
}

/// A deterministic fixed-point number with `FRAC_BITS` fractional bits.
#[derive(Clone, Copy, Debug, PartialEq, Eq, Structural)]
pub struct FixedNum {
    pub bits: i64,
}

impl FixedNum {
    /// The number zero.
    pub fn zero() -> (r: FixedNum)
        ensures
            r.bits == 0,
    {
        FixedNum { bits: 0 }
    }

    /// The number one.
    pub fn one() -> (r: FixedNum)
        ensures
            r.bits == ONE_BITS,
    {
        FixedNum { bits: ONE_BITS }
    }

    /// The number with the given raw bits.
    pub fn from_bits(bits: i64) -> (r: FixedNum)
        ensures
            r.bits == bits,
    {
        FixedNum { bits }
    }

    /// The whole number `n`.
    pub fn from_int(n: i64) -> (r: FixedNum)
        requires
            -0x8000_0000_0000 <= n < 0x8000_0000_0000,
        ensures
            r.bits == n * ONE_BITS,
    {
        FixedNum { bits: n * ONE_BITS }
    }

    /// Sum of two numbers.
    pub fn add(self, other: FixedNum) -> (r: FixedNum)
        requires
            i64::MIN <= self.bits + other.bits <= i64::MAX,
        ensures
            r.bits == self.bits + other.bits,
    {
        FixedNum { bits: self.bits + other.bits }
    }

    /// Difference of two numbers.
    pub fn sub(self, other: FixedNum) -> (r: FixedNum)
        requires
            i64::MIN <= self.bits - other.bits <= i64::MAX,
        ensures
            r.bits == self.bits - other.bits,
    {
        FixedNum { bits: self.bits - other.bits }
    }

    /// Product of two numbers, rounded toward negative infinity.
    pub fn mul(self, other: FixedNum) -> (r: FixedNum)
        requires
            i64::MIN <= fixed_mul_spec(self.bits as int, other.bits as int) <= i64::MAX,
        ensures
            r.bits == fixed_mul_spec(self.bits as int, other.bits as int),
    {
        let p: i128 = (self.bits as i128) * (other.bits as i128);
        assert(p > i128::MIN) by (nonlinear_arith)
            requires
                p == (self.bits as i128) * (other.bits as i128),
                i64::MIN <= self.bits <= i64::MAX,
                i64::MIN <= other.bits <= i64::MAX,
        ;
        let q = floor_div_i128(p, ONE_BITS as i128);
        FixedNum { bits: q as i64 }
    }

    /// Half of a non-negative number, rounded down.
    pub fn half(self) -> (r: FixedNum)
        requires
            self.bits >= 0,
        ensures
            r.bits == self.bits / 2,
    {
        FixedNum { bits: self.bits / 2 }
    }

    /// Quotient by a positive number, rounded down to the fixed-point grid.
    pub fn div(self, other: FixedNum) -> (r: FixedNum)
        requires
            other.bits > 0,
            i64::MIN <= fixed_div_spec(self.bits as int, other.bits as int) <= i64::MAX,
        ensures
            r.bits == fixed_div_spec(self.bits as int, other.bits as int),
    {
        let p: i128 = (self.bits as i128) * 65536;
        let q = floor_div_i128(p, other.bits as i128);
        FixedNum { bits: q as i64 }
    }

    /// Whether `self < other`.
    pub fn lt(self, other: FixedNum) -> (r: bool)
        ensures
            r == (self.bits < other.bits),
    {
        self.bits < other.bits
    }

    /// Whether `self <= other`.
    pub fn le(self, other: FixedNum) -> (r: bool)
        ensures
            r == (self.bits <= other.bits),
    {
        self.bits <= other.bits
    }
}

/// Floor of `num / den` for a positive `den`, as an integer.
pub fn floor_div_fixed(num: FixedNum, den: FixedNum) -> (r: i64)
    requires
        den.bits > 0,
    ensures
        r == num.bits as int / den.bits as int,
{
    let q = floor_div_i128(num.bits as i128, den.bits as i128);
    assert(-(i64::MAX as int) - 1 <= q <= i64::MAX) by {
        if num.bits >= 0 {
            assert(q <= num.bits) by (nonlinear_arith)
                requires
                    q == num.bits as int / den.bits as int,
                    num.bits >= 0,
                    den.bits >= 1,
            ;
            assert(q >= 0) by (nonlinear_arith)
                requires
                    q == num.bits as int / den.bits as int,
                    num.bits >= 0,
                    den.bits >= 1,
            ;
        } else {
            assert(q >= num.bits) by (nonlinear_arith)
                requires
                    q == num.bits as int / den.bits as int,
                    num.bits < 0,
                    den.bits >= 1,
            {
                lemma_fundamental_div_mod(num.bits as int, den.bits as int);
                let r = (num.bits as int) % (den.bits as int);
                if q < num.bits {
                    assert(den.bits * q <= q);
                }
            }
            assert(q < 0) by (nonlinear_arith)
                requires
                    q == num.bits as int / den.bits as int,
                    num.bits < 0,
                    den.bits >= 1,
            {
                lemma_fundamental_div_mod(num.bits as int, den.bits as int);
            }
        }
    }
    q as i64
}

/// A two-dimensional vector of fixed-point numbers.
#[derive(Clone, Copy, Debug, PartialEq, Eq, Structural)]
pub struct FixedVec2 {
    pub x: FixedNum,
    pub y: FixedNum,
}

/// Squared length, in bits, of the vector with components `x` and `y` given by their bits.
pub open spec fn length_squared_spec(x: int, y: int) -> int {
    fixed_mul_spec(x, x) + fixed_mul_spec(y, y)
}

impl FixedVec2 {
    /// The vector with the given components.
    pub fn new(x: FixedNum, y: FixedNum) -> (r: FixedVec2)
        ensures
            r.x == x,
            r.y == y,
    {
        FixedVec2 { x, y }
    }

    /// Whether both components lie within `COORD_LIMIT`.
    pub open spec fn in_range(self) -> bool {
        coord_ok(self.x.bits as int) && coord_ok(self.y.bits as int)
    }

    /// Componentwise difference.
    pub fn sub(self, other: FixedVec2) -> (r: FixedVec2)
        requires
            self.in_range(),
            other.in_range(),
        ensures
            r.x.bits == self.x.bits - other.x.bits,
            r.y.bits == self.y.bits - other.y.bits,
    {
        FixedVec2 { x: self.x.sub(other.x), y: self.y.sub(other.y) }
    }

    /// Squared Euclidean length; each square is rounded toward negative infinity.
    pub fn length_squared(self) -> (r: FixedNum)
        requires
            -2 * (COORD_LIMIT as int) <= self.x.bits <= 2 * (COORD_LIMIT as int),
            -2 * (COORD_LIMIT as int) <= self.y.bits <= 2 * (COORD_LIMIT as int),
        ensures
            r.bits == length_squared_spec(self.x.bits as int, self.y.bits as int),
            r.bits >= 0,
    {
        let x = self.x.bits as i128;
        let y = self.y.bits as i128;
        assert(0 <= x * x <= 0x1000_0000_0000_0000_0000) by (nonlinear_arith)
            requires
                -0x40_0000_0000 <= x <= 0x40_0000_0000,
        ;
        assert(0 <= y * y <= 0x1000_0000_0000_0000_0000) by (nonlinear_arith)
            requires
                -0x40_0000_0000 <= y <= 0x40_0000_0000,
        ;
        let xx = x * x;
        let yy = y * y;
        let qx = (xx as u128) / 65536u128;
        let qy = (yy as u128) / 65536u128;
        proof {
            lemma_div_is_ordered(xx as int, 0x1000_0000_0000_0000_0000, 65536);
            lemma_div_is_ordered(yy as int, 0x1000_0000_0000_0000_0000, 65536);
            assert(0x1000_0000_0000_0000_0000int / 65536 == 0x1000_0000_0000_0000int);
        }
        FixedNum { bits: (qx + qy) as i64 }
    }
}

/// Whether `r` is the square root, rounded down, of the fixed-point number
/// with bits `x`: the largest `r` with `r * r <= x * 2^FRAC_BITS`.
pub open spec fn is_sqrt_bits(x: int, r: int) -> bool {
    r >= 0 && r * r <= x * ONE_BITS && (r + 1) * (r + 1) > x * ONE_BITS
}

/// Bits of the square root, rounded down, of the number with bits `x >= 0`.
pub open spec fn sqrt_bits(x: int) -> int {
    choose|r: int| is_sqrt_bits(x, r)
}

proof fn lemma_sqrt_unique(x: int, r1: int, r2: int)
    requires
        is_sqrt_bits(x, r1),
        is_sqrt_bits(x, r2),
    ensures
        r1 == r2,
{
    if r1 < r2 {
        assert((r1 + 1) * (r1 + 1) <= r2 * r2) by (nonlinear_arith)
            requires
                0 <= r1 < r2,
        ;
    } else if r2 < r1 {
        assert((r2 + 1) * (r2 + 1) <= r1 * r1) by (nonlinear_arith)
            requires
                0 <= r2 < r1,
        ;
    }
}

/// Square root, rounded down, of the number with bits `x`, for `0 <= x < 2^62`.
pub fn sqrt_fixed_bits(x: i64) -> (r: i64)
    requires
        0 <= x < 0x4000_0000_0000_0000,
    ensures
        is_sqrt_bits(x as int, r as int),
        r as int == sqrt_bits(x as int),
        0 <= r <= 0x80_0000_0000,
{
    let n: u128 = (x as u128) * 65536;
    let mut lo: u128 = 0;
    let mut hi: u128 = 0x80_0000_0001;
    assert(hi * hi > n) by (nonlinear_arith)
        requires
            n == x * 65536,
            0 <= x < 0x4000_0000_0000_0000,
            hi == 0x80_0000_0001,
    ;
    while hi - lo > 1
        invariant
            lo < hi,
            hi <= 0x80_0000_0001,
            lo * lo <= n,
            hi * hi > n,
            n == x * 65536,
        decreases hi - lo,
    {
        let mid = lo + (hi - lo) / 2;
        assert(mid * mid <= 0x80_0000_0001 * 0x80_0000_0001) by (nonlinear_arith)
            requires
                mid <= 0x80_0000_0001,
        ;
        if mid * mid <= n {
            lo = mid;
        } else {
            hi = mid;
        }
    }
    proof {
        assert(hi == lo + 1);
        assert(is_sqrt_bits(x as int, lo as int));
        lemma_sqrt_unique(x as int, lo as int, sqrt_bits(x as int));
        assert(lo <= 0x80_0000_0000);
    }
    lo as i64
}

impl FixedVec2 {
    /// Euclidean length: the square root, rounded down, of `length_squared`.
    pub fn length(self) -> (r: FixedNum)
        requires
            -2 * (COORD_LIMIT as int) <= self.x.bits <= 2 * (COORD_LIMIT as int),
            -2 * (COORD_LIMIT as int) <= self.y.bits <= 2 * (COORD_LIMIT as int),
        ensures
            r.bits == sqrt_bits(length_squared_spec(self.x.bits as int, self.y.bits as int)),
            is_sqrt_bits(length_squared_spec(self.x.bits as int, self.y.bits as int), r.bits as int),
            0 <= r.bits <= 0x80_0000_0000,
    {
        let sq = self.length_squared();
        assert(sq.bits <= 0x2000_0000_0000_0000) by (nonlinear_arith)
            requires
                sq.bits == length_squared_spec(self.x.bits as int, self.y.bits as int),
                -0x40_0000_0000 <= self.x.bits <= 0x40_0000_0000,
                -0x40_0000_0000 <= self.y.bits <= 0x40_0000_0000,
        {
            assert(self.x.bits * self.x.bits <= 0x1000_0000_0000_0000_0000);
            assert(self.y.bits * self.y.bits <= 0x1000_0000_0000_0000_0000);
        }
        FixedNum { bits: sqrt_fixed_bits(sq.bits) }
    }

    /// The vector scaled to unit length, as `normalize_spec` says.
    pub fn normalize(self) -> (r: FixedVec2)
        requires
            -2 * (COORD_LIMIT as int) <= self.x.bits <= 2 * (COORD_LIMIT as int),
            -2 * (COORD_LIMIT as int) <= self.y.bits <= 2 * (COORD_LIMIT as int),
        ensures
            (r.x.bits as int, r.y.bits as int) == normalize_spec(self.x.bits as int, self.y.bits as int),
            -2 * ONE_BITS <= r.x.bits <= 2 * ONE_BITS,
            -2 * ONE_BITS <= r.y.bits <= 2 * ONE_BITS,
    {
        let len = self.length();
        if len.bits == 0 {
            return FixedVec2 { x: FixedNum { bits: 0 }, y: FixedNum { bits: 0 } };
        }
        proof {
            lemma_component_within_length(self.x.bits as int, self.y.bits as int, len.bits as int);
            lemma_component_within_length(self.y.bits as int, self.x.bits as int, len.bits as int);
            lemma_quotient_within(self.x.bits as int, len.bits as int);
            lemma_quotient_within(self.y.bits as int, len.bits as int);
        }
        FixedVec2 { x: self.x.div(len), y: self.y.div(len) }
    }
}

/// The vector with components `x` and `y` (given by their bits) scaled to
/// unit length: each component divided by the length, rounded down; the zero
/// vector where the length is zero.
pub open spec fn normalize_spec(x: int, y: int) -> (int, int) {
    let len = sqrt_bits(length_squared_spec(x, y));
    if len == 0 {
        (0, 0)
    } else {
        (fixed_div_spec(x, len), fixed_div_spec(y, len))
    }
}

/// A component is at most twice the (rounded-down) length of its vector.
pub proof fn lemma_component_within_length(x: int, y: int, len: int)
    requires
        is_sqrt_bits(length_squared_spec(x, y), len),
        len > 0,
    ensures
        -2 * len <= x <= 2 * len,
{
    let l = length_squared_spec(x, y);
    let fx = fixed_mul_spec(x, x);
    let fy = fixed_mul_spec(y, y);
    lemma_fundamental_div_mod(x * x, 65536);
    assert(x * x >= 0 && y * y >= 0) by (nonlinear_arith);
    lemma_div_is_ordered(0, y * y, 65536);
    lemma_div_is_ordered(0, x * x, 65536);
    assert(fy >= 0);
    assert(l >= fx);
    assert(l >= 1) by (nonlinear_arith)
        requires
            len * len <= l * 65536,
            len > 0,
    ;
    assert(len >= 256) by (nonlinear_arith)
        requires
            (len + 1) * (len + 1) > l * 65536,
            l >= 1,
            len > 0,
    {
        if len < 256 {
            assert((len + 1) * (len + 1) <= 256 * 256);
        }
    }
    assert(x * x < (2 * len + 1) * (2 * len + 1)) by (nonlinear_arith)
        requires
            x * x < 65536 * fx + 65536,
            fx <= l,
            (len + 1) * (len + 1) > l * 65536,
            len >= 256,
    ;
    assert(-2 * len <= x <= 2 * len) by (nonlinear_arith)
        requires
            x * x < (2 * len + 1) * (2 * len + 1),
            len > 0,
    {
        if x > 2 * len {
            assert(x * x >= (2 * len + 1) * (2 * len + 1));
        }
        if x < -2 * len {
            assert(x * x >= (2 * len + 1) * (2 * len + 1));
        }
    }
}

/// Dividing a component by its vector's length gives at most two.
pub proof fn lemma_quotient_within(x: int, len: int)
    requires
        -2 * len <= x <= 2 * len,
        len > 0,
    ensures
        -2 * ONE_BITS <= fixed_div_spec(x, len) <= 2 * ONE_BITS,
{
    assert(-131072 * len <= x * 65536 <= 131072 * len) by (nonlinear_arith)
        requires
            -2 * len <= x <= 2 * len,
    ;
    lemma_div_is_ordered(x * 65536, 131072 * len, len);
    lemma_div_is_ordered(-131072 * len, x * 65536, len);
    vstd::arithmetic::div_mod::lemma_div_multiples_vanish(131072, len);
    vstd::arithmetic::div_mod::lemma_div_multiples_vanish(-131072, len);
}


/// A product of magnitude at most `m`, rescaled, has magnitude at most
/// `m / 2^FRAC_BITS` (one more below zero, from rounding down).
pub proof fn lemma_mul_within(a: int, b: int, m: int)
    requires
        m >= 0,
        -m <= a * b <= m,
    ensures
        -(m / 65536) - 1 <= fixed_mul_spec(a, b) <= m / 65536,
{
    lemma_div_is_ordered(a * b, m, 65536);
    lemma_div_is_ordered(-m, a * b, 65536);
    lemma_fundamental_div_mod(m, 65536);
    lemma_fundamental_div_mod(-m, 65536);
}

} // verus!
