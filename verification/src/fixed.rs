//! Fixed-point numbers: the engine's real-number representation.
//!
//! A `Fixed` holds a signed 64-bit integer counting millionths, so the
//! represented value is `self.0 / 1_000_000`.  Every operation clamps
//! its result to the representable range (`clip`), and products and
//! quotients truncate toward zero (`tdiv`), so all operations are total
//! and their results are pinned exactly by their contracts.

use vstd::prelude::*;

verus! {

/// Number of fixed-point units in 1.0.
pub const SCALE: i64 = 1_000_000;

/// Clamp a mathematical integer to the `i64` range.
pub open spec fn clip(x: int) -> int {
    if x > i64::MAX as int {
        i64::MAX as int
    } else if x < i64::MIN as int {
        i64::MIN as int
    } else {
        x
    }
}

pub open spec fn abs_int(x: int) -> int {
    if x >= 0 {
        x
    } else {
        -x
    }
}

/// Division truncating toward zero (the rounding of hardware integer
/// division), defined for any nonzero divisor.
pub open spec fn tdiv(n: int, d: int) -> int
    recommends
        d != 0,
{
    if (n >= 0) == (d >= 0) {
        abs_int(n) / abs_int(d)
    } else {
        -(abs_int(n) / abs_int(d))
    }
}

/// Scaled value of `a + b`.
pub open spec fn add_fx(a: int, b: int) -> int {
    clip(a + b)
}

/// Scaled value of `a - b`.
pub open spec fn sub_fx(a: int, b: int) -> int {
    clip(a - b)
}

/// Scaled value of the product of two fixed-point values.
pub open spec fn mul_fx(a: int, b: int) -> int {
    clip(tdiv(a * b, SCALE as int))
}

/// Scaled value of the quotient of two fixed-point values.
pub open spec fn div_fx(a: int, b: int) -> int
    recommends
        b != 0,
{
    clip(tdiv(a * (SCALE as int), b))
}

/// A real number stored as a count of millionths.
#[derive(Clone, Copy, Debug, PartialEq, Eq, Structural, Hash)]
pub struct Fixed(pub i64);

/// Clamp an `i128` intermediate result back to `i64`.
fn clip128(x: i128) -> (r: i64)
    ensures
        r as int == clip(x as int),
{
    if x > i64::MAX as i128 {
        i64::MAX
    } else if x < i64::MIN as i128 {
        i64::MIN
    } else {
        x as i64
    }
}

/// Quotient of magnitudes with the requested sign, clamped to `i64`.
/// `num / den` truncates toward zero by construction.
fn signed_quotient(neg: bool, num: u128, den: u128) -> (r: i64)
    requires
        den > 0,
        num < 0x8000_0000_0000_0000_0000_0000_0000_0000u128,
    ensures
        neg ==> r as int == clip(-((num / den) as int)),
        !neg ==> r as int == clip((num / den) as int),
{
    proof {
        vstd::arithmetic::div_mod::lemma_div_is_ordered_by_denominator(num as int, 1, den as int);
        vstd::arithmetic::div_mod::lemma_div_basics(num as int);
    }
    let q: u128 = num / den;
    if neg {
        clip128(-(q as i128))
    } else {
        clip128(q as i128)
    }
}

impl Fixed {
    /// The represented value times `SCALE`.
    pub open spec fn val(self) -> int {
        self.0 as int
    }

    /// Build the fixed-point representation of a small integer.
    pub fn from_int(n: u64) -> (r: Fixed)
        requires
            n * SCALE <= i64::MAX,
        ensures
            r.0 == n * SCALE,
    {
        Fixed((n as i64) * SCALE)
    }

    pub fn add(self, o: Fixed) -> (r: Fixed)
        ensures
            r.0 == add_fx(self.0 as int, o.0 as int),
    {
        Fixed(clip128(self.0 as i128 + o.0 as i128))
    }

    pub fn sub(self, o: Fixed) -> (r: Fixed)
        ensures
            r.0 == sub_fx(self.0 as int, o.0 as int),
    {
        Fixed(clip128(self.0 as i128 - o.0 as i128))
    }

    pub fn neg(self) -> (r: Fixed)
        ensures
            r.0 == clip(-(self.0 as int)),
    {
        Fixed(clip128(-(self.0 as i128)))
    }

    pub fn abs(self) -> (r: Fixed)
        ensures
            r.0 == clip(abs_int(self.0 as int)),
    {
        if self.0 < 0 {
            self.neg()
        } else {
            self
        }
    }

    pub fn max(self, o: Fixed) -> (r: Fixed)
        ensures
            r.0 == if self.0 >= o.0 {
                self.0
            } else {
                o.0
            },
    {
        if self.0 >= o.0 {
            self
        } else {
            o
        }
    }

    pub fn mul(self, o: Fixed) -> (r: Fixed)
        ensures
            r.0 == mul_fx(self.0 as int, o.0 as int),
    {
        let a: i128 = self.0 as i128;
        let b: i128 = o.0 as i128;
        proof {
            lemma_i64_product_bounds(a as int, b as int);
        }
        let p: i128 = a * b;
        let neg: bool = p < 0;
        let mag: u128 = if neg {
            (-p) as u128
        } else {
            p as u128
        };
        assert(mag as int == abs_int(p as int));
        Fixed(signed_quotient(neg, mag, SCALE as u128))
    }

    pub fn div(self, o: Fixed) -> (r: Fixed)
        requires
            o.0 != 0,
        ensures
            r.0 == div_fx(self.0 as int, o.0 as int),
    {
        proof {
            lemma_i64_product_bounds(self.0 as int, SCALE as int);
        }
        let a: i128 = (self.0 as i128) * (SCALE as i128);
        let b: i128 = o.0 as i128;
        let neg: bool = (a < 0) != (b < 0);
        let mag_a: u128 = if a < 0 {
            (-a) as u128
        } else {
            a as u128
        };
        let mag_b: u128 = if b < 0 {
            (-b) as u128
        } else {
            b as u128
        };
        assert(mag_a as int == abs_int(a as int));
        assert(mag_b as int == abs_int(b as int));
        Fixed(signed_quotient(neg, mag_a, mag_b))
    }

    /// Divide by a positive integer count (used for averaging).
    pub fn div_count(self, n: u64) -> (r: Fixed)
        requires
            n > 0,
        ensures
            r.0 == clip(tdiv(self.0 as int, n as int)),
    {
        let neg: bool = self.0 < 0;
        let mag: u128 = if neg {
            (-(self.0 as i128)) as u128
        } else {
            self.0 as u128
        };
        Fixed(signed_quotient(neg, mag, n as u128))
    }
}

/// `r` is the integer square root of `y`, rounded down.
pub open spec fn is_sqrt_floor(y: int, r: int) -> bool {
    0 <= r && r * r <= y && y < (r + 1) * (r + 1)
}

/// The integer square root of `y`, rounded down.
pub open spec fn sqrt_floor(y: int) -> int {
    choose|r: int| is_sqrt_floor(y, r)
}

/// The rounded-down square root is unique.
pub proof fn lemma_sqrt_floor_agrees(y: int, r: int)
    requires
        is_sqrt_floor(y, r),
    ensures
        sqrt_floor(y) == r,
{
    assert(is_sqrt_floor(y, sqrt_floor(y)));
    let c = sqrt_floor(y);
    if c < r {
        assert((c + 1) * (c + 1) <= r * r) by (nonlinear_arith)
            requires
                0 <= c,
                c + 1 <= r,
        ;
    }
    if r < c {
        assert((r + 1) * (r + 1) <= c * c) by (nonlinear_arith)
            requires
                0 <= r,
                r + 1 <= c,
        ;
    }
}

/// Integer square root by bisection, for inputs below 2^84 (every
/// fixed-point value times `SCALE` squared fits).
pub fn isqrt(y: u128) -> (r: u128)
    requires
        y < 19342813113834066795298816u128,
    ensures
        is_sqrt_floor(y as int, r as int),
        r as int == sqrt_floor(y as int),
{
    let mut lo: u128 = 0;
    let mut hi: u128 = 4398046511104u128;
    proof {
        assert(4398046511104u128 * 4398046511104u128 == 19342813113834066795298816u128)
            by (nonlinear_arith);
    }
    while hi - lo > 1
        invariant
            lo < hi,
            hi <= 4398046511104u128,
            (lo * lo) as int <= y as int,
            (y as int) < (hi * hi) as int,
        decreases hi - lo,
    {
        let mid = lo + (hi - lo) / 2;
        proof {
            assert(mid * mid <= 4398046511104u128 * 4398046511104u128) by (nonlinear_arith)
                requires
                    0 <= mid <= 4398046511104u128,
            ;
        }
        if mid * mid <= y {
            lo = mid;
        } else {
            hi = mid;
        }
    }
    proof {
        assert(hi == lo + 1);
        lemma_sqrt_floor_agrees(y as int, lo as int);
    }
    lo
}

/// The product of two `i64`-range factors stays well inside `i128`.
proof fn lemma_i64_product_bounds(a: int, b: int)
    requires
        i64::MIN <= a <= i64::MAX,
        i64::MIN <= b <= i64::MAX,
    ensures
        -0x4000_0000_0000_0000_0000_0000_0000_0000 <= a * b
            <= 0x4000_0000_0000_0000_0000_0000_0000_0000,
{
    assert(-0x4000_0000_0000_0000_0000_0000_0000_0000 <= a * b
        <= 0x4000_0000_0000_0000_0000_0000_0000_0000) by (nonlinear_arith)
        requires
            -0x8000_0000_0000_0000 <= a <= 0x8000_0000_0000_0000,
            -0x8000_0000_0000_0000 <= b <= 0x8000_0000_0000_0000,
    ;
}

} // verus!
