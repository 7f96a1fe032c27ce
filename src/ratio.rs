//! Exact rationals and the 8-bit quantization of a channel.
use vstd::prelude::*;

verus! {

/// Largest magnitude of the numerator and denominator of a ratio handed to
/// a color constructor (2^30).
pub const PART_LIMIT: i128 = 1073741824;

/// An exact rational number `num / den` with a positive denominator.
#[derive(Clone, Copy, Debug, PartialEq, Eq, Structural)]
pub struct Ratio {
    pub num: i128,
    pub den: i128,
}

pub open spec fn abs(x: int) -> int {
    if x < 0 {
        -x
    } else {
        x
    }
}

impl Ratio {
    pub open spec fn wf(self) -> bool {
        self.den > 0
    }

    /// Numerator and denominator both within `PART_LIMIT`.
    pub open spec fn small(self) -> bool {
        &&& -PART_LIMIT <= self.num <= PART_LIMIT
        &&& 1 <= self.den <= PART_LIMIT
    }

    pub fn new(num: i128, den: i128) -> (r: Ratio)
        requires
            den > 0,
        ensures
            r.num == num,
            r.den == den,
    {
        Ratio { num, den }
    }

    /// This ratio divided by `k`.
    pub fn per(self, k: i128) -> (r: Ratio)
        requires
            self.small(),
            1 <= k <= 255,
            self.den * k <= PART_LIMIT,
        ensures
            r.num == self.num,
            r.den == self.den * k,
            r.small(),
    {
        assert(self.den * k >= 1) by (nonlinear_arith)
            requires
                self.den >= 1,
                k >= 1,
        ;
        Ratio { num: self.num, den: self.den * k }
    }
}

/// `|a * b| <= x * y` where `|a| <= x` and `|b| <= y`.
pub proof fn lemma_mul_bound(a: int, b: int, x: int, y: int)
    requires
        abs(a) <= x,
        abs(b) <= y,
    ensures
        abs(a * b) <= x * y,
        -(x * y) <= a * b <= x * y,
{
    assert(abs(a) * abs(b) <= x * y) by (nonlinear_arith)
        requires
            0 <= abs(a) <= x,
            0 <= abs(b) <= y,
    ;
    assert(abs(a * b) == abs(a) * abs(b)) by (nonlinear_arith);
}

/// `round(clamp(n / d, 0, 1) * 255)`, halves rounded up.
pub open spec fn byte_of(n: int, d: int) -> int {
    if n <= 0 {
        0
    } else if n >= d {
        255
    } else {
        (510 * n + d) / (2 * d)
    }
}

/// Quantizes the value `n / d` to an 8-bit channel.
pub fn quantize(n: i128, d: i128) -> (r: u8)
    requires
        0 < d <= 0x1_0000_0000_0000_0000_0000_0000_0000,
        -0x1_0000_0000_0000_0000_0000_0000_0000 <= n <= 0x1_0000_0000_0000_0000_0000_0000_0000,
    ensures
        r as int == byte_of(n as int, d as int),
{
    if n <= 0 {
        0
    } else if n >= d {
        255
    } else {
        let q: i128 = (510 * n + d) / (2 * d);
        proof {
            let ni = n as int;
            let di = d as int;
            let x = 510 * ni + di;
            vstd::arithmetic::div_mod::lemma_fundamental_div_mod(x, 2 * di);
            vstd::arithmetic::div_mod::lemma_mod_bound(x, 2 * di);
            let qq = x / (2 * di);
            assert(qq < 256) by (nonlinear_arith)
                requires
                    qq * (2 * di) <= x,
                    x < 512 * di,
                    di > 0,
            ;
            vstd::arithmetic::div_mod::lemma_div_pos_is_pos(x, 2 * di);
        }
        q as u8
    }
}

} // verus!
