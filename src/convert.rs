//! Conversion between RGB channels and hue, saturation and lightness.
use vstd::prelude::*;
use crate::ratio::{abs, lemma_mul_bound, Ratio};

verus! {

/// Bound on the numerators and the shared denominator of the RGB channels of
/// a color (2^102).
pub const CHANNEL_LIMIT: i128 = 5070602400912917605986812821504;

/// Bound on the numerators and denominators of derived HSL components (2^112).
pub const HSL_LIMIT: i128 = 5192296858534827628530496329220096;

pub open spec fn max3(a: int, b: int, c: int) -> int {
    if a >= b && a >= c {
        a
    } else if b >= c {
        b
    } else {
        c
    }
}

pub open spec fn min3(a: int, b: int, c: int) -> int {
    if a <= b && a <= c {
        a
    } else if b <= c {
        b
    } else {
        c
    }
}

/// Hue in degrees of the channels `r, g, b` (over any common denominator),
/// normalized into `[0, 360)` and written as `(numerator, denominator)`.
pub open spec fn hue_of(r: int, g: int, b: int) -> (int, int) {
    let hi = max3(r, g, b);
    let delta = hi - min3(r, g, b);
    if delta == 0 {
        (0, 1)
    } else if hi == r {
        let t = 60 * (g - b);
        if t < 0 {
            (t + 360 * delta, delta)
        } else {
            (t, delta)
        }
    } else if hi == g {
        (60 * (b - r) + 120 * delta, delta)
    } else {
        (60 * (r - g) + 240 * delta, delta)
    }
}

/// Saturation of the channels `r / d, g / d, b / d`.
pub open spec fn sat_of(r: int, g: int, b: int, d: int) -> (int, int) {
    let hi = max3(r, g, b);
    let lo = min3(r, g, b);
    let sum = hi + lo;
    if sum == 0 || sum == 2 * d {
        (0, 1)
    } else {
        let k = d - abs(sum - d);
        if k > 0 {
            (hi - lo, k)
        } else {
            (lo - hi, -k)
        }
    }
}

/// Lightness of the channels `r / d, g / d, b / d`.
pub open spec fn light_of(r: int, g: int, b: int, d: int) -> (int, int) {
    (max3(r, g, b) + min3(r, g, b), 2 * d)
}

pub open spec fn ratio_is(q: Ratio, v: (int, int)) -> bool {
    q.num == v.0 && q.den == v.1
}

pub open spec fn hsl_bounded(q: Ratio) -> bool {
    -HSL_LIMIT <= q.num <= HSL_LIMIT && 1 <= q.den <= HSL_LIMIT
}

pub open spec fn channels_bounded(r: int, g: int, b: int, d: int) -> bool {
    &&& -CHANNEL_LIMIT <= r <= CHANNEL_LIMIT
    &&& -CHANNEL_LIMIT <= g <= CHANNEL_LIMIT
    &&& -CHANNEL_LIMIT <= b <= CHANNEL_LIMIT
    &&& 1 <= d <= CHANNEL_LIMIT
}

/// Hue, saturation and lightness of the channels `r / d, g / d, b / d`.
pub fn rgb_to_hsl(r: i128, g: i128, b: i128, d: i128) -> (res: (Ratio, Ratio, Ratio))
    requires
        channels_bounded(r as int, g as int, b as int, d as int),
    ensures
        ratio_is(res.0, hue_of(r as int, g as int, b as int)),
        ratio_is(res.1, sat_of(r as int, g as int, b as int, d as int)),
        ratio_is(res.2, light_of(r as int, g as int, b as int, d as int)),
        hsl_bounded(res.0),
        hsl_bounded(res.1),
        hsl_bounded(res.2),
{
    let hi: i128 = if r >= g && r >= b {
        r
    } else if g >= b {
        g
    } else {
        b
    };
    let lo: i128 = if r <= g && r <= b {
        r
    } else if g <= b {
        g
    } else {
        b
    };
    let delta: i128 = hi - lo;
    let sum: i128 = hi + lo;
    let l = Ratio { num: sum, den: 2 * d };
    let s = if sum == 0 || sum == 2 * d {
        Ratio { num: 0, den: 1 }
    } else {
        let off: i128 = if sum - d < 0 {
            d - sum
        } else {
            sum - d
        };
        let k: i128 = d - off;
        if k > 0 {
            Ratio { num: delta, den: k }
        } else {
            Ratio { num: -delta, den: -k }
        }
    };
    let h = if delta == 0 {
        Ratio { num: 0, den: 1 }
    } else if hi == r {
        let t: i128 = 60 * (g - b);
        if t < 0 {
            Ratio { num: t + 360 * delta, den: delta }
        } else {
            Ratio { num: t, den: delta }
        }
    } else if hi == g {
        Ratio { num: 60 * (b - r) + 120 * delta, den: delta }
    } else {
        Ratio { num: 60 * (r - g) + 240 * delta, den: delta }
    };
    (h, s, l)
}

/// Remainder of `a` by `m` that takes the sign of `a` (`m > 0`).
pub open spec fn trem(a: int, m: int) -> int {
    if a >= 0 {
        a % m
    } else {
        -((-a) % m)
    }
}

/// The channels, over a shared denominator, of hue `hn / hd`, saturation
/// `sn / sd` and lightness `ln / ld`: `(r, g, b, den)`.
pub open spec fn rgb_of(hn: int, hd: int, sn: int, sd: int, ln: int, ld: int) -> (int, int, int, int) {
    // chroma, over ld * sd
    let cn = (ld - abs(2 * ln - ld)) * sn;
    // (h / 60) mod 2, over 60 * hd
    let q = trem(hn, 120 * hd);
    let den = 120 * ld * sd * hd;
    let c = cn * (120 * hd);
    let x = 2 * (cn * (60 * hd - abs(q - 60 * hd)));
    let m = 120 * ln * sd * hd - cn * (60 * hd);
    let (r0, g0, b0) = if hn < 60 * hd {
        (c, x, 0)
    } else if hn < 120 * hd {
        (x, c, 0)
    } else if hn < 180 * hd {
        (0, c, x)
    } else if hn < 240 * hd {
        (0, x, c)
    } else if hn < 300 * hd {
        (x, 0, c)
    } else {
        (c, 0, x)
    };
    (r0 + m, g0 + m, b0 + m, den)
}

/// Red, green, blue (over a shared denominator) of the given hue, saturation
/// and lightness.
pub fn hsl_to_rgb(h: Ratio, s: Ratio, l: Ratio) -> (res: (i128, i128, i128, i128))
    requires
        h.small(),
        s.small(),
        l.small(),
    ensures
        (res.0 as int, res.1 as int, res.2 as int, res.3 as int) == rgb_of(
            h.num as int,
            h.den as int,
            s.num as int,
            s.den as int,
            l.num as int,
            l.den as int,
        ),
        channels_bounded(res.0 as int, res.1 as int, res.2 as int, res.3 as int),
{
    let hn = h.num;
    let hd = h.den;
    let sn = s.num;
    let sd = s.den;
    let ln = l.num;
    let ld = l.den;
    let dl: i128 = if 2 * ln - ld < 0 {
        ld - 2 * ln
    } else {
        2 * ln - ld
    };
    let cf: i128 = ld - dl;
    proof {
        lemma_mul_bound(cf as int, sn as int, 0x1_0000_0000, 0x4000_0000);
    }
    let cn: i128 = cf * sn;
    let period: i128 = 120 * hd;
    let q: i128 = if hn >= 0 {
        hn % period
    } else {
        -((-hn) % period)
    };
    proof {
        if hn >= 0 {
            vstd::arithmetic::div_mod::lemma_mod_bound(hn as int, period as int);
        } else {
            vstd::arithmetic::div_mod::lemma_mod_bound(-hn as int, period as int);
        }
    }
    let dq: i128 = if q - 60 * hd < 0 {
        60 * hd - q
    } else {
        q - 60 * hd
    };
    let xf: i128 = 60 * hd - dq;
    proof {
        lemma_mul_bound(cn as int, xf as int, 0x4000_0000_0000_0000, 0x40_0000_0000);
        lemma_mul_bound(cn as int, period as int, 0x4000_0000_0000_0000, 0x40_0000_0000);
        lemma_mul_bound(cn as int, 60 * hd as int, 0x4000_0000_0000_0000, 0x40_0000_0000);
        lemma_mul_bound(ld as int, sd as int, 0x4000_0000, 0x4000_0000);
        lemma_mul_bound((ld * sd) as int, hd as int, 0x1000_0000_0000_0000, 0x4000_0000);
        lemma_mul_bound(ln as int, sd as int, 0x4000_0000, 0x4000_0000);
        lemma_mul_bound((ln * sd) as int, hd as int, 0x1000_0000_0000_0000, 0x4000_0000);
    }
    let den: i128 = 120 * (ld * sd * hd);
    let c: i128 = cn * period;
    let x: i128 = 2 * (cn * xf);
    let m: i128 = 120 * (ln * sd * hd) - cn * (60 * hd);
    proof {
        let (hni, hdi, sni, sdi, lni, ldi) = (hn as int, hd as int, sn as int, sd as int, ln as int, ld as int);
        assert(den as int == 120 * ldi * sdi * hdi) by (nonlinear_arith)
            requires
                den as int == 120 * ((ldi * sdi) * hdi),
        ;
        assert(120 * lni * sdi * hdi == 120 * ((lni * sdi) * hdi)) by (nonlinear_arith);
        assert(1 <= den) by (nonlinear_arith)
            requires
                den as int == 120 * ldi * sdi * hdi,
                ldi >= 1,
                sdi >= 1,
                hdi >= 1,
        ;
    }
    let (r0, g0, b0): (i128, i128, i128) = if hn < 60 * hd {
        (c, x, 0)
    } else if hn < 120 * hd {
        (x, c, 0)
    } else if hn < 180 * hd {
        (0, c, x)
    } else if hn < 240 * hd {
        (0, x, c)
    } else if hn < 300 * hd {
        (x, 0, c)
    } else {
        (c, 0, x)
    };
    (r0 + m, g0 + m, b0 + m, den)
}

} // verus!
