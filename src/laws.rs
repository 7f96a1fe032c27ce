//! Laws that relate the readers, the writers and the conversions.
use vstd::prelude::*;
use crate::color::{
    fields_of, from_channels, hex6_text, hex_spec, hex_text, hsl_view, parse_spec, rgb_spec, rgb_view,
    ColorView,
};
use crate::convert::{hue_of, light_of, max3, min3, rgb_of, sat_of, trem};
use crate::ratio::abs;
use crate::ratio::byte_of;
use crate::text::{
    all_digits, decimal_of, dot_index, exp_index, lemma_exp_index_bounds, hex2, hex_char, hex_value, is_space, split_commas, trim,
};

verus! {

proof fn lemma_hex_char(v: int)
    requires
        0 <= v < 16,
    ensures
        hex_value(hex_char(v)) == v,
{
    if v < 10 {
        assert(((v + 48) as char) as u32 == v + 48);
    } else {
        assert(((v + 55) as char) as u32 == v + 55);
    }
}

proof fn lemma_byte_of_exact(v: int)
    requires
        0 <= v <= 255,
    ensures
        byte_of(v, 255) == v,
{
    if 0 < v < 255 {
        vstd::arithmetic::div_mod::lemma_fundamental_div_mod_converse(510 * v + 255, 510, v, 255);
    }
}

/// A byte written as two hex digits reads back as the same byte.
proof fn lemma_hex2(s: Seq<char>, k: int, v: int)
    requires
        0 <= v <= 255,
        1 + 2 * k >= 0,
        2 + 2 * k < s.len(),
        s[1 + 2 * k] == hex2(v)[0],
        s[2 + 2 * k] == hex2(v)[1],
    ensures
        hex_value(s[1 + 2 * k]) >= 0,
        hex_value(s[2 + 2 * k]) >= 0,
        16 * hex_value(s[1 + 2 * k]) + hex_value(s[2 + 2 * k]) == v,
{
    lemma_hex_char(v / 16);
    lemma_hex_char(v % 16);
}

/// Reading the hex text of three bytes gives a color whose hex text is that
/// same text.
pub proof fn lemma_hex_round_trip(r: u8, g: u8, b: u8)
    ensures
        hex_spec(hex6_text(r as int, g as int, b as int), None) is Ok,
        hex_text(hex_spec(hex6_text(r as int, g as int, b as int), None)->Ok_0) == hex6_text(
            r as int,
            g as int,
            b as int,
        ),
{
    let s = hex6_text(r as int, g as int, b as int);
    assert(s.len() == 7);
    lemma_hex2(s, 0, r as int);
    lemma_hex2(s, 1, g as int);
    lemma_hex2(s, 2, b as int);
    assert forall|i: int| 1 <= i < s.len() implies hex_value(#[trigger] s[i]) >= 0 by {}
    lemma_byte_of_exact(r as int);
    lemma_byte_of_exact(g as int);
    lemma_byte_of_exact(b as int);
}

/// The hex text of a color has two alpha digits exactly where the color has
/// alpha: nine characters with it, seven without.
pub proof fn lemma_hex_length(c: ColorView)
    ensures
        c.alpha is Some ==> hex_text(c).len() == 9,
        c.alpha is None ==> hex_text(c).len() == 7,
        hex_text(c)[0] == '#',
{
}

/// A color made from RGB and alpha has a nine-character hex text; one made
/// from RGB alone has a seven-character one.
pub proof fn lemma_rgba_hex_length(r: (int, int), g: (int, int), b: (int, int), a: (int, int))
    ensures
        hex_text(rgb_view(r, g, b, Some(a))).len() == 9,
        hex_text(rgb_view(r, g, b, None)).len() == 7,
{
    lemma_hex_length(rgb_view(r, g, b, Some(a)));
    lemma_hex_length(rgb_view(r, g, b, None));
}

proof fn lemma_scaled(f: int, hi: int, lo: int, mid: int, c: int, x: int, m: int)
    requires
        c == f * (hi - lo),
        x == f * (mid - lo),
        m == f * lo,
    ensures
        c + m == f * hi,
        x + m == f * mid,
{
    assert(f * (hi - lo) + f * lo == f * hi) by (nonlinear_arith);
    assert(f * (mid - lo) + f * lo == f * mid) by (nonlinear_arith);
}

proof fn lemma_trem(a: int, m: int, j: int, rest: int)
    requires
        m > 0,
        j >= 0,
        0 <= rest < m,
        a == j * m + rest,
    ensures
        trem(a, m) == rest,
{
    assert(a >= 0) by (nonlinear_arith)
        requires
            m > 0,
            j >= 0,
            rest >= 0,
            a == j * m + rest,
    ;
    vstd::arithmetic::div_mod::lemma_fundamental_div_mod_converse(a, m, j, rest);
}

/// The channels that the hue, saturation and lightness of `r / d, g / d,
/// b / d` give back are `r, g, b, d` scaled by some `f > 0`.
proof fn lemma_round_trip_scaled(r: int, g: int, b: int, d: int) -> (f: int)
    requires
        0 < d,
        0 <= r <= d,
        0 <= g <= d,
        0 <= b <= d,
    ensures
        f > 0,
        ({
            let h = hue_of(r, g, b);
            let s = sat_of(r, g, b, d);
            let l = light_of(r, g, b, d);
            rgb_of(h.0, h.1, s.0, s.1, l.0, l.1) == (f * r, f * g, f * b, f * d)
        }),
{
    let hi = max3(r, g, b);
    let lo = min3(r, g, b);
    let delta = hi - lo;
    let sum = hi + lo;
    let h = hue_of(r, g, b);
    let s = sat_of(r, g, b, d);
    let l = light_of(r, g, b, d);
    let (hn, hd, sn, sd, ln, ld) = (h.0, h.1, s.0, s.1, l.0, l.1);
    let cn = (ld - abs(2 * ln - ld)) * sn;
    let q = trem(hn, 120 * hd);
    let w = 60 * hd - abs(q - 60 * hd);
    let den = 120 * ld * sd * hd;
    let c = cn * (120 * hd);
    let x = 2 * (cn * w);
    let m = 120 * ln * sd * hd - cn * (60 * hd);
    if delta == 0 {
        assert(hn == 0 && hd == 1 && sn == 0 && sd >= 1);
        assert(r == lo && g == lo && b == lo);
        let f = 240 * sd;
        assert(cn == 0);
        assert(c == 0 && x == 0) by (nonlinear_arith)
            requires
                cn == 0,
                c == cn * (120 * hd),
                x == 2 * (cn * w),
        ;
        assert(m == f * lo) by (nonlinear_arith)
            requires
                m == 120 * ln * sd * hd - cn * (60 * hd),
                cn == 0,
                hd == 1,
                ln == 2 * lo,
                f == 240 * sd,
        ;
        assert(den == f * d) by (nonlinear_arith)
            requires
                den == 120 * ld * sd * hd,
                hd == 1,
                ld == 2 * d,
                f == 240 * sd,
        ;
        assert(f > 0);
        f
    } else {
        let k = d - abs(sum - d);
        assert(0 < sum < 2 * d);
        assert(k > 0);
        assert(sn == delta && sd == k && hd == delta);
        assert(ld - abs(2 * ln - ld) == 2 * k);
        let f = 240 * k * delta;
        assert(cn == 2 * k * delta) by (nonlinear_arith)
            requires
                cn == (2 * k) * delta,
        ;
        assert(f > 0) by (nonlinear_arith)
            requires
                f == 240 * k * delta,
                k > 0,
                delta > 0,
        ;
        assert(den == f * d) by (nonlinear_arith)
            requires
                den == 120 * ld * sd * hd,
                ld == 2 * d,
                sd == k,
                hd == delta,
                f == 240 * k * delta,
        ;
        assert(c == f * (hi - lo)) by (nonlinear_arith)
            requires
                c == cn * (120 * hd),
                cn == 2 * k * delta,
                hd == delta,
                delta == hi - lo,
                f == 240 * k * delta,
        ;
        assert(m == f * lo) by (nonlinear_arith)
            requires
                m == 120 * ln * sd * hd - cn * (60 * hd),
                ln == hi + lo,
                sd == k,
                hd == delta,
                cn == 2 * k * delta,
                delta == hi - lo,
                f == 240 * k * delta,
        ;
        // the middle channel, and the hue's place within its sextant
        let mid = if hi == r {
            if g >= b {
                g
            } else {
                b
            }
        } else if hi == g {
            if b < r {
                r
            } else {
                b
            }
        } else {
            if r >= g {
                r
            } else {
                g
            }
        };
        if hi == r {
            if g >= b {
                assert(lo == b);
                lemma_trem(hn, 120 * hd, 0, hn);
            } else {
                assert(lo == g);
                lemma_trem(hn, 120 * hd, 2, hn - 240 * delta);
            }
        } else if hi == g {
            if b < r {
                assert(lo == b);
                lemma_trem(hn, 120 * hd, 0, hn);
            } else {
                assert(lo == r);
                lemma_trem(hn, 120 * hd, 1, hn - 120 * delta);
            }
        } else {
            if r >= g {
                assert(lo == g);
                lemma_trem(hn, 120 * hd, 2, hn - 240 * delta);
            } else {
                assert(lo == r);
                lemma_trem(hn, 120 * hd, 1, hn - 120 * delta);
            }
        }
        assert(w == 60 * (mid - lo));
        assert(x == f * (mid - lo)) by (nonlinear_arith)
            requires
                x == 2 * (cn * w),
                w == 60 * (mid - lo),
                cn == 2 * k * delta,
                f == 240 * k * delta,
        ;
        lemma_scaled(f, hi, lo, mid, c, x, m);
        f
    }
}

/// For channels in `[0, 1]`, turning RGB into hue, saturation and lightness
/// and those back into RGB gives the same channels (as values: each
/// `num / den` equal), achromatic colors included.
pub proof fn lemma_rgb_hsl_round_trip(r: int, g: int, b: int, d: int)
    requires
        0 < d,
        0 <= r <= d,
        0 <= g <= d,
        0 <= b <= d,
    ensures
        ({
            let c = from_channels(r, g, b, d, None);
            let back = hsl_view(c.h, c.s, c.l);
            &&& back.den > 0
            &&& back.r * d == r * back.den
            &&& back.g * d == g * back.den
            &&& back.b * d == b * back.den
        }),
{
    let f = lemma_round_trip_scaled(r, g, b, d);
    assert(f * d > 0) by (nonlinear_arith)
        requires
            f > 0,
            d > 0,
    ;
    assert((f * r) * d == r * (f * d)) by (nonlinear_arith);
    assert((f * g) * d == g * (f * d)) by (nonlinear_arith);
    assert((f * b) * d == b * (f * d)) by (nonlinear_arith);
}

proof fn lemma_first_piece(s: Seq<char>)
    requires
        s.len() >= 1,
        s[0] != ',',
    ensures
        split_commas(s).len() >= 1,
        split_commas(s)[0].len() >= 1,
        split_commas(s)[0][0] == s[0],
    decreases s.len(),
{
    let rest = s.drop_last();
    if s.len() > 1 {
        assert(rest[0] == s[0]);
        lemma_first_piece(rest);
    } else {
        assert(rest.len() == 0);
        assert(split_commas(rest) == seq![Seq::<char>::empty()]);
    }
}

proof fn lemma_dot_index_bounds(s: Seq<char>)
    ensures
        0 <= dot_index(s) <= s.len(),
    decreases s.len(),
{
    if s.len() > 0 && s[0] != '.' {
        lemma_dot_index_bounds(s.drop_first());
    }
}

proof fn lemma_trim_keeps_first(s: Seq<char>)
    requires
        s.len() >= 1,
        !is_space(s[0]),
    ensures
        trim(s).len() >= 1,
        trim(s)[0] == s[0],
    decreases s.len(),
{
    if s.len() > 1 && is_space(s.last()) {
        lemma_trim_keeps_first(s.drop_last());
    }
}

/// Text that the `R, G, B` reader accepts is read by `parse` as RGB, ahead of
/// every other notation, though three numbers would also make `H, S, L`.
pub proof fn lemma_rgb_before_hsl(s: Seq<char>)
    requires
        rgb_spec(s) is Ok,
    ensures
        parse_spec(s) == rgb_spec(s),
{
    if hex_spec(s, None) is Ok {
        let f = split_commas(s);
        assert(fields_of(s, 3) is Ok);
        lemma_first_piece(s);
        lemma_trim_keeps_first(f[0]);
        let t = trim(f[0]);
        assert(t[0] == '#');
        assert(decimal_of(t) is Some);
        lemma_exp_index_bounds(t.drop_first());
        let mant = t.take(exp_index(t));
        assert(mant.len() >= 1 && mant[0] == '#');
        lemma_dot_index_bounds(mant.drop_first());
        assert(dot_index(mant) >= 1);
        assert(mant.take(dot_index(mant))[0] == '#');
        assert(!all_digits(mant.take(dot_index(mant))));
    }
}

} // verus!
