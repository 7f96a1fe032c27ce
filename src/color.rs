//! The color value, its readers and its text forms.
use vstd::prelude::*;
use crate::convert::{
    channels_bounded, hsl_bounded, hsl_to_rgb, hue_of, light_of, rgb_of, rgb_to_hsl, sat_of,
};
use crate::ratio::{byte_of, lemma_mul_bound, quantize, Ratio};
use crate::text::{
    chars_of, dec_text, decimal_of, hex2, hex_digit, hex_value, number_text, parse_decimal, push_char,
    push_dec, push_hex2, push_number, split_commas, split_fields, trim,
};

verus! {

/// Why a color text was not accepted.
#[derive(Clone, Copy, Debug, PartialEq, Eq, Structural)]
pub enum ColorError {
    /// Hex text without the leading `#` or of the wrong length.
    InvalidFormat,
    /// Hex text with a character that is no hexadecimal digit.
    InvalidDigit,
    /// A list with the wrong number of comma-separated fields.
    WrongFieldCount,
    /// A field that is no number.
    InvalidNumber,
    /// Text that no notation accepts.
    NoFormatMatched,
}

/// A color: red, green and blue over a shared denominator, an optional
/// alpha, and the hue, saturation and lightness of the same color. Both
/// triples are set together when the color is made and never change.
#[derive(Clone, Copy, Debug)]
pub struct Color {
    r: i128,
    g: i128,
    b: i128,
    den: i128,
    a: Option<Ratio>,
    h: Ratio,
    s: Ratio,
    l: Ratio,
}

/// The mathematical content of a color; each `(int, int)` is a ratio
/// `(numerator, denominator)`.
pub struct ColorView {
    pub r: int,
    pub g: int,
    pub b: int,
    pub den: int,
    pub alpha: Option<(int, int)>,
    pub h: (int, int),
    pub s: (int, int),
    pub l: (int, int),
}

pub open spec fn pair(q: Ratio) -> (int, int) {
    (q.num as int, q.den as int)
}

pub open spec fn opt_pair(q: Option<Ratio>) -> Option<(int, int)> {
    match q {
        Some(v) => Some(pair(v)),
        None => None,
    }
}

/// The color with channels `r / d, g / d, b / d` and the hue, saturation and
/// lightness derived from them.
pub open spec fn from_channels(r: int, g: int, b: int, d: int, alpha: Option<(int, int)>) -> ColorView {
    ColorView {
        r,
        g,
        b,
        den: d,
        alpha,
        h: hue_of(r, g, b),
        s: sat_of(r, g, b, d),
        l: light_of(r, g, b, d),
    }
}

/// The color of three channel ratios, put over the product of their
/// denominators.
pub open spec fn rgb_view(r: (int, int), g: (int, int), b: (int, int), alpha: Option<(int, int)>) -> ColorView {
    from_channels(
        r.0 * g.1 * b.1,
        g.0 * r.1 * b.1,
        b.0 * r.1 * g.1,
        r.1 * g.1 * b.1,
        alpha,
    )
}

/// The color of a hue, saturation and lightness, which it keeps as given.
pub open spec fn hsl_view(h: (int, int), s: (int, int), l: (int, int)) -> ColorView {
    let c = rgb_of(h.0, h.1, s.0, s.1, l.0, l.1);
    ColorView { r: c.0, g: c.1, b: c.2, den: c.3, alpha: None, h, s, l }
}

/// Byte `k` of hex text `#RRGGBB[AA]`.
pub open spec fn hex_byte(s: Seq<char>, k: int) -> int {
    16 * hex_value(s[1 + 2 * k]) + hex_value(s[2 + 2 * k])
}

/// The color that hex text `#RRGGBB` or `#RRGGBBAA` spells, each byte over
/// 255; the alpha byte is given by `alpha` where the text has none.
pub open spec fn hex_spec(s: Seq<char>, alpha: Option<(int, int)>) -> Result<ColorView, ColorError> {
    if s.len() == 0 || s[0] != '#' || (s.len() != 7 && s.len() != 9) {
        Err(ColorError::InvalidFormat)
    } else if exists|i: int| 1 <= i < s.len() && hex_value(#[trigger] s[i]) < 0 {
        Err(ColorError::InvalidDigit)
    } else {
        Ok(
            from_channels(
                hex_byte(s, 0),
                hex_byte(s, 1),
                hex_byte(s, 2),
                255,
                if s.len() == 9 {
                    Some((hex_byte(s, 3), 255))
                } else {
                    alpha
                },
            ),
        )
    }
}

/// The numbers of a list of exactly `n` comma-separated fields, each a
/// number in the notation of `decimal_of` with white space around it.
pub open spec fn fields_of(s: Seq<char>, n: int) -> Result<Seq<(int, int)>, ColorError> {
    let f = split_commas(s);
    if f.len() != n {
        Err(ColorError::WrongFieldCount)
    } else if exists|k: int| 0 <= k < n && (#[trigger] decimal_of(trim(f[k]))) is None {
        Err(ColorError::InvalidNumber)
    } else {
        Ok(Seq::new(n as nat, |k: int| decimal_of(trim(f[k]))->0))
    }
}

/// `(n, d)` scaled down by `k`: `(n, d * k)`.
pub open spec fn over(v: (int, int), k: int) -> (int, int) {
    (v.0, v.1 * k)
}

/// `R, G, B`, each out of 255.
pub open spec fn rgb_spec(s: Seq<char>) -> Result<ColorView, ColorError> {
    match fields_of(s, 3) {
        Ok(v) => Ok(rgb_view(over(v[0], 255), over(v[1], 255), over(v[2], 255), None)),
        Err(e) => Err(e),
    }
}

/// `R, G, B, A`: the channels out of 255, alpha as a fraction.
pub open spec fn rgba_spec(s: Seq<char>) -> Result<ColorView, ColorError> {
    match fields_of(s, 4) {
        Ok(v) => Ok(rgb_view(over(v[0], 255), over(v[1], 255), over(v[2], 255), Some(v[3]))),
        Err(e) => Err(e),
    }
}

/// `H, S, L`: hue in degrees, saturation and lightness in percent.
pub open spec fn hsl_spec(s: Seq<char>) -> Result<ColorView, ColorError> {
    match fields_of(s, 3) {
        Ok(v) => Ok(hsl_view(v[0], over(v[1], 100), over(v[2], 100))),
        Err(e) => Err(e),
    }
}

/// The first of hex, RGB, RGBA and HSL that accepts `s`.
pub open spec fn parse_spec(s: Seq<char>) -> Result<ColorView, ColorError> {
    if hex_spec(s, None) is Ok {
        hex_spec(s, None)
    } else if rgb_spec(s) is Ok {
        rgb_spec(s)
    } else if rgba_spec(s) is Ok {
        rgba_spec(s)
    } else if hsl_spec(s) is Ok {
        hsl_spec(s)
    } else {
        Err(ColorError::NoFormatMatched)
    }
}

/// The byte that hex digits `k` of `s` spell.
fn hex_byte_at(s: &Vec<char>, k: usize) -> (r: Option<i128>)
    requires
        k <= 3,
        2 + 2 * k < s@.len(),
    ensures
        r is Some <==> hex_value(s@[1 + 2 * k]) >= 0 && hex_value(s@[2 + 2 * k]) >= 0,
        r is Some ==> r->0 == hex_byte(s@, k as int) && 0 <= r->0 <= 255,
{
    let hi = match hex_digit(s[1 + 2 * k]) {
        Some(v) => v,
        None => return None,
    };
    let lo = match hex_digit(s[2 + 2 * k]) {
        Some(v) => v,
        None => return None,
    };
    Some(16 * hi as i128 + lo as i128)
}

fn hex_color(text: &str, alpha: Option<Ratio>) -> (r: Result<Color, ColorError>)
    requires
        alpha is Some ==> alpha->0.small(),
    ensures
        result_view(r) == hex_spec(text@, opt_pair(alpha)),
        r is Ok ==> r->Ok_0.wf(),
{
    let s = chars_of(text);
    if s.len() == 0 || s[0] != '#' || (s.len() != 7 && s.len() != 9) {
        return Err(ColorError::InvalidFormat);
    }
    let mut bytes: Vec<i128> = Vec::new();
    let count: usize = (s.len() - 1) / 2;
    let mut k: usize = 0;
    while k < count
        invariant
            s@ == text@,
            s@[0] == '#',
            s@.len() == 7 || s@.len() == 9,
            count == (s@.len() - 1) / 2,
            k <= count,
            bytes@.len() == k,
            forall|j: int| 0 <= j < k ==> #[trigger] bytes@[j] == hex_byte(s@, j) && 0 <= bytes@[j] <= 255,
            forall|i: int| 1 <= i < 1 + 2 * k ==> hex_value(#[trigger] s@[i]) >= 0,
        decreases count - k,
    {
        match hex_byte_at(&s, k) {
            Some(v) => {
                bytes.push(v);
            },
            None => {
                proof {
                    let i = 1 + 2 * k;
                    assert(2 + 2 * k < s@.len());
                    assert(hex_value(s@[i]) < 0 || hex_value(s@[i + 1]) < 0);
                }
                return Err(ColorError::InvalidDigit);
            },
        }
        k = k + 1;
    }
    let a = if count == 4 {
        Some(Ratio { num: bytes[3], den: 255 })
    } else {
        alpha
    };
    Ok(Color::with_channels(bytes[0], bytes[1], bytes[2], 255, a))
}

/// Reads the numbers of a list of `n` comma-separated fields.
fn read_fields(text: &str, n: usize) -> (r: Result<Vec<Ratio>, ColorError>)
    ensures
        match fields_of(text@, n as int) {
            Ok(v) => r is Ok && r->Ok_0@.len() == n && forall|k: int|
                0 <= k < n ==> pair(#[trigger] r->Ok_0@[k]) == v[k] && r->Ok_0@[k].small()
                    && r->Ok_0@[k].den <= 1000000,
            Err(e) => r == Err::<Vec<Ratio>, ColorError>(e),
        },
{
    let s = chars_of(text);
    let f = split_fields(&s);
    if f.len() != n {
        return Err(ColorError::WrongFieldCount);
    }
    let mut out: Vec<Ratio> = Vec::new();
    let mut k: usize = 0;
    while k < n
        invariant
            s@ == text@,
            f@.len() == n,
            f@.len() == split_commas(s@).len(),
            forall|j: int| 0 <= j < f@.len() ==> #[trigger] f@[j]@ == trim(split_commas(s@)[j]),
            k <= n,
            out@.len() == k,
            forall|j: int|
                0 <= j < k ==> (#[trigger] decimal_of(trim(split_commas(s@)[j]))) is Some && pair(out@[j])
                    == decimal_of(trim(split_commas(s@)[j]))->0 && out@[j].small() && out@[j].den
                    <= 1000000,
        decreases n - k,
    {
        assert(f@[k as int]@ == trim(split_commas(s@)[k as int]));
        match parse_decimal(&f[k]) {
            Some(v) => {
                assert(decimal_of(trim(split_commas(s@)[k as int])) is Some);
                out.push(v);
            },
            None => {
                return Err(ColorError::InvalidNumber);
            },
        }
        k = k + 1;
    }
    assert(!exists|j: int|
        0 <= j < n && (#[trigger] decimal_of(trim(split_commas(s@)[j]))) is None);
    Ok(out)
}

/// 8-bit red, green and blue of a color.
pub open spec fn red_byte(c: ColorView) -> int {
    byte_of(c.r, c.den)
}

pub open spec fn green_byte(c: ColorView) -> int {
    byte_of(c.g, c.den)
}

pub open spec fn blue_byte(c: ColorView) -> int {
    byte_of(c.b, c.den)
}

/// 8-bit alpha of a color; fully opaque where it has none.
pub open spec fn alpha_byte(c: ColorView) -> int {
    match c.alpha {
        Some(a) => byte_of(a.0, a.1),
        None => 255,
    }
}

/// `rgb(R, G, B)`.
pub open spec fn rgb_text(c: ColorView) -> Seq<char> {
    seq!['r', 'g', 'b', '('] + dec_text(red_byte(c) as nat) + seq![',', ' '] + dec_text(
        green_byte(c) as nat,
    ) + seq![',', ' '] + dec_text(blue_byte(c) as nat) + seq![')']
}

/// `rgba(R, G, B, A)`.
pub open spec fn rgba_text(c: ColorView) -> Seq<char> {
    seq!['r', 'g', 'b', 'a', '('] + dec_text(red_byte(c) as nat) + seq![',', ' '] + dec_text(
        green_byte(c) as nat,
    ) + seq![',', ' '] + dec_text(blue_byte(c) as nat) + seq![',', ' '] + dec_text(
        alpha_byte(c) as nat,
    ) + seq![')']
}

/// `#RRGGBB`, upper case.
pub open spec fn hex6_text(r: int, g: int, b: int) -> Seq<char> {
    seq!['#'] + hex2(r) + hex2(g) + hex2(b)
}

/// `#RRGGBB`, followed by `AA` where the color has alpha.
pub open spec fn hex_text(c: ColorView) -> Seq<char> {
    let body = hex6_text(red_byte(c), green_byte(c), blue_byte(c));
    match c.alpha {
        Some(a) => body + hex2(byte_of(a.0, a.1)),
        None => body,
    }
}

/// `hsl(H, S%, L%)`, each number in the form of `number_text`.
pub open spec fn hsl_text(c: ColorView) -> Seq<char> {
    seq!['h', 's', 'l', '('] + number_text(c.h.0, c.h.1) + seq![',', ' '] + number_text(
        100 * c.s.0,
        c.s.1,
    ) + seq!['%', ',', ' '] + number_text(100 * c.l.0, c.l.1) + seq!['%', ')']
}

impl View for Color {
    type V = ColorView;

    closed spec fn view(&self) -> ColorView {
        ColorView {
            r: self.r as int,
            g: self.g as int,
            b: self.b as int,
            den: self.den as int,
            alpha: opt_pair(self.a),
            h: pair(self.h),
            s: pair(self.s),
            l: pair(self.l),
        }
    }
}

pub open spec fn result_view(r: Result<Color, ColorError>) -> Result<ColorView, ColorError> {
    match r {
        Ok(c) => Ok(c@),
        Err(e) => Err(e),
    }
}

impl Color {
    /// Sizes stay within what the arithmetic of the library handles.
    pub closed spec fn wf(&self) -> bool {
        &&& channels_bounded(self.r as int, self.g as int, self.b as int, self.den as int)
        &&& hsl_bounded(self.h)
        &&& hsl_bounded(self.s)
        &&& hsl_bounded(self.l)
        &&& self.a is Some ==> self.a->0.small()
    }

    fn with_channels(r: i128, g: i128, b: i128, den: i128, a: Option<Ratio>) -> (c: Color)
        requires
            channels_bounded(r as int, g as int, b as int, den as int),
            a is Some ==> a->0.small(),
        ensures
            c@ == from_channels(r as int, g as int, b as int, den as int, opt_pair(a)),
            c.wf(),
    {
        let (h, s, l) = rgb_to_hsl(r, g, b, den);
        Color { r, g, b, den, a, h, s, l }
    }

    fn from_ratios(r: Ratio, g: Ratio, b: Ratio, a: Option<Ratio>) -> (c: Color)
        requires
            r.small(),
            g.small(),
            b.small(),
            a is Some ==> a->0.small(),
        ensures
            c@ == rgb_view(pair(r), pair(g), pair(b), opt_pair(a)),
            c.wf(),
    {
        let ghost lim: int = 0x4000_0000;
        proof {
            lemma_mul_bound(r.num as int, g.den as int, lim, lim);
            lemma_mul_bound((r.num * g.den) as int, b.den as int, lim * lim, lim);
            lemma_mul_bound(g.num as int, r.den as int, lim, lim);
            lemma_mul_bound((g.num * r.den) as int, b.den as int, lim * lim, lim);
            lemma_mul_bound(b.num as int, r.den as int, lim, lim);
            lemma_mul_bound((b.num * r.den) as int, g.den as int, lim * lim, lim);
            lemma_mul_bound(r.den as int, g.den as int, lim, lim);
            lemma_mul_bound((r.den * g.den) as int, b.den as int, lim * lim, lim);
            assert(1 <= r.den * g.den * b.den) by (nonlinear_arith)
                requires
                    r.den >= 1,
                    g.den >= 1,
                    b.den >= 1,
            ;
        }
        Color::with_channels(
            r.num * g.den * b.den,
            g.num * r.den * b.den,
            b.num * r.den * g.den,
            r.den * g.den * b.den,
            a,
        )
    }

    /// The color of the channel intensities `r, g, b` (1 is full), without
    /// alpha.
    pub fn from_rgb(r: Ratio, g: Ratio, b: Ratio) -> (c: Color)
        requires
            r.small(),
            g.small(),
            b.small(),
        ensures
            c@ == rgb_view(pair(r), pair(g), pair(b), None),
            c.wf(),
    {
        Color::from_ratios(r, g, b, None)
    }

    /// The color of the channel intensities `r, g, b` with alpha `a`.
    pub fn from_rgba(r: Ratio, g: Ratio, b: Ratio, a: Ratio) -> (c: Color)
        requires
            r.small(),
            g.small(),
            b.small(),
            a.small(),
        ensures
            c@ == rgb_view(pair(r), pair(g), pair(b), Some(pair(a))),
            c.wf(),
    {
        Color::from_ratios(r, g, b, Some(a))
    }

    /// The color of hue `h` (degrees), saturation `s` and lightness `l`
    /// (fractions), without alpha. The parts must lie within `PART_LIMIT`,
    /// so that the channels fit in `i128`; the hue, saturation and lightness
    /// that a color made from RGB holds can exceed that for large
    /// denominators, and such a color cannot be fed back here.
    pub fn from_hsl(h: Ratio, s: Ratio, l: Ratio) -> (c: Color)
        requires
            h.small(),
            s.small(),
            l.small(),
        ensures
            c@ == hsl_view(pair(h), pair(s), pair(l)),
            c.wf(),
    {
        let (r, g, b, den) = hsl_to_rgb(h, s, l);
        Color { r, g, b, den, a: None, h, s, l }
    }
    /// Reads `#RRGGBB` or `#RRGGBBAA` (digits of either case); a color read
    /// from six digits has no alpha.
    pub fn from_hex(text: &str) -> (r: Result<Color, ColorError>)
        ensures
            result_view(r) == hex_spec(text@, None),
            r is Ok ==> r->Ok_0.wf(),
    {
        hex_color(text, None)
    }

    /// Reads `#RRGGBB` or `#RRGGBBAA` exactly as `from_hex` does: alpha only
    /// where the text has its two digits.
    pub fn parse_hex(text: &str) -> (r: Result<Color, ColorError>)
        ensures
            result_view(r) == hex_spec(text@, None),
            r is Ok ==> r->Ok_0.wf(),
    {
        hex_color(text, None)
    }

    /// Reads `R, G, B` with each channel out of 255.
    pub fn parse_rgb(text: &str) -> (r: Result<Color, ColorError>)
        ensures
            result_view(r) == rgb_spec(text@),
            r is Ok ==> r->Ok_0.wf(),
    {
        let v = read_fields(text, 3)?;
        Ok(Color::from_rgb(v[0].per(255), v[1].per(255), v[2].per(255)))
    }

    /// Reads `R, G, B, A`: channels out of 255, alpha as a fraction.
    pub fn parse_rgba(text: &str) -> (r: Result<Color, ColorError>)
        ensures
            result_view(r) == rgba_spec(text@),
            r is Ok ==> r->Ok_0.wf(),
    {
        let v = read_fields(text, 4)?;
        Ok(Color::from_rgba(v[0].per(255), v[1].per(255), v[2].per(255), v[3]))
    }

    /// Reads `H, S, L`: hue in degrees, saturation and lightness in percent.
    pub fn parse_hsl(text: &str) -> (r: Result<Color, ColorError>)
        ensures
            result_view(r) == hsl_spec(text@),
            r is Ok ==> r->Ok_0.wf(),
    {
        let v = read_fields(text, 3)?;
        Ok(Color::from_hsl(v[0], v[1].per(100), v[2].per(100)))
    }

    /// Reads a color in the first notation that accepts the text, trying hex,
    /// then `R, G, B`, then `R, G, B, A`, then `H, S, L`. Three numbers are
    /// therefore always read as RGB.
    pub fn parse_color(text: &str) -> (r: Result<Color, ColorError>)
        ensures
            result_view(r) == parse_spec(text@),
            r is Ok ==> r->Ok_0.wf(),
    {
        if let Ok(c) = Color::from_hex(text) {
            Ok(c)
        } else if let Ok(c) = Color::parse_rgb(text) {
            Ok(c)
        } else if let Ok(c) = Color::parse_rgba(text) {
            Ok(c)
        } else if let Ok(c) = Color::parse_hsl(text) {
            Ok(c)
        } else {
            Err(ColorError::NoFormatMatched)
        }
    }
    /// Red as a ratio.
    pub fn red(&self) -> (r: Ratio)
        ensures
            pair(r) == (self@.r, self@.den),
    {
        Ratio { num: self.r, den: self.den }
    }

    /// Green as a ratio.
    pub fn green(&self) -> (r: Ratio)
        ensures
            pair(r) == (self@.g, self@.den),
    {
        Ratio { num: self.g, den: self.den }
    }

    /// Blue as a ratio.
    pub fn blue(&self) -> (r: Ratio)
        ensures
            pair(r) == (self@.b, self@.den),
    {
        Ratio { num: self.b, den: self.den }
    }

    pub fn alpha(&self) -> (r: Option<Ratio>)
        ensures
            opt_pair(r) == self@.alpha,
    {
        self.a
    }

    /// Hue in degrees.
    pub fn hue(&self) -> (r: Ratio)
        ensures
            pair(r) == self@.h,
    {
        self.h
    }

    pub fn saturation(&self) -> (r: Ratio)
        ensures
            pair(r) == self@.s,
    {
        self.s
    }

    pub fn lightness(&self) -> (r: Ratio)
        ensures
            pair(r) == self@.l,
    {
        self.l
    }

    fn push_channels(&self, out: &mut String)
        requires
            self.wf(),
        ensures
            final(out)@ == old(out)@ + dec_text(red_byte(self@) as nat) + seq![',', ' '] + dec_text(
                green_byte(self@) as nat,
            ) + seq![',', ' '] + dec_text(blue_byte(self@) as nat),
    {
        let ghost start = old(out)@;
        push_dec(out, quantize(self.r, self.den) as u128);
        push_char(out, ',');
        push_char(out, ' ');
        push_dec(out, quantize(self.g, self.den) as u128);
        push_char(out, ',');
        push_char(out, ' ');
        push_dec(out, quantize(self.b, self.den) as u128);
        assert(out@ =~= start + dec_text(red_byte(self@) as nat) + seq![',', ' '] + dec_text(
            green_byte(self@) as nat,
        ) + seq![',', ' '] + dec_text(blue_byte(self@) as nat));
    }

    /// `rgb(R, G, B)` with each channel quantized to 8 bits.
    pub fn to_rgb_string(&self) -> (r: String)
        requires
            self.wf(),
        ensures
            r@ == rgb_text(self@),
    {
        let mut out = String::new();
        push_char(&mut out, 'r');
        push_char(&mut out, 'g');
        push_char(&mut out, 'b');
        push_char(&mut out, '(');
        let ghost head = out@;
        self.push_channels(&mut out);
        push_char(&mut out, ')');
        assert(head =~= seq!['r', 'g', 'b', '(']);
        assert(out@ =~= rgb_text(self@));
        out
    }

    /// `rgba(R, G, B, A)` with each channel and alpha quantized to 8 bits;
    /// alpha 255 where the color has none.
    pub fn to_rgba_string(&self) -> (r: String)
        requires
            self.wf(),
        ensures
            r@ == rgba_text(self@),
    {
        let mut out = String::new();
        push_char(&mut out, 'r');
        push_char(&mut out, 'g');
        push_char(&mut out, 'b');
        push_char(&mut out, 'a');
        push_char(&mut out, '(');
        let ghost head = out@;
        self.push_channels(&mut out);
        push_char(&mut out, ',');
        push_char(&mut out, ' ');
        let a: u8 = match self.a {
            Some(v) => quantize(v.num, v.den),
            None => 255,
        };
        push_dec(&mut out, a as u128);
        push_char(&mut out, ')');
        assert(head =~= seq!['r', 'g', 'b', 'a', '(']);
        assert(out@ =~= rgba_text(self@));
        out
    }

    /// `#RRGGBB` in upper case, with two more digits for alpha where the
    /// color has it.
    pub fn to_hex_string(&self) -> (r: String)
        requires
            self.wf(),
        ensures
            r@ == hex_text(self@),
    {
        let mut out = String::new();
        push_char(&mut out, '#');
        push_hex2(&mut out, quantize(self.r, self.den));
        push_hex2(&mut out, quantize(self.g, self.den));
        push_hex2(&mut out, quantize(self.b, self.den));
        let ghost body = out@;
        assert(body =~= hex6_text(red_byte(self@), green_byte(self@), blue_byte(self@)));
        match self.a {
            Some(v) => {
                push_hex2(&mut out, quantize(v.num, v.den));
            },
            None => {},
        }
        out
    }

    /// `hsl(H, S%, L%)`: the hue in degrees, saturation and lightness in
    /// percent, each rounded to hundredths.
    pub fn to_hsl_string(&self) -> (r: String)
        requires
            self.wf(),
        ensures
            r@ == hsl_text(self@),
    {
        let mut out = String::new();
        push_char(&mut out, 'h');
        push_char(&mut out, 's');
        push_char(&mut out, 'l');
        push_char(&mut out, '(');
        let ghost p0 = out@;
        push_number(&mut out, self.h.num, self.h.den);
        let ghost p1 = out@;
        push_char(&mut out, ',');
        push_char(&mut out, ' ');
        let ghost p2 = out@;
        push_number(&mut out, 100 * self.s.num, self.s.den);
        let ghost p3 = out@;
        push_char(&mut out, '%');
        push_char(&mut out, ',');
        push_char(&mut out, ' ');
        let ghost p4 = out@;
        push_number(&mut out, 100 * self.l.num, self.l.den);
        let ghost p5 = out@;
        push_char(&mut out, '%');
        push_char(&mut out, ')');
        assert(p0 =~= seq!['h', 's', 'l', '(']);
        assert(p2 =~= p1 + seq![',', ' ']);
        assert(p4 =~= p3 + seq!['%', ',', ' ']);
        assert(out@ =~= p5 + seq!['%', ')']);
        assert(out@ =~= hsl_text(self@));
        out
    }
}

} // verus!
