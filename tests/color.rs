use colorize::{Color, ColorError, Ratio};

fn q(num: i128, den: i128) -> Ratio {
    Ratio::new(num, den)
}

fn same(a: Ratio, num: i128, den: i128) -> bool {
    a.num * den == num * a.den
}

#[test]
fn red_hex_scenario() {
    let c = Color::parse_color("#FF0000").unwrap();
    assert_eq!(c.to_rgb_string(), "rgb(255, 0, 0)");
    assert_eq!(c.to_hex_string(), "#FF0000");
    assert_eq!(c.to_hsl_string(), "hsl(0, 100%, 50%)");
    assert_eq!(c.to_rgba_string(), "rgba(255, 0, 0, 255)");
    assert!(c.alpha().is_none());
}

#[test]
fn green_with_alpha_scenario() {
    let c = Color::parse_color("#00FF0080").unwrap();
    assert_eq!(c.to_rgba_string(), "rgba(0, 255, 0, 128)");
    assert_eq!(c.to_hex_string(), "#00FF0080");
}

#[test]
fn white_scenario() {
    let c = Color::parse_color("255, 255, 255").unwrap();
    assert_eq!(c.to_rgb_string(), "rgb(255, 255, 255)");
    assert_eq!(c.to_hsl_string(), "hsl(0, 0%, 100%)");
}

#[test]
fn three_numbers_are_rgb_near_black() {
    let c = Color::parse_color("0, 100, 50").unwrap();
    assert_eq!(c.to_rgb_string(), "rgb(0, 100, 50)");
    assert!(same(c.green(), 100, 255));
    assert!(same(c.blue(), 50, 255));
    assert!(same(c.red(), 0, 1));
}

#[test]
fn dispatch_prefers_rgb() {
    let c = Color::parse_color("200, 100, 50").unwrap();
    assert_eq!(c.to_rgb_string(), "rgb(200, 100, 50)");
    assert_eq!(c.to_hsl_string(), "hsl(20, 60%, 49.02%)");
    let rgb = Color::parse_rgb("200, 100, 50").unwrap();
    assert_eq!(c.to_hsl_string(), rgb.to_hsl_string());
    let hsl = Color::parse_hsl("200, 100, 50").unwrap();
    assert_ne!(c.to_rgb_string(), hsl.to_rgb_string());
}

#[test]
fn not_a_color_fails() {
    assert_eq!(Color::parse_color("not a color").unwrap_err(), ColorError::NoFormatMatched);
    assert_eq!(Color::parse_color("").unwrap_err(), ColorError::NoFormatMatched);
}

#[test]
fn pure_green_from_hsl() {
    let c = Color::from_hsl(q(120, 1), q(1, 1), q(1, 2));
    assert!(same(c.red(), 0, 1));
    assert!(same(c.green(), 1, 1));
    assert!(same(c.blue(), 0, 1));
    assert_eq!(c.to_rgb_string(), "rgb(0, 255, 0)");
    assert_eq!(c.to_hsl_string(), "hsl(120, 100%, 50%)");
}

#[test]
fn hsl_text_parses() {
    let c = Color::parse_hsl("120, 100, 50").unwrap();
    assert_eq!(c.to_rgb_string(), "rgb(0, 255, 0)");
    let d = Color::parse_hsl(" 33.3 , 12.5, 40").unwrap();
    assert_eq!(d.to_hsl_string(), "hsl(33.3, 12.5%, 40%)");
}

#[test]
fn hex_round_trip_samples() {
    let samples: [(u8, u8, u8); 6] =
        [(0, 0, 0), (255, 255, 255), (1, 2, 3), (127, 128, 129), (254, 17, 200), (16, 15, 171)];
    for (r, g, b) in samples {
        let text = format!("#{:02X}{:02X}{:02X}", r, g, b);
        let c = Color::from_hex(&text).unwrap();
        assert_eq!(c.to_hex_string(), text);
    }
    for v in 0..=255u8 {
        let text = format!("#{:02X}{:02X}{:02X}", v, 255 - v, v / 3);
        assert_eq!(Color::from_hex(&text).unwrap().to_hex_string(), text);
    }
}

#[test]
fn lower_case_hex_reads() {
    let c = Color::from_hex("#ab12cd").unwrap();
    assert_eq!(c.to_hex_string(), "#AB12CD");
}

#[test]
fn hex_length_follows_alpha() {
    let with = Color::from_rgba(q(1, 2), q(1, 3), q(1, 4), q(1, 2));
    assert_eq!(with.to_hex_string().len(), 9);
    assert_eq!(with.to_hex_string(), "#80554080");
    let without = Color::from_rgb(q(1, 2), q(1, 3), q(1, 4));
    assert_eq!(without.to_hex_string().len(), 7);
    assert_eq!(without.to_hex_string(), "#805540");
}

#[test]
fn rgb_hsl_rgb_round_trip() {
    let cases: [(i128, i128, i128, i128); 6] =
        [(1, 3, 2, 5), (4, 1, 2, 7), (2, 2, 2, 3), (0, 0, 0, 1), (1, 1, 1, 1), (5, 9, 9, 11)];
    for (r, g, b, d) in cases {
        let c = Color::from_rgb(q(r, d), q(g, d), q(b, d));
        let back = Color::from_hsl(c.hue(), c.saturation(), c.lightness());
        assert!(same(back.red(), r, d));
        assert!(same(back.green(), g, d));
        assert!(same(back.blue(), b, d));
    }
}

#[test]
fn hue_wraps_into_range() {
    // red is largest and blue above green: the raw hue is negative
    let c = Color::from_rgb(q(1, 1), q(0, 1), q(1, 2));
    assert!(same(c.hue(), 330, 1));
    assert_eq!(c.to_hsl_string(), "hsl(330, 100%, 50%)");
}

#[test]
fn hex_errors() {
    assert_eq!(Color::from_hex("FF0000").unwrap_err(), ColorError::InvalidFormat);
    assert_eq!(Color::from_hex("#FF00").unwrap_err(), ColorError::InvalidFormat);
    assert_eq!(Color::from_hex("#FF000000FF").unwrap_err(), ColorError::InvalidFormat);
    assert_eq!(Color::from_hex("#GG0000").unwrap_err(), ColorError::InvalidDigit);
    assert_eq!(Color::parse_hex("#12345Z").unwrap_err(), ColorError::InvalidDigit);
}

#[test]
fn parse_hex_matches_from_hex() {
    let c = Color::parse_hex("#102030").unwrap();
    assert_eq!(c.to_hex_string(), "#102030");
    assert!(c.alpha().is_none());
    let d = Color::parse_hex("#FF0000").unwrap();
    assert!(d.alpha().is_none());
    assert_eq!(d.to_hex_string(), "#FF0000");
    let e = Color::parse_hex("#10203040").unwrap();
    assert_eq!(e.to_hex_string(), "#10203040");
}

#[test]
fn list_errors() {
    assert_eq!(Color::parse_rgb("1, 2").unwrap_err(), ColorError::WrongFieldCount);
    assert_eq!(Color::parse_rgb("1, x, 3").unwrap_err(), ColorError::InvalidNumber);
    assert_eq!(Color::parse_rgba("1, 2, 3").unwrap_err(), ColorError::WrongFieldCount);
    assert_eq!(Color::parse_rgba("1, 2, 3, ").unwrap_err(), ColorError::InvalidNumber);
    assert_eq!(Color::parse_hsl("1, 2, 3, 4").unwrap_err(), ColorError::WrongFieldCount);
    assert_eq!(Color::parse_hsl("1, 2.5.1, 3").unwrap_err(), ColorError::InvalidNumber);
}

#[test]
fn rgba_text_parses() {
    let c = Color::parse_rgba("1, 2, 3, 0.5").unwrap();
    assert_eq!(c.to_rgba_string(), "rgba(1, 2, 3, 128)");
    assert_eq!(c.to_hex_string(), "#01020380");
    let d = Color::parse_color("255, 0, 0, 0.5").unwrap();
    assert_eq!(d.to_rgba_string(), "rgba(255, 0, 0, 128)");
}

#[test]
fn out_of_range_clamps_when_quantized() {
    let c = Color::parse_rgb("300, -5, 128").unwrap();
    assert_eq!(c.to_rgb_string(), "rgb(255, 0, 128)");
}

#[test]
fn fields_are_trimmed() {
    let c = Color::parse_rgb(" 10 ,\t20 , 30 ").unwrap();
    assert_eq!(c.to_rgb_string(), "rgb(10, 20, 30)");
}

#[test]
fn rounding_not_truncation() {
    let c = Color::from_rgb(q(1, 2), q(1, 3), q(2, 3));
    assert_eq!(c.to_rgb_string(), "rgb(128, 85, 170)");
}

#[test]
fn achromatic_grey() {
    let c = Color::parse_rgb("128, 128, 128").unwrap();
    assert!(same(c.hue(), 0, 1));
    assert!(same(c.saturation(), 0, 1));
    assert_eq!(c.to_hsl_string(), "hsl(0, 0%, 50.2%)");
}

#[test]
fn exponent_notation_reads() {
    let c = Color::parse_rgb("1e2, 2.55E2, 5e-1").unwrap();
    assert_eq!(c.to_rgb_string(), "rgb(100, 255, 1)");
    let d = Color::parse_hsl("1.2e2, 1e+2, 500e-1").unwrap();
    assert_eq!(d.to_rgb_string(), "rgb(0, 255, 0)");
    let e = Color::parse_color("1E2, 0, 0").unwrap();
    assert_eq!(e.to_rgb_string(), "rgb(100, 0, 0)");
}

#[test]
fn many_decimals_round_to_millionths() {
    let c = Color::parse_rgba("255, 0, 0, 0.3333333").unwrap();
    let a = c.alpha().unwrap();
    assert!(same(a, 333333, 1000000));
    assert_eq!(c.to_rgba_string(), "rgba(255, 0, 0, 85)");
    let d = Color::parse_rgba("0, 0, 0, 0.0000005").unwrap();
    assert!(same(d.alpha().unwrap(), 1, 1000000));
    let t = Color::parse_rgba("0, 0, 0, 1e-7").unwrap();
    assert!(same(t.alpha().unwrap(), 0, 1));
}

#[test]
fn large_numbers_are_held_at_the_cap() {
    let c = Color::parse_rgb("12345678901, 0, 1e300").unwrap();
    assert_eq!(c.to_rgb_string(), "rgb(255, 0, 255)");
    let d = Color::parse_rgb("-1e99999999999999999999, 0, 0").unwrap();
    assert_eq!(d.to_rgb_string(), "rgb(0, 0, 0)");
}

#[test]
fn malformed_numbers_fail() {
    assert_eq!(Color::parse_rgb("1e, 2, 3").unwrap_err(), ColorError::InvalidNumber);
    assert_eq!(Color::parse_rgb("., 2, 3").unwrap_err(), ColorError::InvalidNumber);
    assert_eq!(Color::parse_rgb("e5, 2, 3").unwrap_err(), ColorError::InvalidNumber);
    assert_eq!(Color::parse_rgb("1e2.5, 2, 3").unwrap_err(), ColorError::InvalidNumber);
    assert_eq!(Color::parse_rgb(".5, 2., +3").unwrap().to_rgb_string(), "rgb(1, 2, 3)");
}
