use lunacy_tints::codec::{hex_to_hsl, hsl_to_hex, Hsl};
use lunacy_tints::errors::ColorParseError;

fn channels(hex6: &str) -> (i64, i64, i64) {
    let r = i64::from_str_radix(&hex6[0..2], 16).unwrap();
    let g = i64::from_str_radix(&hex6[2..4], 16).unwrap();
    let b = i64::from_str_radix(&hex6[4..6], 16).unwrap();
    (r, g, b)
}

#[test]
fn hex_to_hsl_exact_values() {
    assert_eq!(hex_to_hsl("#00fbb0").unwrap(), Hsl { h: 162, s: 100, l: 49 });
    assert_eq!(hex_to_hsl("#ff0000").unwrap(), Hsl { h: 0, s: 100, l: 50 });
    assert_eq!(hex_to_hsl("#808080").unwrap(), Hsl { h: 0, s: 0, l: 50 });
    assert_eq!(hex_to_hsl("#123456").unwrap(), Hsl { h: 210, s: 65, l: 20 });
    assert_eq!(hex_to_hsl("#ffffff").unwrap(), Hsl { h: 0, s: 0, l: 100 });
    assert_eq!(hex_to_hsl("#000000").unwrap(), Hsl { h: 0, s: 0, l: 0 });
    assert_eq!(hex_to_hsl("#070707").unwrap(), Hsl { h: 0, s: 0, l: 3 });
}

#[test]
fn hex_to_hsl_uppercase_digits() {
    assert_eq!(hex_to_hsl("#00FBB0").unwrap(), Hsl { h: 162, s: 100, l: 49 });
}

#[test]
fn hex_to_hsl_rejects_bad_shape() {
    assert_eq!(hex_to_hsl(""), Err(ColorParseError::InvalidFormat));
    assert_eq!(hex_to_hsl("red"), Err(ColorParseError::InvalidFormat));
    assert_eq!(hex_to_hsl("#12345"), Err(ColorParseError::InvalidFormat));
    assert_eq!(hex_to_hsl("#1234567"), Err(ColorParseError::InvalidFormat));
    assert_eq!(hex_to_hsl("123456!"), Err(ColorParseError::InvalidFormat));
}

#[test]
fn hex_to_hsl_rejects_bad_digits() {
    assert_eq!(hex_to_hsl("#12g456"), Err(ColorParseError::InvalidValue));
    assert_eq!(hex_to_hsl("#zzzzzz"), Err(ColorParseError::InvalidValue));
    assert_eq!(hex_to_hsl("#12345 "), Err(ColorParseError::InvalidValue));
}

#[test]
fn hsl_to_hex_exact_values() {
    assert_eq!(hsl_to_hex(162, 100, 49), "00faaf");
    assert_eq!(hsl_to_hex(0, 100, 50), "ff0000");
    assert_eq!(hsl_to_hex(0, 0, 100), "ffffff");
    assert_eq!(hsl_to_hex(0, 0, 0), "000000");
    assert_eq!(hsl_to_hex(210, 65, 20), "123354");
    assert_eq!(hsl_to_hex(0, 0, 3), "080808");
}

#[test]
fn hsl_to_hex_is_total_hue_folds_and_percent_clamps() {
    // Hue is taken modulo 360, also for negative angles.
    assert_eq!(hsl_to_hex(-198, 100, 49), "00faaf");
    assert_eq!(hsl_to_hex(522, 100, 49), "00faaf");
    // Saturation and lightness are clamped into 0..=100.
    assert_eq!(hsl_to_hex(0, -5, 150), "ffffff");
    assert_eq!(hsl_to_hex(0, 200, -3), "000000");
}

#[test]
fn round_trip_examples_within_one_unit() {
    for seed in ["#00fbb0", "#ffffff", "#000000", "#ff0000", "#808080", "#0a141e"] {
        let hsl = hex_to_hsl(seed).unwrap();
        let back = hsl_to_hex(hsl.h as i32, hsl.s as i32, hsl.l as i32);
        let (r0, g0, b0) = channels(&seed[1..]);
        let (r1, g1, b1) = channels(&back);
        assert!((r0 - r1).abs() <= 1, "{seed} -> {back}");
        assert!((g0 - g1).abs() <= 1, "{seed} -> {back}");
        assert!((b0 - b1).abs() <= 1, "{seed} -> {back}");
    }
}

#[test]
fn round_trip_achromatic_within_one_unit() {
    for v in 0..=255i64 {
        let seed = format!("#{:02x}{:02x}{:02x}", v, v, v);
        let hsl = hex_to_hsl(&seed).unwrap();
        assert_eq!(hsl.h, 0);
        assert_eq!(hsl.s, 0);
        let back = hsl_to_hex(0, 0, hsl.l as i32);
        let (r1, g1, b1) = channels(&back);
        assert_eq!(r1, g1);
        assert_eq!(g1, b1);
        assert!((r1 - v).abs() <= 1, "gray {v} -> {back}");
    }
}
