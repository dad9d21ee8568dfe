use lunacy_tints::codec::hex_to_hsl;
use lunacy_tints::errors::ColorParseError;
use lunacy_tints::scale::{generate, request_with_defaults, BaseColorRequest};

fn brand_request() -> BaseColorRequest {
    request_with_defaults(String::from("brand"), String::from("#00fbb0"))
}

#[test]
fn generate_nine_colors_ascending() {
    let tints = generate(&brand_request()).unwrap();
    assert_eq!(tints.len(), 9);
    for (i, tint) in tints.iter().enumerate() {
        assert_eq!(tint.stop, 100 * (i as u32 + 1));
        assert_eq!(tint.name, "brand");
    }
}

#[test]
fn generate_reproduces_seed_at_anchor() {
    let tints = generate(&brand_request()).unwrap();
    assert_eq!(tints[4].stop, 500);
    assert_eq!(tints[4].hex, "#00fbb0");
}

#[test]
fn generate_anchor_color_matches_seed_hsl_within_one_unit() {
    // The anchor stop carries the seed verbatim, so re-encoding the seed's
    // own HSL triple lands within one unit per channel of it.
    let tints = generate(&brand_request()).unwrap();
    let hsl = hex_to_hsl(&tints[4].hex).unwrap();
    let back = lunacy_tints::codec::hsl_to_hex(hsl.h as i32, hsl.s as i32, hsl.l as i32);
    let orig = &tints[4].hex[1..];
    for i in 0..3 {
        let a = i64::from_str_radix(&orig[2 * i..2 * i + 2], 16).unwrap();
        let b = i64::from_str_radix(&back[2 * i..2 * i + 2], 16).unwrap();
        assert!((a - b).abs() <= 1);
    }
}

#[test]
fn generate_exact_scale_anchor_500() {
    let tints = generate(&brand_request()).unwrap();
    let expected = [
        "#ccfff0", "#99ffe0", "#61ffd0", "#2effc0", "#00fbb0", "#00c78b", "#009468", "#006647",
        "#003324",
    ];
    for (tint, want) in tints.iter().zip(expected.iter()) {
        assert_eq!(&tint.hex, want);
    }
}

#[test]
fn generate_exact_scale_anchor_900() {
    let req = BaseColorRequest {
        name: String::from("brand"),
        value: String::from("#00fbb0"),
        anchor_stop: 900,
        lightness_min: 0,
        lightness_max: 100,
    };
    let tints = generate(&req).unwrap();
    let expected = [
        "#e0fff6", "#c7ffee", "#a8ffe5", "#8affdc", "#70ffd4", "#52ffcb", "#33ffc2", "#1affba",
        "#00fbb0",
    ];
    for (tint, want) in tints.iter().zip(expected.iter()) {
        assert_eq!(&tint.hex, want);
    }
}

#[test]
fn generate_exact_scale_bounded_lightness() {
    let req = BaseColorRequest {
        name: String::from("brand"),
        value: String::from("#00fbb0"),
        anchor_stop: 500,
        lightness_min: 20,
        lightness_max: 80,
    };
    let tints = generate(&req).unwrap();
    let expected = [
        "#7affd7", "#5cffce", "#38ffc3", "#1affba", "#00fbb0", "#00db9a", "#00bd84", "#00a372",
        "#00855d",
    ];
    for (tint, want) in tints.iter().zip(expected.iter()) {
        assert_eq!(&tint.hex, want);
    }
}

#[test]
fn generate_lightness_monotone_and_anchor_neighbors() {
    // With the default 0..100 bounds, lightness never increases from stop
    // 100 toward stop 900; stop 100 is lighter than the anchor and stop
    // 900 darker.
    let tints = generate(&brand_request()).unwrap();
    let lights: Vec<u32> = tints.iter().map(|t| hex_to_hsl(&t.hex).unwrap().l).collect();
    for w in lights.windows(2) {
        assert!(w[0] >= w[1], "lightness increased: {:?}", lights);
    }
    assert!(lights[0] > lights[4]);
    assert!(lights[8] < lights[4]);
}

#[test]
fn generate_flat_scale_when_bounds_pin_seed_lightness() {
    // lightness_min == lightness_max == seed lightness degenerates to a
    // flat scale; this is valid, not an error.
    let req = BaseColorRequest {
        name: String::from("red"),
        value: String::from("#ff0000"),
        anchor_stop: 500,
        lightness_min: 50,
        lightness_max: 50,
    };
    let tints = generate(&req).unwrap();
    for tint in tints.iter() {
        assert_eq!(tint.hex, "#ff0000");
    }
}

#[test]
fn generate_rejects_malformed_seed() {
    let mut req = brand_request();
    req.value = String::from("#zzzzzz");
    assert!(matches!(generate(&req), Err(ColorParseError::InvalidValue)));
    req.value = String::from("#12345");
    assert!(matches!(generate(&req), Err(ColorParseError::InvalidFormat)));
}
