//! Color codec: conversion between hexadecimal RGB text (`#rrggbb`) and HSL
//! triples. All arithmetic is exact integer arithmetic; every fractional
//! quantity is rounded to the nearest integer, ties away from zero, so each
//! conversion is a pure function of its input with an exact specification.

use vstd::prelude::*;

use crate::errors::ColorParseError;
use crate::num::{div_round, div_round_i64, lemma_div_round_bounds};

verus! {

/// A color as hue (degrees, `0 <= h < 360`), saturation and lightness
/// (percent, `0..=100`).
#[derive(Clone, Copy, Debug, PartialEq, Eq, Structural)]
pub struct Hsl {
    pub h: u32,
    pub s: u32,
    pub l: u32,
}

impl Hsl {
    /// Field ranges of a well-formed triple.
    pub open spec fn wf(self) -> bool {
        self.h < 360 && self.s <= 100 && self.l <= 100
    }
}

pub open spec fn iabs(x: int) -> int {
    if x < 0 {
        -x
    } else {
        x
    }
}

pub open spec fn imax(a: int, b: int) -> int {
    if a >= b {
        a
    } else {
        b
    }
}

pub open spec fn imin(a: int, b: int) -> int {
    if a <= b {
        a
    } else {
        b
    }
}

pub open spec fn is_hex_digit(c: char) -> bool {
    ('0' <= c && c <= '9') || ('a' <= c && c <= 'f') || ('A' <= c && c <= 'F')
}

pub open spec fn hex_val(c: char) -> int {
    if '0' <= c && c <= '9' {
        c as u32 - '0' as u32
    } else if 'a' <= c && c <= 'f' {
        c as u32 - 'a' as u32 + 10
    } else {
        c as u32 - 'A' as u32 + 10
    }
}

/// The shape of a color literal: `#` followed by six characters.
pub open spec fn hex_shape_ok(s: Seq<char>) -> bool {
    s.len() == 7 && s[0] == '#'
}

/// A valid color literal: `#` followed by six hexadecimal digits.
pub open spec fn valid_hex_color(s: Seq<char>) -> bool {
    hex_shape_ok(s) && forall|i: int| 1 <= i < 7 ==> is_hex_digit(#[trigger] s[i])
}

/// The red channel of a valid color literal, `0..=255`.
pub open spec fn hex_red(s: Seq<char>) -> int {
    16 * hex_val(s[1]) + hex_val(s[2])
}

pub open spec fn hex_green(s: Seq<char>) -> int {
    16 * hex_val(s[3]) + hex_val(s[4])
}

pub open spec fn hex_blue(s: Seq<char>) -> int {
    16 * hex_val(s[5]) + hex_val(s[6])
}

/// Lightness percent of a color: `(max + min) / 2` of the channels, rescaled
/// from `0..=255` to `0..=100` and rounded.
pub open spec fn hsl_light(r: int, g: int, b: int) -> int {
    div_round(100 * (imax(r, imax(g, b)) + imin(r, imin(g, b))), 510)
}

/// Saturation percent of a color: `delta / (1 - |2*lightness - 1|)` over
/// exact channel fractions, `0` when `delta` is `0`.
pub open spec fn hsl_sat(r: int, g: int, b: int) -> int {
    let mx = imax(r, imax(g, b));
    let mn = imin(r, imin(g, b));
    if mx == mn {
        0
    } else {
        div_round(100 * (mx - mn), if mx + mn <= 255 { mx + mn } else { 510 - (mx + mn) })
    }
}

/// Hue in degrees, `0..360`, from whichever channel is maximal (ties resolved
/// in red, green, blue order); `0` for an achromatic color.
pub open spec fn hsl_hue(r: int, g: int, b: int) -> int {
    let mx = imax(r, imax(g, b));
    let mn = imin(r, imin(g, b));
    if mx == mn {
        0
    } else if mx == r {
        let raw = div_round(60 * (g - b), mx - mn);
        if raw < 0 {
            raw + 360
        } else {
            raw
        }
    } else if mx == g {
        120 + div_round(60 * (b - r), mx - mn)
    } else {
        240 + div_round(60 * (r - g), mx - mn)
    }
}

/// The HSL triple of a valid color literal.
pub open spec fn hsl_of_hex(s: Seq<char>) -> Hsl {
    Hsl {
        h: hsl_hue(hex_red(s), hex_green(s), hex_blue(s)) as u32,
        s: hsl_sat(hex_red(s), hex_green(s), hex_blue(s)) as u32,
        l: hsl_light(hex_red(s), hex_green(s), hex_blue(s)) as u32,
    }
}

/// Range facts about the HSL components of any channel triple.
pub proof fn lemma_hsl_ranges(r: int, g: int, b: int)
    requires
        0 <= r <= 255,
        0 <= g <= 255,
        0 <= b <= 255,
    ensures
        0 <= hsl_light(r, g, b) <= 100,
        0 <= hsl_sat(r, g, b) <= 100,
        0 <= hsl_hue(r, g, b) < 360,
{
    let mx = imax(r, imax(g, b));
    let mn = imin(r, imin(g, b));
    lemma_div_round_bounds(100 * (mx + mn), 510, 0, 100);
    if mx != mn {
        let d = mx - mn;
        let den = if mx + mn <= 255 { mx + mn } else { 510 - (mx + mn) };
        assert(d <= den);
        assert(100 * d <= 100 * den) by (nonlinear_arith)
            requires d <= den;
        lemma_div_round_bounds(100 * d, den, 0, 100);
        if mx == r {
            assert(-60 * d <= 60 * (g - b) <= 60 * d) by (nonlinear_arith)
                requires -d <= g - b <= d;
            lemma_div_round_bounds(60 * (g - b), d, -60, 60);
            // Hue 60 is reached only when g - b == d, never past it; a raw
            // value of exactly -60 normalizes to 300.
        } else if mx == g {
            assert(-60 * d <= 60 * (b - r) <= 60 * d) by (nonlinear_arith)
                requires -d <= b - r <= d;
            lemma_div_round_bounds(60 * (b - r), d, -60, 60);
        } else {
            assert(-60 * d <= 60 * (r - g) <= 60 * d) by (nonlinear_arith)
                requires -d <= r - g <= d;
            lemma_div_round_bounds(60 * (r - g), d, -60, 60);
        }
    }
}

/// One hexadecimal digit of a character, if it is one.
fn hex_digit_of(c: char) -> (r: Option<u32>)
    ensures
        r is Some <==> is_hex_digit(c),
        r is Some ==> r->0 == hex_val(c) && r->0 < 16,
{
    if '0' <= c && c <= '9' {
        Some(c as u32 - '0' as u32)
    } else if 'a' <= c && c <= 'f' {
        Some(c as u32 - 'a' as u32 + 10)
    } else if 'A' <= c && c <= 'F' {
        Some(c as u32 - 'A' as u32 + 10)
    } else {
        None
    }
}

/// Parse `#rrggbb` text into an HSL triple.
///
/// Fails with `InvalidFormat` when the text is not `#` followed by six
/// characters, and with `InvalidValue` when one of the six is not a
/// hexadecimal digit; succeeds exactly on valid color literals.
pub fn hex_to_hsl(text: &str) -> (r: Result<Hsl, ColorParseError>)
    ensures
        r is Ok <==> valid_hex_color(text@),
        r is Ok ==> r->Ok_0 == hsl_of_hex(text@) && r->Ok_0.wf(),
        r is Err ==> (r->Err_0 == ColorParseError::InvalidFormat <==> !hex_shape_ok(text@)),
        r is Err ==> (r->Err_0 == ColorParseError::InvalidValue <==> hex_shape_ok(text@)
            && !valid_hex_color(text@)),
{
    if text.unicode_len() != 7 {
        return Err(ColorParseError::InvalidFormat);
    }
    if text.get_char(0) != '#' {
        return Err(ColorParseError::InvalidFormat);
    }
    let mut digits: [u32; 6] = [0, 0, 0, 0, 0, 0];
    let mut i: usize = 1;
    while i < 7
        invariant
            1 <= i <= 7,
            text@.len() == 7,
            text@[0] == '#',
            forall|j: int| 1 <= j < i ==> is_hex_digit(#[trigger] text@[j]),
            forall|j: int| 0 <= j < i - 1 ==> #[trigger] digits@[j] == hex_val(text@[j + 1])
                && digits@[j] < 16,
        decreases 7 - i,
    {
        match hex_digit_of(text.get_char(i)) {
            Some(v) => {
                digits[i - 1] = v;
            },
            None => {
                assert(!is_hex_digit(text@[i as int]));
                return Err(ColorParseError::InvalidValue);
            },
        }
        i += 1;
    }
    let red: u32 = 16 * digits[0] + digits[1];
    let green: u32 = 16 * digits[2] + digits[3];
    let blue: u32 = 16 * digits[4] + digits[5];
    assert(red == hex_red(text@) && green == hex_green(text@) && blue == hex_blue(text@));
    Ok(rgb_to_hsl(red, green, blue))
}

/// The HSL triple of one channel triple.
fn rgb_to_hsl(r: u32, g: u32, b: u32) -> (out: Hsl)
    requires
        r <= 255,
        g <= 255,
        b <= 255,
    ensures
        out.h == hsl_hue(r as int, g as int, b as int),
        out.s == hsl_sat(r as int, g as int, b as int),
        out.l == hsl_light(r as int, g as int, b as int),
        out.wf(),
{
    proof {
        lemma_hsl_ranges(r as int, g as int, b as int);
    }
    let mx: i64 = if r >= g && r >= b {
        r as i64
    } else if g >= b {
        g as i64
    } else {
        b as i64
    };
    let mn: i64 = if r <= g && r <= b {
        r as i64
    } else if g <= b {
        g as i64
    } else {
        b as i64
    };
    assert(mx == imax(r as int, imax(g as int, b as int)));
    assert(mn == imin(r as int, imin(g as int, b as int)));
    let light = div_round_i64(100 * (mx + mn), 510);
    let sat: i64 = if mx == mn {
        0
    } else {
        let den = if mx + mn <= 255 {
            mx + mn
        } else {
            510 - (mx + mn)
        };
        div_round_i64(100 * (mx - mn), den)
    };
    let hue: i64 = if mx == mn {
        0
    } else if mx == r as i64 {
        let raw = div_round_i64(60 * (g as i64 - b as i64), mx - mn);
        if raw < 0 {
            raw + 360
        } else {
            raw
        }
    } else if mx == g as i64 {
        120 + div_round_i64(60 * (b as i64 - r as i64), mx - mn)
    } else {
        240 + div_round_i64(60 * (r as i64 - g as i64), mx - mn)
    };
    Hsl { h: hue as u32, s: sat as u32, l: light as u32 }
}

/// A hue folded into `0..360` (mathematical modulus, also for negatives).
pub open spec fn norm_hue(h: int) -> int {
    let k = iabs(h) % 360;
    if h >= 0 {
        k
    } else if k == 0 {
        0
    } else {
        360 - k
    }
}

/// A percentage clamped into `0..=100`.
pub open spec fn clamp100(x: int) -> int {
    if x < 0 {
        0
    } else if x > 100 {
        100
    } else {
        x
    }
}

/// Chroma scaled by `10_000`: `(1 - |2L - 1|) * S` over exact fractions.
pub open spec fn chroma_n(s: int, l: int) -> int {
    (100 - iabs(2 * l - 100)) * s
}

/// The triangular hue factor in `0..=60`: distance of `h` from the nearest
/// even sector boundary.
pub open spec fn hue_frac(h: int) -> int {
    60 - iabs(h % 120 - 60)
}

/// The middle channel scaled by `1_200_000`.
pub open spec fn x_n(h: int, s: int, l: int) -> int {
    2 * chroma_n(s, l) * hue_frac(h)
}

/// The chroma channel scaled by `1_200_000`.
pub open spec fn c_n(s: int, l: int) -> int {
    120 * chroma_n(s, l)
}

/// The additive lightness match term scaled by `1_200_000`: `L - C/2`.
pub open spec fn m_n(s: int, l: int) -> int {
    12000 * l - 60 * chroma_n(s, l)
}

/// The raw red component scaled by `1_200_000`, by hue sector.
pub open spec fn red_n(h: int, s: int, l: int) -> int {
    let k = h / 60;
    if k == 0 || k == 5 {
        c_n(s, l)
    } else if k == 1 || k == 4 {
        x_n(h, s, l)
    } else {
        0
    }
}

pub open spec fn green_n(h: int, s: int, l: int) -> int {
    let k = h / 60;
    if k == 1 || k == 2 {
        c_n(s, l)
    } else if k == 0 || k == 3 {
        x_n(h, s, l)
    } else {
        0
    }
}

pub open spec fn blue_n(h: int, s: int, l: int) -> int {
    let k = h / 60;
    if k == 3 || k == 4 {
        c_n(s, l)
    } else if k == 2 || k == 5 {
        x_n(h, s, l)
    } else {
        0
    }
}

/// An eight-bit channel from a component scaled by `1_200_000`.
pub open spec fn channel_byte(comp: int, s: int, l: int) -> int {
    div_round(255 * (comp + m_n(s, l)), 1200000)
}

/// The red channel emitted for a (normalized) HSL triple.
pub open spec fn rgb_red(h: int, s: int, l: int) -> int {
    channel_byte(red_n(h, s, l), s, l)
}

pub open spec fn rgb_green(h: int, s: int, l: int) -> int {
    channel_byte(green_n(h, s, l), s, l)
}

pub open spec fn rgb_blue(h: int, s: int, l: int) -> int {
    channel_byte(blue_n(h, s, l), s, l)
}

/// Every raw component and the match term stay inside the fixed-point unit
/// interval, so every emitted channel is a byte.
pub proof fn lemma_rgb_of_hsl_ranges(h: int, s: int, l: int)
    requires
        0 <= h < 360,
        0 <= s <= 100,
        0 <= l <= 100,
    ensures
        0 <= chroma_n(s, l) <= 10000,
        0 <= hue_frac(h) <= 60,
        0 <= x_n(h, s, l) <= c_n(s, l),
        0 <= m_n(s, l),
        c_n(s, l) + m_n(s, l) <= 1200000,
        0 <= rgb_red(h, s, l) <= 255,
        0 <= rgb_green(h, s, l) <= 255,
        0 <= rgb_blue(h, s, l) <= 255,
{
    let c = chroma_n(s, l);
    let f = hue_frac(h);
    assert(0 <= c <= 10000) by (nonlinear_arith)
        requires 0 <= s <= 100, 0 <= l <= 100, c == (100 - iabs(2 * l - 100)) * s;
    assert(0 <= h % 120 < 120);
    assert(0 <= f <= 60);
    assert(0 <= 2 * c * f <= 120 * c) by (nonlinear_arith)
        requires 0 <= c, 0 <= f <= 60;
    assert(12000 * l - 60 * c >= 0 && 120 * c + (12000 * l - 60 * c) <= 1200000)
        by (nonlinear_arith)
        requires 0 <= s <= 100, 0 <= l <= 100, c == (100 - iabs(2 * l - 100)) * s;
    let m = m_n(s, l);
    assert forall|comp: int| 0 <= comp <= c_n(s, l) implies 0 <= #[trigger] channel_byte(
        comp,
        s,
        l,
    ) <= 255 by {
        assert(0 <= 255 * (comp + m) <= 255 * 1200000) by (nonlinear_arith)
            requires 0 <= comp + m <= 1200000;
        lemma_div_round_bounds(255 * (comp + m), 1200000, 0, 255);
    }
}

/// The lowercase hexadecimal digit character of `0..=15`.
pub open spec fn hex_digit_char(d: int) -> char {
    if d == 0 {
        '0'
    } else if d == 1 {
        '1'
    } else if d == 2 {
        '2'
    } else if d == 3 {
        '3'
    } else if d == 4 {
        '4'
    } else if d == 5 {
        '5'
    } else if d == 6 {
        '6'
    } else if d == 7 {
        '7'
    } else if d == 8 {
        '8'
    } else if d == 9 {
        '9'
    } else if d == 10 {
        'a'
    } else if d == 11 {
        'b'
    } else if d == 12 {
        'c'
    } else if d == 13 {
        'd'
    } else if d == 14 {
        'e'
    } else {
        'f'
    }
}

/// Two lowercase hexadecimal digits of a byte.
pub open spec fn byte_hex(v: int) -> Seq<char> {
    seq![hex_digit_char(v / 16), hex_digit_char(v % 16)]
}

/// The six lowercase hexadecimal digits emitted for arbitrary integer hue,
/// saturation and lightness: hue folded into `0..360`, saturation and
/// lightness clamped into `0..=100`, then converted to RGB bytes.
pub open spec fn hsl_hex_digits(h: int, s: int, l: int) -> Seq<char> {
    let hn = norm_hue(h);
    let sn = clamp100(s);
    let ln = clamp100(l);
    byte_hex(rgb_red(hn, sn, ln)) + byte_hex(rgb_green(hn, sn, ln)) + byte_hex(
        rgb_blue(hn, sn, ln),
    )
}

/// One lowercase hexadecimal digit as text.
fn hex_digit_str(d: u32) -> (r: &'static str)
    requires
        d < 16,
    ensures
        r@ == seq![hex_digit_char(d as int)],
{
    let r: &'static str = match d {
        0 => "0",
        1 => "1",
        2 => "2",
        3 => "3",
        4 => "4",
        5 => "5",
        6 => "6",
        7 => "7",
        8 => "8",
        9 => "9",
        10 => "a",
        11 => "b",
        12 => "c",
        13 => "d",
        14 => "e",
        _ => "f",
    };
    proof {
        reveal_strlit("0");
        reveal_strlit("1");
        reveal_strlit("2");
        reveal_strlit("3");
        reveal_strlit("4");
        reveal_strlit("5");
        reveal_strlit("6");
        reveal_strlit("7");
        reveal_strlit("8");
        reveal_strlit("9");
        reveal_strlit("a");
        reveal_strlit("b");
        reveal_strlit("c");
        reveal_strlit("d");
        reveal_strlit("e");
        reveal_strlit("f");
        assert(r@ =~= seq![hex_digit_char(d as int)]);
    }
    r
}

/// Append the two lowercase hexadecimal digits of a byte.
fn push_byte_hex(out: &mut String, v: u32)
    requires
        v <= 255,
    ensures
        final(out)@ == old(out)@ + byte_hex(v as int),
{
    out.append(hex_digit_str(v / 16));
    out.append(hex_digit_str(v % 16));
    assert(final(out)@ =~= old(out)@ + byte_hex(v as int));
}

/// Convert an HSL triple to six lowercase hexadecimal digits (no `#`).
///
/// Total over all integer inputs: the hue is taken modulo 360 and the
/// saturation and lightness are clamped to `0..=100` before conversion.
#[verifier::rlimit(100)]
pub fn hsl_to_hex(h: i32, s: i32, l: i32) -> (r: String)
    ensures
        r@ == hsl_hex_digits(h as int, s as int, l as int),
        r@.len() == 6,
{
    // Fold the hue into 0..360 and clamp the percentages.
    let hn: i64 = if h >= 0 {
        (h as i64) % 360
    } else {
        let k = (-(h as i64)) % 360;
        if k == 0 {
            0
        } else {
            360 - k
        }
    };
    assert(hn == norm_hue(h as int));
    let sn: i64 = if s < 0 {
        0
    } else if s > 100 {
        100
    } else {
        s as i64
    };
    let ln: i64 = if l < 0 {
        0
    } else if l > 100 {
        100
    } else {
        l as i64
    };
    assert(sn == clamp100(s as int) && ln == clamp100(l as int));
    proof {
        lemma_rgb_of_hsl_ranges(hn as int, sn as int, ln as int);
    }
    // Fixed-point components over the denominator 1_200_000.
    let la: i64 = if 2 * ln - 100 < 0 {
        100 - 2 * ln
    } else {
        2 * ln - 100
    };
    let c: i64 = (100 - la) * sn;
    assert(c == chroma_n(sn as int, ln as int));
    assert(0 <= c <= 10000);
    let ha: i64 = if hn % 120 - 60 < 0 {
        60 - hn % 120
    } else {
        hn % 120 - 60
    };
    let f: i64 = 60 - ha;
    assert(f == hue_frac(hn as int) && 0 <= f <= 60);
    assert(0 <= 2 * c * f <= 1200000) by (nonlinear_arith)
        requires 0 <= c <= 10000, 0 <= f <= 60;
    let cc: i64 = 120 * c;
    let xx: i64 = 2 * c * f;
    let mm: i64 = 12000 * ln - 60 * c;
    let k: i64 = hn / 60;
    let rn: i64 = if k == 0 || k == 5 {
        cc
    } else if k == 1 || k == 4 {
        xx
    } else {
        0
    };
    let gn: i64 = if k == 1 || k == 2 {
        cc
    } else if k == 0 || k == 3 {
        xx
    } else {
        0
    };
    let bn: i64 = if k == 3 || k == 4 {
        cc
    } else if k == 2 || k == 5 {
        xx
    } else {
        0
    };
    assert(rn == red_n(hn as int, sn as int, ln as int));
    assert(gn == green_n(hn as int, sn as int, ln as int));
    assert(bn == blue_n(hn as int, sn as int, ln as int));
    let red = div_round_i64(255 * (rn + mm), 1200000);
    let green = div_round_i64(255 * (gn + mm), 1200000);
    let blue = div_round_i64(255 * (bn + mm), 1200000);
    let mut out = String::new();
    push_byte_hex(&mut out, red as u32);
    push_byte_hex(&mut out, green as u32);
    push_byte_hex(&mut out, blue as u32);
    proof {
        assert(out@ =~= hsl_hex_digits(h as int, s as int, l as int));
    }
    out
}


/// Law (partial round trip): an achromatic color comes back from its HSL
/// triple within one unit per channel. For chromatic colors the round trip
/// through integer degrees and percents can drift further, so only this
/// achromatic part is stated.
pub proof fn lemma_round_trip_achromatic(v: int)
    requires
        0 <= v <= 255,
    ensures
        hsl_sat(v, v, v) == 0,
        hsl_hue(v, v, v) == 0,
        rgb_green(0, 0, hsl_light(v, v, v)) == rgb_red(0, 0, hsl_light(v, v, v)),
        rgb_blue(0, 0, hsl_light(v, v, v)) == rgb_red(0, 0, hsl_light(v, v, v)),
        iabs(rgb_red(0, 0, hsl_light(v, v, v)) - v) <= 1,
{
    let l = hsl_light(v, v, v);
    assert(l == (400 * v + 510) / 1020);
    assert(chroma_n(0, l) == 0) by (nonlinear_arith);
    assert(c_n(0, l) == 0);
    assert(x_n(0, 0, l) == 0) by {
        assert(2 * chroma_n(0, l) * hue_frac(0) == 0) by (nonlinear_arith)
            requires chroma_n(0, l) == 0;
    }
    assert(red_n(0, 0, l) == 0 && green_n(0, 0, l) == 0 && blue_n(0, 0, l) == 0);
    let byte = rgb_red(0, 0, l);
    assert(byte == (2 * (255 * (12000 * l)) + 1200000) / 2400000);
    assert(iabs(byte - v) <= 1);
}

} // verus!
