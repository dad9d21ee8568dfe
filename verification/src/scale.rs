//! Scale generator: turns one base-color request into an ordered scale of
//! nine tints, one per canonical stop, by redistributing lightness linearly
//! between the seed's own lightness at its anchor stop and the configured
//! boundary lightness values at the (virtual) ends of the stop grid.

use vstd::prelude::*;

use crate::codec::{
    hex_to_hsl, hsl_of_hex, hsl_to_hex, hsl_hex_digits, valid_hex_color, hex_shape_ok,
};
use crate::errors::ColorParseError;
use crate::num::{div_round, div_round_i64, lemma_div_round_bounds, lemma_div_round_mono};

verus! {

/// The nine canonical public stops are the multiples of 100 in `100..=900`.
pub open spec fn is_public_stop(s: int) -> bool {
    s % 100 == 0 && 100 <= s <= 900
}

/// The i-th public stop, ascending: `100 * (i + 1)`.
pub open spec fn stop_value(i: int) -> int {
    100 * (i + 1)
}

/// The i-th public stop, ascending.
pub fn stop_at(i: usize) -> (r: u32)
    requires
        i < 9,
    ensures
        r == stop_value(i as int),
        is_public_stop(r as int),
{
    100 * (i as u32 + 1)
}

/// One color family to (re)generate: a group name, a seed value (`#rrggbb`
/// text, or the name of another group to link to), the stop at which the
/// seed is reproduced verbatim, and the boundary lightness percentages the
/// scale approaches at its extremes.
#[derive(Clone, Debug)]
pub struct BaseColorRequest {
    pub name: String,
    pub value: String,
    pub anchor_stop: u32,
    pub lightness_min: u32,
    pub lightness_max: u32,
}

impl BaseColorRequest {
    /// The caller contract on the grid fields: the anchor is a public stop
    /// (never one of the auxiliary distribution markers) and the lightness
    /// bounds are ordered percentages.
    pub open spec fn bounds_ok(self) -> bool {
        is_public_stop(self.anchor_stop as int) && self.lightness_min <= self.lightness_max
            && self.lightness_max <= 100
    }

    /// A request whose value is a seed color literal rather than a link to
    /// another group.
    pub open spec fn is_generative(self) -> bool {
        self.value@.len() > 0 && self.value@[0] == '#'
    }
}

/// A request with the default anchor stop (500) and default lightness
/// bounds (0 and 100).
pub fn request_with_defaults(name: String, value: String) -> (r: BaseColorRequest)
    ensures
        r.name == name,
        r.value == value,
        r.anchor_stop == 500u32,
        r.lightness_min == 0u32,
        r.lightness_max == 100u32,
        r.bounds_ok(),
{
    BaseColorRequest { name, value, anchor_stop: 500, lightness_min: 0, lightness_max: 100 }
}

/// One output of the generator: an (as yet identity-less) tint of a group at
/// one stop.
#[derive(Clone, Debug)]
pub struct GeneratedColor {
    pub name: String,
    pub stop: u32,
    pub hex: String,
}

/// The lightness emitted at `stop`: the seed lightness `l` at the anchor,
/// and elsewhere a linear interpolation (rounded to the nearest percent)
/// from `l` toward `lmax` at the lower grid boundary and toward `lmin` at
/// the upper one.
pub open spec fn tweak_light(l: int, lmin: int, lmax: int, anchor: int, stop: int) -> int {
    if stop == anchor {
        l
    } else if stop < anchor {
        l + div_round((lmax - l) * (anchor - stop), anchor)
    } else {
        l + div_round((lmin - l) * (stop - anchor), 1000 - anchor)
    }
}

/// The hex text emitted at `stop` for a seed literal: the seed itself at the
/// anchor stop (reproduced verbatim, so no rounding drift), and elsewhere a
/// `#` followed by the digits of the seed's hue and saturation with the
/// redistributed lightness.
pub open spec fn gen_hex(seed: Seq<char>, lmin: int, lmax: int, anchor: int, stop: int)
    -> Seq<char> {
    if stop == anchor {
        seed
    } else {
        let hsl = hsl_of_hex(seed);
        seq!['#'] + hsl_hex_digits(
            hsl.h as int,
            hsl.s as int,
            tweak_light(hsl.l as int, lmin, lmax, anchor, stop),
        )
    }
}

/// The redistributed lightness stays between the seed lightness and the
/// boundary value it interpolates toward.
pub proof fn lemma_tweak_light_range(l: int, lmin: int, lmax: int, anchor: int, stop: int)
    requires
        0 <= l <= 100,
        0 <= lmin <= lmax <= 100,
        is_public_stop(anchor),
        is_public_stop(stop),
    ensures
        stop < anchor ==> if l <= lmax {
            l <= tweak_light(l, lmin, lmax, anchor, stop) <= lmax
        } else {
            lmax <= tweak_light(l, lmin, lmax, anchor, stop) <= l
        },
        stop > anchor ==> if l <= lmin {
            l <= tweak_light(l, lmin, lmax, anchor, stop) <= lmin
        } else {
            lmin <= tweak_light(l, lmin, lmax, anchor, stop) <= l
        },
        0 <= tweak_light(l, lmin, lmax, anchor, stop) <= 100,
{
    if stop < anchor {
        if l <= lmax {
            assert(0 * anchor <= (lmax - l) * (anchor - stop) <= (lmax - l) * anchor)
                by (nonlinear_arith)
                requires 0 <= lmax - l, 0 < anchor - stop <= anchor;
            lemma_div_round_bounds((lmax - l) * (anchor - stop), anchor, 0, lmax - l);
        } else {
            assert((lmax - l) * anchor <= (lmax - l) * (anchor - stop) <= 0 * anchor)
                by (nonlinear_arith)
                requires lmax - l <= 0, 0 < anchor - stop <= anchor;
            lemma_div_round_bounds((lmax - l) * (anchor - stop), anchor, lmax - l, 0);
        }
    } else if stop > anchor {
        if l <= lmin {
            assert(0 * (1000 - anchor) <= (lmin - l) * (stop - anchor) <= (lmin - l) * (1000
                - anchor)) by (nonlinear_arith)
                requires 0 <= lmin - l, 0 < stop - anchor <= 1000 - anchor;
            lemma_div_round_bounds((lmin - l) * (stop - anchor), 1000 - anchor, 0, lmin - l);
        } else {
            assert((lmin - l) * (1000 - anchor) <= (lmin - l) * (stop - anchor) <= 0 * (1000
                - anchor)) by (nonlinear_arith)
                requires lmin - l <= 0, 0 < stop - anchor <= 1000 - anchor;
            lemma_div_round_bounds((lmin - l) * (stop - anchor), 1000 - anchor, lmin - l, 0);
        }
    }
}

/// Law: with boundary lightness 0 and 100, the lightness emitted by the
/// scale never increases from stop 100 toward stop 900. (`tweak_light` is
/// the lightness each emitted color is built from, and the anchor stop
/// reproduces the seed lightness `l` itself.) Adjacent stops may round to
/// equal values; the order is monotone, not strict.
pub proof fn lemma_lightness_monotone(l: int, anchor: int, s1: int, s2: int)
    requires
        0 <= l <= 100,
        is_public_stop(anchor),
        is_public_stop(s1),
        is_public_stop(s2),
        s1 <= s2,
    ensures
        tweak_light(l, 0, 100, anchor, s1) >= tweak_light(l, 0, 100, anchor, s2),
{
    lemma_tweak_light_range(l, 0, 100, anchor, s1);
    lemma_tweak_light_range(l, 0, 100, anchor, s2);
    if s1 < s2 < anchor {
        assert((100 - l) * (anchor - s2) <= (100 - l) * (anchor - s1)) by (nonlinear_arith)
            requires 0 <= 100 - l, anchor - s2 <= anchor - s1;
        lemma_div_round_mono((100 - l) * (anchor - s2), (100 - l) * (anchor - s1), anchor);
    } else if anchor < s1 < s2 {
        assert((0 - l) * (s2 - anchor) <= (0 - l) * (s1 - anchor)) by (nonlinear_arith)
            requires 0 - l <= 0, s1 - anchor <= s2 - anchor;
        lemma_div_round_mono((0 - l) * (s2 - anchor), (0 - l) * (s1 - anchor), 1000 - anchor);
    }
}

/// The redistributed lightness of one non-anchor stop, executable.
fn tweak_of(l: u32, lmin: u32, lmax: u32, anchor: u32, stop: u32) -> (tw: i64)
    requires
        l <= 100,
        lmin <= lmax <= 100,
        is_public_stop(anchor as int),
        is_public_stop(stop as int),
        stop != anchor,
    ensures
        tw == tweak_light(l as int, lmin as int, lmax as int, anchor as int, stop as int),
        -100 <= tw <= 200,
{
    let li = l as i64;
    let lmini = lmin as i64;
    let lmaxi = lmax as i64;
    let anchori = anchor as i64;
    let stopi = stop as i64;
    if stopi < anchori {
        assert(-100 * (anchori as int) <= (lmaxi - li) * (anchori - stopi) <= 100 * (
        anchori as int)) by (nonlinear_arith)
            requires -100 <= lmaxi - li <= 100, 0 < anchori - stopi <= anchori;
        proof {
            lemma_div_round_bounds(
                (lmaxi - li) * (anchori - stopi),
                anchori as int,
                -100,
                100,
            );
        }
        li + div_round_i64((lmaxi - li) * (anchori - stopi), anchori)
    } else {
        assert(-100 * (1000 - anchori as int) <= (lmini - li) * (stopi - anchori) <= 100 * (
        1000 - anchori as int)) by (nonlinear_arith)
            requires -100 <= lmini - li <= 100, 0 < stopi - anchori <= 1000 - anchori;
        proof {
            lemma_div_round_bounds(
                (lmini - li) * (stopi - anchori),
                1000 - anchori as int,
                -100,
                100,
            );
        }
        li + div_round_i64((lmini - li) * (stopi - anchori), 1000 - anchori)
    }
}

/// Generate the ordered scale of one generative request: exactly nine
/// colors, one per canonical stop, ascending.
///
/// Succeeds exactly when the seed parses as a color literal; the grid
/// fields are the caller's contract. Each output hex is a pure function of
/// the request, so regeneration is deterministic.
#[verifier::rlimit(60)]
pub fn generate(req: &BaseColorRequest) -> (r: Result<Vec<GeneratedColor>, ColorParseError>)
    requires
        req.bounds_ok(),
    ensures
        r is Ok <==> valid_hex_color(req.value@),
        r is Err ==> (r->Err_0 == ColorParseError::InvalidFormat <==> !hex_shape_ok(req.value@)),
        r is Err ==> (r->Err_0 == ColorParseError::InvalidValue <==> hex_shape_ok(req.value@)
            && !valid_hex_color(req.value@)),
        r is Ok ==> r->Ok_0@.len() == 9,
        r is Ok ==> forall|i: int|
            0 <= i < 9 ==> (#[trigger] r->Ok_0@[i]).stop == stop_value(i)
                && r->Ok_0@[i].name@ == req.name@ && r->Ok_0@[i].hex@ == gen_hex(
                req.value@,
                req.lightness_min as int,
                req.lightness_max as int,
                req.anchor_stop as int,
                stop_value(i),
            ),
{
    let hsl = match hex_to_hsl(req.value.as_str()) {
        Ok(hsl) => hsl,
        Err(e) => {
            return Err(e);
        },
    };
    let mut tints: Vec<GeneratedColor> = Vec::new();
    let mut i: usize = 0;
    while i < 9
        invariant
            0 <= i <= 9,
            req.bounds_ok(),
            valid_hex_color(req.value@),
            hsl == hsl_of_hex(req.value@),
            hsl.wf(),
            tints@.len() == i,
            forall|j: int|
                0 <= j < i ==> (#[trigger] tints@[j]).stop == stop_value(j)
                    && tints@[j].name@ == req.name@ && tints@[j].hex@ == gen_hex(
                    req.value@,
                    req.lightness_min as int,
                    req.lightness_max as int,
                    req.anchor_stop as int,
                    stop_value(j),
                ),
        decreases 9 - i,
    {
        let stop = stop_at(i);
        let hex: String;
        if stop == req.anchor_stop {
            hex = req.value.clone();
        } else {
            let tw = tweak_of(
                hsl.l,
                req.lightness_min,
                req.lightness_max,
                req.anchor_stop,
                stop,
            );
            let digits = hsl_to_hex(hsl.h as i32, hsl.s as i32, tw as i32);
            let mut prefixed = String::from_str("#");
            prefixed.append(digits.as_str());
            proof {
                reveal_strlit("#");
                assert(prefixed@ =~= gen_hex(
                    req.value@,
                    req.lightness_min as int,
                    req.lightness_max as int,
                    req.anchor_stop as int,
                    stop_value(i as int),
                ));
            }
            hex = prefixed;
        }
        tints.push(GeneratedColor { name: req.name.clone(), stop, hex });
        i += 1;
    }
    Ok(tints)
}

} // verus!
