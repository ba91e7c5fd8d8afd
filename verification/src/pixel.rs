//! The compositor: alpha blending of one RGBA colour onto another with the
//! standard "source-over" operator.
//!
//! The operator is stated and computed in exact integer arithmetic. With
//! 8-bit channels every intermediate value of the real-number formula is a
//! rational with denominator a power of 255, so the blended channels can be
//! written as integer quotients: colour channels truncate, the output alpha
//! rounds to the nearest 8-bit value.

use vstd::arithmetic::div_mod::lemma_div_multiples_vanish;
use vstd::arithmetic::div_mod::lemma_fundamental_div_mod_converse;
use vstd::prelude::*;

verus! {

/// One image pixel: red, green, blue and alpha, 8 bits per channel.
#[derive(Clone, Copy, PartialEq, Eq, Structural, Debug)]
pub struct Rgba {
    pub r: u8,
    pub g: u8,
    pub b: u8,
    pub a: u8,
}

/// Combined weight of both layers, scaled by 255 * 255: the output alpha of
/// source-over compositing is `a_top + a_bottom * (1 - a_top)` with each
/// alpha taken in `[0, 1]`, and this is that value times 255 * 255.
pub open spec fn over_den(ba: int, ta: int) -> int {
    255 * ta + ba * (255 - ta)
}

/// One blended colour channel. The real-number formula is
/// `(top * a_top + bottom * a_bottom * (1 - a_top)) / a_out`, truncated to
/// 8 bits; numerator and denominator both scale by 255 * 255, leaving the
/// integer quotient below. When both layers are fully transparent the
/// output alpha is zero and the formula is undefined: the bottom channel is
/// kept unchanged.
pub open spec fn over_channel(bc: int, ba: int, tc: int, ta: int) -> int {
    if over_den(ba, ta) == 0 {
        bc
    } else {
        (255 * tc * ta + bc * ba * (255 - ta)) / over_den(ba, ta)
    }
}

/// The blended alpha channel: `a_out * 255` rounded to the nearest integer.
/// `a_out * 255` equals `over_den / 255` exactly, and the fraction can never
/// be one half, so adding 127 before a truncating division rounds it.
pub open spec fn over_alpha(ba: int, ta: int) -> int {
    (over_den(ba, ta) + 127) / 255
}

/// The source-over composite of `top` onto `bottom`.
pub open spec fn spec_blend(bottom: Rgba, top: Rgba) -> Rgba {
    Rgba {
        r: over_channel(bottom.r as int, bottom.a as int, top.r as int, top.a as int) as u8,
        g: over_channel(bottom.g as int, bottom.a as int, top.g as int, top.a as int) as u8,
        b: over_channel(bottom.b as int, bottom.a as int, top.b as int, top.a as int) as u8,
        a: over_alpha(bottom.a as int, top.a as int) as u8,
    }
}

/// Every blended channel lies in `[0, 255]`, so the 8-bit casts in
/// `spec_blend` lose nothing.
pub proof fn lemma_blend_in_range(bc: int, ba: int, tc: int, ta: int)
    requires
        0 <= bc <= 255,
        0 <= ba <= 255,
        0 <= tc <= 255,
        0 <= ta <= 255,
    ensures
        0 <= over_channel(bc, ba, tc, ta) <= 255,
        0 <= over_alpha(ba, ta) <= 255,
{
    let den = over_den(ba, ta);
    let num = 255 * tc * ta + bc * ba * (255 - ta);
    assert(0 <= 255 * ta + ba * (255 - ta) <= 255 * 255) by (nonlinear_arith)
        requires
            0 <= ba <= 255 && 0 <= ta <= 255,
    ;
    if den != 0 {
        assert(0 <= 255 * tc * ta + bc * ba * (255 - ta) <= 255 * (255 * ta + ba * (255 - ta)))
            by (nonlinear_arith)
            requires
                0 <= bc <= 255 && 0 <= ba <= 255 && 0 <= tc <= 255 && 0 <= ta <= 255,
        ;
        assert(0 <= num / den <= 255) by (nonlinear_arith)
            requires
                den >= 1 && 0 <= num && num <= 255 * den,
        ;
    }
    assert(0 <= (den + 127) / 255 <= 255) by (nonlinear_arith)
        requires
            0 <= den <= 255 * 255,
    ;
}

/// Law: blending a fully transparent top layer leaves the bottom pixel
/// unchanged, whatever its colour and alpha.
pub proof fn lemma_blend_transparent_top(bottom: Rgba, top: Rgba)
    requires
        top.a == 0,
    ensures
        spec_blend(bottom, top) == bottom,
{
    let ba = bottom.a as int;
    assert(over_den(ba, 0) == ba * 255);
    if ba == 0 {
        assert(over_alpha(0, 0) == 0);
    } else {
        assert forall|bc: int, tc: int|
            0 <= bc <= 255 && 0 <= tc <= 255 implies #[trigger] over_channel(bc, ba, tc, 0)
            == bc by {
            assert(255 * tc * 0 + bc * ba * (255 - 0) == (ba * 255) * bc) by (nonlinear_arith);
            lemma_div_multiples_vanish(bc, ba * 255);
        }
        lemma_fundamental_div_mod_converse(over_den(ba, 0) + 127, 255, ba, 127);
        assert(over_alpha(ba, 0) == ba);
    }
}

/// Law: blending a fully opaque top layer replaces the bottom pixel with the
/// top one, whatever the bottom held.
pub proof fn lemma_blend_opaque_top(bottom: Rgba, top: Rgba)
    requires
        top.a == 255,
    ensures
        spec_blend(bottom, top) == top,
{
    let ba = bottom.a as int;
    assert(over_den(ba, 255) == 255 * 255);
    assert forall|bc: int, tc: int|
        0 <= bc <= 255 && 0 <= tc <= 255 implies #[trigger] over_channel(bc, ba, tc, 255)
        == tc by {
        assert(255 * tc * 255 + bc * ba * (255 - 255) == (255 * 255) * tc) by (nonlinear_arith);
        lemma_div_multiples_vanish(tc, 255int * 255);
    }
    lemma_fundamental_div_mod_converse(over_den(ba, 255) + 127, 255, 255, 127);
    assert(over_alpha(ba, 255) == 255);
}

/// Alpha composites `top` onto `bottom` with the source-over operator.
pub fn blend_pixels(bottom: Rgba, top: Rgba) -> (out: Rgba)
    ensures
        out == spec_blend(bottom, top),
{
    proof {
        lemma_blend_in_range(bottom.r as int, bottom.a as int, top.r as int, top.a as int);
        lemma_blend_in_range(bottom.g as int, bottom.a as int, top.g as int, top.a as int);
        lemma_blend_in_range(bottom.b as int, bottom.a as int, top.b as int, top.a as int);
    }
    let ba: u32 = bottom.a as u32;
    let ta: u32 = top.a as u32;
    assert(ba * (255 - ta) <= 255 * 255) by (nonlinear_arith)
        requires
            ba <= 255 && ta <= 255,
    ;
    let den: u32 = 255 * ta + ba * (255 - ta);
    assert(den == over_den(ba as int, ta as int));
    let a_out: u32 = (den + 127) / 255;
    assert(a_out == over_alpha(ba as int, ta as int));
    if den == 0 {
        Rgba { r: bottom.r, g: bottom.g, b: bottom.b, a: a_out as u8 }
    } else {
        let r = blend_channel(bottom.r, ba, top.r, ta, den);
        let g = blend_channel(bottom.g, ba, top.g, ta, den);
        let b = blend_channel(bottom.b, ba, top.b, ta, den);
        Rgba { r, g, b, a: a_out as u8 }
    }
}

/// One colour channel of the source-over composite, for layers that are not
/// both fully transparent.
fn blend_channel(bc: u8, ba: u32, tc: u8, ta: u32, den: u32) -> (out: u8)
    requires
        ba <= 255,
        ta <= 255,
        den == over_den(ba as int, ta as int),
        den != 0,
    ensures
        out == over_channel(bc as int, ba as int, tc as int, ta as int),
{
    proof {
        lemma_blend_in_range(bc as int, ba as int, tc as int, ta as int);
    }
    let t: u32 = 255 * (tc as u32);
    assert(t * ta <= 65025 * 255) by (nonlinear_arith)
        requires
            t <= 65025 && ta <= 255,
    ;
    let top_part: u32 = t * ta;
    assert((bc as int) * (ba as int) <= 65025) by (nonlinear_arith)
        requires
            bc <= 255 && ba <= 255,
    ;
    let b: u32 = (bc as u32) * ba;
    assert(b * (255 - ta) <= 65025 * 255) by (nonlinear_arith)
        requires
            b <= 65025 && ta <= 255,
    ;
    let bottom_part: u32 = b * (255 - ta);
    let num: u32 = top_part + bottom_part;
    assert(num == 255 * (tc as int) * (ta as int) + (bc as int) * (ba as int) * (255 - ta as int))
        by (nonlinear_arith)
        requires
            num == top_part + bottom_part && top_part == t * ta && t == 255 * (tc as int) && b == (
            bc as int) * (ba as int) && bottom_part == b * (255 - ta as int) && ta <= 255,
    ;
    (num / den) as u8
}

} // verus!
