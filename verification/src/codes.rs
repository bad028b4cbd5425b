//! Textual color codes for palette output.
//!
//! A palette entry is printed either as a hex code (`#rrggbb`, with `aa`
//! appended for colors that carry alpha) or as a decimal code
//! (`rgb(r, g, b)` / `rgba(r, g, b, a)`).  The functions here produce the
//! exact ASCII bytes of those codes; writing them to a terminal or file,
//! and the surrounding color preview escapes, are the caller's business.

use vstd::prelude::*;

use crate::colors::{Color, ColorKind, ColorView};

verus! {

/// Color code output format.
#[derive(Clone, Copy, Debug, PartialEq, Eq, Structural)]
pub enum ColorCodeFormat {
    /// `#rrggbb` or `#rrggbbaa`
    Hex,
    /// `rgb(r, g, b)` or `rgba(r, g, b, a)`
    Rgb,
}

/// The ASCII digit for a hex nibble: `0..=9` then `a..=f`.
pub open spec fn hex_digit(d: int) -> u8 {
    if d < 10 {
        (48 + d) as u8
    } else {
        (87 + d) as u8
    }
}

/// The two lowercase hex digits of one byte.
pub open spec fn hex_byte(b: u8) -> Seq<u8> {
    seq![hex_digit(b as int / 16), hex_digit(b as int % 16)]
}

/// The ASCII decimal digits of one byte, without leading zeros.
pub open spec fn dec_bytes(v: u8) -> Seq<u8> {
    if v >= 100 {
        seq![(48 + v / 100) as u8, (48 + (v / 10) % 10) as u8, (48 + v % 10) as u8]
    } else if v >= 10 {
        seq![(48 + (v / 10) % 10) as u8, (48 + v % 10) as u8]
    } else {
        seq![(48 + v % 10) as u8]
    }
}

/// The hex code of a color: `#` and two digits per channel; the alpha
/// channel appears exactly for colors with an alpha layout.
pub open spec fn spec_hex_code(c: ColorView) -> Seq<u8> {
    let base = seq![35u8] + hex_byte(c.data[0]) + hex_byte(c.data[1]) + hex_byte(c.data[2]);
    if c.color_type == ColorKind::Rgba8 {
        base + hex_byte(c.data[3])
    } else {
        base
    }
}

/// The decimal code of a color: `rgb(r, g, b)`, or `rgba(r, g, b, a)` for
/// colors with an alpha layout.
pub open spec fn spec_rgb_code(c: ColorView) -> Seq<u8> {
    // "rgb(" and "rgba(" as ASCII bytes, then the channels separated by
    // ", ", then ")".
    let sep = seq![44u8, 32u8];
    if c.color_type == ColorKind::Rgba8 {
        seq![114u8, 103u8, 98u8, 97u8, 40u8] + dec_bytes(c.data[0]) + sep + dec_bytes(c.data[1])
            + sep + dec_bytes(c.data[2]) + sep + dec_bytes(c.data[3]) + seq![41u8]
    } else {
        seq![114u8, 103u8, 98u8, 40u8] + dec_bytes(c.data[0]) + sep + dec_bytes(c.data[1]) + sep
            + dec_bytes(c.data[2]) + seq![41u8]
    }
}

/// The code of a color in the given format.
pub open spec fn spec_color_code(f: ColorCodeFormat, c: ColorView) -> Seq<u8> {
    match f {
        ColorCodeFormat::Hex => spec_hex_code(c),
        ColorCodeFormat::Rgb => spec_rgb_code(c),
    }
}

/// One hex digit of a nibble.
fn hex_digit_of(d: u8) -> (r: u8)
    requires
        d < 16,
    ensures
        r == hex_digit(d as int),
{
    if d < 10 {
        48 + d
    } else {
        87 + d
    }
}

/// Append the two hex digits of a byte.
fn push_hex_byte(out: &mut Vec<u8>, b: u8)
    ensures
        final(out)@ == old(out)@ + hex_byte(b),
{
    out.push(hex_digit_of(b / 16));
    out.push(hex_digit_of(b % 16));
    proof {
        assert(out@ =~= old(out)@ + hex_byte(b));
    }
}

/// Append the decimal digits of a byte, without leading zeros.
fn push_dec_byte(out: &mut Vec<u8>, v: u8)
    ensures
        final(out)@ == old(out)@ + dec_bytes(v),
{
    if v >= 100 {
        out.push(48 + v / 100);
    }
    if v >= 10 {
        out.push(48 + (v / 10) % 10);
    }
    out.push(48 + v % 10);
    proof {
        assert(out@ =~= old(out)@ + dec_bytes(v));
    }
}

/// The ASCII bytes of the color's hex code, with alpha exactly for colors
/// with an alpha layout.
pub fn hex_color_code(color: &Color) -> (r: Vec<u8>)
    requires
        color@.wf(),
    ensures
        r@ == spec_hex_code(color@),
{
    let mut out: Vec<u8> = Vec::new();
    out.push(35);
    push_hex_byte(&mut out, color.data[0]);
    push_hex_byte(&mut out, color.data[1]);
    push_hex_byte(&mut out, color.data[2]);
    if matches!(color.color_type, ColorKind::Rgba8) {
        push_hex_byte(&mut out, color.data[3]);
    }
    proof {
        assert(out@ =~= spec_hex_code(color@));
    }
    out
}

/// The ASCII bytes of the color's decimal code, with alpha exactly for
/// colors with an alpha layout.
pub fn rgb_color_code(color: &Color) -> (r: Vec<u8>)
    requires
        color@.wf(),
    ensures
        r@ == spec_rgb_code(color@),
{
    let mut out: Vec<u8> = Vec::new();
    out.push(114);
    out.push(103);
    out.push(98);
    if matches!(color.color_type, ColorKind::Rgba8) {
        out.push(97);
    }
    out.push(40);
    push_dec_byte(&mut out, color.data[0]);
    out.push(44);
    out.push(32);
    push_dec_byte(&mut out, color.data[1]);
    out.push(44);
    out.push(32);
    push_dec_byte(&mut out, color.data[2]);
    if matches!(color.color_type, ColorKind::Rgba8) {
        out.push(44);
        out.push(32);
        push_dec_byte(&mut out, color.data[3]);
    }
    out.push(41);
    proof {
        assert(out@ =~= spec_rgb_code(color@));
    }
    out
}

impl ColorCodeFormat {
    /// The ASCII bytes of the color's code in this format.
    pub fn color_code(&self, color: &Color) -> (r: Vec<u8>)
        requires
            color@.wf(),
        ensures
            r@ == spec_color_code(*self, color@),
    {
        match self {
            ColorCodeFormat::Hex => hex_color_code(color),
            ColorCodeFormat::Rgb => rgb_color_code(color),
        }
    }
}

} // verus!
