//! Parsing of "#RRGGBB" color strings, with a component-wise fallback to
//! the engine's default pen color.

use vstd::prelude::*;
use crate::model::Color;

verus! {

/// The value of one hex digit, or -1 for any other character.
pub open spec fn hex_val(c: char) -> int {
    if '0' <= c <= '9' {
        c as int - '0' as int
    } else if 'a' <= c <= 'f' {
        c as int - 'a' as int + 10
    } else if 'A' <= c <= 'F' {
        c as int - 'A' as int + 10
    } else {
        -1
    }
}

/// Two hex digits as one byte, or the fallback when either digit is bad.
pub open spec fn hex_byte(h: char, l: char, fallback: int) -> int {
    if hex_val(h) >= 0 && hex_val(l) >= 0 {
        16 * hex_val(h) + hex_val(l)
    } else {
        fallback
    }
}

/// What a color string parses to: "#RRGGBB" component-wise with the
/// default pen color (52, 152, 219) filling in for malformed components or
/// a malformed string; alpha is always opaque.
pub open spec fn color_spec(s: Seq<char>) -> Color {
    if s.len() == 7 && s[0] == '#' {
        Color {
            r: hex_byte(s[1], s[2], 52) as u8,
            g: hex_byte(s[3], s[4], 152) as u8,
            b: hex_byte(s[5], s[6], 219) as u8,
            a: 255,
        }
    } else {
        Color { r: 52, g: 152, b: 219, a: 255 }
    }
}

/// One hex digit's value, or 255 as the "bad digit" marker.
fn hex_digit(c: char) -> (v: u8)
    ensures
        hex_val(c) >= 0 ==> v as int == hex_val(c),
        hex_val(c) < 0 ==> v == 255,
{
    if '0' <= c && c <= '9' {
        (c as u8) - ('0' as u8)
    } else if 'a' <= c && c <= 'f' {
        (c as u8) - ('a' as u8) + 10
    } else if 'A' <= c && c <= 'F' {
        (c as u8) - ('A' as u8) + 10
    } else {
        255
    }
}

fn hex_byte_exec(h: char, l: char, fallback: u8) -> (v: u8)
    ensures
        v as int == hex_byte(h, l, fallback as int),
{
    let hv = hex_digit(h);
    let lv = hex_digit(l);
    if hv != 255 && lv != 255 {
        16 * hv + lv
    } else {
        fallback
    }
}

/// Parse a "#RRGGBB" string into an opaque [`Color`], falling back to the
/// default pen color for anything malformed.
pub fn parse_color(color_str: &str) -> (c: Color)
    ensures
        c == color_spec(color_str@),
{
    let n = color_str.unicode_len();
    if n != 7 {
        return Color { r: 52, g: 152, b: 219, a: 255 };
    }
    let c0 = color_str.get_char(0);
    if c0 != '#' {
        return Color { r: 52, g: 152, b: 219, a: 255 };
    }
    Color {
        r: hex_byte_exec(color_str.get_char(1), color_str.get_char(2), 52),
        g: hex_byte_exec(color_str.get_char(3), color_str.get_char(4), 152),
        b: hex_byte_exec(color_str.get_char(5), color_str.get_char(6), 219),
        a: 255,
    }
}

} // verus!
