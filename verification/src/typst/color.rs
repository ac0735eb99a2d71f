//! Terminal colors and their RGB values in the exported document.
use vstd::prelude::*;

verus! {

/// A color as a terminal cell carries it: reset, one of the sixteen named
/// ANSI colors, an RGB triple or an index into the 256-color palette.
#[derive(Debug, Clone, Copy, PartialEq, Eq, Structural)]
pub enum TermColor {
    Reset,
    Black,
    Red,
    Green,
    Yellow,
    Blue,
    Magenta,
    Cyan,
    Gray,
    DarkGray,
    LightRed,
    LightGreen,
    LightYellow,
    LightBlue,
    LightMagenta,
    LightCyan,
    White,
    Rgb(u8, u8, u8),
    Indexed(u8),
}

/// A concrete RGB color.
#[derive(Debug, Clone, Copy, PartialEq, Eq, Structural)]
pub struct RgbColor {
    pub red: u8,
    pub green: u8,
    pub blue: u8,
}

pub open spec fn rgb(red: u8, green: u8, blue: u8) -> RgbColor {
    RgbColor { red, green, blue }
}

/// Text color used where neither the cell nor the options give one.
pub open spec fn default_text_color() -> RgbColor {
    rgb(220, 220, 220)
}

/// The sixteen standard ANSI colors, by palette index.
pub open spec fn standard_color(i: int) -> RgbColor {
    if i == 0 { rgb(0, 0, 0) }
    else if i == 1 { rgb(128, 0, 0) }
    else if i == 2 { rgb(0, 128, 0) }
    else if i == 3 { rgb(128, 128, 0) }
    else if i == 4 { rgb(0, 0, 128) }
    else if i == 5 { rgb(128, 0, 128) }
    else if i == 6 { rgb(0, 128, 128) }
    else if i == 7 { rgb(192, 192, 192) }
    else if i == 8 { rgb(128, 128, 128) }
    else if i == 9 { rgb(255, 0, 0) }
    else if i == 10 { rgb(0, 255, 0) }
    else if i == 11 { rgb(255, 255, 0) }
    else if i == 12 { rgb(0, 0, 255) }
    else if i == 13 { rgb(255, 0, 255) }
    else if i == 14 { rgb(0, 255, 255) }
    else { rgb(255, 255, 255) }
}

/// Intensity of level `k` (0 to 5) of the 6x6x6 color cube.
pub open spec fn cube_level(k: int) -> u8 {
    if k == 0 { 0 }
    else if k == 1 { 95 }
    else if k == 2 { 135 }
    else if k == 3 { 175 }
    else if k == 4 { 215 }
    else { 255 }
}

/// RGB value of an entry of the 256-color palette: the standard colors
/// below 16, the color cube from 16 to 231, a gray ramp from 232 on.
pub open spec fn indexed_rgb(index: u8) -> RgbColor {
    if index < 16 {
        standard_color(index as int)
    } else if index <= 231 {
        let c = index - 16;
        rgb(cube_level(c / 36), cube_level((c % 36) / 6), cube_level(c % 6))
    } else {
        let g = (8 + (index - 232) * 10) as u8;
        rgb(g, g, g)
    }
}

/// RGB value of a cell color; `None` for `Reset`.
pub open spec fn term_rgb(color: TermColor) -> Option<RgbColor> {
    match color {
        TermColor::Reset => None,
        TermColor::Black => Some(standard_color(0)),
        TermColor::Red => Some(standard_color(1)),
        TermColor::Green => Some(standard_color(2)),
        TermColor::Yellow => Some(standard_color(3)),
        TermColor::Blue => Some(standard_color(4)),
        TermColor::Magenta => Some(standard_color(5)),
        TermColor::Cyan => Some(standard_color(6)),
        TermColor::Gray => Some(standard_color(7)),
        TermColor::DarkGray => Some(standard_color(8)),
        TermColor::LightRed => Some(standard_color(9)),
        TermColor::LightGreen => Some(standard_color(10)),
        TermColor::LightYellow => Some(standard_color(11)),
        TermColor::LightBlue => Some(standard_color(12)),
        TermColor::LightMagenta => Some(standard_color(13)),
        TermColor::LightCyan => Some(standard_color(14)),
        TermColor::White => Some(standard_color(15)),
        TermColor::Rgb(r, g, b) => Some(rgb(r, g, b)),
        TermColor::Indexed(i) => Some(indexed_rgb(i)),
    }
}

/// The named colors in ANSI order: black, red, green, yellow, blue, magenta,
/// cyan, gray (white), then their bright forms.
pub open spec fn ansi_named(k: int) -> TermColor {
    seq![
        TermColor::Black, TermColor::Red, TermColor::Green, TermColor::Yellow, TermColor::Blue,
        TermColor::Magenta, TermColor::Cyan, TermColor::Gray, TermColor::DarkGray, TermColor::LightRed,
        TermColor::LightGreen, TermColor::LightYellow, TermColor::LightBlue, TermColor::LightMagenta,
        TermColor::LightCyan, TermColor::White,
    ][k]
}

/// A channel of the ANSI standard palette: on when bit `bit` (red 0, green 1,
/// blue 2) of the color's number is set, at 128 for the dim colors and 255
/// for the bright ones.
pub open spec fn ansi_channel(k: int, bit: int) -> u8 {
    let base = k % 8;
    let on = if bit == 0 { base % 2 == 1 } else if bit == 1 { (base / 2) % 2 == 1 } else { base / 4 == 1 };
    if on { if k < 8 { 128 } else { 255 } } else { 0 }
}

/// Every named color is the palette entry of its own ANSI number, and the
/// palette's first sixteen entries are the ANSI colors: each channel on by
/// the bits of the number (dim 128, bright 255), with light gray 192 and
/// dark gray 128 for numbers 7 and 8.
pub proof fn lemma_named_colors_are_ansi(k: int)
    requires
        0 <= k < 16,
    ensures
        term_rgb(ansi_named(k)) == term_rgb(TermColor::Indexed(k as u8)),
        k != 7 && k != 8 ==> term_rgb(ansi_named(k)) == Some(rgb(ansi_channel(k, 0), ansi_channel(k, 1), ansi_channel(k, 2))),
        k == 7 ==> term_rgb(ansi_named(k)) == Some(rgb(192, 192, 192)),
        k == 8 ==> term_rgb(ansi_named(k)) == Some(rgb(128, 128, 128)),
{
}

/// A cell color, with `Reset` standing for the given default.
pub open spec fn rgb_or_default(color: TermColor, default: TermColor) -> Option<RgbColor> {
    match color {
        TermColor::Reset => term_rgb(default),
        _ => term_rgb(color),
    }
}

fn standard_color_exec(i: u8) -> (c: RgbColor)
    requires
        i < 16,
    ensures
        c == standard_color(i as int),
{
    match i {
        0 => RgbColor { red: 0, green: 0, blue: 0 },
        1 => RgbColor { red: 128, green: 0, blue: 0 },
        2 => RgbColor { red: 0, green: 128, blue: 0 },
        3 => RgbColor { red: 128, green: 128, blue: 0 },
        4 => RgbColor { red: 0, green: 0, blue: 128 },
        5 => RgbColor { red: 128, green: 0, blue: 128 },
        6 => RgbColor { red: 0, green: 128, blue: 128 },
        7 => RgbColor { red: 192, green: 192, blue: 192 },
        8 => RgbColor { red: 128, green: 128, blue: 128 },
        9 => RgbColor { red: 255, green: 0, blue: 0 },
        10 => RgbColor { red: 0, green: 255, blue: 0 },
        11 => RgbColor { red: 255, green: 255, blue: 0 },
        12 => RgbColor { red: 0, green: 0, blue: 255 },
        13 => RgbColor { red: 255, green: 0, blue: 255 },
        14 => RgbColor { red: 0, green: 255, blue: 255 },
        _ => RgbColor { red: 255, green: 255, blue: 255 },
    }
}

fn cube_level_exec(k: u8) -> (v: u8)
    requires
        k < 6,
    ensures
        v == cube_level(k as int),
{
    match k {
        0 => 0,
        1 => 95,
        2 => 135,
        3 => 175,
        4 => 215,
        _ => 255,
    }
}

/// RGB value of an entry of the 256-color palette.
pub fn indexed_color_to_rgb(index: u8) -> (c: RgbColor)
    ensures
        c == indexed_rgb(index),
{
    if index < 16 {
        return standard_color_exec(index);
    }
    if index <= 231 {
        let cube_index = index - 16;
        let red_index = cube_index / 36;
        let green_index = (cube_index % 36) / 6;
        let blue_index = cube_index % 6;
        return RgbColor {
            red: cube_level_exec(red_index),
            green: cube_level_exec(green_index),
            blue: cube_level_exec(blue_index),
        };
    }
    let gray = 8 + (index - 232) * 10;
    RgbColor { red: gray, green: gray, blue: gray }
}

/// RGB value of a cell color; `None` for `Reset`.
pub fn color_to_rgb(color: TermColor) -> (r: Option<RgbColor>)
    ensures
        r == term_rgb(color),
{
    match color {
        TermColor::Reset => None,
        TermColor::Black => Some(standard_color_exec(0)),
        TermColor::Red => Some(standard_color_exec(1)),
        TermColor::Green => Some(standard_color_exec(2)),
        TermColor::Yellow => Some(standard_color_exec(3)),
        TermColor::Blue => Some(standard_color_exec(4)),
        TermColor::Magenta => Some(standard_color_exec(5)),
        TermColor::Cyan => Some(standard_color_exec(6)),
        TermColor::Gray => Some(standard_color_exec(7)),
        TermColor::DarkGray => Some(standard_color_exec(8)),
        TermColor::LightRed => Some(standard_color_exec(9)),
        TermColor::LightGreen => Some(standard_color_exec(10)),
        TermColor::LightYellow => Some(standard_color_exec(11)),
        TermColor::LightBlue => Some(standard_color_exec(12)),
        TermColor::LightMagenta => Some(standard_color_exec(13)),
        TermColor::LightCyan => Some(standard_color_exec(14)),
        TermColor::White => Some(standard_color_exec(15)),
        TermColor::Rgb(r, g, b) => Some(RgbColor { red: r, green: g, blue: b }),
        TermColor::Indexed(i) => Some(indexed_color_to_rgb(i)),
    }
}

/// RGB value of a cell color, with `Reset` standing for `default`.
pub fn color_or_default(color: TermColor, default: TermColor) -> (r: Option<RgbColor>)
    ensures
        r == rgb_or_default(color, default),
{
    match color {
        TermColor::Reset => color_to_rgb(default),
        _ => color_to_rgb(color),
    }
}

/// Lowercase hexadecimal digit of a value below 16.
pub open spec fn hex_digit(d: u8) -> char {
    if d < 10 { (('0' as u8) + d) as char } else { (('a' as u8) + d - 10) as char }
}

/// Two lowercase hexadecimal digits of a byte.
pub open spec fn hex_byte(b: u8) -> Seq<char> {
    seq![hex_digit(b / 16), hex_digit(b % 16)]
}

/// Typst expression for an RGB color: `rgb("#rrggbb")`.
pub open spec fn typst_rgb(c: RgbColor) -> Seq<char> {
    seq!['r', 'g', 'b', '(', '"', '#'] + hex_byte(c.red) + hex_byte(c.green) + hex_byte(c.blue)
        + seq!['"', ')']
}

fn hex_digit_exec(d: u8) -> (c: char)
    requires
        d < 16,
    ensures
        c == hex_digit(d),
{
    if d < 10 {
        (48u8 + d) as char
    } else {
        (87u8 + d) as char
    }
}

fn push_hex_byte(out: &mut Vec<char>, b: u8)
    ensures
        final(out)@ == old(out)@ + hex_byte(b),
{
    out.push(hex_digit_exec(b / 16));
    out.push(hex_digit_exec(b % 16));
    assert(final(out)@ =~= old(out)@ + hex_byte(b));
}

/// The Typst expression `rgb("#rrggbb")` for a color.
pub fn typst_color(color: RgbColor) -> (s: String)
    ensures
        s@ == typst_rgb(color),
{
    let mut v: Vec<char> = Vec::new();
    v.push('r');
    v.push('g');
    v.push('b');
    v.push('(');
    v.push('"');
    v.push('#');
    push_hex_byte(&mut v, color.red);
    push_hex_byte(&mut v, color.green);
    push_hex_byte(&mut v, color.blue);
    v.push('"');
    v.push(')');
    assert(v@ =~= typst_rgb(color));
    crate::text::string_of(v.as_slice())
}

} // verus!
