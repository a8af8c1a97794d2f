use vstd::prelude::*;

verus! {

/// Which horizontal side of the old content stays in place when a layer is resized.
#[allow(non_camel_case_types)]
#[derive(Debug, Clone, Copy, PartialEq, Eq, Structural)]
pub enum SideHorizontal {
    center,
    left,
    right,
}

/// Which vertical side of the old content stays in place when a layer is resized.
#[allow(non_camel_case_types)]
#[derive(Debug, Clone, Copy, PartialEq, Eq, Structural)]
pub enum SideVertical {
    center,
    top,
    bottom,
}

/// An 8-bit RGBA colour with straight (unmultiplied) alpha:
/// alpha 0 is fully transparent, alpha 255 fully opaque.
#[derive(Debug, Clone, Copy, PartialEq, Eq, Structural)]
pub struct Color {
    pub red: u8,
    pub green: u8,
    pub blue: u8,
    pub alpha: u8,
}

/// One channel of a linear mix: `t` parts of `a` and `255 - t` parts of `b`,
/// out of 255, rounded down.
pub open spec fn mix_channel(a: u8, b: u8, t: u8) -> int {
    (a * t + b * (255 - t)) / 255
}

/// A mix of two channels never leaves the channel range.
pub proof fn lemma_mix_channel_bounds(a: u8, b: u8, t: u8)
    ensures
        0 <= a * t + b * (255 - t) <= 255 * 255,
        0 <= mix_channel(a, b, t) <= 255,
{
    assert(0 <= a * t <= 255 * t) by (nonlinear_arith)
        requires
            0 <= a <= 255,
            0 <= t,
    ;
    assert(0 <= b * (255 - t) <= 255 * (255 - t)) by (nonlinear_arith)
        requires
            0 <= b <= 255,
            0 <= 255 - t,
    ;
}

impl Color {
    /// The colour a sparse layer reads where nothing was painted.
    pub open spec fn transparent() -> Color {
        Color { red: 0, green: 0, blue: 0, alpha: 0 }
    }

    /// The fill of a freshly allocated dense layer: white with no coverage.
    pub open spec fn neutral() -> Color {
        Color { red: 255, green: 255, blue: 255, alpha: 0 }
    }

    /// Opaque white, the colour a dense layer is cleared to.
    pub open spec fn spec_white() -> Color {
        Color { red: 255, green: 255, blue: 255, alpha: 255 }
    }

    /// Opaque black.
    pub open spec fn spec_black() -> Color {
        Color { red: 0, green: 0, blue: 0, alpha: 255 }
    }

    /// The channel-wise mix of `self` (weight `t`) and `other` (weight `255 - t`).
    pub open spec fn spec_interpolate(self, other: Color, t: u8) -> Color {
        Color {
            red: mix_channel(self.red, other.red, t) as u8,
            green: mix_channel(self.green, other.green, t) as u8,
            blue: mix_channel(self.blue, other.blue, t) as u8,
            alpha: mix_channel(self.alpha, other.alpha, t) as u8,
        }
    }

    /// The colour as one word: red in the lowest byte, then green, blue and
    /// alpha.
    pub open spec fn packed(self) -> u32 {
        (self.red + self.green * 0x100 + self.blue * 0x1_0000 + self.alpha * 0x100_0000) as u32
    }

    /// The colour that a word stands for: red in the lowest byte, then
    /// green, blue and alpha.
    pub open spec fn unpacked(value: u32) -> Color {
        Color {
            red: (value % 0x100) as u8,
            green: (value / 0x100 % 0x100) as u8,
            blue: (value / 0x100 / 0x100 % 0x100) as u8,
            alpha: (value / 0x100 / 0x100 / 0x100) as u8,
        }
    }

    /// Unpacking a packed colour gives the colour back.
    pub proof fn lemma_unpack_packed(color: Color)
        ensures
            Color::unpacked(color.packed()) == color,
    {
        let high = color.blue + color.alpha * 0x100;
        let middle = color.green + high * 0x100;
        let value = color.red + middle * 0x100;
        assert(value == color.packed());
        vstd::arithmetic::div_mod::lemma_fundamental_div_mod_converse(
            value,
            0x100,
            middle,
            color.red as int,
        );
        vstd::arithmetic::div_mod::lemma_fundamental_div_mod_converse(
            middle,
            0x100,
            high,
            color.green as int,
        );
        vstd::arithmetic::div_mod::lemma_fundamental_div_mod_converse(
            high,
            0x100,
            color.alpha as int,
            color.blue as int,
        );
    }

    /// Packing the colour of a word gives the word back.
    pub proof fn lemma_pack_unpacked(value: u32)
        ensures
            Color::unpacked(value).packed() == value,
    {
        let middle = value as int / 0x100;
        let high = middle / 0x100;
        vstd::arithmetic::div_mod::lemma_fundamental_div_mod(value as int, 0x100);
        vstd::arithmetic::div_mod::lemma_fundamental_div_mod(middle, 0x100);
        vstd::arithmetic::div_mod::lemma_fundamental_div_mod(high, 0x100);
    }

    pub fn new(r: u8, g: u8, b: u8, a: u8) -> (c: Color)
        ensures
            c == (Color { red: r, green: g, blue: b, alpha: a }),
    {
        Color { red: r, green: g, blue: b, alpha: a }
    }

    /// Mixes `self` and `other` in integer arithmetic: `t == 255` gives `self`,
    /// `t == 0` gives `other`.
    pub fn interpolate(&self, other: &Color, t: u8) -> (c: Color)
        ensures
            c == self.spec_interpolate(*other, t),
    {
        Color {
            red: mix_u8(self.red, other.red, t),
            green: mix_u8(self.green, other.green, t),
            blue: mix_u8(self.blue, other.blue, t),
            alpha: mix_u8(self.alpha, other.alpha, t),
        }
    }

    /// Packs the colour into one word.
    pub fn to(&self) -> (value: u32)
        ensures
            value == self.packed(),
    {
        self.red as u32 + self.green as u32 * 0x100 + self.blue as u32 * 0x1_0000
            + self.alpha as u32 * 0x100_0000
    }

    /// The colour packed in a word.
    pub fn from(value: u32) -> (c: Color)
        ensures
            c == Color::unpacked(value),
    {
        Color {
            red: (value % 0x100) as u8,
            green: (value / 0x100 % 0x100) as u8,
            blue: (value / 0x100 / 0x100 % 0x100) as u8,
            alpha: (value / 0x100 / 0x100 / 0x100) as u8,
        }
    }

    pub fn white() -> (c: Color)
        ensures
            c == Color::spec_white(),
    {
        Color::new(255, 255, 255, 255)
    }

    pub fn black() -> (c: Color)
        ensures
            c == Color::spec_black(),
    {
        Color::new(0, 0, 0, 255)
    }
}

fn mix_u8(a: u8, b: u8, t: u8) -> (m: u8)
    ensures
        m == mix_channel(a, b, t),
{
    proof {
        lemma_mix_channel_bounds(a, b, t);
    }
    let weight: u32 = t as u32;
    let rest: u32 = 255 - weight;
    let total: u32 = a as u32 * weight + b as u32 * rest;
    (total / 255) as u8
}

/// An integer pixel coordinate; `x` grows to the right and `y` downwards.
#[derive(Debug, Clone, Copy, PartialEq, Eq, Hash, Structural)]
pub struct PixelPos {
    pub x: u32,
    pub y: u32,
}

impl Default for PixelPos {
    fn default() -> (p: PixelPos)
        ensures
            p == PixelPos::origin(),
    {
        PixelPos { x: 0, y: 0 }
    }
}

impl PixelPos {
    /// The top-left pixel.
    pub open spec fn origin() -> PixelPos {
        PixelPos { x: 0, y: 0 }
    }

    /// Whether the position lies inside a `size.0` by `size.1` pixel frame.
    pub open spec fn within(self, size: (u32, u32)) -> bool {
        self.x < size.0 && self.y < size.1
    }
}

/// What a stroke call is told about the pointer and the selected colours.
pub struct GlobalParams {
    pub primary_color: Color,
    pub secondary_color: Color,
    pub cursor_in_canvas: bool,
    /// The pixel under the pointer; `None` while the pointer is outside the canvas.
    pub current_pixel: Option<PixelPos>,
}

impl GlobalParams {
    /// The position a tool draws to: the pointer's pixel, or the origin
    /// while the pointer is away.
    pub open spec fn target(self) -> PixelPos {
        match self.current_pixel {
            Some(p) => p,
            None => PixelPos::origin(),
        }
    }

    pub fn new() -> (params: GlobalParams)
        ensures
            params.primary_color == Color::spec_black(),
            params.secondary_color == Color::spec_white(),
            !params.cursor_in_canvas,
            params.current_pixel is None,
    {
        GlobalParams {
            primary_color: Color::new(0, 0, 0, 255),
            secondary_color: Color::new(255, 255, 255, 255),
            cursor_in_canvas: false,
            current_pixel: None,
        }
    }

    /// The pixel under the pointer, or the origin while the pointer is away.
    pub fn target_pixel(&self) -> (p: PixelPos)
        ensures
            p == self.target(),
    {
        match self.current_pixel {
            Some(p) => p,
            None => PixelPos { x: 0, y: 0 },
        }
    }
}

} // verus!
