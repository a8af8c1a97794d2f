use vstd::prelude::*;
use crate::canvas_layer::CanvasLayer;
use crate::data_types::{Color, PixelPos};

verus! {

/// The share of the bottom colour that survives under a top colour of alpha
/// `top_alpha`: the bottom's own alpha, capped so that both together never
/// exceed full coverage.
pub open spec fn capped_alpha(top_alpha: u8, bottom_alpha: u8) -> int {
    if top_alpha + bottom_alpha >= 255 {
        255 - top_alpha
    } else {
        bottom_alpha as int
    }
}

/// One channel of "top over bottom": both channels weighted by their
/// coverage, out of 255, rounded down.
pub open spec fn over_channel(top: u8, top_alpha: u8, bottom: u8, bottom_alpha: u8) -> int {
    (top * top_alpha + bottom * capped_alpha(top_alpha, bottom_alpha)) / 255
}

/// "Top over bottom" for straight-alpha colours, in exact integer arithmetic.
pub open spec fn composite_over(top: Color, bottom: Color) -> Color {
    Color {
        red: over_channel(top.red, top.alpha, bottom.red, bottom.alpha) as u8,
        green: over_channel(top.green, top.alpha, bottom.green, bottom.alpha) as u8,
        blue: over_channel(top.blue, top.alpha, bottom.blue, bottom.alpha) as u8,
        alpha: (top.alpha + capped_alpha(top.alpha, bottom.alpha)) as u8,
    }
}

/// The weighted sum behind a composited channel fits in 16 bits and its
/// quotient is again a channel value.
pub proof fn lemma_over_channel_bounds(top: u8, top_alpha: u8, bottom: u8, bottom_alpha: u8)
    ensures
        0 <= capped_alpha(top_alpha, bottom_alpha) <= 255 - top_alpha,
        0 <= top * top_alpha + bottom * capped_alpha(top_alpha, bottom_alpha) <= 255 * 255,
        0 <= over_channel(top, top_alpha, bottom, bottom_alpha) <= 255,
{
    let kept = capped_alpha(top_alpha, bottom_alpha);
    assert(0 <= top * top_alpha <= 255 * top_alpha) by (nonlinear_arith)
        requires
            0 <= top <= 255,
            0 <= top_alpha,
    ;
    assert(0 <= bottom * kept <= 255 * kept) by (nonlinear_arith)
        requires
            0 <= bottom <= 255,
            0 <= kept,
    ;
}

/// Applies `color_a` over `color_b`.
pub fn pixel_overlap(color_a: Color, color_b: Color) -> (result: Color)
    ensures
        result == composite_over(color_a, color_b),
{
    let alpha_a: u32 = color_a.alpha as u32;
    let mut alpha_b: u32 = color_b.alpha as u32;
    if alpha_a + alpha_b >= 255 {
        alpha_b = 255 - alpha_a;
    }
    proof {
        lemma_over_channel_bounds(color_a.red, color_a.alpha, color_b.red, color_b.alpha);
        lemma_over_channel_bounds(color_a.green, color_a.alpha, color_b.green, color_b.alpha);
        lemma_over_channel_bounds(color_a.blue, color_a.alpha, color_b.blue, color_b.alpha);
    }
    let x: u32 = (color_a.red as u32 * alpha_a + color_b.red as u32 * alpha_b) / 255;
    let y: u32 = (color_a.green as u32 * alpha_a + color_b.green as u32 * alpha_b) / 255;
    let z: u32 = (color_a.blue as u32 * alpha_a + color_b.blue as u32 * alpha_b) / 255;
    let w: u32 = alpha_a + alpha_b;
    Color::new(x as u8, y as u8, z as u8, w as u8)
}

/// A fully opaque colour hides whatever lies under it.
pub proof fn lemma_opaque_top_wins(top: Color, bottom: Color)
    requires
        top.alpha == 255,
    ensures
        composite_over(top, bottom) == top,
{
}

/// Whether a colour survives unchanged under a top colour without coverage:
/// it is opaque, or all its colour channels are zero.
pub open spec fn keeps_under_clear_top(bottom: Color) -> bool {
    bottom.alpha == 255 || (bottom.red == 0 && bottom.green == 0 && bottom.blue == 0)
}

/// A top colour without coverage leaves an opaque bottom colour, and one
/// that carries no colour, as it is.
pub proof fn lemma_clear_top_keeps_bottom(top: Color, bottom: Color)
    requires
        top.alpha == 0,
        keeps_under_clear_top(bottom),
    ensures
        composite_over(top, bottom) == bottom,
{
    lemma_scaled_channel(bottom.red, bottom.alpha);
    lemma_scaled_channel(bottom.green, bottom.alpha);
    lemma_scaled_channel(bottom.blue, bottom.alpha);
    assert(top.red * 0 == 0 && top.green * 0 == 0 && top.blue * 0 == 0);
}

/// A top colour without coverage still changes a translucent bottom colour
/// that carries colour: the bottom's channels are weighted by its own
/// alpha, which scales them down.
pub proof fn lemma_clear_top_dims_translucent_bottom(top: Color, bottom: Color)
    requires
        top.alpha == 0,
        !keeps_under_clear_top(bottom),
    ensures
        composite_over(top, bottom) != bottom,
        composite_over(top, bottom).alpha == bottom.alpha,
{
    lemma_scaled_channel(bottom.red, bottom.alpha);
    lemma_scaled_channel(bottom.green, bottom.alpha);
    lemma_scaled_channel(bottom.blue, bottom.alpha);
    assert(top.red * 0 == 0 && top.green * 0 == 0 && top.blue * 0 == 0);
}

/// A channel weighted by an alpha keeps its value only if the alpha is full
/// or the channel is zero.
proof fn lemma_scaled_channel(channel: u8, alpha: u8)
    ensures
        (channel * alpha) / 255 == channel <==> (alpha == 255 || channel == 0),
        0 <= (channel * alpha) / 255 <= 255,
{
    assert(0 <= channel * alpha <= 255 * 255) by (nonlinear_arith)
        requires
            0 <= channel <= 255,
            0 <= alpha <= 255,
    ;
    if alpha == 255 {
        assert(channel * 255 / 255 == channel);
    } else if channel == 0 {
        assert(channel * alpha == 0);
    } else {
        assert(channel * alpha < channel * 255) by (nonlinear_arith)
            requires
                0 < channel,
                0 <= alpha < 255,
        ;
    }
}

/// The coverage of "top over bottom" when the bottom's share is rounded to
/// the nearest 255th: the top's alpha plus what the top leaves open of the
/// bottom's.
pub open spec fn blended_alpha(top_alpha: u8, bottom_alpha: u8) -> int {
    top_alpha + ((255 - top_alpha) * bottom_alpha + 127) / 255
}

/// One channel of a blend of the given coverage: the top's channel weighted
/// by its alpha, plus the bottom's weighted by what the top leaves open of
/// the bottom's alpha, plus 127, divided by the coverage.
pub open spec fn blended_channel(
    top: u8,
    top_alpha: u8,
    bottom: u8,
    bottom_alpha: u8,
    coverage: int,
) -> int {
    (top * top_alpha + (255 - top_alpha) * bottom * bottom_alpha / 255 + 127) / coverage
}

/// "Top over bottom" with the channels divided by the combined coverage.
/// Without coverage the result is transparent black. A channel is stored as
/// the low byte of its quotient, which can pass 255 where the coverage is
/// small.
pub open spec fn blended(top: Color, bottom: Color) -> Color {
    let coverage = blended_alpha(top.alpha, bottom.alpha);
    if coverage == 0 {
        Color::transparent()
    } else {
        Color {
            red: (blended_channel(top.red, top.alpha, bottom.red, bottom.alpha, coverage)
                % 256) as u8,
            green: (blended_channel(top.green, top.alpha, bottom.green, bottom.alpha, coverage)
                % 256) as u8,
            blue: (blended_channel(top.blue, top.alpha, bottom.blue, bottom.alpha, coverage)
                % 256) as u8,
            alpha: coverage as u8,
        }
    }
}

/// The combined coverage is an alpha value, and the sum behind a blended
/// channel stays far inside 32 bits.
pub proof fn lemma_blended_bounds(top: u8, top_alpha: u8, bottom: u8, bottom_alpha: u8)
    ensures
        0 <= (255 - top_alpha) * bottom_alpha + 127 <= 255 * 255 + 127,
        top_alpha <= blended_alpha(top_alpha, bottom_alpha) <= 255,
        0 <= top * top_alpha <= 255 * 255,
        0 <= (255 - top_alpha) * bottom <= 255 * 255,
        0 <= (255 - top_alpha) * bottom * bottom_alpha <= 255 * 255 * 255,
        0 <= (255 - top_alpha) * bottom * bottom_alpha / 255 <= 255 * 255,
{
    let open = 255 - top_alpha;
    assert(0 <= open * bottom_alpha <= open * 255) by (nonlinear_arith)
        requires
            0 <= open,
            0 <= bottom_alpha <= 255,
    ;
    assert(0 <= top * top_alpha <= 255 * 255) by (nonlinear_arith)
        requires
            0 <= top <= 255,
            0 <= top_alpha <= 255,
    ;
    assert(0 <= open * bottom <= 255 * 255) by (nonlinear_arith)
        requires
            0 <= open <= 255,
            0 <= bottom <= 255,
    ;
    assert(0 <= open * bottom * bottom_alpha <= 255 * 255 * 255) by (nonlinear_arith)
        requires
            0 <= open * bottom <= 255 * 255,
            0 <= bottom_alpha <= 255,
    ;
}

/// An opaque top colour comes out of a blend as it went in.
pub proof fn lemma_blend_opaque_top(top: Color, bottom: Color)
    requires
        top.alpha == 255,
    ensures
        blended(top, bottom) == top,
{
    assert(0 * bottom.alpha == 0);
    assert(0 * bottom.red * bottom.alpha == 0 && 0 * bottom.green * bottom.alpha == 0 && 0
        * bottom.blue * bottom.alpha == 0) by (nonlinear_arith);
    assert(blended_alpha(top.alpha, bottom.alpha) == 255);
    assert((top.red * 255 + 127) / 255 == top.red);
    assert((top.green * 255 + 127) / 255 == top.green);
    assert((top.blue * 255 + 127) / 255 == top.blue);
}

/// Blends `top` over `bottom`, dividing the channels by the combined coverage.
pub fn blend_color(top: Color, bottom: Color) -> (result: Color)
    ensures
        result == blended(top, bottom),
{
    proof {
        lemma_blended_bounds(top.red, top.alpha, bottom.red, bottom.alpha);
        lemma_blended_bounds(top.green, top.alpha, bottom.green, bottom.alpha);
        lemma_blended_bounds(top.blue, top.alpha, bottom.blue, bottom.alpha);
    }
    let top_alpha: u32 = top.alpha as u32;
    let bottom_alpha: u32 = bottom.alpha as u32;
    let combined_alpha: u32 = top_alpha + ((255 - top_alpha) * bottom_alpha + 127) / 255;

    if combined_alpha == 0 {
        return Color { red: 0, green: 0, blue: 0, alpha: 0 };
    }
    let red: u32 = (top.red as u32 * top_alpha + (255 - top_alpha) * bottom.red as u32
        * bottom_alpha / 255 + 127) / combined_alpha;
    let green: u32 = (top.green as u32 * top_alpha + (255 - top_alpha) * bottom.green as u32
        * bottom_alpha / 255 + 127) / combined_alpha;
    let blue: u32 = (top.blue as u32 * top_alpha + (255 - top_alpha) * bottom.blue as u32
        * bottom_alpha / 255 + 127) / combined_alpha;
    Color {
        red: (red % 256) as u8,
        green: (green % 256) as u8,
        blue: (blue % 256) as u8,
        alpha: combined_alpha as u8,
    }
}

/// The colour of a checkerboard at a pixel: tiles are `grid_len` pixels wide
/// and high, and the parity of the tile's column plus row picks the colour.
pub open spec fn checkers_color(
    pixel_pos: PixelPos,
    grid_len: usize,
    square_color_a: Color,
    square_color_b: Color,
) -> Color {
    let column = pixel_pos.x as int / grid_len as int;
    let row = pixel_pos.y as int / grid_len as int;
    if (column + row) % 2 == 0 {
        square_color_a
    } else {
        square_color_b
    }
}

/// The checkerboard colour at a pixel; a function of the position alone.
pub fn checkers_pattern(
    pixel_pos: PixelPos,
    grid_len: usize,
    square_color_a: Color,
    square_color_b: Color,
) -> (color: Color)
    requires
        grid_len > 0,
    ensures
        color == checkers_color(pixel_pos, grid_len, square_color_a, square_color_b),
{
    let x: usize = pixel_pos.x as usize;
    let y: usize = pixel_pos.y as usize;
    if (x / grid_len) % 2 == 0 {
        if (y / grid_len) % 2 == 0 {
            square_color_a
        } else {
            square_color_b
        }
    } else if (y / grid_len) % 2 == 0 {
        square_color_b
    } else {
        square_color_a
    }
}

/// The distance between two coordinates.
pub open spec fn span(a: int, b: int) -> int {
    if a >= b {
        a - b
    } else {
        b - a
    }
}

/// Whether a line runs further vertically than horizontally, so that it is
/// walked along the y axis.
pub open spec fn line_is_steep(start: PixelPos, end: PixelPos) -> bool {
    span(start.x as int, end.x as int) < span(start.y as int, end.y as int)
}

/// How many pixels a line has moved across its minor axis after `i` steps
/// along its major axis, for a line `along` pixels long and `across` pixels
/// wide: `i * across / along` rounded to the nearest integer, a tie going down.
pub open spec fn minor_steps(i: int, along: int, across: int) -> int {
    if along == 0 {
        0
    } else {
        (2 * across * i + along - 1) / (2 * along)
    }
}

/// A line in the frame in which it is walked: from `(from_major, from_minor)`
/// in steps of one along the major axis up to `(to_major, to_minor)`.
pub struct WalkedLine {
    pub steep: bool,
    pub from_major: int,
    pub from_minor: int,
    pub to_major: int,
    pub to_minor: int,
}

impl WalkedLine {
    /// The number of steps along the major axis.
    pub open spec fn along(self) -> int {
        self.to_major - self.from_major
    }

    /// The number of pixels crossed on the minor axis.
    pub open spec fn across(self) -> int {
        span(self.to_minor, self.from_minor)
    }

    /// The direction on the minor axis.
    pub open spec fn direction(self) -> int {
        if self.to_minor > self.from_minor {
            1
        } else {
            -1
        }
    }

    /// The pixel reached after `i` steps.
    pub open spec fn point(self, i: int) -> PixelPos {
        let major = self.from_major + i;
        let minor = self.from_minor + self.direction() * minor_steps(i, self.along(), self.across());
        if self.steep {
            PixelPos { x: minor as u32, y: major as u32 }
        } else {
            PixelPos { x: major as u32, y: minor as u32 }
        }
    }
}

/// The frame in which the line between two pixels is walked: along the axis
/// on which the pixels lie further apart, from the smaller coordinate to the
/// larger one.
pub open spec fn walked_line(start: PixelPos, end: PixelPos) -> WalkedLine {
    let steep = line_is_steep(start, end);
    let (a_major, a_minor) = if steep {
        (start.y as int, start.x as int)
    } else {
        (start.x as int, start.y as int)
    };
    let (b_major, b_minor) = if steep {
        (end.y as int, end.x as int)
    } else {
        (end.x as int, end.y as int)
    };
    if a_major > b_major {
        WalkedLine {
            steep,
            from_major: b_major,
            from_minor: b_minor,
            to_major: a_major,
            to_minor: a_minor,
        }
    } else {
        WalkedLine {
            steep,
            from_major: a_major,
            from_minor: a_minor,
            to_major: b_major,
            to_minor: b_minor,
        }
    }
}

/// The pixels of the straight line between two pixels, both included: one
/// pixel for every coordinate on the major axis, in ascending order of it.
pub open spec fn line_points(start: PixelPos, end: PixelPos) -> Seq<PixelPos> {
    let line = walked_line(start, end);
    Seq::new((line.along() + 1) as nat, |i: int| line.point(i))
}

/// How the minor axis advances from one step to the next. With the error
/// term `2 * across * i - 2 * along * minor_steps(i)` kept in
/// `(-along, along]`, the next step moves across exactly when adding
/// `2 * across` takes the error above `along`.
pub proof fn lemma_minor_steps_next(i: int, along: int, across: int)
    requires
        0 <= i,
        0 <= across <= along,
        0 < along,
    ensures
        minor_steps(0, along, across) == 0,
        ({
            let error = 2 * across * i - 2 * along * minor_steps(i, along, across);
            &&& -along < error <= along
            &&& minor_steps(i + 1, along, across) == minor_steps(i, along, across) + if error + 2
                * across > along {
                1int
            } else {
                0int
            }
        }),
        0 <= minor_steps(i, along, across),
        i <= along ==> minor_steps(i, along, across) <= across,
        i == along ==> minor_steps(i, along, across) == across,
{
    let d = 2 * along;
    let n = 2 * across * i + along - 1;
    let k = n / d;
    let r = n % d;
    vstd::arithmetic::div_mod::lemma_fundamental_div_mod(n, d);
    assert(0 <= r < d);
    assert(d * k == k * d) by (nonlinear_arith);
    assert(n == k * d + r);
    let error = 2 * across * i - d * k;
    assert(error == r - along + 1);
    assert(0 <= 2 * across * i) by (nonlinear_arith)
        requires
            0 <= across,
            0 <= i,
    ;
    vstd::arithmetic::div_mod::lemma_fundamental_div_mod_converse(along - 1, d, 0, along - 1);
    let n_next = 2 * across * (i + 1) + along - 1;
    assert(2 * across * (i + 1) == 2 * across * i + 2 * across) by (nonlinear_arith);
    assert(n_next == n + 2 * across);
    if error + 2 * across > along {
        assert(n_next == (k + 1) * d + (r + 2 * across - d)) by (nonlinear_arith)
            requires
                n_next == n + 2 * across,
                n == k * d + r,
        ;
        vstd::arithmetic::div_mod::lemma_fundamental_div_mod_converse(
            n_next,
            d,
            k + 1,
            r + 2 * across - d,
        );
    } else {
        assert(n_next == k * d + (r + 2 * across));
        vstd::arithmetic::div_mod::lemma_fundamental_div_mod_converse(n_next, d, k, r + 2 * across);
    }
    assert(k >= 0) by (nonlinear_arith)
        requires
            n == k * d + r,
            0 <= r < d,
            n >= 0,
            d > 0,
    ;
    if i <= along {
        assert(2 * across * i <= 2 * across * along) by (nonlinear_arith)
            requires
                0 <= across,
                0 <= i <= along,
        ;
        assert(k <= across) by (nonlinear_arith)
            requires
                n == k * d + r,
                0 <= r,
                n <= 2 * across * along + along - 1,
                d == 2 * along,
                along > 0,
        ;
    }
    if i == along {
        assert(n == across * d + (along - 1)) by (nonlinear_arith)
            requires
                n == 2 * across * i + along - 1,
                i == along,
                d == 2 * along,
        ;
        vstd::arithmetic::div_mod::lemma_fundamental_div_mod_converse(n, d, across, along - 1);
    }
}

/// The walking frame of a line: the major axis is the longer one, and every
/// coordinate of the frame is a pixel coordinate.
pub proof fn lemma_walked_line(start: PixelPos, end: PixelPos)
    ensures
        ({
            let line = walked_line(start, end);
            &&& 0 <= line.across() <= line.along() <= u32::MAX
            &&& 0 <= line.from_major <= line.to_major <= u32::MAX
            &&& 0 <= line.from_minor <= u32::MAX
            &&& 0 <= line.to_minor <= u32::MAX
            &&& walked_line(end, start) == line
        }),
{
}

/// Every pixel of a line lies between the line's two ends on both axes.
pub proof fn lemma_line_point(start: PixelPos, end: PixelPos, i: int)
    requires
        0 <= i < line_points(start, end).len(),
    ensures
        ({
            let line = walked_line(start, end);
            let p = line_points(start, end)[i];
            let steps = minor_steps(i, line.along(), line.across());
            &&& 0 <= steps <= line.across()
            &&& p == line.point(i)
            &&& (if line.steep {
                p.y
            } else {
                p.x
            }) == line.from_major + i
            &&& (if line.steep {
                p.x
            } else {
                p.y
            }) == line.from_minor + line.direction() * steps
            &&& (start.x <= p.x <= end.x || end.x <= p.x <= start.x)
            &&& (start.y <= p.y <= end.y || end.y <= p.y <= start.y)
        }),
{
    let line = walked_line(start, end);
    lemma_walked_line(start, end);
    if line.along() > 0 {
        lemma_minor_steps_next(i, line.along(), line.across());
    }
    let steps = minor_steps(i, line.along(), line.across());
    assert(line.direction() * steps == if line.direction() == 1 {
        steps
    } else {
        -steps
    }) by (nonlinear_arith)
        requires
            line.direction() == 1 || line.direction() == -1,
    ;
}

/// A line has one pixel more than its two ends lie apart on the axis on
/// which they lie further apart.
pub proof fn lemma_line_length(start: PixelPos, end: PixelPos)
    ensures
        line_points(start, end).len() == 1 + if line_is_steep(start, end) {
            span(start.y as int, end.y as int)
        } else {
            span(start.x as int, end.x as int)
        },
{
}

/// A line from a pixel to itself is that one pixel.
pub proof fn lemma_line_single_point(p: PixelPos)
    ensures
        line_points(p, p) == seq![p],
{
    lemma_line_point(p, p, 0);
    assert(line_points(p, p) =~= seq![p]);
}

/// A line starts and ends at its two ends: the first and the last pixel are
/// `start` and `end`, in the order of the major axis.
pub proof fn lemma_line_ends(start: PixelPos, end: PixelPos)
    ensures
        line_points(start, end).len() >= 1,
        line_points(start, end).contains(start),
        line_points(start, end).contains(end),
        ({
            let points = line_points(start, end);
            (points.first() == start && points.last() == end) || (points.first() == end
                && points.last() == start)
        }),
{
    let line = walked_line(start, end);
    let points = line_points(start, end);
    lemma_walked_line(start, end);
    lemma_line_point(start, end, 0);
    lemma_line_point(start, end, line.along());
    if line.along() > 0 {
        lemma_minor_steps_next(0, line.along(), line.across());
        lemma_minor_steps_next(line.along(), line.along(), line.across());
    }
    let across = line.across();
    assert(line.direction() * across == if line.direction() == 1 {
        across
    } else {
        -across
    }) by (nonlinear_arith)
        requires
            line.direction() == 1 || line.direction() == -1,
    ;
    assert(line.direction() * 0 == 0);
    assert(points[0] == points.first());
    assert(points[line.along()] == points.last());
}

/// A line has no gaps: from one pixel to the next, each coordinate changes
/// by at most one.
pub proof fn lemma_line_connected(start: PixelPos, end: PixelPos, i: int)
    requires
        0 <= i,
        i + 1 < line_points(start, end).len(),
    ensures
        span(line_points(start, end)[i].x as int, line_points(start, end)[i + 1].x as int) <= 1,
        span(line_points(start, end)[i].y as int, line_points(start, end)[i + 1].y as int) <= 1,
{
    let line = walked_line(start, end);
    lemma_line_point(start, end, i);
    lemma_line_point(start, end, i + 1);
    lemma_minor_steps_next(i, line.along(), line.across());
    let here = minor_steps(i, line.along(), line.across());
    let next = minor_steps(i + 1, line.along(), line.across());
    assert(line.direction() * next - line.direction() * here == line.direction() * (next - here))
        by (nonlinear_arith);
    assert(-1 <= line.direction() * (next - here) <= 1) by (nonlinear_arith)
        requires
            line.direction() == 1 || line.direction() == -1,
            0 <= next - here <= 1,
    ;
}

/// A line is the same pixels in the same order, whichever end it is drawn from.
pub proof fn lemma_line_reversed(start: PixelPos, end: PixelPos)
    ensures
        line_points(end, start) == line_points(start, end),
        line_points(end, start).to_set() == line_points(start, end).to_set(),
{
    lemma_walked_line(start, end);
    assert(line_points(end, start) =~= line_points(start, end));
}

/// No pixel occurs twice on a line.
pub proof fn lemma_line_distinct(start: PixelPos, end: PixelPos, i: int, j: int)
    requires
        0 <= i < j < line_points(start, end).len(),
    ensures
        line_points(start, end)[i] != line_points(start, end)[j],
{
    lemma_line_point(start, end, i);
    lemma_line_point(start, end, j);
}

/// A line between two pixels of a frame stays inside the frame.
pub proof fn lemma_line_within(start: PixelPos, end: PixelPos, size: (u32, u32), i: int)
    requires
        start.within(size),
        end.within(size),
        0 <= i < line_points(start, end).len(),
    ensures
        line_points(start, end)[i].within(size),
{
    lemma_line_point(start, end, i);
}

/// Rasterizes the straight line between two pixels, both included, with
/// Bresenham's integer algorithm.
pub fn rasterize_line(start: PixelPos, end: PixelPos) -> (result: Vec<PixelPos>)
    ensures
        result@ == line_points(start, end),
{
    let mut x0: i64 = start.x as i64;
    let mut y0: i64 = start.y as i64;
    let mut x1: i64 = end.x as i64;
    let mut y1: i64 = end.y as i64;
    let wide: i64 = if x0 >= x1 { x0 - x1 } else { x1 - x0 };
    let tall: i64 = if y0 >= y1 { y0 - y1 } else { y1 - y0 };
    let steep: bool = wide < tall;
    if steep {
        let t0: i64 = x0;
        x0 = y0;
        y0 = t0;
        let t1: i64 = x1;
        x1 = y1;
        y1 = t1;
    }
    if x0 > x1 {
        let tx: i64 = x0;
        x0 = x1;
        x1 = tx;
        let ty: i64 = y0;
        y0 = y1;
        y1 = ty;
    }
    let ghost line = walked_line(start, end);
    proof {
        lemma_walked_line(start, end);
        assert(line.steep == steep && line.from_major == x0 && line.from_minor == y0
            && line.to_major == x1 && line.to_minor == y1);
    }
    let dx: i64 = x1 - x0;
    let dy: i64 = y1 - y0;
    let derror2: i64 = if dy >= 0 { dy * 2 } else { -dy * 2 };
    let step: i64 = if y1 > y0 { 1 } else { -1 };
    let mut error2: i64 = 0;
    let mut y: i64 = y0;
    let mut x: i64 = x0;
    let mut result: Vec<PixelPos> = Vec::new();
    proof {
        if dx > 0 {
            lemma_minor_steps_next(0, dx as int, line.across());
        }
        assert(step * 0 == 0 && derror2 * 0 == 0 && 2 * dx * 0 == 0);
    }
    while x <= x1
        invariant
            line == walked_line(start, end),
            line.steep == steep,
            line.from_major == x0,
            line.from_minor == y0,
            line.to_major == x1,
            line.to_minor == y1,
            0 <= line.across() <= line.along() <= u32::MAX,
            0 <= x0 <= x1 <= u32::MAX,
            0 <= y0 <= u32::MAX,
            0 <= y1 <= u32::MAX,
            dx == line.along(),
            derror2 == 2 * line.across(),
            step == line.direction(),
            x0 <= x <= x1 + 1,
            result@.len() == x - x0,
            forall|i: int| 0 <= i < result@.len() ==> result@[i] == line.point(i),
            y == y0 + step * minor_steps(x - x0, dx as int, line.across()),
            error2 == derror2 * (x - x0) - 2 * dx * minor_steps(x - x0, dx as int, line.across()),
            -dx <= error2 <= dx,
            0 <= minor_steps(x - x0, dx as int, line.across()) <= line.across() + 1,
        decreases x1 + 1 - x,
    {
        let ghost i = x - x0;
        let ghost steps = minor_steps(i, dx as int, line.across());
        proof {
            if dx > 0 {
                lemma_minor_steps_next(i, dx as int, line.across());
            }
            assert(step * steps == if step == 1 {
                steps
            } else {
                -steps
            }) by (nonlinear_arith)
                requires
                    step == 1 || step == -1,
            ;
            assert(step * (steps + 1) == step * steps + step) by (nonlinear_arith);
            assert(2 * dx * (steps + 1) == 2 * dx * steps + 2 * dx) by (nonlinear_arith);
            assert(derror2 * (i + 1) == derror2 * i + derror2) by (nonlinear_arith);
        }
        if steep {
            result.push(PixelPos { x: y as u32, y: x as u32 });
        } else {
            result.push(PixelPos { x: x as u32, y: y as u32 });
        }
        error2 = error2 + derror2;
        if error2 > dx {
            y = y + step;
            error2 = error2 - dx * 2;
        }
        x = x + 1;
    }
    proof {
        assert(result@ =~= line_points(start, end));
    }
    result
}

/// The smaller of two coordinates.
pub open spec fn lower(a: u32, b: u32) -> u32 {
    if a <= b {
        a
    } else {
        b
    }
}

/// The larger of two coordinates.
pub open spec fn upper(a: u32, b: u32) -> u32 {
    if a <= b {
        b
    } else {
        a
    }
}

/// Whether a pixel lies in the axis-aligned box spanned by two corners,
/// borders included.
pub open spec fn in_rect(p: PixelPos, corner1: PixelPos, corner2: PixelPos) -> bool {
    &&& lower(corner1.x, corner2.x) <= p.x <= upper(corner1.x, corner2.x)
    &&& lower(corner1.y, corner2.y) <= p.y <= upper(corner1.y, corner2.y)
}

/// The number of pixel rows of the box spanned by two corners.
pub open spec fn rect_rows(corner1: PixelPos, corner2: PixelPos) -> int {
    upper(corner1.y, corner2.y) - lower(corner1.y, corner2.y) + 1
}

/// The number of pixel columns of the box spanned by two corners.
pub open spec fn rect_columns(corner1: PixelPos, corner2: PixelPos) -> int {
    upper(corner1.x, corner2.x) - lower(corner1.x, corner2.x) + 1
}

/// The pixels of the box spanned by two corners, column by column from the
/// left, each column from the top.
pub open spec fn rect_points(corner1: PixelPos, corner2: PixelPos) -> Seq<PixelPos> {
    let rows = rect_rows(corner1, corner2);
    Seq::new(
        (rect_columns(corner1, corner2) * rows) as nat,
        |i: int|
            PixelPos {
                x: (lower(corner1.x, corner2.x) + i / rows) as u32,
                y: (lower(corner1.y, corner2.y) + i % rows) as u32,
            },
    )
}

/// The place of a pixel of the box in the column-by-column walk.
pub proof fn lemma_rect_index(corner1: PixelPos, corner2: PixelPos, column: int, row: int)
    requires
        0 <= column < rect_columns(corner1, corner2),
        0 <= row < rect_rows(corner1, corner2),
    ensures
        ({
            let i = column * rect_rows(corner1, corner2) + row;
            &&& 0 <= i < rect_points(corner1, corner2).len()
            &&& rect_points(corner1, corner2)[i] == PixelPos {
                x: (lower(corner1.x, corner2.x) + column) as u32,
                y: (lower(corner1.y, corner2.y) + row) as u32,
            }
        }),
{
    let rows = rect_rows(corner1, corner2);
    let columns = rect_columns(corner1, corner2);
    let i = column * rows + row;
    assert(0 <= column * rows && column * rows + rows <= columns * rows) by (nonlinear_arith)
        requires
            0 <= column < columns,
            0 < rows,
    ;
    vstd::arithmetic::div_mod::lemma_fundamental_div_mod_converse(i, rows, column, row);
}

/// The walk of a box visits exactly the pixels of the box.
pub proof fn lemma_rect_points_cover(corner1: PixelPos, corner2: PixelPos, p: PixelPos)
    ensures
        rect_points(corner1, corner2).contains(p) <==> in_rect(p, corner1, corner2),
{
    let rows = rect_rows(corner1, corner2);
    let columns = rect_columns(corner1, corner2);
    let points = rect_points(corner1, corner2);
    if in_rect(p, corner1, corner2) {
        let column = p.x - lower(corner1.x, corner2.x);
        let row = p.y - lower(corner1.y, corner2.y);
        lemma_rect_index(corner1, corner2, column, row);
        assert(points[column * rows + row] == p);
    }
    if points.contains(p) {
        let i = choose|i: int| 0 <= i < points.len() && points[i] == p;
        vstd::arithmetic::div_mod::lemma_fundamental_div_mod(i, rows);
        assert(0 <= i % rows < rows);
        assert(0 <= i / rows < columns) by (nonlinear_arith)
            requires
                i == rows * (i / rows) + i % rows,
                0 <= i % rows < rows,
                0 <= i < columns * rows,
        ;
    }
}

/// The box spanned by two corners does not depend on their order.
pub proof fn lemma_rect_points_symmetric(corner1: PixelPos, corner2: PixelPos)
    ensures
        rect_points(corner2, corner1) == rect_points(corner1, corner2),
{
    assert(rect_points(corner2, corner1) =~= rect_points(corner1, corner2));
}

/// Every pixel of the axis-aligned box spanned by two corners, borders
/// included.
pub fn rasterize_rect(start: PixelPos, end: PixelPos) -> (result: Vec<PixelPos>)
    ensures
        result@ == rect_points(start, end),
{
    let x0: u64 = if start.x <= end.x { start.x as u64 } else { end.x as u64 };
    let x1: u64 = if start.x <= end.x { end.x as u64 } else { start.x as u64 };
    let y0: u64 = if start.y <= end.y { start.y as u64 } else { end.y as u64 };
    let y1: u64 = if start.y <= end.y { end.y as u64 } else { start.y as u64 };
    let ghost rows = rect_rows(start, end);
    let mut result: Vec<PixelPos> = Vec::new();
    let mut x: u64 = x0;
    while x <= x1
        invariant
            x0 == lower(start.x, end.x),
            x1 == upper(start.x, end.x),
            y0 == lower(start.y, end.y),
            y1 == upper(start.y, end.y),
            rows == rect_rows(start, end),
            x0 <= x <= x1 + 1,
            result@.len() == (x - x0) * rows,
            forall|i: int| 0 <= i < result@.len() ==> result@[i] == rect_points(start, end)[i],
        decreases x1 + 1 - x,
    {
        let mut y: u64 = y0;
        while y <= y1
            invariant
                x0 == lower(start.x, end.x),
                x1 == upper(start.x, end.x),
                y0 == lower(start.y, end.y),
                y1 == upper(start.y, end.y),
                rows == rect_rows(start, end),
                x0 <= x <= x1,
                y0 <= y <= y1 + 1,
                result@.len() == (x - x0) * rows + (y - y0),
                forall|i: int| 0 <= i < result@.len() ==> result@[i] == rect_points(start, end)[i],
            decreases y1 + 1 - y,
        {
            proof {
                lemma_rect_index(start, end, x - x0, y - y0);
            }
            result.push(PixelPos { x: x as u32, y: y as u32 });
            y = y + 1;
        }
        proof {
            assert((x - x0) * rows + rows == (x + 1 - x0) * rows) by (nonlinear_arith);
        }
        x = x + 1;
    }
    proof {
        assert((x1 + 1 - x0) * rows == rect_columns(start, end) * rows);
        assert(result@ =~= rect_points(start, end));
    }
    result
}

/// The patch that sets every pixel of a set to one colour.
pub open spec fn solid_patch(pixels: Set<PixelPos>, color: Color) -> Map<PixelPos, Color> {
    Map::new(|p: PixelPos| pixels.contains(p), |p: PixelPos| color)
}

/// The pixels of the box spanned by two corners.
pub open spec fn rect_set(corner1: PixelPos, corner2: PixelPos) -> Set<PixelPos> {
    Set::new(|p: PixelPos| in_rect(p, corner1, corner2))
}

/// Sets every pixel of a list to one colour.
pub fn paint_pixels<T: CanvasLayer + ?Sized>(canvas: &mut T, pixels: &Vec<PixelPos>, color: Color)
    requires
        forall|i: int| 0 <= i < pixels@.len() ==> old(canvas)@.contains(#[trigger] pixels@[i]),
    ensures
        final(canvas)@ == old(canvas)@.patched(solid_patch(pixels@.to_set(), color)),
{
    let ghost before = canvas@;
    proof {
        assert(before.patched(solid_patch(pixels@.take(0).to_set(), color)).pixels
            =~= before.pixels);
    }
    let mut i: usize = 0;
    while i < pixels.len()
        invariant
            i <= pixels.len(),
            forall|k: int| 0 <= k < pixels@.len() ==> before.contains(#[trigger] pixels@[k]),
            canvas@ == before.patched(solid_patch(pixels@.take(i as int).to_set(), color)),
        decreases pixels.len() - i,
    {
        let pixel = pixels[i];
        proof {
            let done = pixels@.take(i as int);
            let next = pixels@.take(i + 1);
            assert(next =~= done.push(pixel));
            assert forall|p: PixelPos| next.to_set().contains(p) <==> (done.to_set().contains(p)
                || p == pixel) by {
                if done.contains(p) {
                    let k = choose|k: int| 0 <= k < done.len() && done[k] == p;
                    assert(next[k] == p);
                }
                if p == pixel {
                    assert(next[i as int] == p);
                }
            }
            assert(before.patched(solid_patch(done.to_set(), color)).write(pixel, color).pixels
                =~= before.patched(solid_patch(next.to_set(), color)).pixels);
        }
        canvas.set_pixel(pixel, color);
        i = i + 1;
    }
    proof {
        assert(pixels@.take(pixels@.len() as int) =~= pixels@);
    }
}

/// Fills the box spanned by two corners of the layer with one colour.
pub fn draw_rect<T: CanvasLayer + ?Sized>(
    canvas: &mut T,
    start: PixelPos,
    end: PixelPos,
    color: Color,
)
    requires
        old(canvas)@.contains(start),
        old(canvas)@.contains(end),
    ensures
        final(canvas)@ == old(canvas)@.patched(solid_patch(rect_set(start, end), color)),
{
    let pixels = rasterize_rect(start, end);
    proof {
        assert forall|p: PixelPos| pixels@.to_set().contains(p) <==> rect_set(start, end).contains(
            p,
        ) by {
            lemma_rect_points_cover(start, end, p);
        }
        assert(pixels@.to_set() =~= rect_set(start, end));
        assert forall|i: int| 0 <= i < pixels@.len() implies old(canvas)@.contains(
            #[trigger] pixels@[i],
        ) by {
            assert(pixels@.contains(pixels@[i]));
            lemma_rect_points_cover(start, end, pixels@[i]);
        }
    }
    paint_pixels(canvas, &pixels, color);
}

/// The pixels of the box spanned by two corners that lie inside a frame of
/// the given size.
pub open spec fn rect_set_within(
    corner1: PixelPos,
    corner2: PixelPos,
    size: (u32, u32),
) -> Set<PixelPos> {
    Set::new(|p: PixelPos| in_rect(p, corner1, corner2) && p.within(size))
}

/// Fills with one colour what lies inside the layer's frame of the box
/// spanned by two corners; a box that misses the frame leaves the layer as
/// it is.
pub fn draw_rect_within<T: CanvasLayer + ?Sized>(
    canvas: &mut T,
    start: PixelPos,
    end: PixelPos,
    color: Color,
)
    ensures
        final(canvas)@ == old(canvas)@.patched(
            solid_patch(rect_set_within(start, end, old(canvas)@.size), color),
        ),
{
    let size = canvas.get_size();
    let x0: u32 = if start.x <= end.x { start.x } else { end.x };
    let x1: u32 = if start.x <= end.x { end.x } else { start.x };
    let y0: u32 = if start.y <= end.y { start.y } else { end.y };
    let y1: u32 = if start.y <= end.y { end.y } else { start.y };
    if x0 < size.0 && y0 < size.1 {
        let first = PixelPos { x: x0, y: y0 };
        let last = PixelPos {
            x: if x1 < size.0 { x1 } else { size.0 - 1 },
            y: if y1 < size.1 { y1 } else { size.1 - 1 },
        };
        proof {
            assert(rect_set(first, last) =~= rect_set_within(start, end, size));
        }
        draw_rect(canvas, first, last, color);
    } else {
        proof {
            assert(rect_set_within(start, end, size) =~= Set::empty());
            assert(canvas@.patched(solid_patch(Set::empty(), color)).pixels =~= canvas@.pixels);
        }
    }
}

/// Draws the straight line between two pixels of the layer in one colour.
pub fn draw_line<T: CanvasLayer + ?Sized>(
    canvas: &mut T,
    start: PixelPos,
    end: PixelPos,
    color: Color,
)
    requires
        old(canvas)@.contains(start),
        old(canvas)@.contains(end),
    ensures
        final(canvas)@ == old(canvas)@.patched(
            solid_patch(line_points(start, end).to_set(), color),
        ),
{
    let pixels = rasterize_line(start, end);
    proof {
        assert forall|i: int| 0 <= i < pixels@.len() implies old(canvas)@.contains(
            #[trigger] pixels@[i],
        ) by {
            lemma_line_within(start, end, old(canvas)@.size, i);
        }
    }
    paint_pixels(canvas, &pixels, color);
}

} // verus!
