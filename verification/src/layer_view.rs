use vstd::prelude::*;
use crate::data_types::{Color, PixelPos, SideHorizontal, SideVertical};
use crate::utils::composite_over;

verus! {

/// The mathematical content of a layer: its frame, its storage kind, and the
/// colour of every pixel it defines.
///
/// A dense layer defines every pixel of its frame. A sparse layer defines only
/// the pixels that were painted; all others read as transparent.
pub struct LayerView {
    /// Width and height in pixels.
    pub size: (u32, u32),
    /// Whether the layer stores its whole frame.
    pub dense: bool,
    /// The colours of the defined pixels.
    pub pixels: Map<PixelPos, Color>,
}

/// Half of a signed distance, rounded towards zero.
pub open spec fn half_toward_zero(d: int) -> int {
    if d >= 0 {
        d / 2
    } else {
        -((-d) / 2)
    }
}

/// How far old content moves to the right when the width changes from
/// `old_width` to `new_width` and the given side stays in place.
pub open spec fn horizontal_offset(old_width: u32, new_width: u32, keep: SideHorizontal) -> int {
    match keep {
        SideHorizontal::left => 0,
        SideHorizontal::center => half_toward_zero(new_width - old_width),
        SideHorizontal::right => new_width - old_width,
    }
}

/// How far old content moves down when the height changes from `old_height`
/// to `new_height` and the given side stays in place.
pub open spec fn vertical_offset(old_height: u32, new_height: u32, keep: SideVertical) -> int {
    match keep {
        SideVertical::top => 0,
        SideVertical::center => half_toward_zero(new_height - old_height),
        SideVertical::bottom => new_height - old_height,
    }
}

impl LayerView {
    /// Defined pixels lie inside the frame, and a dense layer defines them all.
    pub open spec fn wf(self) -> bool {
        &&& forall|p: PixelPos| #[trigger] self.pixels.contains_key(p) ==> p.within(self.size)
        &&& self.dense ==> forall|p: PixelPos|
            p.within(self.size) ==> #[trigger] self.pixels.contains_key(p)
    }

    /// Whether `p` lies inside the layer's frame.
    pub open spec fn contains(self, p: PixelPos) -> bool {
        p.within(self.size)
    }

    /// Whether the layer defines a colour at `p`.
    pub open spec fn defines(self, p: PixelPos) -> bool {
        self.pixels.contains_key(p)
    }

    /// The colour read at `p`: the defined colour, else transparent.
    pub open spec fn read(self, p: PixelPos) -> Color {
        if self.pixels.contains_key(p) {
            self.pixels[p]
        } else {
            Color::transparent()
        }
    }

    /// The layer after `p` was set to `color`.
    pub open spec fn write(self, p: PixelPos, color: Color) -> LayerView {
        LayerView { size: self.size, dense: self.dense, pixels: self.pixels.insert(p, color) }
    }

    /// The layer after every pixel of `patch` was set to the patch's colour.
    pub open spec fn patched(self, patch: Map<PixelPos, Color>) -> LayerView {
        LayerView {
            size: self.size,
            dense: self.dense,
            pixels: self.pixels.union_prefer_right(patch),
        }
    }

    /// The colours this layer holds at the pixels of `patch`: what has to be
    /// written back to take the patch out again.
    pub open spec fn captured(self, patch: Map<PixelPos, Color>) -> Map<PixelPos, Color> {
        Map::new(|p: PixelPos| patch.contains_key(p), |p: PixelPos| self.read(p))
    }

    /// This layer with `top` composited onto it: every pixel that `top`
    /// defines becomes "top over this", all others stay.
    pub open spec fn under(self, top: LayerView) -> LayerView {
        LayerView {
            size: self.size,
            dense: self.dense,
            pixels: Map::new(
                |p: PixelPos| self.pixels.contains_key(p) || top.pixels.contains_key(p),
                |p: PixelPos|
                    if top.pixels.contains_key(p) {
                        composite_over(top.pixels[p], self.read(p))
                    } else {
                        self.pixels[p]
                    },
            ),
        }
    }

    /// The layer with only those of its pixels that lie in `keep`.
    pub open spec fn only(self, keep: Set<PixelPos>) -> LayerView {
        LayerView { size: self.size, dense: self.dense, pixels: self.pixels.restrict(keep) }
    }

    /// Compositing nothing leaves a layer as it is.
    pub proof fn lemma_under_nothing(self, top: LayerView)
        ensures
            self.under(top.only(Set::empty())) == self,
    {
        assert(self.under(top.only(Set::empty())).pixels =~= self.pixels);
    }

    /// A layer restricted to a set that holds all its pixels is the layer itself.
    pub proof fn lemma_only_all(self, keep: Set<PixelPos>)
        requires
            forall|p: PixelPos| #[trigger] self.defines(p) ==> keep.contains(p),
        ensures
            self.only(keep) == self,
    {
        assert forall|p: PixelPos| self.pixels.contains_key(p) implies keep.contains(p) by {
            assert(self.defines(p));
        }
        assert(self.only(keep).pixels =~= self.pixels);
    }

    /// Compositing pixel by pixel: once the pixels of `top` in `done` are
    /// blended onto `self`, blending one more pixel of `top` over what is
    /// there gives the composite for `done` with that pixel added.
    pub proof fn lemma_under_step(self, top: LayerView, done: Set<PixelPos>, p: PixelPos)
        requires
            top.defines(p),
            !done.contains(p),
        ensures
            self.under(top.only(done)).read(p) == self.read(p),
            self.under(top.only(done)).write(
                p,
                composite_over(top.read(p), self.under(top.only(done)).read(p)),
            ) == self.under(top.only(done.insert(p))),
    {
        let current = self.under(top.only(done));
        let next = current.write(p, composite_over(top.read(p), current.read(p)));
        assert(next.pixels =~= self.under(top.only(done.insert(p))).pixels);
    }

    /// Compositing a layer that stays inside the frame keeps the frame, the
    /// storage kind and well-formedness.
    pub proof fn lemma_under_frame(self, top: LayerView)
        requires
            self.wf(),
            forall|p: PixelPos| #[trigger] top.defines(p) ==> self.contains(p),
        ensures
            self.under(top).wf(),
            self.under(top).size == self.size,
            self.under(top).dense == self.dense,
    {
        assert forall|p: PixelPos| #[trigger]
            self.under(top).pixels.contains_key(p) implies p.within(self.size) by {
            if top.pixels.contains_key(p) {
                assert(top.defines(p));
            }
        }
    }

    /// A dense layer of one colour.
    pub open spec fn uniform(size: (u32, u32), color: Color) -> LayerView {
        LayerView {
            size,
            dense: true,
            pixels: Map::new(|p: PixelPos| p.within(size), |p: PixelPos| color),
        }
    }

    /// A sparse layer with nothing painted.
    pub open spec fn blank(size: (u32, u32)) -> LayerView {
        LayerView { size, dense: false, pixels: Map::empty() }
    }

    /// The layer after clearing: a dense layer turns opaque white, a sparse
    /// layer forgets all its pixels.
    pub open spec fn cleared(self) -> LayerView {
        if self.dense {
            LayerView::uniform(self.size, Color::spec_white())
        } else {
            LayerView::blank(self.size)
        }
    }

    /// The layer after a uniform fill: a dense layer takes the colour
    /// everywhere, a sparse layer is never filled and stays as it is.
    pub open spec fn filled(self, color: Color) -> LayerView {
        if self.dense {
            LayerView::uniform(self.size, color)
        } else {
            self
        }
    }

    /// The colour a resized dense layer shows at `p`: the old pixel that the
    /// offset moves there, or the neutral fill where no old pixel lands.
    pub open spec fn shifted_read(self, p: PixelPos, dx: int, dy: int) -> Color {
        let source_x = p.x - dx;
        let source_y = p.y - dy;
        if 0 <= source_x < self.size.0 && 0 <= source_y < self.size.1 {
            self.pixels[PixelPos { x: source_x as u32, y: source_y as u32 }]
        } else {
            Color::neutral()
        }
    }

    /// The layer after a resize to `width` by `height`. A dense layer keeps
    /// the given sides of its content in place, drops what falls outside and
    /// shows the neutral fill on newly exposed area. A sparse layer has no
    /// frame of its own to change and stays as it is.
    pub open spec fn resized(
        self,
        width: u32,
        height: u32,
        keep_horizontal: SideHorizontal,
        keep_vertical: SideVertical,
    ) -> LayerView {
        if self.dense {
            let dx = horizontal_offset(self.size.0, width, keep_horizontal);
            let dy = vertical_offset(self.size.1, height, keep_vertical);
            LayerView {
                size: (width, height),
                dense: true,
                pixels: Map::new(
                    |p: PixelPos| p.within((width, height)),
                    |p: PixelPos| self.shifted_read(p, dx, dy),
                ),
            }
        } else {
            self
        }
    }
}

/// The index of pixel `p` in a row-major buffer of the given width.
pub open spec fn row_major(p: PixelPos, width: u32) -> int {
    p.x + p.y * width
}

/// The pixel stored at `index` of a row-major buffer of the given width.
pub open spec fn pixel_at(index: int, width: u32) -> PixelPos {
    PixelPos { x: (index % (width as int)) as u32, y: (index / (width as int)) as u32 }
}

/// A pixel inside the frame has an index inside the buffer.
pub proof fn lemma_row_major_bounds(p: PixelPos, size: (u32, u32))
    requires
        p.within(size),
    ensures
        0 <= row_major(p, size.0) < size.0 * size.1,
        0 <= p.y * size.0 <= row_major(p, size.0),
{
    assert(0 <= p.y * size.0 && p.y * size.0 + size.0 <= size.1 * size.0) by (nonlinear_arith)
        requires
            0 <= p.y < size.1,
            0 <= size.0,
    ;
    assert(size.1 * size.0 == size.0 * size.1) by (nonlinear_arith);
}

/// Row-major indices order the pixels of a frame row by row, and within a
/// row from left to right.
pub proof fn lemma_row_major_order(p: PixelPos, q: PixelPos, width: u32)
    requires
        p.x < width,
        q.x <= width,
    ensures
        row_major(p, width) < row_major(q, width) <==> (p.y < q.y || (p.y == q.y && p.x < q.x)),
{
    if p.y < q.y {
        assert(p.y * width + width <= q.y * width) by (nonlinear_arith)
            requires
                p.y < q.y,
                0 <= width,
        ;
    } else if p.y > q.y {
        assert(q.y * width + width <= p.y * width) by (nonlinear_arith)
            requires
                q.y < p.y,
                0 <= width,
        ;
    }
}

/// Two pixels of one frame with the same index are the same pixel.
pub proof fn lemma_row_major_injective(p: PixelPos, q: PixelPos, width: u32)
    requires
        p.x < width,
        q.x < width,
        row_major(p, width) == row_major(q, width),
    ensures
        p == q,
{
    lemma_row_major_order(p, q, width);
    lemma_row_major_order(q, p, width);
}

/// Every index of the buffer belongs to exactly one pixel of the frame.
pub proof fn lemma_pixel_at(index: int, size: (u32, u32))
    requires
        0 <= index < size.0 * size.1,
    ensures
        pixel_at(index, size.0).within(size),
        row_major(pixel_at(index, size.0), size.0) == index,
{
    let w = size.0 as int;
    assert(w > 0) by (nonlinear_arith)
        requires
            0 <= index < w * size.1,
            0 <= w,
    ;
    vstd::arithmetic::div_mod::lemma_fundamental_div_mod(index, w);
    let row = index / w;
    let col = index % w;
    assert(0 <= col < w);
    assert(0 <= row < size.1) by (nonlinear_arith)
        requires
            index == w * row + col,
            0 <= col < w,
            0 <= index < w * size.1,
    ;
    assert(w * row == row * w) by (nonlinear_arith);
}

/// The 64-bit key of a pixel: the row in the upper half, the column in the
/// lower half.
pub open spec fn pixel_key(p: PixelPos) -> u64 {
    (p.x + p.y * 0x1_0000_0000) as u64
}

/// The pixel that a 64-bit key stands for.
pub open spec fn key_pixel(key: u64) -> PixelPos {
    PixelPos { x: (key % 0x1_0000_0000) as u32, y: (key / 0x1_0000_0000) as u32 }
}

/// Keys and pixels correspond one to one.
pub proof fn lemma_pixel_key(p: PixelPos, key: u64)
    ensures
        key_pixel(pixel_key(p)) == p,
        pixel_key(key_pixel(key)) == key,
{
}

} // verus!
