use vstd::prelude::*;
use std::collections::hash_map::Entry;
use std::collections::HashMap;
use vstd::std_specs::hash::spec_hash_map_iter;
use vstd::std_specs::iter::IteratorSpec;
use crate::data_types::{Color, PixelPos, SideHorizontal, SideVertical};
use crate::layer_view::{
    key_pixel, lemma_pixel_at, lemma_pixel_key, lemma_row_major_bounds, lemma_row_major_injective,
    lemma_row_major_order, pixel_at, pixel_key, row_major, LayerView,
};
use crate::utils::pixel_overlap;

verus! {

/// A container of pixels: it reports its frame, reads and writes single
/// pixels, and can be cleared, filled and resized.
pub trait CanvasLayer {
    /// The layer's content.
    spec fn view(&self) -> LayerView;

    /// The content of a layer is always well formed.
    proof fn lemma_view_wf(&self)
        ensures
            self@.wf(),
    ;

    /// Reads the colour at a pixel inside the frame.
    fn get_pixel(&self, pixel_pos: PixelPos) -> (color: Color)
        requires
            self@.contains(pixel_pos),
        ensures
            color == self@.read(pixel_pos),
    ;

    /// Sets the colour at a pixel inside the frame.
    fn set_pixel(&mut self, pixel_pos: PixelPos, color: Color)
        requires
            old(self)@.contains(pixel_pos),
        ensures
            final(self)@ == old(self)@.write(pixel_pos, color),
    ;

    fn clear(&mut self)
        ensures
            final(self)@ == old(self)@.cleared(),
    ;

    fn fill(&mut self, color: Color)
        ensures
            final(self)@ == old(self)@.filled(color),
    ;

    fn get_size(&self) -> (size: (u32, u32))
        ensures
            size == self@.size,
    ;

    /// Resizes the layer. A dense layer needs the new pixel count to be
    /// addressable.
    fn set_size(
        &mut self,
        width: u32,
        height: u32,
        keep_horizontal: SideHorizontal,
        keep_vertical: SideVertical,
    )
        requires
            old(self)@.dense ==> width * height <= usize::MAX,
        ensures
            final(self)@ == old(self)@.resized(width, height, keep_horizontal, keep_vertical),
    ;
}

/// A layer that can composite itself onto another layer.
pub trait StackableLayer: CanvasLayer {
    /// Composites this layer over `target_canvas`: every pixel this layer
    /// defines is blended over the target's pixel at the same position.
    fn apply_to_canvas<T: CanvasLayer>(&self, target_canvas: &mut T)
        requires
            forall|p: PixelPos| #[trigger] self@.defines(p) ==> old(target_canvas)@.contains(p),
        ensures
            final(target_canvas)@ == old(target_canvas)@.under(self@),
    ;
}

/// A dense layer: one colour for every pixel of its frame, stored row by row.
pub struct FlatCanvasLayer {
    width: u32,
    height: u32,
    data: Vec<Color>,
}

impl FlatCanvasLayer {
    #[verifier::type_invariant]
    spec fn inv(self) -> bool {
        self.data.len() == self.width * self.height
    }

    /// The layer's width and height.
    pub closed spec fn spec_size(self) -> (u32, u32) {
        (self.width, self.height)
    }

    /// The colours in storage order.
    pub closed spec fn spec_data(self) -> Seq<Color> {
        self.data@
    }

    /// A dense layer's content is its buffer read row by row.
    pub proof fn lemma_view(self)
        ensures
            self@.size == self.spec_size(),
            self@.dense,
            self@.wf(),
            forall|p: PixelPos|
                p.within(self.spec_size()) ==> #[trigger] self@.pixels[p] == self.spec_data()[row_major(
                    p,
                    self.spec_size().0,
                )],
    {
    }

    /// A layer of the given size, filled with the neutral colour.
    pub fn new(w: u32, h: u32) -> (layer: FlatCanvasLayer)
        requires
            w * h <= usize::MAX,
        ensures
            layer@ == LayerView::uniform((w, h), Color::neutral()),
    {
        assert(w as usize * h as usize == w * h) by (nonlinear_arith)
            requires
                w * h <= usize::MAX,
                0 <= w,
                0 <= h,
        ;
        let layer = FlatCanvasLayer {
            width: w,
            height: h,
            data: vec![Color::new(255, 255, 255, 0); w as usize * h as usize],
        };
        proof {
            assert forall|p: PixelPos| p.within((w, h)) implies #[trigger] layer@.pixels[p]
                == Color::neutral() by {
                lemma_row_major_bounds(p, (w, h));
            }
            assert(layer@.pixels =~= LayerView::uniform((w, h), Color::neutral()).pixels);
        }
        layer
    }

    /// The buffer, row by row from the top.
    pub fn get_data(&self) -> (data: &Vec<Color>)
        ensures
            data@ == self.spec_data(),
            data@.len() == self@.size.0 * self@.size.1,
            forall|p: PixelPos|
                p.within(self@.size) ==> 0 <= #[trigger] row_major(p, self@.size.0) < data@.len()
                    && data@[row_major(p, self@.size.0)] == self@.read(p),
    {
        proof {
            use_type_invariant(self);
            assert forall|p: PixelPos| p.within(self@.size) implies 0 <= #[trigger] row_major(
                p,
                self@.size.0,
            ) < self.data@.len() && self.data@[row_major(p, self@.size.0)] == self@.read(p) by {
                lemma_row_major_bounds(p, (self.width, self.height));
            }
        }
        &self.data
    }

    /// Every pixel with its position, row by row from the top.
    pub fn iter_pixels(&self) -> (pixels: Vec<(PixelPos, Color)>)
        ensures
            pixels@.len() == self@.size.0 * self@.size.1,
            forall|i: int|
                0 <= i < pixels@.len() ==> {
                    &&& (#[trigger] pixels@[i]).0 == pixel_at(i, self@.size.0)
                    &&& pixels@[i].1 == self@.read(pixel_at(i, self@.size.0))
                },
    {
        proof {
            use_type_invariant(self);
        }
        let mut pixels: Vec<(PixelPos, Color)> = Vec::new();
        let mut i: usize = 0;
        while i < self.data.len()
            invariant
                self.data.len() == self.width * self.height,
                i <= self.data.len(),
                pixels@.len() == i,
                forall|j: int|
                    0 <= j < i ==> {
                        &&& (#[trigger] pixels@[j]).0 == pixel_at(j, self.width)
                        &&& pixels@[j].1 == self@.read(pixel_at(j, self.width))
                    },
            decreases self.data.len() - i,
        {
            proof {
                lemma_pixel_at(i as int, (self.width, self.height));
            }
            let x: u32 = (i % self.width as usize) as u32;
            let y: u32 = (i / self.width as usize) as u32;
            pixels.push((PixelPos { x, y }, self.data[i]));
            i = i + 1;
        }
        pixels
    }

    /// The pixel at place `index` of the row-by-row walk, with its colour
    /// for writing. What the borrower leaves in the colour is what the
    /// layer holds at that pixel afterwards; nothing else changes.
    pub fn iter_pixels_mut(&mut self, index: usize) -> (pixel: (PixelPos, &mut Color))
        requires
            index < old(self)@.size.0 * old(self)@.size.1,
        ensures
            pixel.0 == pixel_at(index as int, old(self)@.size.0),
            *pixel.1 == old(self)@.read(pixel.0),
            final(self)@.size == old(self)@.size,
            final(self)@.dense,
            final(self)@.pixels =~= old(self)@.write(pixel.0, *final(pixel.1)).pixels,
    {
        proof {
            use_type_invariant(&*self);
            lemma_pixel_at(index as int, (self.width, self.height));
            let here = pixel_at(index as int, self.width);
            assert forall|p: PixelPos| p.within((self.width, self.height)) implies 0
                <= #[trigger] row_major(p, self.width) < self.data@.len() && (row_major(
                p,
                self.width,
            ) == index <==> p == here) by {
                lemma_row_major_bounds(p, (self.width, self.height));
                if row_major(p, self.width) == index {
                    lemma_row_major_injective(p, here, self.width);
                }
            }
        }
        let x: u32 = (index % self.width as usize) as u32;
        let y: u32 = (index / self.width as usize) as u32;
        (PixelPos { x, y }, &mut self.data[index])
    }

    /// The buffer index of a pixel inside the frame.
    fn index_of(&self, pixel_pos: PixelPos) -> (index: usize)
        requires
            pixel_pos.within(self.spec_size()),
        ensures
            index == row_major(pixel_pos, self.spec_size().0),
            index < self.spec_data().len(),
    {
        proof {
            use_type_invariant(self);
            lemma_row_major_bounds(pixel_pos, (self.width, self.height));
        }
        pixel_pos.x as usize + pixel_pos.y as usize * self.width as usize
    }
}

impl CanvasLayer for FlatCanvasLayer {
    closed spec fn view(&self) -> LayerView {
        LayerView {
            size: (self.width, self.height),
            dense: true,
            pixels: Map::new(
                |p: PixelPos| p.within((self.width, self.height)),
                |p: PixelPos| self.data@[row_major(p, self.width)],
            ),
        }
    }

    proof fn lemma_view_wf(&self) {
    }

    fn get_pixel(&self, pixel_pos: PixelPos) -> (color: Color) {
        let index: usize = self.index_of(pixel_pos);
        self.data[index]
    }

    fn set_pixel(&mut self, pixel_pos: PixelPos, color: Color) {
        proof {
            use_type_invariant(&*self);
        }
        let index: usize = self.index_of(pixel_pos);
        self.data[index] = color;
        proof {
            assert forall|p: PixelPos| p.within((self.width, self.height)) implies #[trigger] self@.pixels[p]
                == old(self)@.write(pixel_pos, color).pixels[p] by {
                lemma_row_major_bounds(p, (self.width, self.height));
                if p != pixel_pos && row_major(p, self.width) == row_major(pixel_pos, self.width) {
                    lemma_row_major_injective(p, pixel_pos, self.width);
                }
            }
            assert(self@.pixels =~= old(self)@.write(pixel_pos, color).pixels);
        }
    }

    fn clear(&mut self) {
        self.fill(Color::white());
    }

    fn fill(&mut self, color: Color) {
        proof {
            use_type_invariant(&*self);
        }
        let mut i: usize = 0;
        while i < self.data.len()
            invariant
                self.width == old(self).width,
                self.height == old(self).height,
                self.data.len() == self.width * self.height,
                i <= self.data.len(),
                forall|j: int| 0 <= j < i ==> self.data@[j] == color,
            decreases self.data.len() - i,
        {
            self.data[i] = color;
            i = i + 1;
        }
        proof {
            assert forall|p: PixelPos| p.within((self.width, self.height)) implies #[trigger] self@.pixels[p]
                == color by {
                lemma_row_major_bounds(p, (self.width, self.height));
            }
            assert(self@.pixels =~= LayerView::uniform((self.width, self.height), color).pixels);
        }
    }

    fn get_size(&self) -> (size: (u32, u32)) {
        (self.width, self.height)
    }

    fn set_size(
        &mut self,
        width: u32,
        height: u32,
        keep_horizontal: SideHorizontal,
        keep_vertical: SideVertical,
    ) {
        proof {
            use_type_invariant(&*self);
        }
        let x_offset: i64 = match keep_horizontal {
            SideHorizontal::center => signed_half(self.width, width),
            SideHorizontal::left => 0,
            SideHorizontal::right => width as i64 - self.width as i64,
        };
        let y_offset: i64 = match keep_vertical {
            SideVertical::center => signed_half(self.height, height),
            SideVertical::top => 0,
            SideVertical::bottom => height as i64 - self.height as i64,
        };
        assert(-(u32::MAX as int) <= x_offset <= u32::MAX && -(u32::MAX as int) <= y_offset
            <= u32::MAX);
        let ghost before = self@;
        let ghost after = before.resized(width, height, keep_horizontal, keep_vertical);
        let mut new_data: Vec<Color> = Vec::new();
        let mut y: u32 = 0;
        while y < height
            invariant
                self@ == before,
                self.spec_size() == before.size,
                -(u32::MAX as int) <= x_offset <= u32::MAX,
                -(u32::MAX as int) <= y_offset <= u32::MAX,
                y <= height,
                width * height <= usize::MAX,
                new_data@.len() == y * width,
                forall|p: PixelPos|
                    p.x < width && p.y < y ==> #[trigger] new_data@[row_major(p, width)]
                        == before.shifted_read(p, x_offset as int, y_offset as int),
            decreases height - y,
        {
            let mut x: u32 = 0;
            while x < width
                invariant
                    self@ == before,
                    self.spec_size() == before.size,
                    -(u32::MAX as int) <= x_offset <= u32::MAX,
                    -(u32::MAX as int) <= y_offset <= u32::MAX,
                    y < height,
                    x <= width,
                    width * height <= usize::MAX,
                    new_data@.len() == y * width + x,
                    forall|p: PixelPos|
                        p.x < width && (p.y < y || (p.y == y && p.x < x))
                            ==> #[trigger] new_data@[row_major(p, width)] == before.shifted_read(
                            p,
                            x_offset as int,
                            y_offset as int,
                        ),
                decreases width - x,
            {
                let source_x: i64 = x as i64 - x_offset;
                let source_y: i64 = y as i64 - y_offset;
                let here = PixelPos { x, y };
                let color = if 0 <= source_x && source_x < self.width as i64 && 0 <= source_y
                    && source_y < self.height as i64 {
                    let source = PixelPos { x: source_x as u32, y: source_y as u32 };
                    proof {
                        self.lemma_view();
                    }
                    self.get_pixel(source)
                } else {
                    Color::new(255, 255, 255, 0)
                };
                let ghost previous = new_data@;
                new_data.push(color);
                proof {
                    assert forall|p: PixelPos|
                        p.x < width && (p.y < y || (p.y == y && p.x < x + 1)) implies #[trigger] new_data@[row_major(
                        p,
                        width,
                    )] == before.shifted_read(p, x_offset as int, y_offset as int) by {
                        lemma_row_major_order(p, here, width);
                        if p != here {
                            assert(new_data@[row_major(p, width)] == previous[row_major(p, width)]);
                        }
                    }
                }
                x = x + 1;
            }
            proof {
                assert(y * width + width == (y + 1) * width) by (nonlinear_arith);
            }
            y = y + 1;
        }
        proof {
            assert(height * width == width * height) by (nonlinear_arith);
        }
        *self = FlatCanvasLayer { width, height, data: new_data };
        proof {
            assert(self@.pixels =~= after.pixels);
        }
    }
}

impl StackableLayer for FlatCanvasLayer {
    fn apply_to_canvas<T: CanvasLayer>(&self, target_canvas: &mut T) {
        let ghost start = target_canvas@;
        let ghost top = self@;
        proof {
            start.lemma_under_nothing(top);
            assert(column_major_before(0, 0) =~= Set::empty());
        }
        let mut x: u32 = 0;
        while x < self.width
            invariant
                self@ == top,
                self.spec_size() == top.size,
                top.dense,
                top.wf(),
                x <= self.width,
                forall|p: PixelPos| #[trigger] top.defines(p) ==> start.contains(p),
                target_canvas@ == start.under(top.only(column_major_before(x, 0))),
            decreases self.width - x,
        {
            let mut y: u32 = 0;
            while y < self.height
                invariant
                    self@ == top,
                    self.spec_size() == top.size,
                    top.dense,
                    top.wf(),
                    x < self.width,
                    y <= self.height,
                    forall|p: PixelPos| #[trigger] top.defines(p) ==> start.contains(p),
                    target_canvas@ == start.under(top.only(column_major_before(x, y))),
                decreases self.height - y,
            {
                let here = PixelPos { x, y };
                proof {
                    assert(top.defines(here));
                    start.lemma_under_step(top, column_major_before(x, y), here);
                    assert(column_major_before(x, y).insert(here) =~= column_major_before(
                        x,
                        (y + 1) as u32,
                    ));
                }
                let result = pixel_overlap(self.get_pixel(here), target_canvas.get_pixel(here));
                target_canvas.set_pixel(here, result);
                y = y + 1;
            }
            proof {
                assert(top.only(column_major_before(x, self.height)).pixels =~= top.only(
                    column_major_before((x + 1) as u32, 0),
                ).pixels);
            }
            x = x + 1;
        }
        proof {
            top.lemma_only_all(column_major_before(self.width, 0));
        }
    }
}

/// The pixels that a column-by-column walk visits before it reaches `(x, y)`.
pub open spec fn column_major_before(x: u32, y: u32) -> Set<PixelPos> {
    Set::new(|p: PixelPos| p.x < x || (p.x == x && p.y < y))
}

/// Half of `to - from`, rounded towards zero.
fn signed_half(from: u32, to: u32) -> (half: i64)
    ensures
        half == crate::layer_view::half_toward_zero(to - from),
{
    if to >= from {
        ((to - from) / 2) as i64
    } else {
        -(((from - to) / 2) as i64)
    }
}

/// A sparse layer: only the pixels that were painted are stored; every other
/// pixel reads as transparent.
pub struct HashMapCanvasLayer {
    width: u32,
    height: u32,
    data: HashMap<u64, Color>,
}

impl HashMapCanvasLayer {
    /// A sparse layer's content is never dense and always well formed.
    pub proof fn lemma_view(self)
        ensures
            !self@.dense,
            self@.wf(),
    {
    }

    /// An empty layer for a frame of the given size.
    pub fn new(w: u32, h: u32) -> (layer: HashMapCanvasLayer)
        ensures
            layer@ == LayerView::blank((w, h)),
    {
        let layer = HashMapCanvasLayer { width: w, height: h, data: HashMap::new() };
        proof {
            assert(layer@.pixels =~= LayerView::blank((w, h)).pixels);
        }
        layer
    }

    /// The painted pixels, each once, in no particular order.
    pub fn pixels_iter(&self) -> (pixels: Vec<(PixelPos, Color)>)
        ensures
            forall|i: int|
                0 <= i < pixels@.len() ==> self@.defines((#[trigger] pixels@[i]).0) && pixels@[i].1
                    == self@.pixels[pixels@[i].0],
            forall|p: PixelPos|
                self@.defines(p) ==> exists|i: int| 0 <= i < pixels@.len() && (#[trigger] pixels@[i]).0 == p,
            forall|i: int, j: int|
                0 <= i < j < pixels@.len() ==> (#[trigger] pixels@[i]).0 != (#[trigger] pixels@[j]).0,
    {
        let mut pixels: Vec<(PixelPos, Color)> = Vec::new();
        let ghost mut source: Seq<int> = Seq::empty();
        let ghost items = spec_hash_map_iter(&self.data).remaining();
        for entry in it: self.data.iter()
            invariant
                it.seq() == items,
                it.seq().no_duplicates(),
                forall|j: int|
                    0 <= j < it.seq().len() ==> self.data@.contains_key(*(#[trigger] it.seq()[j]).0)
                        && self.data@[*it.seq()[j].0] == *it.seq()[j].1,
                forall|key: u64| #[trigger]
                    self.data@.contains_key(key) ==> it.seq().contains((&key, &self.data@[key])),
                source.len() == pixels@.len(),
                forall|i: int|
                    0 <= i < source.len() ==> {
                        &&& 0 <= (#[trigger] source[i]) < it.index()
                        &&& pixels@[i].0 == key_pixel(*it.seq()[source[i]].0)
                        &&& pixels@[i].1 == *it.seq()[source[i]].1
                        &&& pixels@[i].0.within((self.width, self.height))
                    },
                forall|i: int, j: int| 0 <= i < j < source.len() ==> source[i] < source[j],
                forall|j: int|
                    0 <= j < it.index() && key_pixel(*(#[trigger] it.seq()[j]).0).within(
                        (self.width, self.height),
                    ) ==> source.contains(j),
        {
            let (key, color) = entry;
            let p = unpack(*key);
            let ghost before = source;
            // Only what lies inside the frame is part of the layer.
            if p.x < self.width && p.y < self.height {
                pixels.push((p, *color));
                proof {
                    source = source.push(it.index() as int);
                    assert(source[before.len() as int] == it.index());
                }
            }
            proof {
                assert forall|j: int|
                    0 <= j < it.index() + 1 && key_pixel(*(#[trigger] it.seq()[j]).0).within(
                        (self.width, self.height),
                    ) implies source.contains(j) by {
                    if j < it.index() {
                        let i = choose|i: int| 0 <= i < before.len() && before[i] == j;
                        assert(source[i] == j);
                    }
                }
            }
        }
        proof {
            assert forall|i: int| 0 <= i < pixels@.len() implies self@.defines(
                (#[trigger] pixels@[i]).0,
            ) && pixels@[i].1 == self@.pixels[pixels@[i].0] by {
                lemma_pixel_key(pixels@[i].0, *items[source[i]].0);
            }
            assert forall|i: int, j: int| 0 <= i < j < pixels@.len() implies (#[trigger] pixels@[i]).0
                != (#[trigger] pixels@[j]).0 by {
                let a = items[source[i]];
                let b = items[source[j]];
                lemma_pixel_key(pixels@[i].0, *a.0);
                lemma_pixel_key(pixels@[j].0, *b.0);
                if pixels@[i].0 == pixels@[j].0 {
                    assert(*a.0 == *b.0);
                    assert(a == b);
                }
            }
            assert forall|p: PixelPos| self@.defines(p) implies exists|i: int|
                0 <= i < pixels@.len() && (#[trigger] pixels@[i]).0 == p by {
                let key = pixel_key(p);
                lemma_pixel_key(p, key);
                let item = (&key, &self.data@[key]);
                assert(items.contains(item));
                let j = choose|j: int| 0 <= j < items.len() && items[j] == item;
                assert(source.contains(j));
                let i = choose|i: int| 0 <= i < source.len() && source[i] == j;
                assert(pixels@[i].0 == p);
            }
        }
        pixels
    }

    /// The colour of a painted pixel, for writing; none for a pixel that was
    /// not painted. What the borrower leaves in the colour is what the layer
    /// holds at that pixel afterwards; nothing else changes.
    pub fn pixels_iter_mut(&mut self, pixel_pos: PixelPos) -> (color: Option<&mut Color>)
        ensures
            color is Some <==> old(self)@.defines(pixel_pos),
            final(self)@.size == old(self)@.size,
            !final(self)@.dense,
            match color {
                Some(held) => *held == old(self)@.pixels[pixel_pos] && final(self)@.pixels
                    =~= old(self)@.write(pixel_pos, *final(held)).pixels,
                None => final(self)@.pixels =~= old(self)@.pixels,
            },
    {
        if pixel_pos.x < self.width && pixel_pos.y < self.height {
            proof {
                assert forall|p: PixelPos| #[trigger] pixel_key(p) == pixel_key(pixel_pos) implies p
                    == pixel_pos by {
                    lemma_pixel_key(p, 0);
                    lemma_pixel_key(pixel_pos, 0);
                }
            }
            match self.data.entry(pack(pixel_pos)) {
                Entry::Occupied(entry) => Some(entry.into_mut()),
                Entry::Vacant(_) => None,
            }
        } else {
            None
        }
    }
}

/// The key under which a sparse layer stores a pixel.
fn pack(p: PixelPos) -> (key: u64)
    ensures
        key == pixel_key(p),
{
    p.x as u64 + p.y as u64 * 0x1_0000_0000
}

/// The pixel stored under a key.
fn unpack(key: u64) -> (p: PixelPos)
    ensures
        p == key_pixel(key),
{
    PixelPos { x: (key % 0x1_0000_0000) as u32, y: (key / 0x1_0000_0000) as u32 }
}

impl CanvasLayer for HashMapCanvasLayer {
    closed spec fn view(&self) -> LayerView {
        LayerView {
            size: (self.width, self.height),
            dense: false,
            pixels: Map::new(
                |p: PixelPos|
                    p.within((self.width, self.height)) && self.data@.contains_key(pixel_key(p)),
                |p: PixelPos| self.data@[pixel_key(p)],
            ),
        }
    }

    proof fn lemma_view_wf(&self) {
    }

    fn get_pixel(&self, pixel_pos: PixelPos) -> (color: Color) {
        match self.data.get(&pack(pixel_pos)) {
            Some(color) => *color,
            None => Color::new(0, 0, 0, 0),
        }
    }

    fn set_pixel(&mut self, pixel_pos: PixelPos, color: Color) {
        proof {
            lemma_pixel_key(pixel_pos, 0);
        }
        self.data.insert(pack(pixel_pos), color);
        proof {
            assert forall|p: PixelPos| #[trigger]
                old(self)@.write(pixel_pos, color).pixels.contains_key(p) implies self@.pixels.contains_key(p)
                && self@.pixels[p] == old(self)@.write(pixel_pos, color).pixels[p] by {
                lemma_pixel_key(p, 0);
            }
            assert(self@.pixels =~= old(self)@.write(pixel_pos, color).pixels);
        }
    }

    fn clear(&mut self) {
        self.data.clear();
        proof {
            assert(self@.pixels =~= LayerView::blank((self.width, self.height)).pixels);
        }
    }

    /// A sparse layer is never filled.
    fn fill(&mut self, color: Color) {
    }

    fn get_size(&self) -> (size: (u32, u32)) {
        (self.width, self.height)
    }

    /// A sparse layer keeps its frame.
    fn set_size(
        &mut self,
        width: u32,
        height: u32,
        keep_horizontal: SideHorizontal,
        keep_vertical: SideVertical,
    ) {
    }
}

impl StackableLayer for HashMapCanvasLayer {
    fn apply_to_canvas<T: CanvasLayer>(&self, target_canvas: &mut T) {
        let ghost start = target_canvas@;
        let ghost top = self@;
        let pixels = self.pixels_iter();
        proof {
            start.lemma_under_nothing(top);
            assert(positions_before(pixels@, 0) =~= Set::empty());
        }
        let mut i: usize = 0;
        while i < pixels.len()
            invariant
                self@ == top,
                i <= pixels@.len(),
                forall|k: int|
                    0 <= k < pixels@.len() ==> top.defines((#[trigger] pixels@[k]).0) && pixels@[k].1
                        == top.pixels[pixels@[k].0],
                forall|p: PixelPos|
                    top.defines(p) ==> exists|k: int|
                        0 <= k < pixels@.len() && (#[trigger] pixels@[k]).0 == p,
                forall|k: int, l: int|
                    0 <= k < l < pixels@.len() ==> (#[trigger] pixels@[k]).0 != (#[trigger] pixels@[l]).0,
                forall|p: PixelPos| #[trigger] top.defines(p) ==> start.contains(p),
                target_canvas@ == start.under(top.only(positions_before(pixels@, i as int))),
            decreases pixels.len() - i,
        {
            let (here, color) = pixels[i];
            proof {
                assert(pixels@[i as int].0 == here);
                assert(top.defines(here));
                start.lemma_under_step(top, positions_before(pixels@, i as int), here);
                assert(positions_before(pixels@, i as int).insert(here) =~= positions_before(
                    pixels@,
                    i + 1,
                ));
            }
            let result = pixel_overlap(color, target_canvas.get_pixel(here));
            target_canvas.set_pixel(here, result);
            i = i + 1;
        }
        proof {
            top.lemma_only_all(positions_before(pixels@, pixels@.len() as int));
        }
    }
}

/// The positions of the first `count` entries of a pixel list.
pub open spec fn positions_before(pixels: Seq<(PixelPos, Color)>, count: int) -> Set<PixelPos> {
    Set::new(|p: PixelPos| exists|k: int| 0 <= k < count && k < pixels.len() && (#[trigger] pixels[k]).0 == p)
}

} // verus!
