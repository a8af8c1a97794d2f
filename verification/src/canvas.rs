use vstd::prelude::*;
use crate::canvas_layer::{CanvasLayer, FlatCanvasLayer, HashMapCanvasLayer, StackableLayer};
use crate::arrange::{apply_visibility, rearrange};
use crate::canvas_view::{
    checkers_dark, checkers_layer, checkers_light, config_of, configured, dense_frame,
    has_id, index_of_id, is_first_with_id, lemma_index_of_id, lemma_patched_frame, patch_within,
    stack_fits, stacked, unique_ids, CanvasView, EntryView, Patch, CHECKERS_GRID,
};
use crate::data_types::{Color, GlobalParams, PixelPos};
use crate::edit_command::lemma_command_patch;
pub use crate::edit_command::EditCommand;
pub use crate::layer_config::{
    CanvasLayerConfig, CanvasLayersConfig, CanvasOrder, LayerConfig, LayerId,
};
use crate::layer_view::LayerView;
pub use crate::paint_tool::{LineTool, PaintTool, PixelPencil};
use crate::utils::{
    checkers_color, checkers_pattern, draw_rect_within, rect_set, rect_set_within, solid_patch,
};

verus! {

/// One layer of a stack: its identity, its pixels, and whether it is shown.
pub struct CanvasLayerEntry {
    pub id: LayerId,
    pub layer: FlatCanvasLayer,
    pub visible: bool,
}

impl CanvasLayerEntry {
    /// The entry's content.
    pub open spec fn view(&self) -> EntryView {
        EntryView { id: self.id, layer: self.layer@, visible: self.visible }
    }

    /// The entry's line in a layer configuration.
    pub fn config(&self) -> (line: CanvasLayerConfig)
        ensures
            line == (CanvasLayerConfig { id: self.id, visible: self.visible }),
    {
        CanvasLayerConfig { id: self.id, visible: self.visible }
    }
}

/// The contents of a sequence of entries.
pub open spec fn entry_views(entries: Seq<CanvasLayerEntry>) -> Seq<EntryView> {
    Seq::new(entries.len(), |i: int| entries[i]@)
}

/// The patches of a sequence of commands.
pub open spec fn patches(commands: Seq<EditCommand>) -> Seq<Patch> {
    Seq::new(commands.len(), |i: int| commands[i].patch())
}

/// A layer stack: the layers in paint order, the first entry topmost, and
/// the id of the layer that edits go to.
pub struct CanvasLayers {
    pub entries: Vec<CanvasLayerEntry>,
    pub active_layer_id: LayerId,
}

impl CanvasLayers {
    /// The contents of the stack's entries.
    pub open spec fn view(&self) -> Seq<EntryView> {
        entry_views(self.entries@)
    }

    /// The place of the active layer: that of the first entry with the
    /// active id.
    pub fn active_position(&self) -> (found: Option<usize>)
        ensures
            match found {
                Some(i) => is_first_with_id(self@, self.active_layer_id, i as int),
                None => !has_id(self@, self.active_layer_id),
            },
    {
        let mut i: usize = 0;
        while i < self.entries.len()
            invariant
                i <= self.entries.len(),
                forall|j: int| 0 <= j < i ==> (#[trigger] self@[j]).id != self.active_layer_id,
            decreases self.entries.len() - i,
        {
            if self.entries[i].id == self.active_layer_id {
                return Some(i);
            }
            i = i + 1;
        }
        None
    }

    /// The visible layers in the order in which they are composited: from
    /// the last entry up to the first.
    fn visible_layers(&self) -> (visible: Vec<&FlatCanvasLayer>)
        ensures
            Seq::new(visible@.len(), |i: int| visible@[i]@) == visible_from(self@, 0),
            forall|i: int|
                0 <= i < visible@.len() ==> exists|j: int|
                    0 <= j < self@.len() && (#[trigger] visible@[i])@ == self@[j].layer,
    {
        let mut visible: Vec<&FlatCanvasLayer> = Vec::new();
        let mut i: usize = self.entries.len();
        while i > 0
            invariant
                i <= self.entries.len(),
                Seq::new(visible@.len(), |k: int| visible@[k]@) == visible_from(
                    self@,
                    i as int,
                ),
                forall|k: int|
                    0 <= k < visible@.len() ==> exists|j: int|
                        0 <= j < self@.len() && (#[trigger] visible@[k])@
                            == self@[j].layer,
            decreases i,
        {
            i = i - 1;
            let ghost before = visible@;
            if self.entries[i].visible {
                visible.push(&self.entries[i].layer);
                proof {
                    assert(Seq::new(visible@.len(), |k: int| visible@[k]@) =~= Seq::new(
                        before.len(),
                        |k: int| before[k]@,
                    ).push(self@[i as int].layer));
                    assert forall|k: int| 0 <= k < visible@.len() implies exists|j: int|
                        0 <= j < self@.len() && (#[trigger] visible@[k])@
                            == self@[j].layer by {
                        if k < before.len() {
                            assert(visible@[k] == before[k]);
                        } else {
                            assert(visible@[k]@ == self@[i as int].layer);
                        }
                    }
                }
            }
        }
        visible
    }

    /// The active layer, if the active id names an entry.
    pub fn get_active_layer(&self) -> (layer: Option<&FlatCanvasLayer>)
        ensures
            match layer {
                Some(found) => has_id(self@, self.active_layer_id) && found@ == self@[index_of_id(
                    self@,
                    self.active_layer_id,
                )].layer,
                None => !has_id(self@, self.active_layer_id),
            },
    {
        match self.active_position() {
            Some(i) => {
                proof {
                    lemma_index_of_id(self@, self.active_layer_id, i as int);
                }
                Some(&self.entries[i].layer)
            },
            None => None,
        }
    }

    /// The active layer for writing, if the active id names an entry. What
    /// the borrower leaves in the layer is what the stack holds afterwards;
    /// nothing else changes.
    pub fn get_active_layer_mut(&mut self) -> (layer: Option<&mut FlatCanvasLayer>)
        ensures
            final(self).active_layer_id == old(self).active_layer_id,
            match layer {
                Some(found) => {
                    let i = index_of_id(old(self)@, old(self).active_layer_id);
                    &&& has_id(old(self)@, old(self).active_layer_id)
                    &&& found@ == old(self)@[i].layer
                    &&& final(self)@ == old(self)@.update(
                        i,
                        EntryView {
                            id: old(self)@[i].id,
                            layer: final(found)@,
                            visible: old(self)@[i].visible,
                        },
                    )
                },
                None => !has_id(old(self)@, old(self).active_layer_id) && final(self)@ == old(
                    self,
                )@,
            },
    {
        match self.active_position() {
            Some(i) => {
                proof {
                    lemma_index_of_id(self@, self.active_layer_id, i as int);
                }
                Some(&mut self.entries[i].layer)
            },
            None => None,
        }
    }
}

/// What a sequence of layers makes of a base when they are composited onto
/// it one after the other, the first layer first.
pub open spec fn layered(base: LayerView, tops: Seq<LayerView>) -> LayerView
    decreases tops.len(),
{
    if tops.len() == 0 {
        base
    } else {
        layered(base, tops.drop_last()).under(tops.last())
    }
}

/// Composites layers onto a target in order: the last one ends up on top.
pub fn apply_layers<L: StackableLayer, T: CanvasLayer>(canvases: &Vec<&L>, target_canvas: &mut T)
    requires
        forall|i: int, p: PixelPos|
            0 <= i < canvases@.len() && (#[trigger] canvases@[i]@.defines(p)) ==> old(
                target_canvas,
            )@.contains(p),
    ensures
        final(target_canvas)@ == layered(
            old(target_canvas)@,
            Seq::new(canvases@.len(), |i: int| canvases@[i]@),
        ),
{
    let ghost base = target_canvas@;
    let ghost tops = Seq::new(canvases@.len(), |i: int| canvases@[i]@);
    let mut i: usize = 0;
    while i < canvases.len()
        invariant
            i <= canvases.len(),
            tops == Seq::new(canvases@.len(), |i: int| canvases@[i]@),
            forall|k: int, p: PixelPos|
                0 <= k < canvases@.len() && (#[trigger] canvases@[k]@.defines(p)) ==> base.contains(p),
            target_canvas@.size == base.size,
            target_canvas@ == layered(base, tops.take(i as int)),
        decreases canvases.len() - i,
    {
        let canvas = canvases[i];
        proof {
            assert(tops.take(i + 1).drop_last() =~= tops.take(i as int));
            assert(tops.take(i + 1).last() == canvas@);
            assert forall|p: PixelPos| #[trigger] canvas@.defines(p) implies target_canvas@.contains(
                p,
            ) by {
                assert(canvases@[i as int]@.defines(p));
            }
        }
        canvas.apply_to_canvas(target_canvas);
        i = i + 1;
    }
    proof {
        assert(tops.take(tops.len() as int) =~= tops);
    }
}

/// The visible layers among the entries from place `from` on, the last
/// entry first: the order in which they are composited.
pub open spec fn visible_from(entries: Seq<EntryView>, from: int) -> Seq<LayerView>
    decreases entries.len() - from,
{
    if from >= entries.len() || from < 0 {
        Seq::empty()
    } else {
        let later = visible_from(entries, from + 1);
        if entries[from].visible {
            later.push(entries[from].layer)
        } else {
            later
        }
    }
}

/// Compositing the visible layers one after the other, the last entry
/// first, gives the stack's composite.
pub proof fn lemma_layered_is_stacked(base: LayerView, entries: Seq<EntryView>, from: int)
    requires
        0 <= from <= entries.len(),
    ensures
        layered(base, visible_from(entries, from)) == stacked(
            base,
            entries.subrange(from, entries.len() as int),
        ),
    decreases entries.len() - from,
{
    let rest = entries.subrange(from, entries.len() as int);
    if from < entries.len() {
        lemma_layered_is_stacked(base, entries, from + 1);
        assert(rest.drop_first() =~= entries.subrange(from + 1, entries.len() as int));
        assert(rest[0] == entries[from]);
        let later = visible_from(entries, from + 1);
        if entries[from].visible {
            assert(later.push(entries[from].layer).drop_last() =~= later);
        }
    }
}

/// The colour of the bar on the first layer of the opening canvas.
pub open spec fn bar_green() -> Color {
    Color { red: 0, green: 255, blue: 0, alpha: 255 }
}

/// The colour of the bar on the second layer of the opening canvas.
pub open spec fn bar_red() -> Color {
    Color { red: 255, green: 0, blue: 0, alpha: 255 }
}

/// The bar across on the first layer of the opening canvas: the box from
/// pixel (100, 100) to pixel (200, 110), as far as the frame holds it.
pub open spec fn bar_across(size: (u32, u32)) -> Map<PixelPos, Color> {
    solid_patch(
        rect_set_within(PixelPos { x: 100, y: 100 }, PixelPos { x: 200, y: 110 }, size),
        bar_green(),
    )
}

/// The bar down on the second layer of the opening canvas: the box from
/// pixel (100, 100) to pixel (110, 200), as far as the frame holds it.
pub open spec fn bar_down(size: (u32, u32)) -> Map<PixelPos, Color> {
    solid_patch(
        rect_set_within(PixelPos { x: 100, y: 100 }, PixelPos { x: 110, y: 200 }, size),
        bar_red(),
    )
}

/// A frame wider and higher than 200 pixels holds both bars whole.
pub proof fn lemma_opening_bars_whole(size: (u32, u32))
    requires
        200 < size.0,
        200 < size.1,
    ensures
        bar_across(size) == solid_patch(
            rect_set(PixelPos { x: 100, y: 100 }, PixelPos { x: 200, y: 110 }),
            bar_green(),
        ),
        bar_down(size) == solid_patch(
            rect_set(PixelPos { x: 100, y: 100 }, PixelPos { x: 110, y: 200 }),
            bar_red(),
        ),
{
    assert(rect_set_within(PixelPos { x: 100, y: 100 }, PixelPos { x: 200, y: 110 }, size)
        =~= rect_set(PixelPos { x: 100, y: 100 }, PixelPos { x: 200, y: 110 }));
    assert(rect_set_within(PixelPos { x: 100, y: 100 }, PixelPos { x: 110, y: 200 }, size)
        =~= rect_set(PixelPos { x: 100, y: 100 }, PixelPos { x: 110, y: 200 }));
}

/// A frame that does not reach pixel (100, 100) holds nothing of the bars:
/// both layers of the opening canvas are blank.
pub proof fn lemma_opening_bars_missed(size: (u32, u32))
    requires
        size.0 <= 100 || size.1 <= 100,
    ensures
        opening_stack(size)[0].layer == LayerView::uniform(size, Color::neutral()),
        opening_stack(size)[1].layer == LayerView::uniform(size, Color::neutral()),
{
    let blank = LayerView::uniform(size, Color::neutral());
    assert(bar_across(size) =~= Map::empty());
    assert(bar_down(size) =~= Map::empty());
    assert(blank.patched(Map::empty()).pixels =~= blank.pixels);
}

/// The layers of the opening canvas: a green bar across on the first, a
/// red bar down on the second, both visible. A frame that does not reach
/// pixel (100, 100) leaves both layers blank.
pub open spec fn opening_stack(size: (u32, u32)) -> Seq<EntryView> {
    let blank = LayerView::uniform(size, Color::neutral());
    seq![
        EntryView { id: LayerId(0), layer: blank.patched(bar_across(size)), visible: true },
        EntryView { id: LayerId(1), layer: blank.patched(bar_down(size)), visible: true },
    ]
}

/// A layered raster canvas: a stack of dense layers over a checkerboard, a
/// sparse tool layer for the stroke in progress, the display buffer they
/// are composited into, and the undo and redo stacks of the active layer.
pub struct Canvas {
    layers: CanvasLayers,
    undo_stack: Vec<EditCommand>,
    redo_stack: Vec<EditCommand>,
    tool_layer: HashMapCanvasLayer,
    draw_layer: FlatCanvasLayer,
    checkers_pattern_layer: FlatCanvasLayer,
    size: (u32, u32),
    recompositions: u64,
}

impl Canvas {
    /// The canvas's content.
    pub closed spec fn view(&self) -> CanvasView {
        CanvasView {
            size: self.size,
            background: self.checkers_pattern_layer@,
            entries: self.layers@,
            active: self.layers.active_layer_id,
            tool: self.tool_layer@,
            display: self.draw_layer@,
            undo: patches(self.undo_stack@),
            redo: patches(self.redo_stack@),
            recompositions: self.recompositions as nat,
        }
    }

    /// The canvas's invariant: that of its content.
    pub open spec fn wf(&self) -> bool {
        self@.wf()
    }

    /// The canvas the editor opens with: two visible layers, the first with
    /// a green bar across and the second with a red bar down, both starting
    /// at pixel (100, 100), and the first layer active. A canvas too small
    /// to hold the bars shows of them what lies inside its frame.
    pub fn new(w: u32, h: u32) -> (canvas: Canvas)
        requires
            w * h <= usize::MAX,
        ensures
            canvas.wf(),
            canvas@ == CanvasView::assembled((w, h), opening_stack((w, h)), LayerId(0)),
    {
        let mut green_horizontal = FlatCanvasLayer::new(w, h);
        draw_rect_within(
            &mut green_horizontal,
            PixelPos { x: 100, y: 100 },
            PixelPos { x: 100 + 100, y: 100 + 10 },
            Color::new(0, 255, 0, 255),
        );
        let mut red_vertical = FlatCanvasLayer::new(w, h);
        draw_rect_within(
            &mut red_vertical,
            PixelPos { x: 100, y: 100 },
            PixelPos { x: 100 + 10, y: 100 + 100 },
            Color::new(255, 0, 0, 255),
        );
        let mut entries: Vec<CanvasLayerEntry> = Vec::new();
        entries.push(CanvasLayerEntry { id: LayerId(0), layer: green_horizontal, visible: true });
        entries.push(CanvasLayerEntry { id: LayerId(1), layer: red_vertical, visible: true });
        let layers = CanvasLayers { entries, active_layer_id: LayerId(0) };
        proof {
            assert(layers@ =~= opening_stack((w, h)));
            let size = (w, h);
            let blank = LayerView::uniform(size, Color::neutral());
            lemma_patched_frame(blank, bar_across(size), size);
            lemma_patched_frame(blank, bar_down(size), size);
        }
        Canvas::assemble(w, h, layers)
    }

    /// A canvas over the given layer stack, with the checkerboard under it
    /// and the display composed. There is none if the pixel count is not
    /// addressable, a layer has another size than the canvas, or two layers
    /// share an id.
    pub fn with_layers(w: u32, h: u32, layers: CanvasLayers) -> (canvas: Option<Canvas>)
        ensures
            canvas is Some <==> w * h <= usize::MAX && stack_fits(layers@, (w, h)),
            canvas matches Some(made) ==> made.wf() && made@ == CanvasView::assembled(
                (w, h),
                layers@,
                layers.active_layer_id,
            ),
    {
        assert(w * h <= u32::MAX * u32::MAX) by (nonlinear_arith)
            requires
                0 <= w <= u32::MAX,
                0 <= h <= u32::MAX,
        ;
        if w as u64 * h as u64 > usize::MAX as u64 {
            return None;
        }
        let mut i: usize = 0;
        while i < layers.entries.len()
            invariant
                i <= layers.entries.len(),
                forall|k: int| 0 <= k < i ==> dense_frame((#[trigger] layers@[k]).layer, (w, h)),
                forall|a: int, b: int|
                    0 <= a < b < i ==> (#[trigger] layers@[a]).id != (#[trigger] layers@[b]).id,
            decreases layers.entries.len() - i,
        {
            let size = layers.entries[i].layer.get_size();
            proof {
                layers.entries@[i as int].layer.lemma_view();
            }
            if size.0 != w || size.1 != h {
                proof {
                    assert(!dense_frame(layers@[i as int].layer, (w, h)));
                }
                return None;
            }
            let mut j: usize = 0;
            while j < i
                invariant
                    j <= i < layers.entries.len(),
                    forall|a: int| 0 <= a < j ==> (#[trigger] layers@[a]).id != layers@[i as int].id,
                decreases i - j,
            {
                if layers.entries[j].id == layers.entries[i].id {
                    proof {
                        assert(layers@[j as int].id == layers@[i as int].id);
                    }
                    return None;
                }
                j = j + 1;
            }
            i = i + 1;
        }
        Some(Canvas::assemble(w, h, layers))
    }

    /// Puts a canvas together and composes its display.
    fn assemble(w: u32, h: u32, layers: CanvasLayers) -> (canvas: Canvas)
        requires
            w * h <= usize::MAX,
            stack_fits(layers@, (w, h)),
        ensures
            canvas.wf(),
            canvas@ == CanvasView::assembled((w, h), layers@, layers.active_layer_id),
    {
        let mut canvas = Canvas {
            layers,
            undo_stack: Vec::new(),
            redo_stack: Vec::new(),
            checkers_pattern_layer: Canvas::create_checkers_pattern(w, h, CHECKERS_GRID),
            tool_layer: HashMapCanvasLayer::new(w, h),
            draw_layer: FlatCanvasLayer::new(w, h),
            size: (w, h),
            recompositions: 0,
        };
        proof {
            canvas.tool_layer.lemma_view();
            assert(canvas@.undo =~= Seq::empty());
            assert(canvas@.redo =~= Seq::empty());
        }
        canvas.update_display_canvas();
        canvas
    }

    /// The checkerboard that lies under all layers.
    fn create_checkers_pattern(w: u32, h: u32, grid_len: usize) -> (result: FlatCanvasLayer)
        requires
            w * h <= usize::MAX,
            grid_len > 0,
        ensures
            result@ == checkers_layer((w, h), grid_len),
    {
        let mut result = FlatCanvasLayer::new(w, h);
        let ghost size = (w, h);
        let mut y: u32 = 0;
        while y < h
            invariant
                y <= h,
                grid_len > 0,
                size == (w, h),
                result@.size == size,
                result@.dense,
                forall|p: PixelPos| p.within(size) <==> #[trigger] result@.pixels.contains_key(p),
                forall|p: PixelPos|
                    p.within(size) && p.y < y ==> #[trigger] result@.pixels[p] == checkers_color(
                        p,
                        grid_len,
                        checkers_light(),
                        checkers_dark(),
                    ),
            decreases h - y,
        {
            let mut x: u32 = 0;
            while x < w
                invariant
                    y < h,
                    x <= w,
                    grid_len > 0,
                    size == (w, h),
                    result@.size == size,
                    result@.dense,
                    forall|p: PixelPos| p.within(size) <==> #[trigger] result@.pixels.contains_key(p),
                    forall|p: PixelPos|
                        p.within(size) && (p.y < y || (p.y == y && p.x < x))
                            ==> #[trigger] result@.pixels[p] == checkers_color(
                            p,
                            grid_len,
                            checkers_light(),
                            checkers_dark(),
                        ),
                decreases w - x,
            {
                let pos = PixelPos { x, y };
                let color = checkers_pattern(
                    pos,
                    grid_len,
                    Color::new(225, 225, 225, 255),
                    Color::new(200, 200, 200, 255),
                );
                result.set_pixel(pos, color);
                x = x + 1;
            }
            y = y + 1;
        }
        proof {
            assert(result@.pixels =~= checkers_layer(size, grid_len).pixels);
        }
        result
    }

    /// The display buffer: the composite as of the last recomposition.
    pub fn get_draw_layer(&self) -> (layer: &FlatCanvasLayer)
        ensures
            layer@ == self@.display,
    {
        &self.draw_layer
    }

    /// The active layer, if the active id names a layer.
    pub fn get_active_layer(&self) -> (layer: Option<&FlatCanvasLayer>)
        ensures
            match layer {
                Some(found) => Some(found@) == self@.active_layer(),
                None => self@.active_layer() is None,
            },
    {
        self.layers.get_active_layer()
    }

    pub fn get_size(&self) -> (size: (u32, u32))
        ensures
            size == self@.size,
    {
        self.size
    }

    /// How often the display was recomposed; the count stops at the largest
    /// value it can show.
    pub fn recompose_count(&self) -> (count: u64)
        ensures
            count == self@.recompositions,
    {
        self.recompositions
    }

    /// Recomposes the display: clears it, then composites the checkerboard,
    /// the visible layers from the last entry up to the first, and the tool
    /// layer onto it.
    pub fn update_display_canvas(&mut self)
        requires
            old(self).wf(),
        ensures
            final(self).wf(),
            final(self)@ == old(self)@.recomposed(),
    {
        let ghost before = self@;
        self.draw_layer.clear();
        let ghost base = before.display.cleared().under(before.background);
        self.checkers_pattern_layer.apply_to_canvas(&mut self.draw_layer);
        let layers_to_apply = self.layers.visible_layers();
        proof {
            lemma_layered_is_stacked(base, before.entries, 0);
            assert(before.entries.subrange(0, before.entries.len() as int) =~= before.entries);
            assert forall|i: int, p: PixelPos|
                0 <= i < layers_to_apply@.len() && (#[trigger] layers_to_apply@[i]@.defines(
                    p,
                )) implies self.draw_layer@.contains(p) by {
                let j = choose|j: int|
                    0 <= j < self.layers@.len() && layers_to_apply@[i]@ == self.layers@[j].layer;
                assert(dense_frame(before.entries[j].layer, before.size));
            }
        }
        apply_layers(&layers_to_apply, &mut self.draw_layer);
        proof {
            before.lemma_composited_frame();
            self.tool_layer.lemma_view_wf();
        }
        self.tool_layer.apply_to_canvas(&mut self.draw_layer);
        if self.recompositions < u64::MAX {
            self.recompositions = self.recompositions + 1;
        }
        proof {
            self.draw_layer.lemma_view();
            assert(self@ == before.recomposed());
        }
    }

    /// The active layer for writing, if the active id names a layer. What
    /// the borrower leaves in the layer is what the canvas holds afterwards;
    /// the display is not recomposed. A borrower that keeps the layer's size
    /// keeps the canvas well formed.
    pub fn get_active_layer_mut(&mut self) -> (layer: Option<&mut FlatCanvasLayer>)
        ensures
            match layer {
                Some(found) => {
                    &&& old(self)@.active_index() is Some
                    &&& Some(found@) == old(self)@.active_layer()
                    &&& final(self)@ == old(self)@.with_layer(
                        old(self)@.active_index()->0,
                        final(found)@,
                    )
                },
                None => old(self)@.active_index() is None && final(self)@ == old(self)@,
            },
    {
        self.layers.get_active_layer_mut()
    }

    /// The arrangement of the layer stack: every layer's id and visibility
    /// in stack order, and the active id.
    pub fn get_canvas_layers_config(&self) -> (config: CanvasLayersConfig)
        ensures
            self@.has_config(config.entries@, config.active_layer_id),
    {
        let mut entries: Vec<CanvasLayerConfig> = Vec::new();
        let mut i: usize = 0;
        while i < self.layers.entries.len()
            invariant
                i <= self.layers.entries.len(),
                entries@.len() == i,
                forall|k: int| 0 <= k < i ==> #[trigger] entries@[k] == config_of(self@.entries)[k],
            decreases self.layers.entries.len() - i,
        {
            entries.push(self.layers.entries[i].config());
            i = i + 1;
        }
        proof {
            assert(entries@ =~= config_of(self@.entries));
        }
        CanvasLayersConfig { entries, active_layer_id: self.layers.active_layer_id }
    }

    /// Sets the arrangement of the layer stack. A configuration that
    /// describes the stack as it is changes nothing. Any other puts the
    /// layers it names in its order, with those it does not name after them,
    /// gives the layers it names its visibility, sets the active id, and
    /// recomposes the display once.
    pub fn set_canvas_layers_config(&mut self, config: CanvasLayersConfig)
        requires
            old(self).wf(),
        ensures
            final(self).wf(),
            final(self)@ == old(self)@.set_config(config.entries@, config.active_layer_id),
    {
        let ghost before = self@;
        let current = self.get_canvas_layers_config();
        let changed = !(current == config);
        if changed {
            self.layers.active_layer_id = config.active_layer_id;
            rearrange(&mut self.layers.entries, &config.entries);
            let ghost ordered = self.layers.entries@;
            apply_visibility(&mut self.layers.entries, &config.entries);
            proof {
                let after = CanvasView {
                    entries: configured(before.entries, config.entries@),
                    active: config.active_layer_id,
                    ..before
                };
                assert(self@.entries =~= after.entries);
                assert(self@.undo =~= after.undo);
                assert(self@.redo =~= after.redo);
                assert(self@ == after);
                assert forall|i: int| 0 <= i < self@.entries.len() implies dense_frame(
                    (#[trigger] self@.entries[i]).layer,
                    self@.size,
                ) by {
                    let j = choose|j: int|
                        0 <= j < before.entries.len() && ordered[i]
                            == old(self).layers.entries@[j];
                    assert(self@.entries[i].layer == before.entries[j].layer);
                    assert(dense_frame(before.entries[j].layer, before.size));
                }
                assert forall|a: int, b: int| 0 <= a < b < self@.entries.len() implies (
                #[trigger] self@.entries[a]).id != (#[trigger] self@.entries[b]).id by {
                    assert(self@.entries[a].id == entry_views(ordered)[a].id);
                    assert(self@.entries[b].id == entry_views(ordered)[b].id);
                }
            }
            self.update_display_canvas();
        }
    }

    /// A forward edit on the active layer, without recomposing: the colours
    /// the layer holds at the command's positions are captured first, then
    /// the command is written, the capture goes on the undo stack, and a
    /// command with at least one edit empties the redo stack. Without an
    /// active layer nothing happens.
    fn apply_forward(&mut self, command: &EditCommand)
        requires
            old(self).wf(),
            command.fits(old(self)@.size),
        ensures
            final(self).wf(),
            final(self)@ == old(self)@.apply_forward(command.patch()),
    {
        let ghost before = self@;
        proof {
            lemma_command_patch(*command, self.size);
        }
        match self.layers.active_position() {
            Some(index) => {
                proof {
                    lemma_index_of_id(before.entries, before.active, index as int);
                    assert(dense_frame(before.entries[index as int].layer, before.size));
                    lemma_patched_frame(
                        before.entries[index as int].layer,
                        command.patch(),
                        before.size,
                    );
                }
                let reverse = command.reverse(&self.layers.entries[index].layer);
                command.apply(&mut self.layers.entries[index].layer);
                self.undo_stack.push(reverse);
                if command.edits.len() > 0 {
                    self.redo_stack.clear();
                }
                proof {
                    let after = before.apply_forward(command.patch());
                    assert(self@.entries =~= after.entries);
                    assert(self@.undo =~= after.undo);
                    assert(self@.redo =~= after.redo);
                    assert(self@ == after);
                    lemma_updated_ids(
                        before.entries,
                        index as int,
                        before.entries[index as int].layer.patched(command.patch()),
                    );
                }
            },
            None => {},
        }
    }

    /// A forward edit through the command log. With an active layer the
    /// command is applied to it, its reverse goes on the undo stack, a
    /// command with at least one edit empties the redo stack, and the
    /// display is recomposed. Without an active layer nothing happens.
    pub fn apply_command_handle_undo_redo(&mut self, command: &EditCommand)
        requires
            old(self).wf(),
            command.fits(old(self)@.size),
        ensures
            final(self).wf(),
            final(self)@ == old(self)@.edited(command.patch()),
    {
        let ghost before = self@;
        match self.layers.active_position() {
            Some(index) => {
                proof {
                    lemma_index_of_id(before.entries, before.active, index as int);
                }
                self.apply_forward(command);
                self.update_display_canvas();
            },
            None => {},
        }
    }

    /// Takes the latest edit back. With an active layer and a command on
    /// the undo stack: the colours that the command will replace are
    /// captured, the command is written to the active layer, the capture
    /// goes on the redo stack, and the display is recomposed. Otherwise
    /// nothing happens.
    pub fn undo(&mut self)
        requires
            old(self).wf(),
        ensures
            final(self).wf(),
            final(self)@ == old(self)@.undo(),
    {
        let ghost before = self@;
        match self.layers.active_position() {
            Some(index) => {
                proof {
                    lemma_index_of_id(before.entries, before.active, index as int);
                }
                if self.undo_stack.len() > 0 {
                    let command = self.undo_stack.pop().unwrap();
                    proof {
                        assert(command.patch() == before.undo.last());
                        assert(patch_within(before.undo[before.undo.len() - 1], before.size));
                        lemma_command_patch(command, before.size);
                        assert(dense_frame(before.entries[index as int].layer, before.size));
                        lemma_patched_frame(
                            before.entries[index as int].layer,
                            command.patch(),
                            before.size,
                        );
                    }
                    let reverse = command.reverse(&self.layers.entries[index].layer);
                    self.redo_stack.push(reverse);
                    command.apply(&mut self.layers.entries[index].layer);
                    proof {
                        let layer = before.entries[index as int].layer;
                        let patch = before.undo.last();
                        let after = CanvasView {
                            undo: before.undo.drop_last(),
                            redo: before.redo.push(layer.captured(patch)),
                            ..before.with_layer(index as int, layer.patched(patch))
                        };
                        assert(self@.entries =~= after.entries);
                        assert(self@.undo =~= after.undo);
                        assert(self@.redo =~= after.redo);
                        assert(self@ == after);
                        lemma_updated_ids(before.entries, index as int, layer.patched(patch));
                    }
                    self.update_display_canvas();
                }
            },
            None => {},
        }
    }

    /// Brings the latest undone edit back: as `undo`, with the two stacks
    /// in each other's place.
    pub fn redo(&mut self)
        requires
            old(self).wf(),
        ensures
            final(self).wf(),
            final(self)@ == old(self)@.redo(),
    {
        let ghost before = self@;
        match self.layers.active_position() {
            Some(index) => {
                proof {
                    lemma_index_of_id(before.entries, before.active, index as int);
                }
                if self.redo_stack.len() > 0 {
                    let command = self.redo_stack.pop().unwrap();
                    proof {
                        assert(command.patch() == before.redo.last());
                        assert(patch_within(before.redo[before.redo.len() - 1], before.size));
                        lemma_command_patch(command, before.size);
                        assert(dense_frame(before.entries[index as int].layer, before.size));
                        lemma_patched_frame(
                            before.entries[index as int].layer,
                            command.patch(),
                            before.size,
                        );
                    }
                    let reverse = command.reverse(&self.layers.entries[index].layer);
                    self.undo_stack.push(reverse);
                    command.apply(&mut self.layers.entries[index].layer);
                    proof {
                        let layer = before.entries[index as int].layer;
                        let patch = before.redo.last();
                        let after = CanvasView {
                            redo: before.redo.drop_last(),
                            undo: before.undo.push(layer.captured(patch)),
                            ..before.with_layer(index as int, layer.patched(patch))
                        };
                        assert(self@.entries =~= after.entries);
                        assert(self@.undo =~= after.undo);
                        assert(self@.redo =~= after.redo);
                        assert(self@ == after);
                        lemma_updated_ids(before.entries, index as int, layer.patched(patch));
                    }
                    self.update_display_canvas();
                }
            },
            None => {},
        }
    }

    /// Starts a stroke: the tool clears the tool layer and resets its memory.
    /// The display is left as it is.
    pub fn stroke_start<T: PaintTool + ?Sized>(&mut self, global_params: &GlobalParams, tool: &mut T)
        requires
            old(self).wf(),
            global_params.current_pixel matches Some(p) ==> p.within(old(self)@.size),
        ensures
            final(self).wf(),
            final(self)@ == old(self)@.stroke_started(),
            final(tool).spec_name() == old(tool).spec_name(),
            final(tool).remembered() == old(tool).start_memory(*global_params),
            final(tool).remembered() matches Some(q) ==> q.within(old(self)@.size),
    {
        let ghost before = self@;
        tool.stroke_start(global_params, &mut self.tool_layer);
        proof {
            self.tool_layer.lemma_view();
            assert(self@.entries == before.entries);
            assert(self@.display == before.display);
            assert(self@.undo == before.undo);
            assert(self@ == before.with_tool(before.tool.cleared()));
        }
    }

    /// Moves a stroke on: the tool paints its preview into the tool layer,
    /// and the display is recomposed.
    pub fn stroke_update<T: PaintTool + ?Sized>(&mut self, global_params: &GlobalParams, tool: &mut T)
        requires
            old(self).wf(),
            global_params.target().within(old(self)@.size),
            old(tool).remembered() matches Some(q) ==> q.within(old(self)@.size),
        ensures
            final(self).wf(),
            final(self)@ == old(self)@.stroke_updated(
                old(tool).update_layer(*global_params, old(self)@.tool),
            ),
            final(tool).spec_name() == old(tool).spec_name(),
            final(tool).remembered() == old(tool).update_memory(*global_params),
            final(tool).remembered() matches Some(q) ==> q.within(old(self)@.size),
    {
        let ghost before = self@;
        tool.stroke_update(global_params, &mut self.tool_layer);
        proof {
            self.tool_layer.lemma_view();
            assert(self@.entries == before.entries);
            assert(self@.display == before.display);
            assert(self@.undo == before.undo);
            assert(self@ == before.with_tool(self.tool_layer@));
        }
        self.update_display_canvas();
    }

    /// Ends a stroke: the tool hands out the stroke's edits, if any, and
    /// clears the tool layer; the edits are applied to the active layer as
    /// one command through the command log; the display is recomposed.
    pub fn stroke_end<T: PaintTool + ?Sized>(&mut self, global_params: &GlobalParams, tool: &mut T)
        requires
            old(self).wf(),
            global_params.target().within(old(self)@.size),
            old(tool).remembered() matches Some(q) ==> q.within(old(self)@.size),
        ensures
            final(self).wf(),
            final(self)@ == old(self)@.stroke_ended(
                old(tool).end_patch(*global_params, old(self)@.tool),
            ),
            final(tool).spec_name() == old(tool).spec_name(),
            final(tool).remembered() is None,
    {
        let ghost before = self@;
        let command = tool.stroke_end(global_params, &mut self.tool_layer);
        proof {
            self.tool_layer.lemma_view();
            assert(self@.entries == before.entries);
            assert(self@.display == before.display);
            assert(self@.undo == before.undo);
            assert(self@ == before.with_tool(before.tool.cleared()));
        }
        match command {
            Some(command) => {
                self.apply_forward(&command);
            },
            None => {},
        }
        self.update_display_canvas();
    }
}

/// Replacing the layer of one entry keeps the ids of a stack.
pub proof fn lemma_updated_ids(entries: Seq<EntryView>, i: int, layer: LayerView)
    requires
        0 <= i < entries.len(),
        unique_ids(entries),
    ensures
        unique_ids(
            entries.update(
                i,
                EntryView { id: entries[i].id, layer, visible: entries[i].visible },
            ),
        ),
{
    let updated = entries.update(
        i,
        EntryView { id: entries[i].id, layer, visible: entries[i].visible },
    );
    assert forall|a: int, b: int| 0 <= a < b < updated.len() implies (#[trigger] updated[a]).id != (
    #[trigger] updated[b]).id by {
        assert(updated[a].id == entries[a].id);
        assert(updated[b].id == entries[b].id);
    }
}

} // verus!
