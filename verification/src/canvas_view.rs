use vstd::prelude::*;
use crate::data_types::{Color, PixelPos};
use crate::layer_config::{CanvasLayerConfig, LayerId};
use crate::layer_view::LayerView;
use crate::utils::checkers_color;

verus! {

/// A patch: positions with the colours to set there.
pub type Patch = Map<PixelPos, Color>;

/// The content of one entry of a layer stack.
pub struct EntryView {
    pub id: LayerId,
    pub layer: LayerView,
    pub visible: bool,
}

/// Whether a layer is a well-formed dense layer of the given size.
pub open spec fn dense_frame(layer: LayerView, size: (u32, u32)) -> bool {
    layer.size == size && layer.dense && layer.wf()
}

/// Whether a patch touches only pixels inside a frame of the given size.
pub open spec fn patch_within(patch: Patch, size: (u32, u32)) -> bool {
    forall|p: PixelPos| #[trigger] patch.contains_key(p) ==> p.within(size)
}

/// Whether some entry of the stack has the given id.
pub open spec fn has_id(entries: Seq<EntryView>, id: LayerId) -> bool {
    exists|i: int| 0 <= i < entries.len() && (#[trigger] entries[i]).id == id
}

/// Whether `i` is the place of the first entry with the given id.
pub open spec fn is_first_with_id(entries: Seq<EntryView>, id: LayerId, i: int) -> bool {
    &&& 0 <= i < entries.len()
    &&& entries[i].id == id
    &&& forall|j: int| 0 <= j < i ==> (#[trigger] entries[j]).id != id
}

/// The place of the first entry with the given id.
pub open spec fn index_of_id(entries: Seq<EntryView>, id: LayerId) -> int {
    choose|i: int| is_first_with_id(entries, id, i)
}

/// Whether no two entries share an id.
pub open spec fn unique_ids(entries: Seq<EntryView>) -> bool {
    forall|i: int, j: int|
        0 <= i < j < entries.len() ==> (#[trigger] entries[i]).id != (#[trigger] entries[j]).id
}

/// An id that occurs in a stack has a first place there, and only one.
pub proof fn lemma_index_of_id(entries: Seq<EntryView>, id: LayerId, i: int)
    requires
        is_first_with_id(entries, id, i),
    ensures
        has_id(entries, id),
        index_of_id(entries, id) == i,
{
    let chosen = index_of_id(entries, id);
    assert(is_first_with_id(entries, id, chosen));
    if chosen < i {
        assert(entries[chosen].id != id);
    }
    if i < chosen {
        assert(entries[i].id != id);
    }
}

/// Where an id occurs, its first place is found below any of its places.
pub proof fn lemma_has_id_first(entries: Seq<EntryView>, id: LayerId)
    requires
        has_id(entries, id),
    ensures
        is_first_with_id(entries, id, index_of_id(entries, id)),
{
    let some = choose|i: int| 0 <= i < entries.len() && (#[trigger] entries[i]).id == id;
    lemma_first_below(entries, id, some);
}

proof fn lemma_first_below(entries: Seq<EntryView>, id: LayerId, bound: int)
    requires
        0 <= bound < entries.len(),
        entries[bound].id == id,
    ensures
        exists|i: int| is_first_with_id(entries, id, i),
    decreases bound,
{
    if exists|j: int| 0 <= j < bound && (#[trigger] entries[j]).id == id {
        let j = choose|j: int| 0 <= j < bound && (#[trigger] entries[j]).id == id;
        lemma_first_below(entries, id, j);
    } else {
        assert(is_first_with_id(entries, id, bound));
    }
}

/// The layers of a stack composited onto a base. The first entry of the
/// stack is the topmost layer: compositing runs from the last entry to the
/// first and skips the entries that are not visible.
pub open spec fn stacked(base: LayerView, entries: Seq<EntryView>) -> LayerView
    decreases entries.len(),
{
    if entries.len() == 0 {
        base
    } else {
        let below = stacked(base, entries.drop_first());
        if entries[0].visible {
            below.under(entries[0].layer)
        } else {
            below
        }
    }
}

/// A stack of layers of one size composited onto a dense base of that size
/// is again a dense layer of that size.
pub proof fn lemma_stacked_frame(base: LayerView, entries: Seq<EntryView>, size: (u32, u32))
    requires
        dense_frame(base, size),
        forall|i: int| 0 <= i < entries.len() ==> dense_frame((#[trigger] entries[i]).layer, size),
    ensures
        dense_frame(stacked(base, entries), size),
    decreases entries.len(),
{
    if entries.len() > 0 {
        let rest = entries.drop_first();
        assert forall|i: int| 0 <= i < rest.len() implies dense_frame(
            (#[trigger] rest[i]).layer,
            size,
        ) by {
            assert(rest[i] == entries[i + 1]);
        }
        lemma_stacked_frame(base, rest, size);
        assert(dense_frame(entries[0].layer, size));
        stacked(base, rest).lemma_under_frame(entries[0].layer);
    }
}

/// Writing a patch inside the frame to a dense layer leaves a dense layer
/// of the same size, and what it replaces is again a patch inside the frame.
pub proof fn lemma_patched_frame(layer: LayerView, patch: Patch, size: (u32, u32))
    requires
        dense_frame(layer, size),
        patch_within(patch, size),
    ensures
        dense_frame(layer.patched(patch), size),
        patch_within(layer.captured(patch), size),
        layer.patched(patch).patched(layer.captured(patch)) == layer,
        layer.patched(patch).captured(layer.captured(patch)) == patch,
{
    assert(layer.patched(patch).patched(layer.captured(patch)).pixels =~= layer.pixels);
    assert(layer.patched(patch).captured(layer.captured(patch)) =~= patch);
}

/// Whether a configuration names the given id.
pub open spec fn names(config: Seq<CanvasLayerConfig>, id: LayerId) -> bool {
    exists|k: int| 0 <= k < config.len() && (#[trigger] config[k]).id == id
}

/// Whether line `k` of a configuration is the last one that names its id.
pub open spec fn names_last_at(config: Seq<CanvasLayerConfig>, k: int) -> bool {
    forall|m: int| k < m < config.len() ==> (#[trigger] config[m]).id != config[k].id
}

/// Whether line `k` of a configuration is the first one that names `id`.
pub open spec fn names_first_at(config: Seq<CanvasLayerConfig>, id: LayerId, k: int) -> bool {
    &&& 0 <= k < config.len()
    &&& config[k].id == id
    &&& forall|m: int| 0 <= m < k ==> (#[trigger] config[m]).id != id
}

/// The entries that the first `k` lines of a configuration put in place, in
/// the order of the lines: a line counts if it is the last to name its id
/// and the stack has an entry of that id.
pub open spec fn picked(entries: Seq<EntryView>, config: Seq<CanvasLayerConfig>, k: int) -> Seq<
    EntryView,
>
    decreases k,
{
    if k <= 0 {
        Seq::empty()
    } else {
        let before = picked(entries, config, k - 1);
        if names_last_at(config, k - 1) && has_id(entries, config[k - 1].id) {
            before.push(entries[index_of_id(entries, config[k - 1].id)])
        } else {
            before
        }
    }
}

/// Those of the first `n` entries of a stack that a configuration does not
/// name, in their order in the stack.
pub open spec fn unmentioned(entries: Seq<EntryView>, config: Seq<CanvasLayerConfig>, n: int) -> Seq<
    EntryView,
>
    decreases n,
{
    if n <= 0 {
        Seq::empty()
    } else {
        let before = unmentioned(entries, config, n - 1);
        if names(config, entries[n - 1].id) {
            before
        } else {
            before.push(entries[n - 1])
        }
    }
}

/// A stack in the order of a configuration: first the entries the
/// configuration names, in its order (ids it names that the stack lacks are
/// passed over), then the entries it does not name, in their old order.
pub open spec fn rearranged(entries: Seq<EntryView>, config: Seq<CanvasLayerConfig>) -> Seq<
    EntryView,
> {
    picked(entries, config, config.len() as int) + unmentioned(
        entries,
        config,
        entries.len() as int,
    )
}

/// The visibility a configuration gives an entry: that of the first line
/// naming the entry's id, or the entry's own where no line names it.
pub open spec fn configured_visible(entry: EntryView, config: Seq<CanvasLayerConfig>) -> bool {
    if names(config, entry.id) {
        config[choose|k: int| names_first_at(config, entry.id, k)].visible
    } else {
        entry.visible
    }
}

/// An entry with the visibility a configuration gives it.
pub open spec fn configured_entry(entry: EntryView, config: Seq<CanvasLayerConfig>) -> EntryView {
    EntryView { id: entry.id, layer: entry.layer, visible: configured_visible(entry, config) }
}

/// A stack after a configuration was applied: rearranged, and every entry
/// with its configured visibility.
pub open spec fn configured(entries: Seq<EntryView>, config: Seq<CanvasLayerConfig>) -> Seq<
    EntryView,
> {
    let order = rearranged(entries, config);
    Seq::new(order.len(), |i: int| configured_entry(order[i], config))
}

/// The configuration that describes a stack.
pub open spec fn config_of(entries: Seq<EntryView>) -> Seq<CanvasLayerConfig> {
    Seq::new(
        entries.len(),
        |i: int| CanvasLayerConfig { id: entries[i].id, visible: entries[i].visible },
    )
}

/// A recomposition count one higher, held at the largest value the counter
/// can show.
pub open spec fn bumped(count: nat) -> nat {
    if count < u64::MAX {
        count + 1
    } else {
        count
    }
}

/// The side length of the background's checkerboard tiles, in pixels.
pub const CHECKERS_GRID: usize = 10;

/// The light tile colour of the background.
pub open spec fn checkers_light() -> Color {
    Color { red: 225, green: 225, blue: 225, alpha: 255 }
}

/// The dark tile colour of the background.
pub open spec fn checkers_dark() -> Color {
    Color { red: 200, green: 200, blue: 200, alpha: 255 }
}

/// The background of a canvas: an opaque checkerboard.
pub open spec fn checkers_layer(size: (u32, u32), grid_len: usize) -> LayerView {
    LayerView {
        size,
        dense: true,
        pixels: Map::new(
            |p: PixelPos| p.within(size),
            |p: PixelPos| checkers_color(p, grid_len, checkers_light(), checkers_dark()),
        ),
    }
}

/// Whether a stack can be the layers of a canvas of the given size: every
/// layer is a dense layer of that size, and no id occurs twice.
pub open spec fn stack_fits(entries: Seq<EntryView>, size: (u32, u32)) -> bool {
    &&& forall|i: int| 0 <= i < entries.len() ==> dense_frame((#[trigger] entries[i]).layer, size)
    &&& unique_ids(entries)
}

/// The content of a canvas.
pub struct CanvasView {
    /// Width and height of every layer.
    pub size: (u32, u32),
    /// The checkerboard under all layers.
    pub background: LayerView,
    /// The layer stack; the first entry is the topmost layer.
    pub entries: Seq<EntryView>,
    /// The id of the layer that edits go to.
    pub active: LayerId,
    /// The preview of the stroke in progress.
    pub tool: LayerView,
    /// What is shown: the composite as of the last recomposition.
    pub display: LayerView,
    /// The patches that take edits back, the latest last.
    pub undo: Seq<Patch>,
    /// The patches that bring undone edits back, the latest last.
    pub redo: Seq<Patch>,
    /// How often the display was recomposed.
    pub recompositions: nat,
}

impl CanvasView {
    /// All layers have the canvas's size and kind, ids are unique, and the
    /// history touches only pixels of the canvas.
    pub open spec fn wf(self) -> bool {
        &&& self.size.0 * self.size.1 <= usize::MAX
        &&& dense_frame(self.background, self.size)
        &&& dense_frame(self.display, self.size)
        &&& self.tool.size == self.size
        &&& !self.tool.dense
        &&& self.tool.wf()
        &&& forall|i: int|
            0 <= i < self.entries.len() ==> dense_frame((#[trigger] self.entries[i]).layer, self.size)
        &&& unique_ids(self.entries)
        &&& forall|i: int| 0 <= i < self.undo.len() ==> patch_within(#[trigger] self.undo[i], self.size)
        &&& forall|i: int| 0 <= i < self.redo.len() ==> patch_within(#[trigger] self.redo[i], self.size)
        &&& self.recompositions <= u64::MAX
    }

    /// A new canvas over the given stack: the checkerboard under it, no
    /// stroke in progress, no history, and the display composed once.
    pub open spec fn assembled(size: (u32, u32), entries: Seq<EntryView>, active: LayerId) -> CanvasView {
        CanvasView {
            size,
            background: checkers_layer(size, CHECKERS_GRID),
            entries,
            active,
            tool: LayerView::blank(size),
            display: LayerView::uniform(size, Color::neutral()),
            undo: Seq::empty(),
            redo: Seq::empty(),
            recompositions: 0,
        }.recomposed()
    }

    /// The place of the active layer in the stack, if the active id names one.
    pub open spec fn active_index(self) -> Option<int> {
        if has_id(self.entries, self.active) {
            Some(index_of_id(self.entries, self.active))
        } else {
            None
        }
    }

    /// The active layer, if the active id names one.
    pub open spec fn active_layer(self) -> Option<LayerView> {
        match self.active_index() {
            Some(i) => Some(self.entries[i].layer),
            None => None,
        }
    }

    /// The composite of everything: a cleared frame, the background on it,
    /// the visible layers from the last entry up to the first, and the tool
    /// layer on top.
    pub open spec fn composited(self) -> LayerView {
        stacked(
            LayerView::uniform(self.size, Color::spec_white()).under(self.background),
            self.entries,
        ).under(self.tool)
    }

    /// The composite of a well-formed canvas is a dense layer of its size.
    pub proof fn lemma_composited_frame(self)
        requires
            self.wf(),
        ensures
            dense_frame(self.composited(), self.size),
            dense_frame(
                stacked(
                    LayerView::uniform(self.size, Color::spec_white()).under(self.background),
                    self.entries,
                ),
                self.size,
            ),
    {
        let cleared = LayerView::uniform(self.size, Color::spec_white());
        cleared.lemma_under_frame(self.background);
        lemma_stacked_frame(cleared.under(self.background), self.entries, self.size);
        stacked(cleared.under(self.background), self.entries).lemma_under_frame(self.tool);
    }

    /// Whether the display shows the current composite.
    pub open spec fn fresh(self) -> bool {
        self.display == self.composited()
    }

    /// The canvas after a recomposition.
    pub open spec fn recomposed(self) -> CanvasView {
        CanvasView {
            display: self.composited(),
            recompositions: bumped(self.recompositions),
            ..self
        }
    }

    /// The canvas with another tool layer.
    pub open spec fn with_tool(self, tool: LayerView) -> CanvasView {
        CanvasView { tool, ..self }
    }

    /// The canvas with the layer at place `i` replaced.
    pub open spec fn with_layer(self, i: int, layer: LayerView) -> CanvasView {
        CanvasView {
            entries: self.entries.update(
                i,
                EntryView { id: self.entries[i].id, layer, visible: self.entries[i].visible },
            ),
            ..self
        }
    }

    /// The canvas after a forward edit, before the display is recomposed.
    /// With an active layer: the patch is written to it, the colours it held
    /// at the patch's positions go on the undo stack, and a patch that
    /// touches any pixel empties the redo stack. Without one: nothing.
    pub open spec fn apply_forward(self, patch: Patch) -> CanvasView {
        match self.active_index() {
            Some(i) => {
                let layer = self.entries[i].layer;
                CanvasView {
                    undo: self.undo.push(layer.captured(patch)),
                    redo: if patch == Map::<PixelPos, Color>::empty() {
                        self.redo
                    } else {
                        Seq::empty()
                    },
                    ..self.with_layer(i, layer.patched(patch))
                }
            },
            None => self,
        }
    }

    /// The canvas after a forward edit through the command log: the edit
    /// and a recomposition with an active layer, nothing without one.
    pub open spec fn edited(self, patch: Patch) -> CanvasView {
        match self.active_index() {
            Some(i) => self.apply_forward(patch).recomposed(),
            None => self,
        }
    }

    /// The canvas after an undo. With an active layer and a patch on the
    /// undo stack: the patch is taken off and written to the active layer,
    /// the colours it replaces go on the redo stack, and the display is
    /// recomposed. Otherwise: nothing.
    pub open spec fn undo(self) -> CanvasView {
        match self.active_index() {
            Some(i) => if self.undo.len() > 0 {
                let layer = self.entries[i].layer;
                let patch = self.undo.last();
                CanvasView {
                    undo: self.undo.drop_last(),
                    redo: self.redo.push(layer.captured(patch)),
                    ..self.with_layer(i, layer.patched(patch))
                }.recomposed()
            } else {
                self
            },
            None => self,
        }
    }

    /// The canvas after a redo: as an undo, with the two stacks in each
    /// other's place.
    pub open spec fn redo(self) -> CanvasView {
        match self.active_index() {
            Some(i) => if self.redo.len() > 0 {
                let layer = self.entries[i].layer;
                let patch = self.redo.last();
                CanvasView {
                    redo: self.redo.drop_last(),
                    undo: self.undo.push(layer.captured(patch)),
                    ..self.with_layer(i, layer.patched(patch))
                }.recomposed()
            } else {
                self
            },
            None => self,
        }
    }

    /// The canvas after a stroke started: the tool layer is cleared; the
    /// display is left as it is.
    pub open spec fn stroke_started(self) -> CanvasView {
        self.with_tool(self.tool.cleared())
    }

    /// The canvas after a stroke moved: the tool layer holds the tool's
    /// preview and the display is recomposed.
    pub open spec fn stroke_updated(self, preview: LayerView) -> CanvasView {
        self.with_tool(preview).recomposed()
    }

    /// The canvas after a stroke ended: the tool layer is cleared, the
    /// stroke's edits, if it yields any, are applied as one forward edit,
    /// and the display is recomposed.
    pub open spec fn stroke_ended(self, edits: Option<Patch>) -> CanvasView {
        let idle = self.with_tool(self.tool.cleared());
        match edits {
            Some(patch) => idle.apply_forward(patch).recomposed(),
            None => idle.recomposed(),
        }
    }

    /// Replacing a layer by a dense layer of the canvas's size keeps the
    /// canvas well formed.
    pub proof fn lemma_with_layer_wf(self, i: int, layer: LayerView)
        requires
            self.wf(),
            0 <= i < self.entries.len(),
            dense_frame(layer, self.size),
        ensures
            self.with_layer(i, layer).wf(),
    {
        let after = self.with_layer(i, layer);
        assert forall|a: int, b: int| 0 <= a < b < after.entries.len() implies (
        #[trigger] after.entries[a]).id != (#[trigger] after.entries[b]).id by {
            assert(after.entries[a].id == self.entries[a].id);
            assert(after.entries[b].id == self.entries[b].id);
        }
        assert forall|k: int| 0 <= k < after.entries.len() implies dense_frame(
            (#[trigger] after.entries[k]).layer,
            after.size,
        ) by {
            if k != i {
                assert(after.entries[k] == self.entries[k]);
            }
        }
    }

    /// Whether a configuration describes the canvas as it is.
    pub open spec fn has_config(self, config: Seq<CanvasLayerConfig>, active: LayerId) -> bool {
        config == config_of(self.entries) && active == self.active
    }

    /// The canvas after a configuration was set. One that describes the
    /// canvas as it is changes nothing, not even the recomposition count;
    /// any other rearranges the stack, sets visibility and the active layer,
    /// and recomposes the display once.
    pub open spec fn set_config(self, config: Seq<CanvasLayerConfig>, active: LayerId) -> CanvasView {
        if self.has_config(config, active) {
            self
        } else {
            CanvasView { entries: configured(self.entries, config), active, ..self }.recomposed()
        }
    }
}

} // verus!
