use vstd::prelude::*;
use crate::canvas_layer::{CanvasLayer, HashMapCanvasLayer};
use crate::data_types::{Color, GlobalParams, PixelPos};
use crate::edit_command::{lemma_patch_of_keys, lemma_patch_of_unique, EditCommand};
use crate::layer_view::LayerView;
use crate::utils::{
    draw_line, lemma_line_distinct, lemma_line_within, line_points, rasterize_line, solid_patch,
};

verus! {

/// A paint tool: it is told when a stroke starts, moves and ends, paints a
/// preview of the stroke into the sparse tool layer, and hands out the
/// stroke's edits when the stroke ends.
///
/// What each call does is given by the tool's own spec functions, so that a
/// caller who knows only the trait still knows the outcome exactly.
pub trait PaintTool {
    /// The tool's name.
    spec fn spec_name(&self) -> Seq<char>;

    /// The pixel the tool remembers between calls of one stroke.
    spec fn remembered(&self) -> Option<PixelPos>;

    /// The pixel remembered after a stroke started.
    spec fn start_memory(&self, params: GlobalParams) -> Option<PixelPos>;

    /// The pixel remembered after a stroke moved.
    spec fn update_memory(&self, params: GlobalParams) -> Option<PixelPos>;

    /// The tool layer after a stroke moved.
    spec fn update_layer(&self, params: GlobalParams, layer: LayerView) -> LayerView;

    /// The edits a stroke is finished with, if it yields any.
    spec fn end_patch(&self, params: GlobalParams, layer: LayerView) -> Option<
        Map<PixelPos, Color>,
    >;

    fn get_name(&self) -> (name: &str)
        ensures
            name@ == self.spec_name(),
    ;

    /// Starts a stroke: the tool layer is cleared and the tool's memory set
    /// for the new stroke.
    fn stroke_start(&mut self, global_params: &GlobalParams, tool_canvas: &mut HashMapCanvasLayer)
        requires
            global_params.current_pixel matches Some(p) ==> old(tool_canvas)@.contains(p),
        ensures
            final(self).spec_name() == old(self).spec_name(),
            final(self).remembered() == old(self).start_memory(*global_params),
            final(self).remembered() matches Some(q) ==> old(tool_canvas)@.contains(q),
            final(tool_canvas)@ == old(tool_canvas)@.cleared(),
    ;

    /// Moves a stroke on to the pointer's position and paints its preview.
    fn stroke_update(&mut self, global_params: &GlobalParams, tool_canvas: &mut HashMapCanvasLayer)
        requires
            old(tool_canvas)@.contains(global_params.target()),
            old(self).remembered() matches Some(q) ==> old(tool_canvas)@.contains(q),
        ensures
            final(self).spec_name() == old(self).spec_name(),
            final(self).remembered() == old(self).update_memory(*global_params),
            final(self).remembered() matches Some(q) ==> old(tool_canvas)@.contains(q),
            final(tool_canvas)@ == old(self).update_layer(*global_params, old(tool_canvas)@),
            final(tool_canvas)@.size == old(tool_canvas)@.size,
    ;

    /// Ends a stroke: hands out its edits, if any, each position once, and
    /// leaves the tool layer and the tool's memory empty.
    fn stroke_end(
        &mut self,
        global_params: &GlobalParams,
        tool_canvas: &mut HashMapCanvasLayer,
    ) -> (command: Option<EditCommand>)
        requires
            old(tool_canvas)@.contains(global_params.target()),
            old(self).remembered() matches Some(q) ==> old(tool_canvas)@.contains(q),
        ensures
            final(self).spec_name() == old(self).spec_name(),
            final(self).remembered() is None,
            final(tool_canvas)@ == old(tool_canvas)@.cleared(),
            command is Some <==> old(self).end_patch(*global_params, old(tool_canvas)@) is Some,
            command matches Some(c) ==> {
                &&& Some(c.patch()) == old(self).end_patch(*global_params, old(tool_canvas)@)
                &&& c.unique_positions()
                &&& c.fits(old(tool_canvas)@.size)
            },
    ;
}

/// The freehand pencil: every move of the stroke draws a line from the
/// previous pointer position to the current one.
pub struct PixelPencil {
    previous_point: Option<PixelPos>,
}

impl PixelPencil {
    pub fn new() -> (tool: PixelPencil)
        ensures
            tool.remembered() is None,
    {
        PixelPencil { previous_point: None }
    }
}

impl PaintTool for PixelPencil {
    open spec fn spec_name(&self) -> Seq<char> {
        "Pencil"@
    }

    closed spec fn remembered(&self) -> Option<PixelPos> {
        self.previous_point
    }

    /// A new stroke has no previous position.
    open spec fn start_memory(&self, params: GlobalParams) -> Option<PixelPos> {
        None
    }

    /// The pointer's pixel becomes the previous position; it is forgotten
    /// while the pointer is away.
    open spec fn update_memory(&self, params: GlobalParams) -> Option<PixelPos> {
        params.current_pixel
    }

    /// The first move of a stroke paints nothing; every later one adds the
    /// line from the previous position in the primary colour.
    open spec fn update_layer(&self, params: GlobalParams, layer: LayerView) -> LayerView {
        match self.remembered() {
            Some(previous) => layer.patched(
                solid_patch(line_points(previous, params.target()).to_set(), params.primary_color),
            ),
            None => layer,
        }
    }

    /// The stroke's edits are the painted pixels of the tool layer.
    open spec fn end_patch(&self, params: GlobalParams, layer: LayerView) -> Option<
        Map<PixelPos, Color>,
    > {
        Some(layer.pixels)
    }

    fn get_name(&self) -> (name: &str) {
        "Pencil"
    }

    fn stroke_start(&mut self, global_params: &GlobalParams, tool_canvas: &mut HashMapCanvasLayer) {
        tool_canvas.clear();
        self.previous_point = None;
    }

    fn stroke_update(&mut self, global_params: &GlobalParams, tool_canvas: &mut HashMapCanvasLayer) {
        if let Some(previous_point) = self.previous_point {
            draw_line(
                tool_canvas,
                previous_point,
                global_params.target_pixel(),
                global_params.primary_color,
            );
        }
        self.previous_point = global_params.current_pixel;
    }

    fn stroke_end(
        &mut self,
        global_params: &GlobalParams,
        tool_canvas: &mut HashMapCanvasLayer,
    ) -> (command: Option<EditCommand>) {
        let command = EditCommand { edits: tool_canvas.pixels_iter() };
        proof {
            let layer = tool_canvas@;
            tool_canvas.lemma_view_wf();
            assert forall|p: PixelPos| command.patch().contains_key(p) <==> layer.pixels.contains_key(
                p,
            ) by {
                lemma_patch_of_keys(command.edits@, p);
                if command.patch().contains_key(p) {
                    let i = choose|i: int|
                        0 <= i < command.edits@.len() && (#[trigger] command.edits@[i]).0 == p;
                    assert(layer.defines(command.edits@[i].0));
                }
                if layer.pixels.contains_key(p) {
                    assert(layer.defines(p));
                }
            }
            assert forall|p: PixelPos| command.patch().contains_key(p) implies command.patch()[p]
                == layer.pixels[p] by {
                lemma_patch_of_keys(command.edits@, p);
                let i = choose|i: int|
                    0 <= i < command.edits@.len() && (#[trigger] command.edits@[i]).0 == p;
                lemma_patch_of_unique(command.edits@, i);
            }
            assert(command.patch() =~= layer.pixels);
        }
        tool_canvas.clear();
        self.previous_point = None;
        Some(command)
    }
}

/// The straight-line tool: the stroke's start is the line's anchor, every
/// move previews the line from the anchor to the pointer, and the end
/// commits it.
pub struct LineTool {
    line_start_point: Option<PixelPos>,
}

impl LineTool {
    pub fn new() -> (tool: LineTool)
        ensures
            tool.remembered() is None,
    {
        LineTool { line_start_point: None }
    }
}

/// The edits of a line: its pixels in the order of the line, each with the
/// line's colour.
pub open spec fn line_edits(anchor: PixelPos, target: PixelPos, color: Color) -> Seq<
    (PixelPos, Color),
> {
    Seq::new(line_points(anchor, target).len(), |i: int| (line_points(anchor, target)[i], color))
}

/// The anchor of a line, or the origin where none was taken.
pub open spec fn anchor_or_origin(anchor: Option<PixelPos>) -> PixelPos {
    match anchor {
        Some(p) => p,
        None => PixelPos::origin(),
    }
}

impl PaintTool for LineTool {
    open spec fn spec_name(&self) -> Seq<char> {
        "Line"@
    }

    closed spec fn remembered(&self) -> Option<PixelPos> {
        self.line_start_point
    }

    /// The pointer's pixel becomes the anchor.
    open spec fn start_memory(&self, params: GlobalParams) -> Option<PixelPos> {
        params.current_pixel
    }

    /// The anchor stays where it is.
    open spec fn update_memory(&self, params: GlobalParams) -> Option<PixelPos> {
        self.remembered()
    }

    /// The preview is the line from the anchor to the pointer and nothing
    /// else; without an anchor it starts at the origin.
    open spec fn update_layer(&self, params: GlobalParams, layer: LayerView) -> LayerView {
        layer.cleared().patched(
            solid_patch(
                line_points(anchor_or_origin(self.remembered()), params.target()).to_set(),
                params.primary_color,
            ),
        )
    }

    /// The stroke's edits are the line from the anchor to the pointer; a
    /// stroke without an anchor yields none.
    open spec fn end_patch(&self, params: GlobalParams, layer: LayerView) -> Option<
        Map<PixelPos, Color>,
    > {
        match self.remembered() {
            Some(anchor) => Some(
                solid_patch(line_points(anchor, params.target()).to_set(), params.primary_color),
            ),
            None => None,
        }
    }

    fn get_name(&self) -> (name: &str) {
        "Line"
    }

    fn stroke_start(&mut self, global_params: &GlobalParams, tool_canvas: &mut HashMapCanvasLayer) {
        tool_canvas.clear();
        self.line_start_point = global_params.current_pixel;
    }

    fn stroke_update(&mut self, global_params: &GlobalParams, tool_canvas: &mut HashMapCanvasLayer) {
        let anchor = match self.line_start_point {
            Some(p) => p,
            None => PixelPos { x: 0, y: 0 },
        };
        tool_canvas.clear();
        draw_line(tool_canvas, anchor, global_params.target_pixel(), global_params.primary_color);
    }

    fn stroke_end(
        &mut self,
        global_params: &GlobalParams,
        tool_canvas: &mut HashMapCanvasLayer,
    ) -> (command: Option<EditCommand>)
        ensures
            match (command, old(self).remembered()) {
                (Some(c), Some(anchor)) => c@ == line_edits(
                    anchor,
                    global_params.target(),
                    global_params.primary_color,
                ),
                (None, None) => true,
                _ => false,
            },
    {
        let mut command: Option<EditCommand> = None;
        if let Some(line_start_point) = self.line_start_point {
            let target = global_params.target_pixel();
            let color = global_params.primary_color;
            let pixels = rasterize_line(line_start_point, target);
            let mut edits: Vec<(PixelPos, Color)> = Vec::new();
            let mut i: usize = 0;
            while i < pixels.len()
                invariant
                    i <= pixels.len(),
                    edits@.len() == i,
                    forall|k: int| 0 <= k < i ==> #[trigger] edits@[k] == (pixels@[k], color),
                decreases pixels.len() - i,
            {
                edits.push((pixels[i], color));
                i = i + 1;
            }
            let line = EditCommand { edits };
            proof {
                assert(line@ =~= line_edits(line_start_point, target, color));
                let size = tool_canvas@.size;
                let patch = solid_patch(pixels@.to_set(), color);
                assert forall|k: int, l: int| 0 <= k < l < line.edits@.len() implies (
                #[trigger] line.edits@[k]).0 != (#[trigger] line.edits@[l]).0 by {
                    lemma_line_distinct(line_start_point, target, k, l);
                }
                assert forall|k: int| 0 <= k < line.edits@.len() implies (
                #[trigger] line.edits@[k]).0.within(size) by {
                    lemma_line_within(line_start_point, target, size, k);
                }
                assert forall|p: PixelPos| line.patch().contains_key(p) <==> patch.contains_key(
                    p,
                ) by {
                    lemma_patch_of_keys(line.edits@, p);
                    if line.patch().contains_key(p) {
                        let k = choose|k: int|
                            0 <= k < line.edits@.len() && (#[trigger] line.edits@[k]).0 == p;
                        assert(pixels@[k] == p);
                    }
                    if pixels@.contains(p) {
                        let k = choose|k: int| 0 <= k < pixels@.len() && pixels@[k] == p;
                        assert(line.edits@[k].0 == p);
                    }
                }
                assert forall|p: PixelPos| line.patch().contains_key(p) implies line.patch()[p]
                    == patch[p] by {
                    lemma_patch_of_keys(line.edits@, p);
                    let k = choose|k: int|
                        0 <= k < line.edits@.len() && (#[trigger] line.edits@[k]).0 == p;
                    lemma_patch_of_unique(line.edits@, k);
                }
                assert(line.patch() =~= patch);
            }
            command = Some(line);
        }
        tool_canvas.clear();
        self.line_start_point = None;
        command
    }
}

} // verus!
