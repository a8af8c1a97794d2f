use vstd::prelude::*;
use crate::canvas::Canvas;
use crate::data_types::{GlobalParams, PixelPos};
use crate::paint_tool::PaintTool;

verus! {

/// A step in the life of a stroke.
#[derive(Debug, Clone, Copy, PartialEq, Eq, Structural)]
pub enum StrokeEvent {
    /// The button went down inside the canvas: a stroke begins.
    Start,
    /// The button is held inside the canvas: the stroke moves on.
    Update,
    /// The button was released or the pointer left: the stroke is over.
    End,
}

/// What an input sample means for the tool. With no stroke under way, a
/// pressed button inside the canvas starts one and anything else means
/// nothing. With a stroke under way, a pressed button inside the canvas
/// moves it on and anything else ends it.
pub open spec fn stroke_event(started: bool, cursor_in_canvas: bool, primary_button: bool) -> Option<
    StrokeEvent,
> {
    if started {
        if cursor_in_canvas && primary_button {
            Some(StrokeEvent::Update)
        } else {
            Some(StrokeEvent::End)
        }
    } else if cursor_in_canvas && primary_button {
        Some(StrokeEvent::Start)
    } else {
        None
    }
}

/// Whether a stroke is under way after an input sample.
pub open spec fn stroking_after(started: bool, event: Option<StrokeEvent>) -> bool {
    match event {
        Some(StrokeEvent::Start) => true,
        Some(StrokeEvent::Update) => true,
        Some(StrokeEvent::End) => false,
        None => started,
    }
}

/// A stroke is under way after a sample exactly if the button is down
/// inside the canvas.
pub proof fn lemma_stroking_follows_button(
    started: bool,
    cursor_in_canvas: bool,
    primary_button: bool,
)
    ensures
        stroking_after(started, stroke_event(started, cursor_in_canvas, primary_button)) == (
        cursor_in_canvas && primary_button),
{
}

/// What an input sample means for the tool.
pub fn next_stroke_event(started: bool, cursor_in_canvas: bool, primary_button: bool) -> (event:
    Option<StrokeEvent>)
    ensures
        event == stroke_event(started, cursor_in_canvas, primary_button),
{
    if cursor_in_canvas && !started && primary_button {
        Some(StrokeEvent::Start)
    } else if started {
        if cursor_in_canvas && primary_button {
            Some(StrokeEvent::Update)
        } else {
            Some(StrokeEvent::End)
        }
    } else {
        None
    }
}

/// Drives a tool with one input sample: starts, moves on or ends a stroke
/// on the canvas as the sample demands, and keeps track of whether a stroke
/// is under way.
pub fn handle_tool_events<T: PaintTool + ?Sized>(
    canvas: &mut Canvas,
    global_params: &GlobalParams,
    tool: &mut T,
    tool_button_started: &mut bool,
    primary_button: bool,
)
    requires
        old(canvas).wf(),
        global_params.current_pixel matches Some(p) ==> p.within(old(canvas)@.size),
        *old(tool_button_started) ==> PixelPos::origin().within(old(canvas)@.size),
        old(tool).remembered() matches Some(q) ==> q.within(old(canvas)@.size),
    ensures
        final(canvas).wf(),
        *final(tool_button_started) == stroking_after(
            *old(tool_button_started),
            stroke_event(*old(tool_button_started), global_params.cursor_in_canvas, primary_button),
        ),
        final(tool).spec_name() == old(tool).spec_name(),
        final(tool).remembered() matches Some(q) ==> q.within(old(canvas)@.size),
        match stroke_event(
            *old(tool_button_started),
            global_params.cursor_in_canvas,
            primary_button,
        ) {
            Some(StrokeEvent::Start) => {
                &&& final(canvas)@ == old(canvas)@.stroke_started()
                &&& final(tool).remembered() == old(tool).start_memory(*global_params)
            },
            Some(StrokeEvent::Update) => {
                &&& final(canvas)@ == old(canvas)@.stroke_updated(
                    old(tool).update_layer(*global_params, old(canvas)@.tool),
                )
                &&& final(tool).remembered() == old(tool).update_memory(*global_params)
            },
            Some(StrokeEvent::End) => {
                &&& final(canvas)@ == old(canvas)@.stroke_ended(
                    old(tool).end_patch(*global_params, old(canvas)@.tool),
                )
                &&& final(tool).remembered() is None
            },
            None => final(canvas)@ == old(canvas)@ && final(tool).remembered() == old(
                tool,
            ).remembered(),
        },
{
    match next_stroke_event(*tool_button_started, global_params.cursor_in_canvas, primary_button) {
        Some(StrokeEvent::Start) => {
            canvas.stroke_start(global_params, tool);
            *tool_button_started = true;
        },
        Some(StrokeEvent::Update) => {
            canvas.stroke_update(global_params, tool);
        },
        Some(StrokeEvent::End) => {
            canvas.stroke_end(global_params, tool);
            *tool_button_started = false;
        },
        None => {},
    }
}

} // verus!
