use paint_desk::canvas::{Canvas, CanvasLayerEntry, CanvasLayers, LayerId, LineTool, PixelPencil};
use paint_desk::canvas::PaintTool;
use paint_desk::canvas_layer::{CanvasLayer, FlatCanvasLayer, HashMapCanvasLayer};
use paint_desk::data_types::{Color, GlobalParams, PixelPos};
use paint_desk::stroke::{handle_tool_events, next_stroke_event, StrokeEvent};

const NEUTRAL: Color = Color { red: 255, green: 255, blue: 255, alpha: 0 };
const RED: Color = Color { red: 255, green: 0, blue: 0, alpha: 255 };
const BLUE: Color = Color { red: 0, green: 0, blue: 255, alpha: 255 };

fn at(x: u32, y: u32) -> PixelPos {
    PixelPos { x, y }
}

fn one_layer_canvas(w: u32, h: u32) -> Canvas {
    let entries =
        vec![CanvasLayerEntry { id: LayerId(0), layer: FlatCanvasLayer::new(w, h), visible: true }];
    Canvas::with_layers(w, h, CanvasLayers { entries, active_layer_id: LayerId(0) }).unwrap()
}

fn pointer(x: u32, y: u32, color: Color) -> GlobalParams {
    let mut params = GlobalParams::new();
    params.primary_color = color;
    params.cursor_in_canvas = true;
    params.current_pixel = Some(at(x, y));
    params
}

fn away(color: Color) -> GlobalParams {
    let mut params = GlobalParams::new();
    params.primary_color = color;
    params
}

fn painted(layer: &HashMapCanvasLayer) -> Vec<(PixelPos, Color)> {
    let mut pixels = layer.pixels_iter();
    pixels.sort_by_key(|(p, _)| (p.y, p.x));
    pixels
}

fn is_red_line(canvas: &Canvas) -> bool {
    let layer = canvas.get_active_layer().unwrap();
    (0..4u32).all(|x| {
        (0..4u32).all(|y| layer.get_pixel(at(x, y)) == if y == 0 { RED } else { NEUTRAL })
    })
}

fn is_blank(canvas: &Canvas) -> bool {
    canvas.get_active_layer().unwrap().get_data().iter().all(|c| *c == NEUTRAL)
}

#[test]
fn line_tool_scenario() {
    let mut canvas = one_layer_canvas(4, 4);
    let mut tool = LineTool::new();
    canvas.stroke_start(&pointer(0, 0, RED), &mut tool);
    canvas.stroke_update(&pointer(3, 0, RED), &mut tool);
    // the preview is shown, the layer is not touched yet
    assert!(is_blank(&canvas));
    for x in 0..4 {
        assert_eq!(canvas.get_draw_layer().get_pixel(at(x, 0)), RED);
    }
    canvas.stroke_end(&pointer(3, 0, RED), &mut tool);
    assert!(is_red_line(&canvas));
    for x in 0..4 {
        assert_eq!(canvas.get_draw_layer().get_pixel(at(x, 0)), RED);
        assert_eq!(canvas.get_draw_layer().get_pixel(at(x, 1)), Color::new(225, 225, 225, 255));
    }
    canvas.undo();
    assert!(is_blank(&canvas));
    assert_eq!(canvas.get_draw_layer().get_pixel(at(0, 0)), Color::new(225, 225, 225, 255));
    canvas.redo();
    assert!(is_red_line(&canvas));
}

#[test]
fn line_tool_previews_only_the_current_line() {
    let mut layer = HashMapCanvasLayer::new(5, 5);
    let mut tool = LineTool::new();
    tool.stroke_start(&pointer(1, 1, RED), &mut layer);
    assert!(painted(&layer).is_empty());
    tool.stroke_update(&pointer(4, 4, RED), &mut layer);
    assert_eq!(painted(&layer), vec![(at(1, 1), RED), (at(2, 2), RED), (at(3, 3), RED), (at(4, 4), RED)]);
    tool.stroke_update(&pointer(1, 3, BLUE), &mut layer);
    assert_eq!(painted(&layer), vec![(at(1, 1), BLUE), (at(1, 2), BLUE), (at(1, 3), BLUE)]);
    let command = tool.stroke_end(&pointer(3, 1, BLUE), &mut layer).unwrap();
    assert_eq!(command.edits, vec![(at(1, 1), BLUE), (at(2, 1), BLUE), (at(3, 1), BLUE)]);
    assert!(painted(&layer).is_empty());
    // the stroke is over: the anchor is gone
    assert!(tool.stroke_end(&pointer(3, 1, BLUE), &mut layer).is_none());
}

#[test]
fn line_tool_without_anchor_commits_nothing() {
    let mut layer = HashMapCanvasLayer::new(5, 5);
    layer.set_pixel(at(4, 4), RED);
    let mut tool = LineTool::new();
    tool.stroke_start(&away(RED), &mut layer);
    assert!(painted(&layer).is_empty());
    // the preview of a stroke without an anchor starts at the origin
    tool.stroke_update(&pointer(2, 0, RED), &mut layer);
    assert_eq!(painted(&layer), vec![(at(0, 0), RED), (at(1, 0), RED), (at(2, 0), RED)]);
    assert!(tool.stroke_end(&pointer(2, 0, RED), &mut layer).is_none());
    assert!(painted(&layer).is_empty());
}

#[test]
fn line_tool_ends_at_the_origin_when_the_pointer_is_away() {
    let mut canvas = one_layer_canvas(4, 4);
    let mut tool = LineTool::new();
    canvas.stroke_start(&pointer(2, 2, BLUE), &mut tool);
    canvas.stroke_end(&away(BLUE), &mut tool);
    let layer = canvas.get_active_layer().unwrap();
    for x in 0..4 {
        for y in 0..4 {
            let expected = if x == y && x <= 2 { BLUE } else { NEUTRAL };
            assert_eq!(layer.get_pixel(at(x, y)), expected);
        }
    }
}

#[test]
fn pencil_dragged_back_over_itself() {
    let mut layer = HashMapCanvasLayer::new(4, 4);
    let mut tool = PixelPencil::new();
    tool.stroke_start(&pointer(0, 0, RED), &mut layer);
    tool.stroke_update(&pointer(0, 0, RED), &mut layer);
    // the first sample of a stroke paints nothing
    assert!(painted(&layer).is_empty());
    tool.stroke_update(&pointer(2, 0, RED), &mut layer);
    assert_eq!(painted(&layer), vec![(at(0, 0), RED), (at(1, 0), RED), (at(2, 0), RED)]);
    tool.stroke_update(&pointer(1, 0, BLUE), &mut layer);
    assert_eq!(painted(&layer), vec![(at(0, 0), RED), (at(1, 0), BLUE), (at(2, 0), BLUE)]);
    let mut command = tool.stroke_end(&pointer(1, 0, BLUE), &mut layer).unwrap();
    command.edits.sort_by_key(|(p, _)| (p.y, p.x));
    assert_eq!(command.edits, vec![(at(0, 0), RED), (at(1, 0), BLUE), (at(2, 0), BLUE)]);
    assert!(painted(&layer).is_empty());
}

#[test]
fn pencil_stroke_on_the_canvas() {
    let mut canvas = one_layer_canvas(4, 4);
    let mut tool = PixelPencil::new();
    canvas.stroke_start(&pointer(0, 0, RED), &mut tool);
    canvas.stroke_update(&pointer(0, 0, RED), &mut tool);
    canvas.stroke_update(&pointer(0, 3, RED), &mut tool);
    canvas.stroke_update(&pointer(3, 3, BLUE), &mut tool);
    assert!(is_blank(&canvas));
    assert_eq!(canvas.get_draw_layer().get_pixel(at(0, 1)), RED);
    assert_eq!(canvas.get_draw_layer().get_pixel(at(0, 3)), BLUE);
    canvas.stroke_end(&pointer(3, 3, BLUE), &mut tool);
    let layer = canvas.get_active_layer().unwrap();
    for x in 0..4 {
        for y in 0..4 {
            let expected = if y == 3 {
                BLUE
            } else if x == 0 {
                RED
            } else {
                NEUTRAL
            };
            assert_eq!(layer.get_pixel(at(x, y)), expected);
        }
    }
    canvas.undo();
    assert!(is_blank(&canvas));
}

#[test]
fn pencil_forgets_its_place_while_the_pointer_is_away() {
    let mut layer = HashMapCanvasLayer::new(4, 4);
    let mut tool = PixelPencil::new();
    tool.stroke_start(&pointer(3, 3, RED), &mut layer);
    tool.stroke_update(&pointer(3, 3, RED), &mut layer);
    // with the pointer away the line runs to the origin
    tool.stroke_update(&away(RED), &mut layer);
    assert_eq!(painted(&layer), vec![(at(0, 0), RED), (at(1, 1), RED), (at(2, 2), RED), (at(3, 3), RED)]);
    // and the next sample is a first sample again
    tool.stroke_update(&pointer(3, 0, BLUE), &mut layer);
    assert_eq!(painted(&layer).len(), 4);
}

#[test]
fn pencil_stroke_without_a_move_commits_an_empty_command() {
    let mut canvas = one_layer_canvas(2, 2);
    canvas.apply_command_handle_undo_redo(&paint_desk::canvas::EditCommand {
        edits: vec![(at(0, 0), RED)],
    });
    canvas.undo();
    let mut tool = PixelPencil::new();
    canvas.stroke_start(&pointer(1, 1, BLUE), &mut tool);
    canvas.stroke_end(&pointer(1, 1, BLUE), &mut tool);
    assert!(is_blank(&canvas));
    // a command without edits leaves the redo stack alone
    canvas.redo();
    assert_eq!(canvas.get_active_layer().unwrap().get_pixel(at(0, 0)), RED);
}

#[test]
fn stroke_start_clears_the_preview_and_leaves_the_display() {
    let mut canvas = one_layer_canvas(3, 1);
    let mut tool = PixelPencil::new();
    canvas.stroke_start(&pointer(0, 0, RED), &mut tool);
    canvas.stroke_update(&pointer(0, 0, RED), &mut tool);
    canvas.stroke_update(&pointer(2, 0, RED), &mut tool);
    let count = canvas.recompose_count();
    canvas.stroke_start(&pointer(0, 0, RED), &mut tool);
    assert_eq!(canvas.recompose_count(), count);
    assert_eq!(canvas.get_draw_layer().get_pixel(at(1, 0)), RED);
    canvas.update_display_canvas();
    assert_eq!(canvas.get_draw_layer().get_pixel(at(1, 0)), Color::new(225, 225, 225, 255));
}

#[test]
fn stroke_without_an_active_layer_is_dropped() {
    let entries =
        vec![CanvasLayerEntry { id: LayerId(0), layer: FlatCanvasLayer::new(4, 4), visible: true }];
    let mut canvas =
        Canvas::with_layers(4, 4, CanvasLayers { entries, active_layer_id: LayerId(5) }).unwrap();
    let before = canvas.get_draw_layer().get_data().clone();
    let mut tool = LineTool::new();
    canvas.stroke_start(&pointer(0, 0, RED), &mut tool);
    canvas.stroke_update(&pointer(3, 3, RED), &mut tool);
    assert_eq!(canvas.get_draw_layer().get_pixel(at(2, 2)), RED);
    canvas.stroke_end(&pointer(3, 3, RED), &mut tool);
    assert_eq!(canvas.get_draw_layer().get_data(), &before);
    let count = canvas.recompose_count();
    canvas.undo();
    assert_eq!(canvas.recompose_count(), count);
}

#[test]
fn tool_names() {
    assert_eq!(PixelPencil::new().get_name(), "Pencil");
    assert_eq!(LineTool::new().get_name(), "Line");
}

#[test]
fn tools_behind_one_interface() {
    let mut tools: Vec<Box<dyn PaintTool>> = vec![Box::new(PixelPencil::new()), Box::new(LineTool::new())];
    let mut canvas = one_layer_canvas(3, 3);
    for tool in tools.iter_mut() {
        canvas.stroke_start(&pointer(0, 0, RED), tool.as_mut());
        canvas.stroke_update(&pointer(0, 0, RED), tool.as_mut());
        canvas.stroke_update(&pointer(2, 2, RED), tool.as_mut());
        canvas.stroke_end(&pointer(2, 2, RED), tool.as_mut());
        let layer = canvas.get_active_layer().unwrap();
        for x in 0..3 {
            for y in 0..3 {
                assert_eq!(layer.get_pixel(at(x, y)), if x == y { RED } else { NEUTRAL });
            }
        }
        canvas.undo();
        assert!(canvas.get_active_layer().unwrap().get_data().iter().all(|c| *c == NEUTRAL));
    }
}

#[test]
fn stroke_events_follow_button_and_pointer() {
    assert_eq!(next_stroke_event(false, true, true), Some(StrokeEvent::Start));
    assert_eq!(next_stroke_event(false, true, false), None);
    assert_eq!(next_stroke_event(false, false, true), None);
    assert_eq!(next_stroke_event(false, false, false), None);
    assert_eq!(next_stroke_event(true, true, true), Some(StrokeEvent::Update));
    assert_eq!(next_stroke_event(true, true, false), Some(StrokeEvent::End));
    assert_eq!(next_stroke_event(true, false, true), Some(StrokeEvent::End));
    assert_eq!(next_stroke_event(true, false, false), Some(StrokeEvent::End));
}

#[test]
fn host_drives_a_line_stroke() {
    let mut canvas = one_layer_canvas(4, 4);
    let mut tool = LineTool::new();
    let mut started = false;
    // the pointer moves over the canvas with the button up
    handle_tool_events(&mut canvas, &pointer(1, 1, RED), &mut tool, &mut started, false);
    assert!(!started);
    assert_eq!(canvas.recompose_count(), 1);
    // button down: the stroke starts
    handle_tool_events(&mut canvas, &pointer(0, 0, RED), &mut tool, &mut started, true);
    assert!(started);
    assert_eq!(canvas.recompose_count(), 1);
    // button held: the stroke moves
    handle_tool_events(&mut canvas, &pointer(2, 0, RED), &mut tool, &mut started, true);
    handle_tool_events(&mut canvas, &pointer(3, 0, RED), &mut tool, &mut started, true);
    assert!(started);
    assert_eq!(canvas.recompose_count(), 3);
    assert!(is_blank(&canvas));
    // button up: the stroke ends
    handle_tool_events(&mut canvas, &pointer(3, 0, RED), &mut tool, &mut started, false);
    assert!(!started);
    assert_eq!(canvas.recompose_count(), 4);
    assert!(is_red_line(&canvas));
    handle_tool_events(&mut canvas, &pointer(3, 3, RED), &mut tool, &mut started, false);
    assert_eq!(canvas.recompose_count(), 4);
}

#[test]
fn host_ends_the_stroke_when_the_pointer_leaves() {
    let mut canvas = one_layer_canvas(4, 4);
    let mut tool = PixelPencil::new();
    let mut started = false;
    handle_tool_events(&mut canvas, &pointer(0, 2, BLUE), &mut tool, &mut started, true);
    handle_tool_events(&mut canvas, &pointer(0, 2, BLUE), &mut tool, &mut started, true);
    handle_tool_events(&mut canvas, &pointer(3, 2, BLUE), &mut tool, &mut started, true);
    assert!(started);
    handle_tool_events(&mut canvas, &away(BLUE), &mut tool, &mut started, true);
    assert!(!started);
    let layer = canvas.get_active_layer().unwrap();
    for x in 0..4 {
        for y in 0..4 {
            assert_eq!(layer.get_pixel(at(x, y)), if y == 2 { BLUE } else { NEUTRAL });
        }
    }
    // the button is still down, but outside the canvas: no new stroke
    handle_tool_events(&mut canvas, &away(BLUE), &mut tool, &mut started, true);
    assert!(!started);
}

#[test]
fn line_tool_hands_out_the_line_in_order() {
    let mut layer = HashMapCanvasLayer::new(4, 4);
    let mut tool = LineTool::new();
    tool.stroke_start(&pointer(0, 0, RED), &mut layer);
    let command = tool.stroke_end(&pointer(3, 0, RED), &mut layer).unwrap();
    assert_eq!(
        command.edits,
        vec![(at(0, 0), RED), (at(1, 0), RED), (at(2, 0), RED), (at(3, 0), RED)]
    );
    assert!(painted(&layer).is_empty());
    // drawn from the far end, the line runs in the same order
    tool.stroke_start(&pointer(3, 0, BLUE), &mut layer);
    let command = tool.stroke_end(&pointer(0, 0, BLUE), &mut layer).unwrap();
    assert_eq!(
        command.edits,
        vec![(at(0, 0), BLUE), (at(1, 0), BLUE), (at(2, 0), BLUE), (at(3, 0), BLUE)]
    );
}
