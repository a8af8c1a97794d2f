use paint_desk::canvas::{
    Canvas, CanvasLayerConfig, CanvasLayerEntry, CanvasLayers, CanvasLayersConfig, EditCommand,
    LayerId,
};
use paint_desk::canvas_layer::{CanvasLayer, FlatCanvasLayer, HashMapCanvasLayer};
use paint_desk::data_types::{Color, PixelPos, SideHorizontal, SideVertical};
use paint_desk::size_window::SizeWindow;

const NEUTRAL: Color = Color { red: 255, green: 255, blue: 255, alpha: 0 };
const RED: Color = Color { red: 255, green: 0, blue: 0, alpha: 255 };
const GREEN: Color = Color { red: 0, green: 255, blue: 0, alpha: 255 };
const BLUE: Color = Color { red: 0, green: 0, blue: 255, alpha: 255 };
const LIGHT: Color = Color { red: 225, green: 225, blue: 225, alpha: 255 };
const DARK: Color = Color { red: 200, green: 200, blue: 200, alpha: 255 };

fn at(x: u32, y: u32) -> PixelPos {
    PixelPos { x, y }
}

fn entry(id: usize, w: u32, h: u32, fill: Option<Color>, visible: bool) -> CanvasLayerEntry {
    let mut layer = FlatCanvasLayer::new(w, h);
    if let Some(color) = fill {
        layer.fill(color);
    }
    CanvasLayerEntry { id: LayerId(id), layer, visible }
}

fn canvas_of(w: u32, h: u32, entries: Vec<CanvasLayerEntry>, active: usize) -> Canvas {
    match Canvas::with_layers(w, h, CanvasLayers { entries, active_layer_id: LayerId(active) }) {
        Some(canvas) => canvas,
        None => panic!("the stack fits the canvas"),
    }
}

fn line(config: &[(usize, bool)], active: usize) -> CanvasLayersConfig {
    CanvasLayersConfig {
        entries: config
            .iter()
            .map(|(id, visible)| CanvasLayerConfig { id: LayerId(*id), visible: *visible })
            .collect(),
        active_layer_id: LayerId(active),
    }
}

fn command(edits: &[(u32, u32, Color)]) -> EditCommand {
    EditCommand { edits: edits.iter().map(|(x, y, c)| (at(*x, *y), *c)).collect() }
}

fn active_data(canvas: &Canvas) -> Vec<Color> {
    match canvas.get_active_layer() {
        Some(layer) => layer.get_data().clone(),
        None => panic!("there is an active layer"),
    }
}

fn shown(canvas: &Canvas) -> Vec<Color> {
    canvas.get_draw_layer().get_data().clone()
}

#[test]
fn opening_canvas_shows_its_two_bars() {
    let canvas = Canvas::new(256, 220);
    assert_eq!(canvas.get_size(), (256, 220));
    assert_eq!(canvas.recompose_count(), 1);
    assert_eq!(canvas.get_canvas_layers_config(), line(&[(0, true), (1, true)], 0));
    let display = canvas.get_draw_layer();
    assert_eq!(display.get_size(), (256, 220));
    assert_eq!(display.get_pixel(at(150, 105)), GREEN);
    assert_eq!(display.get_pixel(at(200, 110)), GREEN);
    assert_eq!(display.get_pixel(at(105, 150)), RED);
    assert_eq!(display.get_pixel(at(110, 200)), RED);
    // where the bars cross, the first layer is on top
    assert_eq!(display.get_pixel(at(105, 105)), GREEN);
    assert_eq!(display.get_pixel(at(0, 0)), LIGHT);
    assert_eq!(display.get_pixel(at(10, 0)), DARK);
    assert_eq!(display.get_pixel(at(201, 105)), LIGHT);
    assert_eq!(display.get_pixel(at(99, 100)), DARK);
    let active = canvas.get_active_layer().unwrap();
    assert_eq!(active.get_pixel(at(150, 105)), GREEN);
    assert_eq!(active.get_pixel(at(105, 150)), NEUTRAL);
}

#[test]
fn with_layers_refuses_a_stack_that_does_not_fit() {
    let two_sizes = CanvasLayers {
        entries: vec![entry(0, 4, 4, None, true), entry(1, 4, 5, None, true)],
        active_layer_id: LayerId(0),
    };
    assert!(Canvas::with_layers(4, 4, two_sizes).is_none());
    let one_id_twice = CanvasLayers {
        entries: vec![entry(3, 4, 4, None, true), entry(1, 4, 4, None, true), entry(3, 4, 4, None, true)],
        active_layer_id: LayerId(3),
    };
    assert!(Canvas::with_layers(4, 4, one_id_twice).is_none());
    let fits = CanvasLayers {
        entries: vec![entry(3, 4, 4, None, true), entry(1, 4, 4, None, false)],
        active_layer_id: LayerId(9),
    };
    assert!(Canvas::with_layers(4, 4, fits).is_some());
}

#[test]
fn canvas_without_layers_shows_the_checkerboard() {
    let mut canvas = canvas_of(20, 20, Vec::new(), 0);
    assert!(canvas.get_active_layer().is_none());
    assert!(canvas.get_active_layer_mut().is_none());
    assert_eq!(canvas.get_canvas_layers_config(), line(&[], 0));
    let display = canvas.get_draw_layer();
    for x in 0..20 {
        for y in 0..20 {
            let expected = if (x / 10 + y / 10) % 2 == 0 { LIGHT } else { DARK };
            assert_eq!(display.get_pixel(at(x, y)), expected);
        }
    }
    let before = shown(&canvas);
    canvas.apply_command_handle_undo_redo(&command(&[(1, 1, RED)]));
    canvas.undo();
    canvas.redo();
    assert_eq!(shown(&canvas), before);
    assert_eq!(canvas.recompose_count(), 1);
}

#[test]
fn canvas_of_no_pixels() {
    let mut canvas = canvas_of(0, 0, vec![entry(0, 0, 0, None, true)], 0);
    assert_eq!(canvas.get_size(), (0, 0));
    assert!(shown(&canvas).is_empty());
    canvas.apply_command_handle_undo_redo(&EditCommand::default());
    canvas.undo();
    canvas.redo();
    assert!(shown(&canvas).is_empty());
    assert!(active_data(&canvas).is_empty());
}

#[test]
fn first_entry_is_painted_on_top() {
    let canvas = canvas_of(
        2,
        2,
        vec![entry(5, 2, 2, Some(RED), true), entry(6, 2, 2, Some(GREEN), true)],
        5,
    );
    assert!(shown(&canvas).iter().all(|c| *c == RED));
}

#[test]
fn hidden_layers_are_skipped() {
    let canvas = canvas_of(
        2,
        2,
        vec![entry(5, 2, 2, Some(RED), false), entry(6, 2, 2, Some(GREEN), true)],
        5,
    );
    assert!(shown(&canvas).iter().all(|c| *c == GREEN));
    let canvas = canvas_of(
        2,
        2,
        vec![entry(5, 2, 2, Some(RED), false), entry(6, 2, 2, Some(GREEN), false)],
        5,
    );
    assert!(shown(&canvas).iter().all(|c| *c == LIGHT));
}

#[test]
fn translucent_layer_blends_with_what_is_under_it() {
    let veil = Color::new(255, 0, 0, 120);
    let canvas = canvas_of(
        1,
        1,
        vec![entry(0, 1, 1, Some(veil), true), entry(1, 1, 1, Some(GREEN), true)],
        0,
    );
    assert_eq!(shown(&canvas), vec![Color::new(120, 135, 0, 255)]);
    // over the light tile alone: red (255*120 + 225*135) / 255 = 239,
    // green and blue 225*135 / 255 = 119
    let canvas = canvas_of(1, 1, vec![entry(0, 1, 1, Some(veil), true)], 0);
    assert_eq!(shown(&canvas), vec![Color::new(239, 119, 119, 255)]);
}

#[test]
fn active_layer_is_the_one_with_the_active_id() {
    let canvas = canvas_of(
        1,
        1,
        vec![entry(4, 1, 1, Some(RED), true), entry(2, 1, 1, Some(GREEN), true)],
        2,
    );
    assert_eq!(active_data(&canvas), vec![GREEN]);
    let stack = CanvasLayers {
        entries: vec![entry(4, 1, 1, Some(RED), true), entry(2, 1, 1, Some(GREEN), true)],
        active_layer_id: LayerId(4),
    };
    assert_eq!(stack.active_position(), Some(0));
    assert_eq!(stack.get_active_layer().unwrap().get_data(), &vec![RED]);
    let mut stack = stack;
    stack.active_layer_id = LayerId(7);
    assert_eq!(stack.active_position(), None);
    assert!(stack.get_active_layer().is_none());
    assert!(stack.get_active_layer_mut().is_none());
    stack.active_layer_id = LayerId(2);
    stack.get_active_layer_mut().unwrap().set_pixel(at(0, 0), BLUE);
    assert_eq!(stack.entries[1].layer.get_data(), &vec![BLUE]);
    assert_eq!(stack.entries[0].layer.get_data(), &vec![RED]);
}

#[test]
fn edit_undo_redo_round_trip() {
    let mut canvas = canvas_of(
        3,
        2,
        vec![entry(0, 3, 2, None, true), entry(1, 3, 2, Some(GREEN), false)],
        0,
    );
    canvas.get_active_layer_mut().unwrap().set_pixel(at(2, 1), BLUE);
    canvas.update_display_canvas();
    let before = active_data(&canvas);
    let shown_before = shown(&canvas);
    let count = canvas.recompose_count();

    canvas.apply_command_handle_undo_redo(&command(&[(0, 0, RED), (2, 1, GREEN), (1, 1, RED)]));
    let after = active_data(&canvas);
    let shown_after = shown(&canvas);
    assert_eq!(after, vec![RED, NEUTRAL, NEUTRAL, NEUTRAL, RED, GREEN]);
    assert_eq!(shown_after, vec![RED, LIGHT, LIGHT, LIGHT, RED, GREEN]);
    assert_eq!(canvas.recompose_count(), count + 1);

    canvas.undo();
    assert_eq!(active_data(&canvas), before);
    assert_eq!(shown(&canvas), shown_before);
    assert_eq!(canvas.recompose_count(), count + 2);

    canvas.redo();
    assert_eq!(active_data(&canvas), after);
    assert_eq!(shown(&canvas), shown_after);

    canvas.undo();
    canvas.undo();
    assert_eq!(active_data(&canvas), before);
    assert_eq!(canvas.recompose_count(), count + 4);
}

#[test]
fn command_with_a_position_twice_is_governed_by_its_last_edit() {
    let mut canvas = canvas_of(2, 1, vec![entry(0, 2, 1, None, true)], 0);
    canvas.apply_command_handle_undo_redo(&command(&[(1, 0, RED), (1, 0, BLUE)]));
    assert_eq!(active_data(&canvas), vec![NEUTRAL, BLUE]);
    canvas.undo();
    assert_eq!(active_data(&canvas), vec![NEUTRAL, NEUTRAL]);
    canvas.redo();
    assert_eq!(active_data(&canvas), vec![NEUTRAL, BLUE]);
}

#[test]
fn forward_edit_empties_the_redo_stack() {
    let mut canvas = canvas_of(2, 1, vec![entry(0, 2, 1, None, true)], 0);
    canvas.apply_command_handle_undo_redo(&command(&[(0, 0, RED)]));
    canvas.undo();
    canvas.apply_command_handle_undo_redo(&command(&[(1, 0, GREEN)]));
    let count = canvas.recompose_count();
    canvas.redo();
    assert_eq!(active_data(&canvas), vec![NEUTRAL, GREEN]);
    assert_eq!(canvas.recompose_count(), count);
}

#[test]
fn edit_without_edits_keeps_the_redo_stack() {
    let mut canvas = canvas_of(2, 1, vec![entry(0, 2, 1, None, true)], 0);
    canvas.apply_command_handle_undo_redo(&command(&[(0, 0, RED)]));
    canvas.undo();
    canvas.apply_command_handle_undo_redo(&EditCommand::default());
    canvas.redo();
    assert_eq!(active_data(&canvas), vec![RED, NEUTRAL]);
    // the empty edit went on the undo stack below the redone one
    canvas.undo();
    assert_eq!(active_data(&canvas), vec![NEUTRAL, NEUTRAL]);
    let count = canvas.recompose_count();
    canvas.undo();
    assert_eq!(canvas.recompose_count(), count + 1);
    canvas.undo();
    assert_eq!(canvas.recompose_count(), count + 1);
}

#[test]
fn undo_and_redo_with_nothing_to_do() {
    let mut canvas = canvas_of(2, 1, vec![entry(0, 2, 1, Some(RED), true)], 0);
    let before = shown(&canvas);
    canvas.undo();
    canvas.redo();
    assert_eq!(shown(&canvas), before);
    assert_eq!(active_data(&canvas), vec![RED, RED]);
    assert_eq!(canvas.recompose_count(), 1);
}

#[test]
fn history_waits_while_no_layer_is_active() {
    let mut canvas = canvas_of(1, 1, vec![entry(0, 1, 1, None, true)], 0);
    canvas.apply_command_handle_undo_redo(&command(&[(0, 0, RED)]));
    canvas.set_canvas_layers_config(line(&[(0, true)], 8));
    let count = canvas.recompose_count();
    canvas.undo();
    canvas.apply_command_handle_undo_redo(&command(&[(0, 0, BLUE)]));
    assert_eq!(canvas.recompose_count(), count);
    assert_eq!(shown(&canvas), vec![RED]);
    canvas.set_canvas_layers_config(line(&[(0, true)], 0));
    canvas.undo();
    assert_eq!(active_data(&canvas), vec![NEUTRAL]);
}

#[test]
fn config_reorders_the_stack() {
    let mut canvas = canvas_of(
        1,
        1,
        vec![
            entry(0, 1, 1, Some(RED), true),
            entry(1, 1, 1, Some(GREEN), true),
            entry(2, 1, 1, Some(BLUE), true),
        ],
        0,
    );
    assert_eq!(shown(&canvas), vec![RED]);
    canvas.set_canvas_layers_config(line(&[(2, true), (0, true), (1, true)], 1));
    assert_eq!(canvas.get_canvas_layers_config(), line(&[(2, true), (0, true), (1, true)], 1));
    assert_eq!(shown(&canvas), vec![BLUE]);
    assert_eq!(active_data(&canvas), vec![GREEN]);
    assert_eq!(canvas.recompose_count(), 2);
    canvas.set_canvas_layers_config(line(&[(2, false), (0, false), (1, true)], 1));
    assert_eq!(shown(&canvas), vec![GREEN]);
    assert_eq!(canvas.recompose_count(), 3);
}

#[test]
fn same_config_twice_recomposes_once() {
    let mut canvas = canvas_of(
        2,
        2,
        vec![entry(0, 2, 2, Some(RED), true), entry(1, 2, 2, Some(GREEN), true)],
        0,
    );
    canvas.set_canvas_layers_config(line(&[(1, true), (0, false)], 1));
    let count = canvas.recompose_count();
    let display = shown(&canvas);
    assert_eq!(count, 2);
    canvas.set_canvas_layers_config(line(&[(1, true), (0, false)], 1));
    assert_eq!(canvas.recompose_count(), count);
    assert_eq!(shown(&canvas), display);
    assert_eq!(canvas.get_canvas_layers_config(), line(&[(1, true), (0, false)], 1));
}

#[test]
fn current_config_changes_nothing() {
    let mut canvas = canvas_of(
        1,
        1,
        vec![entry(0, 1, 1, Some(RED), true), entry(1, 1, 1, Some(GREEN), false)],
        1,
    );
    let config = canvas.get_canvas_layers_config();
    canvas.set_canvas_layers_config(config.clone());
    assert_eq!(canvas.recompose_count(), 1);
    assert_eq!(canvas.get_canvas_layers_config(), config);
}

#[test]
fn change_of_the_active_layer_alone_recomposes() {
    let mut canvas = canvas_of(
        1,
        1,
        vec![entry(0, 1, 1, Some(RED), true), entry(1, 1, 1, Some(GREEN), true)],
        0,
    );
    canvas.set_canvas_layers_config(line(&[(0, true), (1, true)], 1));
    assert_eq!(canvas.recompose_count(), 2);
    assert_eq!(active_data(&canvas), vec![GREEN]);
    assert_eq!(shown(&canvas), vec![RED]);
}

#[test]
fn config_passes_over_unknown_ids_and_keeps_unnamed_layers_last() {
    let mut canvas = canvas_of(
        1,
        1,
        vec![
            entry(0, 1, 1, Some(RED), true),
            entry(1, 1, 1, Some(GREEN), false),
            entry(2, 1, 1, Some(BLUE), true),
            entry(3, 1, 1, None, false),
        ],
        0,
    );
    canvas.set_canvas_layers_config(line(&[(9, true), (2, false), (7, false)], 0));
    assert_eq!(
        canvas.get_canvas_layers_config(),
        line(&[(2, false), (0, true), (1, false), (3, false)], 0)
    );
    assert_eq!(shown(&canvas), vec![RED]);
    // a stale configuration is not what the canvas has: set again, it recomposes again
    let count = canvas.recompose_count();
    let display = shown(&canvas);
    canvas.set_canvas_layers_config(line(&[(9, true), (2, false), (7, false)], 0));
    assert_eq!(canvas.recompose_count(), count + 1);
    assert_eq!(shown(&canvas), display);
    assert_eq!(
        canvas.get_canvas_layers_config(),
        line(&[(2, false), (0, true), (1, false), (3, false)], 0)
    );
}

#[test]
fn config_that_names_a_layer_twice() {
    let mut canvas = canvas_of(
        1,
        1,
        vec![
            entry(0, 1, 1, Some(RED), true),
            entry(1, 1, 1, Some(GREEN), true),
            entry(2, 1, 1, Some(BLUE), true),
        ],
        0,
    );
    // layer 0 takes the place of its last line and the visibility of its first
    canvas.set_canvas_layers_config(line(&[(0, false), (1, true), (0, true)], 0));
    assert_eq!(canvas.get_canvas_layers_config(), line(&[(1, true), (0, false), (2, true)], 0));
    assert_eq!(shown(&canvas), vec![GREEN]);
}

#[test]
fn configs_compare_by_content() {
    assert_eq!(line(&[(1, true), (0, false)], 1), line(&[(1, true), (0, false)], 1));
    assert_ne!(line(&[(1, true), (0, false)], 1), line(&[(1, true), (0, false)], 0));
    assert_ne!(line(&[(1, true), (0, false)], 1), line(&[(1, true), (0, true)], 1));
    assert_ne!(line(&[(1, true), (0, false)], 1), line(&[(0, false), (1, true)], 1));
    assert_ne!(line(&[(1, true)], 1), line(&[(1, true), (0, true)], 1));
    let config = line(&[(4, true), (2, false)], 2);
    assert_eq!(config.clone(), config);
}

#[test]
fn entry_config_line() {
    let e = entry(12, 1, 1, None, false);
    assert_eq!(e.config(), CanvasLayerConfig { id: LayerId(12), visible: false });
}

#[test]
fn active_layer_edited_in_place_shows_after_recomposition() {
    let mut canvas = canvas_of(2, 1, vec![entry(0, 2, 1, None, true)], 0);
    canvas.get_active_layer_mut().unwrap().set_pixel(at(1, 0), BLUE);
    assert_eq!(shown(&canvas), vec![LIGHT, LIGHT]);
    canvas.update_display_canvas();
    assert_eq!(shown(&canvas), vec![LIGHT, BLUE]);
    assert_eq!(canvas.recompose_count(), 2);
}

#[test]
fn command_applies_and_reverses_on_any_layer() {
    let mut dense = FlatCanvasLayer::new(2, 2);
    dense.set_pixel(at(0, 1), GREEN);
    let edit = command(&[(0, 1, RED), (1, 1, BLUE), (0, 1, BLUE)]);
    let back = edit.reverse(&dense);
    assert_eq!(back.edits, vec![(at(0, 1), GREEN), (at(1, 1), NEUTRAL), (at(0, 1), GREEN)]);
    edit.apply(&mut dense);
    assert_eq!(dense.get_data(), &vec![NEUTRAL, NEUTRAL, BLUE, BLUE]);
    back.apply(&mut dense);
    assert_eq!(dense.get_data(), &vec![NEUTRAL, NEUTRAL, GREEN, NEUTRAL]);

    let mut sparse = HashMapCanvasLayer::new(2, 2);
    let back = edit.reverse(&sparse);
    assert_eq!(
        back.edits,
        vec![
            (at(0, 1), Color::new(0, 0, 0, 0)),
            (at(1, 1), Color::new(0, 0, 0, 0)),
            (at(0, 1), Color::new(0, 0, 0, 0)),
        ]
    );
    edit.apply(&mut sparse);
    assert_eq!(sparse.get_pixel(at(0, 1)), BLUE);
    assert_eq!(sparse.get_pixel(at(1, 1)), BLUE);
    assert_eq!(sparse.pixels_iter().len(), 2);
}

#[test]
fn empty_command() {
    let edit = EditCommand::default();
    assert!(edit.edits.is_empty());
    let mut layer = FlatCanvasLayer::new(1, 1);
    assert!(edit.reverse(&layer).edits.is_empty());
    edit.apply(&mut layer);
    assert_eq!(layer.get_data(), &vec![NEUTRAL]);
    let copy = command(&[(0, 0, RED)]).clone();
    assert_eq!(copy.edits, vec![(at(0, 0), RED)]);
}

#[test]
fn resized_layer_scenario() {
    let mut layer = FlatCanvasLayer::new(4, 4);
    for i in 0..16u32 {
        layer.set_pixel(at(i % 4, i / 4), Color::new(i as u8, 0, 0, 255));
    }
    layer.set_size(6, 6, SideHorizontal::left, SideVertical::top);
    for x in 0..6u32 {
        for y in 0..6u32 {
            let expected =
                if x < 4 && y < 4 { Color::new((x + 4 * y) as u8, 0, 0, 255) } else { NEUTRAL };
            assert_eq!(layer.get_pixel(at(x, y)), expected);
        }
    }
}

#[test]
fn closed_size_window() {
    let window = SizeWindow::new();
    assert!(!window.open);
    assert_eq!((window.width, window.height), (0, 0));
    assert_eq!(window.keep_horizontal, SideHorizontal::center);
    assert_eq!(window.keep_vertical, SideVertical::center);
}

#[test]
fn small_opening_canvas() {
    let mut canvas = Canvas::new(4, 4);
    assert_eq!(canvas.get_size(), (4, 4));
    assert_eq!(canvas.get_draw_layer().get_size(), (4, 4));
    assert_eq!(canvas.recompose_count(), 1);
    assert_eq!(canvas.get_canvas_layers_config(), line(&[(0, true), (1, true)], 0));
    assert!(active_data(&canvas).iter().all(|c| *c == NEUTRAL));
    assert!(shown(&canvas).iter().all(|c| *c == LIGHT));
    // nothing to take back or to bring back
    canvas.undo();
    canvas.redo();
    assert_eq!(canvas.recompose_count(), 1);
    canvas.update_display_canvas();
    assert!(shown(&canvas).iter().all(|c| *c == LIGHT));
}

#[test]
fn opening_canvas_of_no_pixels() {
    for (w, h) in [(0, 0), (0, 300), (300, 0)] {
        let canvas = Canvas::new(w, h);
        assert_eq!(canvas.get_size(), (w, h));
        assert!(shown(&canvas).is_empty());
        assert!(active_data(&canvas).is_empty());
        assert_eq!(canvas.get_canvas_layers_config(), line(&[(0, true), (1, true)], 0));
    }
}

#[test]
fn opening_canvas_that_just_misses_the_bars() {
    for (w, h) in [(100, 300), (300, 100), (100, 100)] {
        let canvas = Canvas::new(w, h);
        assert!(active_data(&canvas).iter().all(|c| *c == NEUTRAL));
        assert!(shown(&canvas).iter().all(|c| *c == LIGHT || *c == DARK));
    }
}

#[test]
fn opening_canvas_that_cuts_the_bars() {
    let mut canvas = Canvas::new(150, 105);
    {
        let across = canvas.get_active_layer().unwrap();
        for x in 0..150 {
            for y in 0..105 {
                let expected = if x >= 100 && y >= 100 { GREEN } else { NEUTRAL };
                assert_eq!(across.get_pixel(at(x, y)), expected);
            }
        }
    }
    assert_eq!(canvas.get_draw_layer().get_pixel(at(149, 104)), GREEN);
    assert_eq!(canvas.get_draw_layer().get_pixel(at(105, 102)), GREEN);
    assert_eq!(canvas.get_draw_layer().get_pixel(at(99, 104)), DARK);
    canvas.set_canvas_layers_config(line(&[(1, true), (0, true)], 1));
    let down = canvas.get_active_layer().unwrap();
    for x in 0..150 {
        for y in 0..105 {
            let expected = if (100..=110).contains(&x) && y >= 100 { RED } else { NEUTRAL };
            assert_eq!(down.get_pixel(at(x, y)), expected);
        }
    }
    assert_eq!(canvas.get_draw_layer().get_pixel(at(105, 102)), RED);
    assert_eq!(canvas.get_draw_layer().get_pixel(at(120, 102)), GREEN);
}

#[test]
fn opening_canvas_that_just_holds_the_bars() {
    let canvas = Canvas::new(201, 201);
    let across = canvas.get_active_layer().unwrap();
    assert_eq!(across.get_pixel(at(200, 110)), GREEN);
    assert_eq!(across.get_pixel(at(200, 111)), NEUTRAL);
    assert_eq!(across.get_pixel(at(100, 100)), GREEN);
    assert_eq!(across.get_pixel(at(99, 100)), NEUTRAL);
    assert_eq!(canvas.get_draw_layer().get_pixel(at(110, 200)), RED);
    // beside the bar the checkerboard shows: tile (11, 20) is a dark one
    assert_eq!(canvas.get_draw_layer().get_pixel(at(111, 200)), DARK);
}
