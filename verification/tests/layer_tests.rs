use paint_desk::canvas::apply_layers;
use paint_desk::canvas_layer::{CanvasLayer, FlatCanvasLayer, HashMapCanvasLayer, StackableLayer};
use paint_desk::data_types::{Color, PixelPos, SideHorizontal, SideVertical};

const NEUTRAL: Color = Color { red: 255, green: 255, blue: 255, alpha: 0 };

fn at(x: u32, y: u32) -> PixelPos {
    PixelPos { x, y }
}

/// A colour that tells the pixel it was painted on.
fn mark(x: u32, y: u32) -> Color {
    Color::new(x as u8 + 1, y as u8 + 1, 7, 255)
}

/// A layer whose every pixel is marked with its position.
fn marked(w: u32, h: u32) -> FlatCanvasLayer {
    let mut layer = FlatCanvasLayer::new(w, h);
    for x in 0..w {
        for y in 0..h {
            layer.set_pixel(at(x, y), mark(x, y));
        }
    }
    layer
}

#[test]
fn new_dense_layer_is_neutral() {
    let layer = FlatCanvasLayer::new(3, 2);
    assert_eq!(layer.get_size(), (3, 2));
    assert_eq!(layer.get_data().len(), 6);
    for x in 0..3 {
        for y in 0..2 {
            assert_eq!(layer.get_pixel(at(x, y)), NEUTRAL);
        }
    }
}

#[test]
fn dense_layer_of_no_pixels() {
    let layer = FlatCanvasLayer::new(0, 9);
    assert_eq!(layer.get_size(), (0, 9));
    assert!(layer.get_data().is_empty());
    assert!(layer.iter_pixels().is_empty());
}

#[test]
fn set_pixel_changes_one_pixel() {
    let mut layer = FlatCanvasLayer::new(3, 3);
    let ink = Color::new(10, 20, 30, 40);
    layer.set_pixel(at(2, 1), ink);
    for x in 0..3 {
        for y in 0..3 {
            let expected = if (x, y) == (2, 1) { ink } else { NEUTRAL };
            assert_eq!(layer.get_pixel(at(x, y)), expected);
        }
    }
}

#[test]
fn dense_data_is_stored_row_by_row() {
    let layer = marked(3, 2);
    let data = layer.get_data();
    assert_eq!(
        *data,
        vec![mark(0, 0), mark(1, 0), mark(2, 0), mark(0, 1), mark(1, 1), mark(2, 1)]
    );
}

#[test]
fn iter_pixels_pairs_positions_with_colors() {
    let layer = marked(2, 2);
    assert_eq!(
        layer.iter_pixels(),
        vec![
            (at(0, 0), mark(0, 0)),
            (at(1, 0), mark(1, 0)),
            (at(0, 1), mark(0, 1)),
            (at(1, 1), mark(1, 1)),
        ]
    );
}

#[test]
fn iter_pixels_mut_writes_through() {
    let mut layer = marked(3, 2);
    let ink = Color::new(0, 0, 0, 1);
    {
        let (pos, color) = layer.iter_pixels_mut(4);
        assert_eq!(pos, at(1, 1));
        assert_eq!(*color, mark(1, 1));
        *color = ink;
    }
    for x in 0..3 {
        for y in 0..2 {
            let expected = if (x, y) == (1, 1) { ink } else { mark(x, y) };
            assert_eq!(layer.get_pixel(at(x, y)), expected);
        }
    }
}

#[test]
fn fill_and_clear_a_dense_layer() {
    let mut layer = marked(2, 3);
    let ink = Color::new(4, 3, 2, 1);
    layer.fill(ink);
    assert!(layer.get_data().iter().all(|c| *c == ink));
    layer.clear();
    assert!(layer.get_data().iter().all(|c| *c == Color::new(255, 255, 255, 255)));
    assert_eq!(layer.get_size(), (2, 3));
}

#[test]
fn grow_anchored_top_left() {
    let mut layer = marked(4, 4);
    layer.set_size(6, 6, SideHorizontal::left, SideVertical::top);
    assert_eq!(layer.get_size(), (6, 6));
    assert_eq!(layer.get_data().len(), 36);
    for x in 0..6 {
        for y in 0..6 {
            let expected = if x < 4 && y < 4 { mark(x, y) } else { NEUTRAL };
            assert_eq!(layer.get_pixel(at(x, y)), expected);
        }
    }
}

#[test]
fn grow_anchored_bottom_right() {
    let mut layer = marked(2, 2);
    layer.set_size(4, 5, SideHorizontal::right, SideVertical::bottom);
    for x in 0..4 {
        for y in 0..5 {
            let expected = if x >= 2 && y >= 3 { mark(x - 2, y - 3) } else { NEUTRAL };
            assert_eq!(layer.get_pixel(at(x, y)), expected);
        }
    }
}

#[test]
fn grow_anchored_at_the_center() {
    let mut layer = marked(2, 2);
    layer.set_size(5, 4, SideHorizontal::center, SideVertical::center);
    // the content moves by (5 - 2) / 2 = 1 to the right and (4 - 2) / 2 = 1 down
    for x in 0..5 {
        for y in 0..4 {
            let inside = (1..3).contains(&x) && (1..3).contains(&y);
            let expected = if inside { mark(x - 1, y - 1) } else { NEUTRAL };
            assert_eq!(layer.get_pixel(at(x, y)), expected);
        }
    }
}

#[test]
fn shrink_anchored_at_the_center() {
    let mut layer = marked(4, 4);
    layer.set_size(2, 2, SideHorizontal::center, SideVertical::center);
    for x in 0..2 {
        for y in 0..2 {
            assert_eq!(layer.get_pixel(at(x, y)), mark(x + 1, y + 1));
        }
    }
}

#[test]
fn shrink_by_one_at_the_center_rounds_towards_zero() {
    let mut layer = marked(4, 4);
    layer.set_size(3, 3, SideHorizontal::center, SideVertical::center);
    for x in 0..3 {
        for y in 0..3 {
            assert_eq!(layer.get_pixel(at(x, y)), mark(x, y));
        }
    }
}

#[test]
fn shrink_anchored_bottom_right() {
    let mut layer = marked(4, 3);
    layer.set_size(2, 2, SideHorizontal::right, SideVertical::bottom);
    for x in 0..2 {
        for y in 0..2 {
            assert_eq!(layer.get_pixel(at(x, y)), mark(x + 2, y + 1));
        }
    }
}

#[test]
fn shrink_one_axis_and_grow_the_other() {
    let mut layer = marked(4, 2);
    layer.set_size(2, 4, SideHorizontal::left, SideVertical::bottom);
    for x in 0..2 {
        for y in 0..4 {
            let expected = if y >= 2 { mark(x, y - 2) } else { NEUTRAL };
            assert_eq!(layer.get_pixel(at(x, y)), expected);
        }
    }
}

#[test]
fn resize_to_nothing_and_back() {
    let mut layer = marked(3, 3);
    layer.set_size(0, 0, SideHorizontal::center, SideVertical::center);
    assert_eq!(layer.get_size(), (0, 0));
    assert!(layer.get_data().is_empty());
    layer.set_size(2, 2, SideHorizontal::left, SideVertical::top);
    assert!(layer.get_data().iter().all(|c| *c == NEUTRAL));
}

#[test]
fn new_sparse_layer_is_empty() {
    let layer = HashMapCanvasLayer::new(4, 4);
    assert_eq!(layer.get_size(), (4, 4));
    assert!(layer.pixels_iter().is_empty());
    assert_eq!(layer.get_pixel(at(1, 1)), Color::new(0, 0, 0, 0));
}

#[test]
fn sparse_layer_remembers_the_last_color_of_a_pixel() {
    let mut layer = HashMapCanvasLayer::new(4, 4);
    let first = Color::new(1, 1, 1, 255);
    let second = Color::new(2, 2, 2, 255);
    layer.set_pixel(at(1, 2), first);
    layer.set_pixel(at(3, 3), first);
    layer.set_pixel(at(1, 2), second);
    assert_eq!(layer.get_pixel(at(1, 2)), second);
    assert_eq!(layer.get_pixel(at(3, 3)), first);
    assert_eq!(layer.get_pixel(at(2, 1)), Color::new(0, 0, 0, 0));
    let mut painted = layer.pixels_iter();
    painted.sort_by_key(|(p, _)| (p.x, p.y));
    assert_eq!(painted, vec![(at(1, 2), second), (at(3, 3), first)]);
}

#[test]
fn sparse_layer_tells_rows_from_columns() {
    let mut layer = HashMapCanvasLayer::new(70000, 70000);
    let a = Color::new(1, 0, 0, 255);
    let b = Color::new(0, 1, 0, 255);
    layer.set_pixel(at(1, 0), a);
    layer.set_pixel(at(0, 1), b);
    layer.set_pixel(at(65536, 65537), a);
    assert_eq!(layer.get_pixel(at(1, 0)), a);
    assert_eq!(layer.get_pixel(at(0, 1)), b);
    assert_eq!(layer.get_pixel(at(65536, 65537)), a);
    assert_eq!(layer.get_pixel(at(65537, 65536)), Color::new(0, 0, 0, 0));
    assert_eq!(layer.pixels_iter().len(), 3);
}

#[test]
fn sparse_layer_clear_fill_and_resize() {
    let mut layer = HashMapCanvasLayer::new(4, 4);
    let ink = Color::new(8, 8, 8, 8);
    layer.set_pixel(at(0, 0), ink);
    layer.fill(Color::new(1, 2, 3, 4));
    assert_eq!(layer.pixels_iter(), vec![(at(0, 0), ink)]);
    layer.set_size(9, 9, SideHorizontal::left, SideVertical::top);
    assert_eq!(layer.get_size(), (4, 4));
    assert_eq!(layer.pixels_iter(), vec![(at(0, 0), ink)]);
    layer.clear();
    assert!(layer.pixels_iter().is_empty());
    assert_eq!(layer.get_pixel(at(0, 0)), Color::new(0, 0, 0, 0));
    assert_eq!(layer.get_size(), (4, 4));
}

#[test]
fn pixels_iter_mut_writes_through() {
    let mut layer = HashMapCanvasLayer::new(4, 4);
    layer.set_pixel(at(2, 2), Color::new(1, 1, 1, 1));
    assert!(layer.pixels_iter_mut(at(0, 0)).is_none());
    assert!(layer.pixels_iter_mut(at(9, 9)).is_none());
    match layer.pixels_iter_mut(at(2, 2)) {
        Some(color) => {
            assert_eq!(*color, Color::new(1, 1, 1, 1));
            *color = Color::new(5, 6, 7, 8);
        }
        None => panic!("the pixel was painted"),
    }
    assert_eq!(layer.pixels_iter(), vec![(at(2, 2), Color::new(5, 6, 7, 8))]);
}

#[test]
fn dense_layer_composites_every_pixel() {
    let mut top = FlatCanvasLayer::new(2, 1);
    top.set_pixel(at(0, 0), Color::new(255, 0, 0, 120));
    let mut target = FlatCanvasLayer::new(2, 1);
    target.fill(Color::new(0, 255, 0, 255));
    top.apply_to_canvas(&mut target);
    assert_eq!(target.get_pixel(at(0, 0)), Color::new(120, 135, 0, 255));
    // the untouched pixel of the top layer has no coverage
    assert_eq!(target.get_pixel(at(1, 0)), Color::new(0, 255, 0, 255));
}

#[test]
fn smaller_dense_layer_composites_onto_its_corner() {
    let mut top = FlatCanvasLayer::new(1, 1);
    top.fill(Color::new(9, 9, 9, 255));
    let mut target = FlatCanvasLayer::new(2, 2);
    target.fill(Color::new(1, 1, 1, 255));
    top.apply_to_canvas(&mut target);
    assert_eq!(target.get_pixel(at(0, 0)), Color::new(9, 9, 9, 255));
    assert_eq!(target.get_pixel(at(1, 1)), Color::new(1, 1, 1, 255));
}

#[test]
fn sparse_layer_composites_only_what_was_painted() {
    let mut top = HashMapCanvasLayer::new(3, 3);
    top.set_pixel(at(1, 1), Color::new(255, 0, 0, 120));
    let mut target = FlatCanvasLayer::new(3, 3);
    target.fill(Color::new(0, 255, 0, 100));
    top.apply_to_canvas(&mut target);
    for x in 0..3 {
        for y in 0..3 {
            let expected = if (x, y) == (1, 1) {
                // red 255*120/255 = 120, green 255*100/255 = 100, alpha 120 + 100
                Color::new(120, 100, 0, 220)
            } else {
                Color::new(0, 255, 0, 100)
            };
            assert_eq!(target.get_pixel(at(x, y)), expected);
        }
    }
}

#[test]
fn sparse_layer_composites_onto_a_sparse_layer() {
    let mut top = HashMapCanvasLayer::new(3, 3);
    top.set_pixel(at(0, 0), Color::new(10, 20, 30, 255));
    top.set_pixel(at(1, 0), Color::new(255, 255, 255, 51));
    let mut target = HashMapCanvasLayer::new(3, 3);
    target.set_pixel(at(1, 0), Color::new(0, 0, 0, 255));
    target.set_pixel(at(2, 2), Color::new(7, 7, 7, 7));
    top.apply_to_canvas(&mut target);
    let mut painted = target.pixels_iter();
    painted.sort_by_key(|(p, _)| (p.x, p.y));
    assert_eq!(
        painted,
        vec![
            (at(0, 0), Color::new(10, 20, 30, 255)),
            (at(1, 0), Color::new(51, 51, 51, 255)),
            (at(2, 2), Color::new(7, 7, 7, 7)),
        ]
    );
}

#[test]
fn layers_apply_in_order_last_on_top() {
    let mut red = FlatCanvasLayer::new(1, 1);
    red.fill(Color::new(255, 0, 0, 255));
    let mut veil = FlatCanvasLayer::new(1, 1);
    veil.fill(Color::new(0, 0, 255, 51));
    let mut target = FlatCanvasLayer::new(1, 1);
    target.clear();
    apply_layers(&vec![&red, &veil], &mut target);
    // blue 255*51/255 = 51, red 255*204/255 = 204
    assert_eq!(target.get_pixel(at(0, 0)), Color::new(204, 0, 51, 255));
    target.clear();
    apply_layers(&vec![&veil, &red], &mut target);
    assert_eq!(target.get_pixel(at(0, 0)), Color::new(255, 0, 0, 255));
    target.clear();
    let none: Vec<&FlatCanvasLayer> = Vec::new();
    apply_layers(&none, &mut target);
    assert_eq!(target.get_pixel(at(0, 0)), Color::new(255, 255, 255, 255));
}
