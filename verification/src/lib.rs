//! A layered raster canvas with a verified core.
//!
//! A [`canvas::Canvas`] holds a stack of dense pixel layers over a
//! checkerboard, a sparse layer for the stroke in progress, and the display
//! buffer they are composited into. Paint tools draw strokes through it;
//! every stroke becomes one reversible edit of the active layer, kept on an
//! undo and a redo stack.
//!
//! The contracts speak of mathematical content: a layer's
//! [`layer_view::LayerView`], a canvas's [`canvas_view::CanvasView`]. What
//! holds of several operations together is proved in [`laws`], and beside the
//! functions it concerns in [`utils`].

pub mod arrange;
pub mod canvas;
pub mod canvas_layer;
pub mod canvas_view;
pub mod data_types;
pub mod edit_command;
pub mod laws;
pub mod layer_config;
pub mod layer_view;
pub mod paint_tool;
pub mod size_window;
pub mod stroke;
pub mod utils;
