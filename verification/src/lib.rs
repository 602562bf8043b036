//! Document model and editing rules of a layered raster image editor.

pub mod arith;
pub mod camera_raw;
pub mod canvas;
pub mod color;
pub mod comps;
pub mod curve;
pub mod document;
pub mod editor;
pub mod editor_edit;
pub mod editor_filters;
pub mod editor_frame;
pub mod editor_io;
pub mod editor_layers;
pub mod editor_links;
pub mod editor_retouch;
pub mod editor_select;
pub mod editor_tools;
pub mod exact;
pub mod fingerprint;
pub mod geometry;
pub mod gradient;
pub mod grid;
pub mod half_float;
pub mod histogram;
pub mod layer;
pub mod mask;
pub mod panels;
pub mod path;
pub mod pattern;
pub mod retouch;
pub mod scalar;
pub mod settings;
pub mod smart_filter;
pub mod stroke;
pub mod styles;
pub mod text;
pub mod tools;
