//! The toolkit proper: the retained node tree, layout and paint decisions,
//! styling, and the state behind its input widgets.

pub mod arena;
pub mod canvas;
pub mod control_laws;
pub mod datetime;
pub mod datetime_laws;
pub mod flow_laws;
pub mod frame_laws;
pub mod geometry;
pub mod grid;
pub mod grid_laws;
pub mod hit_laws;
pub mod layout;
pub mod layout_laws;
pub mod live_laws;
pub mod measure;
pub mod measure_laws;
pub mod num;
pub mod num_laws;
pub mod paint;
pub mod paint_laws;
pub mod palette_laws;
pub mod picker_laws;
pub mod picker_layout;
pub mod pickers;
pub mod place_laws;
pub mod popup_layout;
pub mod raster;
pub mod raster_laws;
pub mod style;
pub mod style_laws;
pub mod tailwind;
pub mod text_input;
pub mod theme_laws;
