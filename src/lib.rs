use vstd::prelude::*;

pub mod canvas;
pub mod color;
pub mod export;
pub mod registry;

pub use canvas::{CanvasContext, GeometryError};
pub use color::{parse_color_bytes, parse_css_color, Color};
pub use export::{to_data_url, ExportError};
pub use registry::{
    op_canvas_create, op_canvas_fill_rect, op_canvas_get_image_data, op_canvas_set_fill_style,
    op_canvas_to_data_url, CanvasError, CanvasManager,
};

verus! {

} // verus!
