//! What the user sees of a file, up to the drawing itself.

pub mod drawing_laws;
pub mod inference_bar;
pub mod shown_laws;
pub mod status;
pub mod time;
