//! Rendering data descriptions that do not depend on a graphics backend.

pub mod buffer;
pub mod render;
pub mod render_api;
pub mod shader;
