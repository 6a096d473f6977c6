pub mod color;
pub mod frame;
pub mod ini;
pub mod render;
