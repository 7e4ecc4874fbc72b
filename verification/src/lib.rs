pub mod font;
pub mod text;
pub mod vt;
pub mod input;
pub mod names;
pub mod shell;
pub mod render;
