pub mod input;
pub mod renderer;
pub mod screen;
