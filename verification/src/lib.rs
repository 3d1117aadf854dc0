pub mod etc;
pub mod game;
pub mod map;
pub mod rng;
pub mod session;
pub mod text;
pub mod ui;
