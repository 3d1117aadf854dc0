pub mod dungeon;
pub mod entity;
pub mod master_data;
pub mod turn;
pub mod types;
pub mod visibility;
pub mod spawning;
pub mod play;
pub mod checks;
pub mod data_loader;
pub mod laws;
