pub mod cell;
pub mod generator;
pub mod links;
pub mod reach;
pub mod spawn;
