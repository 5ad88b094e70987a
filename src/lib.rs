mod frontier;
pub mod coord;
pub mod generate;
pub mod grid;
pub mod model;
pub mod route;
pub mod search;
