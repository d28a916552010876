pub mod board;
pub mod generator;
pub mod model;
pub mod play;
pub mod render;
pub mod rng;
pub mod solver;
pub mod text;
pub mod web;
