pub mod calculator;
pub mod config;
pub mod digits;
pub mod day4;
pub mod day5;
pub mod day6;
pub mod day7;
pub mod day8;
pub mod day11;
pub mod day13;
pub mod day16;
pub mod direction;
pub mod grid;
pub mod maze;
pub mod maze_graph;
pub mod parser;
mod pqueue;
pub mod xy;

pub use direction::Direction;
pub use grid::{Grid, GridRow};
pub use maze::{Kind, Maze};
pub use maze_graph::MazeGraph;
pub use xy::XY;
