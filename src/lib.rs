//! Conway's Game of Life on a fixed-size grid, with verified boundary arithmetic
//! and generation updates.

pub mod gol;
pub mod patterns;

pub use gol::{Cell, GameOfLife, GolError};
pub use patterns::{
    draw_figure_from_base_coordinates, insert_glider_pattern, insert_line_vertical_pattern,
    insert_square_pattern,
};
