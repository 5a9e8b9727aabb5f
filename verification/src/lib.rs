//! A terminal-style snake simulation: a fixed-size occupancy grid, a
//! deterministic state machine driving the snake, uniform random food
//! placement, and a debouncing model for the key-input subsystem.
pub mod config;
pub mod grid;
pub mod input;
pub mod snake;
