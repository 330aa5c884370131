//! Chopsticks: a keyboard-driven pointer for Wayland.
//!
//! The screen is split into a 26x26 grid of letter-labelled cells; two letters
//! pick a cell and a third key picks a point inside it.  This crate holds the
//! verified core: the grid geometry, the key handling state machine, the
//! colour parsing and the software rasteriser that draws the overlay.
pub mod config;
pub mod input;
pub mod mmap;
pub mod render;
pub mod session;
