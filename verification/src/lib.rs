//! A Go-like game on regular tilings of the flat or the hyperbolic plane.
//!
//! The plane's rigid motions enter through the traits of [`geometry`]; the
//! board graph, the capture rules and the move history are built on them.

pub mod geometry;
pub mod stone;
pub mod board;
pub mod linking;
pub mod tiling;
pub mod groups;
pub mod capture;
pub mod history;
pub mod rules;
pub mod liberties;
pub mod game;
