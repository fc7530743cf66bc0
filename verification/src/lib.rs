//! Mazes carved out of a rectangular grid by randomized depth-first search.
//!
//! A [`grid::Maze`] starts as a solid block of walls inside an open border.
//! Carving hops two cells at a time from a seed cell, knocking out the wall in
//! between, in an order chosen by a [`source::DrawSource`].
//!
//! Every function is specified against the mathematical model of the grid in
//! [`grid::Grid`] and of carving in [`model`]. What makes the result a maze,
//! whatever was drawn, is proved in [`laws`]. [`input`] turns a size that
//! was asked for into a dimension of the grid.

pub mod carver;
pub mod grid;
pub mod input;
pub mod laws;
pub mod model;
pub mod source;
