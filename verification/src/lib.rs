//! A sparse, unbounded Game of Life engine.
//!
//! The board stores only its live cells, so memory and stepping cost are
//! proportional to the live population rather than to any grid extent.
//! Coordinates are signed 64-bit pairs; the grid has no artificial boundary.

pub mod board;
pub mod rules;
