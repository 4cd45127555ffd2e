//! Core logic of a grid-packing puzzle: immutable boolean tile patterns,
//! sized grids with sparse occupant storage, pointer-ray tile picking with
//! deterministic priority ordering, and an all-or-nothing merge engine that
//! moves a piece grid's occupants into a package grid on drop.
//!
//! Everything here works on plain integer and boolean data. The surrounding
//! application owns the floating-point side (world transforms, ray-plane
//! intersection, world-point-to-tile mapping) and hands this crate the
//! resulting tile coordinates.

pub mod grid;
pub mod merge;
pub mod pattern;
pub mod picking;
