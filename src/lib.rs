//! Incremental editing of a railway schematic drawn on an integer grid.
//!
//! The library keeps three structures consistent after every edit: the
//! graph of locations and tracks, the polyline of each track, and an index
//! from grid points to the entity that occupies them.
use vstd::prelude::*;

pub mod geometry;
pub mod polyline;
pub mod arena;
pub mod canvas;
pub mod document;
