//! Voxel-based shape compiler: evaluates a CSG tree of axis-aligned boxes
//! into a set of occupied grid cells, builds a dense occupancy grid, meshes
//! the visible faces into maximal rectangular quads, and packs the quad
//! footprints into a square power-of-two texture atlas.

pub mod geometry;
pub mod obj;
pub mod texture;
pub mod voxel;

use vstd::prelude::*;

verus! {

} // verus!
