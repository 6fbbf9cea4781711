//! Integer and byte-level logic of a small rendering toolkit: Morton-ordered
//! grid meshes, bounding-volume-hierarchy topology, screen-tile binning and the
//! header grammar of the binary PLY files that store Gaussian splats.

pub mod morton;
pub mod grid_mesh;
pub mod text;
pub mod ply;
pub mod tiles;
pub mod bvh;
pub mod splat;
pub mod floor;
pub mod ply_layout;
