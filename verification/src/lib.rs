//! A spatial index for simulated universes of physical entities: an octree of
//! bounded "matter" regions, in which movement and collisions run, linked under
//! a growable "space" octree that doubles the addressable extent whenever an
//! entity strays past the current root.

pub mod entity;
pub mod geometry;
pub mod matter_tree;
pub mod player;
pub mod space;
pub mod space_tree;
pub mod voxel_grid;

pub use geometry::Vec3;
