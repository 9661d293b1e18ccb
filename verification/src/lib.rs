//! A voxel world: chunks of blocks, their surface meshes, terrain shaping and
//! the bookkeeping of which chunks stay loaded around the players.
//!
//! Coordinates follow a Z-up convention: `x` and `y` span the ground plane of a
//! chunk and `z` is the height.

pub mod vector;
pub mod chunk;
pub mod mesh;
pub mod terrain;
pub mod player;
pub mod chunk_manager;
