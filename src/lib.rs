//! Local collision avoidance for crowds of moving agents: a uniform-grid
//! neighbor index and the per-tick orchestration of velocity solves.

pub mod avoidance;
pub mod camera;
pub mod grid;
pub mod spatial_hash;
