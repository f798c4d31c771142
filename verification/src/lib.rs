//! Verified core of the greenfield engine: the discrete decisions and integer bookkeeping that the
//! floating-point physics is built around — phase classification of impacted matter, the camera's
//! frame-of-reference cycling, friends-of-friends clumping of a particle field, block-timestep
//! scheduling, mesh index topology, the per-voxel shading hash, and the material lookups.

pub mod damage;
pub mod focus;
pub mod clumps;
pub mod schedule;
pub mod topology;
pub mod shading;
pub mod materials;
pub mod drain;
pub mod octree;
pub mod debris_slots;
