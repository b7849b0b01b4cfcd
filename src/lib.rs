//! Discrete core of a path tracer: the lattice tables of Perlin noise, the
//! construction of a bounding-volume hierarchy over primitive handles, the
//! choice of side of a checker texture, and pixel lookup in image textures.

pub mod random;
pub mod noise;
pub mod bvh;
pub mod image;
pub mod checker;
