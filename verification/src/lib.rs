//! The verified core of a path tracer: bounding boxes, the primitive list, the
//! bounding-volume hierarchy and the light-transport recursion.
//!
//! The library orders, selects and stores numbers and never computes with them.
//! A number reaches it as a [`vec::Scalar`], an integer key whose order is the
//! order of the numbers; the arithmetic of each shape and material stays with
//! the implementors of [`hittable::Hittable`] and [`material::Material`].

pub mod aabb;
pub mod bvh;
pub mod camera;
pub mod color;
pub mod geometry;
pub mod hittable;
pub mod material;
pub mod noise;
pub mod random;
pub mod ray;
pub mod sort;
pub mod vec;
