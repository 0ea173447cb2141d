//! An offline Monte Carlo path tracer over a fixed-point numeric core.
//!
//! Scenes are collections of spheres with attached material behaviours
//! (diffuse, reflective, refractive); a perspective camera with optional
//! depth of field turns pixel coordinates into world rays, and a recursive
//! estimator turns each ray into a colour.  All real quantities are carried
//! as integers scaled by a fixed power of two, so every computation is exact
//! integer arithmetic with a stated rounding, and every function's result is
//! pinned down by its contract.

pub mod camera;
pub mod fixed;
pub mod hittable;
pub mod material;
pub mod ray;
pub mod render;
pub mod rng;
pub mod sphere;
pub mod trig;
pub mod vec3;

use vstd::prelude::*;

verus! {

} // verus!
