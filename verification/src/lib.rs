//! A Monte Carlo ray tracer for scenes of spheres with diffuse and reflecting
//! materials, computed in fixed-point arithmetic.
//!
//! Scalars are fixed-point numbers (`fixed`), so every result is an exact
//! function of the inputs and of the random draws. Each type has a
//! mathematical model over the integers, and each function states what it
//! returns in terms of these models.
pub mod camera;
pub mod fixed;
pub mod hit_record;
pub mod hittable;
pub mod material;
pub mod random;
pub mod ray;
pub mod render;
pub mod sphere;
pub mod sphere_laws;
pub mod sphere_normals;
pub mod vec3;
pub mod vector_laws;
