//! Rays: half-lines given by an origin and a direction.
use crate::fixed::Fixed;
use crate::vec3::{v_add, v_scale, v_zero, Vec3, V3};
use vstd::prelude::*;

verus! {

/// Mathematical model of a ray.
pub struct RayModel {
    pub origin: V3,
    pub direction: V3,
}

/// The point `origin + t * direction`.
pub open spec fn ray_at(r: RayModel, t: int) -> V3 {
    v_add(r.origin, v_scale(t, r.direction))
}

/// A ray. Its direction need not have length one, but it is never the zero
/// vector.
#[derive(Clone, Copy, Debug)]
pub struct Ray {
    origin: Vec3,
    direction: Vec3,
}

impl View for Ray {
    type V = RayModel;

    closed spec fn view(&self) -> RayModel {
        RayModel { origin: self.origin@, direction: self.direction@ }
    }
}

impl Ray {
    #[verifier::type_invariant]
    /// The direction of a ray is not the zero vector.
    pub open spec fn well_formed(self) -> bool {
        self@.direction != v_zero()
    }

    /// The ray from `origin` along `direction`, which is not the zero vector.
    pub fn from(origin: Vec3, direction: Vec3) -> (r: Ray)
        requires
            direction@ != v_zero(),
        ensures
            r@ == (RayModel { origin: origin@, direction: direction@ }),
    {
        Ray { origin, direction }
    }

    /// The point at parameter `t`.
    pub fn at(&self, t: Fixed) -> (r: Vec3)
        ensures
            r@ == ray_at(self@, t@),
    {
        self.origin + t * self.direction
    }

    pub fn direction(&self) -> (r: Vec3)
        ensures
            r@ == self@.direction,
            r@ != v_zero(),
    {
        proof {
            use_type_invariant(self);
        }
        self.direction
    }

    pub fn origin(&self) -> (r: Vec3)
        ensures
            r@ == self@.origin,
    {
        self.origin
    }
}

} // verus!
