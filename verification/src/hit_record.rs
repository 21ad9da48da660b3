//! The record of one intersection of a ray with a surface.
use crate::fixed::{fx_mul, fx_neg, Fixed, ONE_RAW};
use crate::material::{Material, MaterialModel};
use crate::ray::Ray;
use crate::vec3::{dot, v_dot, v_neg, v_zero, Vec3, V3};
use core::ops::Neg;
use vstd::arithmetic::div_mod::lemma_fundamental_div_mod;
use vstd::prelude::*;

verus! {

/// Mathematical model of an intersection record.
pub struct HitModel {
    pub p: V3,
    pub normal: V3,
    pub t: int,
    pub front_face: bool,
    pub material: MaterialModel,
}

/// Whether a ray with the given direction meets a surface from outside, where
/// `outward_normal` is the surface normal that points away from the inside.
pub open spec fn faces_front(direction: V3, outward_normal: V3) -> bool {
    v_dot(direction, outward_normal) < 0
}

/// The surface normal turned against the incoming ray.
pub open spec fn facing_normal(direction: V3, outward_normal: V3) -> V3 {
    if faces_front(direction, outward_normal) {
        outward_normal
    } else {
        v_neg(outward_normal)
    }
}

impl HitModel {
    /// The record can be handed to a material: its normal is not the zero vector.
    pub open spec fn wf(self) -> bool {
        self.normal != v_zero()
    }
}

/// Every component is a raw value that negation maps to a raw value.
pub open spec fn negatable(v: V3) -> bool {
    &&& i64::MIN < v.x <= i64::MAX
    &&& i64::MIN < v.y <= i64::MAX
    &&& i64::MIN < v.z <= i64::MAX
}

/// The normal of a record never points along the incoming ray: turned against
/// it, its dot product with the ray's direction is not positive.
pub proof fn lemma_facing_normal_opposes(direction: V3, outward_normal: V3)
    requires
        negatable(outward_normal),
    ensures
        v_dot(direction, facing_normal(direction, outward_normal)) <= 0,
{
    if !faces_front(direction, outward_normal) {
        lemma_negated_product(direction.x, outward_normal.x);
        lemma_negated_product(direction.y, outward_normal.y);
        lemma_negated_product(direction.z, outward_normal.z);
    }
}

/// The product with the negated factor is at most the negated product.
pub proof fn lemma_negated_product(a: int, b: int)
    requires
        i64::MIN < b <= i64::MAX,
    ensures
        fx_mul(a, fx_neg(b)) <= -fx_mul(a, b),
{
    let p = a * b;
    assert(a * (-b) == -p) by (nonlinear_arith)
        requires
            p == a * b,
    ;
    lemma_fundamental_div_mod(p, ONE_RAW as int);
    lemma_fundamental_div_mod(-p, ONE_RAW as int);
}

/// An intersection of a ray with a surface.
#[derive(Clone, Copy, Debug)]
pub struct HitRecord {
    /// The point where the ray meets the surface.
    pub p: Vec3,
    /// The surface normal at `p`, turned against the ray.
    pub normal: Vec3,
    /// The ray's parameter at `p`.
    pub t: Fixed,
    /// Whether the ray came from outside the surface.
    pub front_face: bool,
    pub material: Material,
}

impl View for HitRecord {
    type V = HitModel;

    open spec fn view(&self) -> HitModel {
        HitModel {
            p: self.p@,
            normal: self.normal@,
            t: self.t@,
            front_face: self.front_face,
            material: self.material@,
        }
    }
}

/// The model of what an intersection query returned.
pub open spec fn hit_view(r: Option<HitRecord>) -> Option<HitModel> {
    match r {
        Some(rec) => Some(rec@),
        None => None,
    }
}

impl HitRecord {
    /// A record of a hit at `p`, at the ray parameter `t`, whose normal is yet to
    /// be set.
    pub fn new(p: Vec3, t: Fixed, material: Material) -> (r: HitRecord)
        ensures
            r@ == (HitModel {
                p: p@,
                normal: v_zero(),
                t: t@,
                front_face: false,
                material: material@,
            }),
    {
        HitRecord { p, normal: Vec3::new(), t, front_face: false, material }
    }

    /// Records on which side the ray `r` meets the surface, and the normal
    /// turned against the ray.
    pub fn set_face_normal(&mut self, r: &Ray, outward_normal: Vec3)
        ensures
            final(self)@ == (HitModel {
                front_face: faces_front(r@.direction, outward_normal@),
                normal: facing_normal(r@.direction, outward_normal@),
                ..old(self)@
            }),
    {
        self.front_face = dot(r.direction(), outward_normal).raw < 0;
        if self.front_face {
            self.normal = outward_normal;
        } else {
            self.normal = outward_normal.neg();
        }
    }
}

} // verus!
