//! The camera: from a position on the image plane to the ray through it.
use crate::fixed::{fx_div, fx_from_int, fx_mul, fx_sub, Fixed, ONE_RAW};
use crate::ray::{Ray, RayModel};
use crate::vec3::{v_add, v_div, v_scale, v_sub, v_zero, Vec3, V3};
use vstd::prelude::*;

verus! {

/// Mathematical model of a camera.
pub struct CameraModel {
    pub origin: V3,
    pub lower_left_corner: V3,
    pub horizontal: V3,
    pub vertical: V3,
}

/// The camera at the origin that looks down the negative z axis at a viewport
/// of the given height and aspect ratio, `focal_length` away.
pub open spec fn camera_for(aspect_ratio: int, viewport_height: int, focal_length: int)
    -> CameraModel {
    let viewport_width = fx_mul(aspect_ratio, viewport_height);
    let origin = v_zero();
    let horizontal = V3 { x: viewport_width, y: 0, z: 0 };
    let vertical = V3 { x: 0, y: viewport_height, z: 0 };
    let lower_left_corner = v_sub(
        v_sub(
            v_sub(origin, v_div(horizontal, 2 * ONE_RAW)),
            v_div(vertical, 2 * ONE_RAW),
        ),
        V3 { x: 0, y: 0, z: focal_length },
    );
    CameraModel { origin, lower_left_corner, horizontal, vertical }
}

/// The camera that `Camera::new` makes: aspect ratio 16 to 9, a viewport of
/// height 2 and focal length 1.
pub open spec fn default_camera() -> CameraModel {
    camera_for(fx_div(fx_from_int(16), fx_from_int(9)), 2 * ONE_RAW, ONE_RAW as int)
}

/// The direction from the camera to the point of the viewport at `u` of its
/// width and `v` of its height.
pub open spec fn camera_direction(c: CameraModel, u: int, v: int) -> V3 {
    v_sub(
        v_add(v_add(c.lower_left_corner, v_scale(u, c.horizontal)), v_scale(v, c.vertical)),
        c.origin,
    )
}

/// The ray from the camera through the point of the viewport at `u` of its
/// width and `v` of its height.
pub open spec fn camera_ray(c: CameraModel, u: int, v: int) -> RayModel {
    RayModel { origin: c.origin, direction: camera_direction(c, u, v) }
}

/// The camera never sends out a ray without a direction: whatever the place
/// on the viewport, the ray runs along the z axis by the focal length.
pub proof fn lemma_camera_ray_has_a_direction(
    aspect_ratio: int,
    viewport_height: int,
    focal_length: int,
    u: int,
    v: int,
)
    requires
        focal_length != 0,
        i64::MIN <= focal_length <= i64::MAX,
    ensures
        camera_ray(camera_for(aspect_ratio, viewport_height, focal_length), u, v).direction.z
            == fx_sub(0, focal_length),
        camera_ray(camera_for(aspect_ratio, viewport_height, focal_length), u, v).direction
            != v_zero(),
{
    assert(0int * 0x1_0000_0000int == 0);
    assert(u * 0 == 0 && v * 0 == 0);
}

/// A camera. Its viewport is parallel to the plane of x and y, at a distance
/// from the camera that is not zero.
#[derive(Clone, Copy, Debug)]
pub struct Camera {
    origin: Vec3,
    lower_left_corner: Vec3,
    horizontal: Vec3,
    vertical: Vec3,
}

impl View for Camera {
    type V = CameraModel;

    closed spec fn view(&self) -> CameraModel {
        CameraModel {
            origin: self.origin@,
            lower_left_corner: self.lower_left_corner@,
            horizontal: self.horizontal@,
            vertical: self.vertical@,
        }
    }
}

impl Camera {
    #[verifier::type_invariant]
    /// The viewport of a camera is parallel to the plane of x and y, and
    /// not in the plane of the camera.
    pub open spec fn well_formed(self) -> bool {
        &&& self@.horizontal.z == 0
        &&& self@.vertical.z == 0
        &&& fx_sub(self@.lower_left_corner.z, self@.origin.z) != 0
    }

    /// The camera with aspect ratio 16 to 9, a viewport of height 2 and focal
    /// length 1.
    pub fn new() -> (r: Camera)
        ensures
            r@ == default_camera(),
    {
        Camera::with_viewport(Fixed::from_ratio(16, 9), Fixed::from_int(2), Fixed::one())
    }

    /// The camera at the origin that looks down the negative z axis at a
    /// viewport of the given height and aspect ratio, `focal_length` away.
    pub fn with_viewport(aspect_ratio: Fixed, viewport_height: Fixed, focal_length: Fixed) -> (r:
        Camera)
        requires
            focal_length@ != 0,
        ensures
            r@ == camera_for(aspect_ratio@, viewport_height@, focal_length@),
    {
        let viewport_width = aspect_ratio * viewport_height;
        let two = Fixed::from_int(2);
        let horizontal = Vec3::from(viewport_width, Fixed::zero(), Fixed::zero());
        let vertical = Vec3::from(Fixed::zero(), viewport_height, Fixed::zero());
        let origin = Vec3::new();
        let lower_left_corner = origin - horizontal / two - vertical / two - Vec3::from(
            Fixed::zero(),
            Fixed::zero(),
            focal_length,
        );
        assert(0int * 0x1_0000_0000int == 0);
        Camera { origin, lower_left_corner, horizontal, vertical }
    }

    /// The ray from the camera through the point of the viewport at `u` of its
    /// width and `v` of its height, both counted from the lower left corner.
    pub fn get_ray(&self, u: Fixed, v: Fixed) -> (r: Ray)
        ensures
            r@ == camera_ray(self@, u@, v@),
    {
        proof {
            use_type_invariant(self);
            assert(u@ * 0 == 0 && v@ * 0 == 0);
        }
        let direction = self.lower_left_corner + u * self.horizontal + v * self.vertical
            - self.origin;
        Ray::from(self.origin, direction)
    }
}

impl Default for Camera {
    fn default() -> (r: Camera)
        ensures
            r@ == default_camera(),
    {
        Camera::new()
    }
}

} // verus!
