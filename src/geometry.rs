//! The vector and matrix types of glam, as the library sees them.
//!
//! The library never looks inside these values: it stores, copies and hands
//! them to glam. What glam computes on them is named here, so that
//! contracts can say which value ends up where.
use vstd::prelude::*;

verus! {

#[verifier::external_type_specification]
#[verifier::external_body]
pub struct ExVec3(glam::Vec3);

#[verifier::external_type_specification]
#[verifier::external_body]
pub struct ExVec2(glam::Vec2);

#[verifier::external_type_specification]
#[verifier::external_body]
pub struct ExMat4(glam::Mat4);

/// The product `a * b` of two 4x4 matrices, as glam computes it.
pub uninterp spec fn mat4_product(a: glam::Mat4, b: glam::Mat4) -> glam::Mat4;

/// The inverse of a 4x4 matrix, as glam computes it.
pub uninterp spec fn mat4_inverse(m: glam::Mat4) -> glam::Mat4;

/// Relies on `<glam::Mat4 as Mul>::mul`: the matrix product depends on the
/// two operands alone.
#[verifier::external_body]
pub(crate) fn mat4_mul(a: &glam::Mat4, b: &glam::Mat4) -> (r: glam::Mat4)
    ensures
        r == mat4_product(*a, *b),
{
    *a * *b
}

/// Relies on `glam::Mat4::inverse`: the result depends on the matrix alone
/// (a singular matrix gives an invalid result, not a panic).
pub assume_specification[ glam::Mat4::inverse ](m: &glam::Mat4) -> (r: glam::Mat4)
    ensures
        r == mat4_inverse(*m),
;

/// A point carried through an affine matrix, as glam computes it.
pub uninterp spec fn mat4_point(m: glam::Mat4, p: glam::Vec3) -> glam::Vec3;

/// A direction carried through an affine matrix, as glam computes it.
pub uninterp spec fn mat4_vector(m: glam::Mat4, v: glam::Vec3) -> glam::Vec3;

/// Relies on `glam::Mat4::transform_point3`: the point transformed as
/// `(x, y, z, 1)`, a function of the matrix and the point alone.
pub assume_specification[ glam::Mat4::transform_point3 ](
    m: &glam::Mat4,
    p: glam::Vec3,
) -> (r: glam::Vec3)
    ensures
        r == mat4_point(*m, p),
;

/// Relies on `glam::Mat4::transform_vector3`: the direction transformed as
/// `(x, y, z, 0)`, a function of the matrix and the direction alone.
pub assume_specification[ glam::Mat4::transform_vector3 ](
    m: &glam::Mat4,
    v: glam::Vec3,
) -> (r: glam::Vec3)
    ensures
        r == mat4_vector(*m, v),
;

/// Relies on `glam::Mat4::IDENTITY`.
#[verifier::external_body]
pub(crate) fn mat4_identity() -> glam::Mat4 {
    glam::Mat4::IDENTITY
}

/// Relies on `glam::Vec3::ZERO`.
#[verifier::external_body]
pub(crate) fn vec3_zero() -> glam::Vec3 {
    glam::Vec3::ZERO
}

/// Relies on `glam::Vec2::ZERO`.
#[verifier::external_body]
pub(crate) fn vec2_zero() -> glam::Vec2 {
    glam::Vec2::ZERO
}

} // verus!
