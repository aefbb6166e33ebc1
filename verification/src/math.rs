//! Small vector and matrix helpers shared by every backend.
//!
//! Column-vector convention, row-major storage: points transform as
//! `p' = M * p`. Each function has a spec twin of the same formula over the
//! results that the arithmetic gives.

use crate::arith::{difference, product, quotient, repeatable, root, sum, Arith};
use crate::number::{num, Real, EPSILON, ONE, ZERO};
use vstd::prelude::*;

verus! {

/// A point or a direction.
#[derive(Debug, Clone, Copy, PartialEq)]
pub struct Vec3 {
    /// First component.
    pub x: Real,
    /// Second component.
    pub y: Real,
    /// Third component.
    pub z: Real,
}

/// A homogeneous point, or a colour with an alpha channel.
#[derive(Debug, Clone, Copy, PartialEq)]
pub struct Vec4 {
    /// First component.
    pub x: Real,
    /// Second component.
    pub y: Real,
    /// Third component.
    pub z: Real,
    /// Fourth component.
    pub w: Real,
}

/// A 4 by 4 matrix, by rows.
#[derive(Debug, Clone, Copy, PartialEq)]
pub struct Mat4 {
    /// First row.
    pub r0: Vec4,
    /// Second row.
    pub r1: Vec4,
    /// Third row.
    pub r2: Vec4,
    /// Fourth row.
    pub r3: Vec4,
}

/// A vector from its components.
#[verifier::allow_in_spec]
pub fn vec3(x: Real, y: Real, z: Real) -> Vec3
    returns
        (Vec3 { x, y, z }),
{
    Vec3 { x, y, z }
}

/// A homogeneous vector from its components.
#[verifier::allow_in_spec]
pub fn vec4(x: Real, y: Real, z: Real, w: Real) -> Vec4
    returns
        (Vec4 { x, y, z, w }),
{
    Vec4 { x, y, z, w }
}

/// The 4 by 4 identity matrix.
#[verifier::allow_in_spec]
pub fn identity4() -> Mat4
    returns
        (Mat4 {
            r0: vec4(num(ONE), num(ZERO), num(ZERO), num(ZERO)),
            r1: vec4(num(ZERO), num(ONE), num(ZERO), num(ZERO)),
            r2: vec4(num(ZERO), num(ZERO), num(ONE), num(ZERO)),
            r3: vec4(num(ZERO), num(ZERO), num(ZERO), num(ONE)),
        }),
{
    Mat4 {
        r0: vec4(num(ONE), num(ZERO), num(ZERO), num(ZERO)),
        r1: vec4(num(ZERO), num(ONE), num(ZERO), num(ZERO)),
        r2: vec4(num(ZERO), num(ZERO), num(ONE), num(ZERO)),
        r3: vec4(num(ZERO), num(ZERO), num(ZERO), num(ONE)),
    }
}

/// `a + b`.
pub open spec fn added<K: Arith>(k: &K, a: Vec3, b: Vec3) -> Vec3 {
    vec3(sum(k, a.x, b.x), sum(k, a.y, b.y), sum(k, a.z, b.z))
}

/// `a + b`.
pub fn vec3_add<K: Arith>(k: &K, a: Vec3, b: Vec3) -> (r: Vec3)
    ensures
        repeatable(k) ==> r == added(k, a, b),
{
    vec3(k.plus(a.x, b.x), k.plus(a.y, b.y), k.plus(a.z, b.z))
}

/// `a - b`.
pub open spec fn subtracted<K: Arith>(k: &K, a: Vec3, b: Vec3) -> Vec3 {
    vec3(difference(k, a.x, b.x), difference(k, a.y, b.y), difference(k, a.z, b.z))
}

/// `a - b`.
pub fn vec3_sub<K: Arith>(k: &K, a: Vec3, b: Vec3) -> (r: Vec3)
    ensures
        repeatable(k) ==> r == subtracted(k, a, b),
{
    vec3(k.minus(a.x, b.x), k.minus(a.y, b.y), k.minus(a.z, b.z))
}

/// `v * s`.
pub open spec fn scaled<K: Arith>(k: &K, v: Vec3, s: Real) -> Vec3 {
    vec3(product(k, v.x, s), product(k, v.y, s), product(k, v.z, s))
}

/// `v * s`.
pub fn vec3_scale<K: Arith>(k: &K, v: Vec3, s: Real) -> (r: Vec3)
    ensures
        repeatable(k) ==> r == scaled(k, v, s),
{
    vec3(k.times(v.x, s), k.times(v.y, s), k.times(v.z, s))
}

/// Dot product.
pub open spec fn dot<K: Arith>(k: &K, a: Vec3, b: Vec3) -> Real {
    sum(k, sum(k, product(k, a.x, b.x), product(k, a.y, b.y)), product(k, a.z, b.z))
}

/// Dot product.
pub fn vec3_dot<K: Arith>(k: &K, a: Vec3, b: Vec3) -> (r: Real)
    ensures
        repeatable(k) ==> r == dot(k, a, b),
{
    k.plus(k.plus(k.times(a.x, b.x), k.times(a.y, b.y)), k.times(a.z, b.z))
}

/// Cross product, right-handed.
pub open spec fn cross<K: Arith>(k: &K, a: Vec3, b: Vec3) -> Vec3 {
    vec3(
        difference(k, product(k, a.y, b.z), product(k, a.z, b.y)),
        difference(k, product(k, a.z, b.x), product(k, a.x, b.z)),
        difference(k, product(k, a.x, b.y), product(k, a.y, b.x)),
    )
}

/// Cross product, right-handed.
pub fn vec3_cross<K: Arith>(k: &K, a: Vec3, b: Vec3) -> (r: Vec3)
    ensures
        repeatable(k) ==> r == cross(k, a, b),
{
    vec3(
        k.minus(k.times(a.y, b.z), k.times(a.z, b.y)),
        k.minus(k.times(a.z, b.x), k.times(a.x, b.z)),
        k.minus(k.times(a.x, b.y), k.times(a.y, b.x)),
    )
}

/// Unit-length copy of `v`. A vector that is shorter than [`EPSILON`] maps to
/// zero, so degenerate normals stay silent.
pub open spec fn normalised<K: Arith>(k: &K, v: Vec3) -> Vec3 {
    let len = root(k, dot(k, v, v));
    if len.below(num(EPSILON)) {
        vec3(num(ZERO), num(ZERO), num(ZERO))
    } else {
        vec3(quotient(k, v.x, len), quotient(k, v.y, len), quotient(k, v.z, len))
    }
}

/// Unit-length copy of `v`. A vector that is shorter than [`EPSILON`] maps to
/// zero, so degenerate normals stay silent.
pub fn vec3_normalise<K: Arith>(k: &K, v: Vec3) -> (r: Vec3)
    ensures
        repeatable(k) ==> r == normalised(k, v),
{
    let len = k.sqrt(vec3_dot(k, v, v));
    if len.lt(num(EPSILON)) {
        vec3(num(ZERO), num(ZERO), num(ZERO))
    } else {
        vec3(k.over(v.x, len), k.over(v.y, len), k.over(v.z, len))
    }
}

/// Dot product of homogeneous vectors.
pub open spec fn dot4<K: Arith>(k: &K, a: Vec4, b: Vec4) -> Real {
    sum(
        k,
        sum(k, sum(k, product(k, a.x, b.x), product(k, a.y, b.y)), product(k, a.z, b.z)),
        product(k, a.w, b.w),
    )
}

/// Dot product of homogeneous vectors.
pub fn vec4_dot<K: Arith>(k: &K, a: Vec4, b: Vec4) -> (r: Real)
    ensures
        repeatable(k) ==> r == dot4(k, a, b),
{
    k.plus(
        k.plus(k.plus(k.times(a.x, b.x), k.times(a.y, b.y)), k.times(a.z, b.z)),
        k.times(a.w, b.w),
    )
}

/// `m * v` for a homogeneous vector.
pub open spec fn transformed<K: Arith>(k: &K, m: &Mat4, v: Vec4) -> Vec4 {
    vec4(dot4(k, m.r0, v), dot4(k, m.r1, v), dot4(k, m.r2, v), dot4(k, m.r3, v))
}

/// `m * v` for a homogeneous vector.
pub fn mat4_mul_vec4<K: Arith>(k: &K, m: &Mat4, v: Vec4) -> (r: Vec4)
    ensures
        repeatable(k) ==> r == transformed(k, m, v),
{
    vec4(vec4_dot(k, m.r0, v), vec4_dot(k, m.r1, v), vec4_dot(k, m.r2, v), vec4_dot(k, m.r3, v))
}

/// One row of a matrix product.
pub open spec fn row_composed<K: Arith>(k: &K, r: Vec4, b: &Mat4) -> Vec4 {
    vec4(
        dot4(k, r, vec4(b.r0.x, b.r1.x, b.r2.x, b.r3.x)),
        dot4(k, r, vec4(b.r0.y, b.r1.y, b.r2.y, b.r3.y)),
        dot4(k, r, vec4(b.r0.z, b.r1.z, b.r2.z, b.r3.z)),
        dot4(k, r, vec4(b.r0.w, b.r1.w, b.r2.w, b.r3.w)),
    )
}

/// One row of a matrix product.
pub fn row_mul<K: Arith>(k: &K, r: Vec4, b: &Mat4) -> (out: Vec4)
    ensures
        repeatable(k) ==> out == row_composed(k, r, b),
{
    vec4(
        vec4_dot(k, r, vec4(b.r0.x, b.r1.x, b.r2.x, b.r3.x)),
        vec4_dot(k, r, vec4(b.r0.y, b.r1.y, b.r2.y, b.r3.y)),
        vec4_dot(k, r, vec4(b.r0.z, b.r1.z, b.r2.z, b.r3.z)),
        vec4_dot(k, r, vec4(b.r0.w, b.r1.w, b.r2.w, b.r3.w)),
    )
}

/// Matrix product; `b` is applied first to a column vector.
pub open spec fn composed<K: Arith>(k: &K, a: &Mat4, b: &Mat4) -> Mat4 {
    Mat4 {
        r0: row_composed(k, a.r0, b),
        r1: row_composed(k, a.r1, b),
        r2: row_composed(k, a.r2, b),
        r3: row_composed(k, a.r3, b),
    }
}

/// Matrix product; `b` is applied first to a column vector.
pub fn mat4_mul<K: Arith>(k: &K, a: &Mat4, b: &Mat4) -> (r: Mat4)
    ensures
        repeatable(k) ==> r == composed(k, a, b),
{
    Mat4 {
        r0: row_mul(k, a.r0, b),
        r1: row_mul(k, a.r1, b),
        r2: row_mul(k, a.r2, b),
        r3: row_mul(k, a.r3, b),
    }
}

/// Transforms a point through `m`, with perspective divide.
pub open spec fn moved<K: Arith>(k: &K, m: &Mat4, p: Vec3) -> Vec3 {
    let v = transformed(k, m, vec4(p.x, p.y, p.z, num(ONE)));
    if num(EPSILON).below(v.w.unsigned()) {
        vec3(quotient(k, v.x, v.w), quotient(k, v.y, v.w), quotient(k, v.z, v.w))
    } else {
        vec3(v.x, v.y, v.z)
    }
}

/// Transforms a point through `m`, with perspective divide.
pub fn mat4_mul_point<K: Arith>(k: &K, m: &Mat4, p: Vec3) -> (r: Vec3)
    ensures
        repeatable(k) ==> r == moved(k, m, p),
{
    let v = mat4_mul_vec4(k, m, vec4(p.x, p.y, p.z, num(ONE)));
    if num(EPSILON).lt(v.w.abs()) {
        vec3(k.over(v.x, v.w), k.over(v.y, v.w), k.over(v.z, v.w))
    } else {
        vec3(v.x, v.y, v.z)
    }
}

/// The upper-left 3 by 3 of `m` applied to a direction, so that it does not
/// pick up the translation.
pub open spec fn turned<K: Arith>(k: &K, m: &Mat4, v: Vec3) -> Vec3 {
    vec3(
        dot(k, vec3(m.r0.x, m.r0.y, m.r0.z), v),
        dot(k, vec3(m.r1.x, m.r1.y, m.r1.z), v),
        dot(k, vec3(m.r2.x, m.r2.y, m.r2.z), v),
    )
}

/// The upper-left 3 by 3 of `m` applied to a direction, so that it does not
/// pick up the translation.
pub fn mat3_mul_vec3<K: Arith>(k: &K, m: &Mat4, v: Vec3) -> (r: Vec3)
    ensures
        repeatable(k) ==> r == turned(k, m, v),
{
    vec3(
        vec3_dot(k, vec3(m.r0.x, m.r0.y, m.r0.z), v),
        vec3_dot(k, vec3(m.r1.x, m.r1.y, m.r1.z), v),
        vec3_dot(k, vec3(m.r2.x, m.r2.y, m.r2.z), v),
    )
}

} // verus!
