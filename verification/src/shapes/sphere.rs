//! Where a ray enters a sphere.
//!
//! A ray meets a sphere where a quadratic equation in the ray parameter has a
//! root. The caller computes the equation's discriminant and, from its square
//! root, the two roots; which of them, if any, is the hit is decided here. The
//! three numbers are taken as depths are: by the bit patterns of their
//! encodings, of which those from `MIN_DEPTH` to `MAX_DEPTH` stand for the
//! positive finite numbers.
//!
//! The threshold `MIN_DEPTH` counts for the discriminant, as it does for a
//! hit in a search; a root must lie strictly above it.

use crate::search::{is_valid_depth, valid_depth, MAX_DEPTH, MIN_DEPTH};
use vstd::prelude::*;

verus! {

/// A root of the quadratic at which a ray can strike: one that stands for a
/// finite number strictly above the threshold.
pub open spec fn root_in_front(root: u64) -> bool {
    MIN_DEPTH < root <= MAX_DEPTH
}

/// The depth at which a ray strikes a sphere, given the discriminant of the
/// quadratic and its two roots, the smaller one as `near`.
///
/// A discriminant below the threshold means that the ray passes by the
/// sphere. Else the ray strikes the sphere at the smaller root, where it
/// enters; where that root is not above the threshold, the ray begins inside
/// the sphere and strikes it at the larger root, where it leaves; where that
/// root is not above the threshold either, the sphere lies behind the ray.
pub open spec fn root_struck(discriminant: u64, near: u64, far: u64) -> Option<u64> {
    if !valid_depth(discriminant) {
        None
    } else if root_in_front(near) {
        Some(near)
    } else if root_in_front(far) {
        Some(far)
    } else {
        None
    }
}

/// Whether `root` stands for a finite number strictly above the threshold.
pub fn is_root_in_front(root: u64) -> (in_front: bool)
    ensures
        in_front == root_in_front(root),
{
    MIN_DEPTH < root && root <= MAX_DEPTH
}

/// Picks the root of the quadratic at which a ray strikes a sphere, or
/// `None` where it does not strike it. What it picks is a valid depth.
pub fn hit_depth(discriminant: u64, near: u64, far: u64) -> (depth: Option<u64>)
    ensures
        depth == root_struck(discriminant, near, far),
        depth matches Some(d) ==> valid_depth(d) && root_in_front(d) && (d == near || d == far),
{
    if !is_valid_depth(discriminant) {
        None
    } else if is_root_in_front(near) {
        Some(near)
    } else if is_root_in_front(far) {
        Some(far)
    } else {
        None
    }
}

/// A sphere in front of the ray is struck where the ray enters it, not where
/// it leaves it: of two roots above the threshold the smaller is the hit.
pub proof fn lemma_entry_before_exit(discriminant: u64, near: u64, far: u64)
    requires
        valid_depth(discriminant),
        root_in_front(near),
        root_in_front(far),
        near <= far,
    ensures
        root_struck(discriminant, near, far) == Some(near),
        root_struck(discriminant, near, far)->0 <= far,
{
}

/// A sphere is struck exactly when the discriminant reaches the threshold
/// and one of the roots lies strictly above it; the hit is then the smaller
/// root if that one lies above the threshold, and else the larger.
pub proof fn lemma_struck_iff_root_in_front(discriminant: u64, near: u64, far: u64)
    ensures
        root_struck(discriminant, near, far) is Some <==> valid_depth(discriminant) && (
        root_in_front(near) || root_in_front(far)),
        root_struck(discriminant, near, far) matches Some(root) ==> root == (if root_in_front(
            near,
        ) {
            near
        } else {
            far
        }),
{
}

/// A root that lies exactly at the threshold is no hit: the ray strikes at
/// the other root, or not at all.
pub proof fn lemma_root_at_threshold_is_no_hit(discriminant: u64, near: u64, far: u64)
    ensures
        root_struck(discriminant, near, far) != Some(MIN_DEPTH),
        near == MIN_DEPTH ==> root_struck(discriminant, near, far) == (if valid_depth(
            discriminant,
        ) && root_in_front(far) {
            Some(far)
        } else {
            None
        }),
{
}

} // verus!
