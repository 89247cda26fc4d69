//! Nearest-hit resolution: which of the shapes that a ray meets it meets first.
//!
//! A ray meets a shape at a ray parameter, a positive real number that grows
//! with the distance from the ray's origin. This module never computes with
//! such a number; it only orders them. It therefore takes each one as a
//! *depth*: the 64-bit pattern of the IEEE 754 double-precision encoding of the
//! parameter. For positive finite numbers the unsigned order of the patterns is
//! the order of the numbers, and every other number (zero, a negative one, an
//! infinity, a NaN) has a pattern outside `MIN_DEPTH ..= MAX_DEPTH`.
//!
//! Shapes are known by their index in the scene's list of shapes. `nearest`
//! picks the shape struck from the depths at which a ray meets the shapes;
//! `hit_check` also asks for those depths, shape by shape.

use vstd::prelude::*;

verus! {

/// The depth of the smallest ray parameter at which a hit counts: the pattern
/// of the smallest positive normal number. Anything nearer is taken for the
/// ray's own origin.
pub const MIN_DEPTH: u64 = 0x0010_0000_0000_0000;

/// The depth of the largest ray parameter at which a hit counts: the pattern of
/// the largest finite number.
pub const MAX_DEPTH: u64 = 0x7FEF_FFFF_FFFF_FFFF;

/// A depth that stands for a ray parameter in front of the ray's origin.
pub open spec fn valid_depth(depth: u64) -> bool {
    MIN_DEPTH <= depth <= MAX_DEPTH
}

/// Shape `i` is in the running: it is not the excluded one, the ray meets it,
/// and it does so at a valid depth.
pub open spec fn is_candidate(depths: Seq<Option<u64>>, exclude: Option<usize>, i: int) -> bool {
    &&& 0 <= i < depths.len()
    &&& !(exclude matches Some(e) && e == i)
    &&& depths[i] matches Some(d) && valid_depth(d)
}

/// Shape `i` is the one the ray strikes first: a candidate whose depth no
/// other candidate undercuts, and the earliest in the list among those that
/// share its depth.
pub open spec fn is_nearest(depths: Seq<Option<u64>>, exclude: Option<usize>, i: int) -> bool {
    &&& is_candidate(depths, exclude, i)
    &&& forall|j: int| #[trigger]
        is_candidate(depths, exclude, j) ==> {
            ||| depths[i]->0 < depths[j]->0
            ||| depths[i]->0 == depths[j]->0 && i <= j
        }
}

/// Whether `depth` stands for a ray parameter in front of the ray's origin.
pub fn is_valid_depth(depth: u64) -> (valid: bool)
    ensures
        valid == valid_depth(depth),
{
    MIN_DEPTH <= depth && depth <= MAX_DEPTH
}

/// Whether a newly found hit replaces the one held so far: it must lie at a
/// valid depth and strictly nearer. `old_depth` is the depth of a hit that is
/// held, which is a valid one; only among valid depths is the order of the
/// patterns that of the numbers.
pub fn hit_is_closer(new_depth: u64, old_depth: u64) -> (closer: bool)
    ensures
        closer == (valid_depth(new_depth) && new_depth < old_depth),
{
    is_valid_depth(new_depth) && new_depth < old_depth
}

/// Picks the shape that a ray strikes first.
///
/// `depths[i]` is the depth at which the ray meets shape `i`, or `None` where
/// it misses that shape. `exclude` names a shape that must not be reported:
/// the one a reflected ray has just left. The result is the index of the
/// nearest remaining hit, the first in the list where several lie at the same
/// depth, or `None` where nothing is struck.
pub fn nearest(depths: &Vec<Option<u64>>, exclude: Option<usize>) -> (hit: Option<usize>)
    ensures
        match hit {
            Some(i) => is_nearest(depths@, exclude, i as int),
            None => forall|j: int| !is_candidate(depths@, exclude, j),
        },
        exclude is Some ==> hit != exclude,
{
    let mut best: Option<usize> = None;
    let mut best_depth: u64 = 0;
    let mut i: usize = 0;
    while i < depths.len()
        invariant
            0 <= i <= depths.len(),
            match best {
                Some(b) => {
                    &&& b < i
                    &&& is_candidate(depths@, exclude, b as int)
                    &&& depths@[b as int] == Some(best_depth)
                    &&& forall|j: int|
                        0 <= j < i && #[trigger] is_candidate(depths@, exclude, j) ==> {
                            ||| best_depth < depths@[j]->0
                            ||| best_depth == depths@[j]->0 && b <= j
                        }
                },
                None => forall|j: int| 0 <= j < i ==> !is_candidate(depths@, exclude, j),
            },
        decreases depths.len() - i,
    {
        let skipped = match exclude {
            Some(e) => e == i,
            None => false,
        };
        if !skipped {
            if let Some(depth) = depths[i] {
                let closer = match best {
                    Some(_) => hit_is_closer(depth, best_depth),
                    None => is_valid_depth(depth),
                };
                if closer {
                    best = Some(i);
                    best_depth = depth;
                }
            }
        }
        i += 1;
    }
    best
}

/// At most one shape is the nearest: the result of `nearest` is the only
/// index that meets its contract.
pub proof fn lemma_nearest_is_unique(
    depths: Seq<Option<u64>>,
    exclude: Option<usize>,
    i: int,
    j: int,
)
    requires
        is_nearest(depths, exclude, i),
        is_nearest(depths, exclude, j),
    ensures
        i == j,
{
}

/// The excluded shape is never the nearest, whatever its own depth: a ray
/// that leaves a shape by reflection does not strike that shape again.
pub proof fn lemma_excluded_is_never_nearest(depths: Seq<Option<u64>>, shape: usize)
    ensures
        !is_nearest(depths, Some(shape), shape as int),
{
}

/// To exclude a shape is to search as if the ray missed it: the other shapes
/// are struck exactly as they would be without it.
pub proof fn lemma_exclusion_is_removal(depths: Seq<Option<u64>>, shape: usize, i: int)
    requires
        shape < depths.len(),
    ensures
        is_nearest(depths, Some(shape), i) <==> is_nearest(
            depths.update(shape as int, None),
            None,
            i,
        ),
{
    let without = depths.update(shape as int, None);
    assert forall|j: int|
        is_candidate(depths, Some(shape), j) == is_candidate(without, None, j) by {}
    if is_nearest(depths, Some(shape), i) {
        assert forall|j: int| #[trigger] is_candidate(without, None, j) implies {
            ||| without[i]->0 < without[j]->0
            ||| without[i]->0 == without[j]->0 && i <= j
        } by {
            assert(is_candidate(depths, Some(shape), j));
        }
    }
    if is_nearest(without, None, i) {
        assert forall|j: int| #[trigger] is_candidate(depths, Some(shape), j) implies {
            ||| depths[i]->0 < depths[j]->0
            ||| depths[i]->0 == depths[j]->0 && i <= j
        } by {
            assert(is_candidate(without, None, j));
        }
    }
}

/// A shape is not struck where the ray meets another shape nearer by.
pub proof fn lemma_nearer_candidate_wins(
    depths: Seq<Option<u64>>,
    exclude: Option<usize>,
    near: int,
    far: int,
)
    requires
        is_candidate(depths, exclude, near),
        is_candidate(depths, exclude, far),
        depths[near]->0 < depths[far]->0,
    ensures
        !is_nearest(depths, exclude, far),
{
}

/// Of two shapes that a ray meets at different valid depths, the nearer one
/// is struck, in whichever order the scene lists them.
pub proof fn lemma_nearer_of_two_wins(depths: Seq<Option<u64>>, near: int, far: int)
    requires
        depths.len() == 2,
        0 <= near < 2,
        0 <= far < 2,
        near != far,
        depths[near] matches Some(n) && depths[far] matches Some(f) && valid_depth(n)
            && valid_depth(f) && n < f,
    ensures
        is_nearest(depths, None, near),
        !is_nearest(depths, None, far),
{
    assert(is_candidate(depths, None, near));
}

/// The depths among what was found for each shape.
pub open spec fn depths_of<T>(found: Seq<Option<(u64, T)>>) -> Seq<Option<u64>> {
    Seq::new(
        found.len(),
        |i: int|
            match found[i] {
                Some(hit) => Some(hit.0),
                None => None,
            },
    )
}

/// `found` is what a search of `shapes` shapes came upon: for each shape but
/// the excluded one, what `hit` gave when asked for that shape, and nothing
/// for the excluded one.
pub open spec fn probed<T, F: Fn(usize) -> Option<(u64, T)>>(
    hit: &F,
    shapes: usize,
    exclude: Option<usize>,
    found: Seq<Option<(u64, T)>>,
) -> bool {
    &&& found.len() == shapes
    &&& forall|i: int|
        0 <= i < shapes ==> if exclude == Some(i as usize) {
            (#[trigger] found[i]) is None
        } else {
            call_ensures(hit, (i as usize,), found[i])
        }
}

/// `struck` is the nearest hit among what was found, with the index of its
/// shape and what belongs to it, or `None` where nothing found lies at a
/// valid depth.
pub open spec fn picked<T>(
    found: Seq<Option<(u64, T)>>,
    exclude: Option<usize>,
    struck: Option<(usize, T)>,
) -> bool {
    match struck {
        Some(pair) => {
            &&& is_nearest(depths_of(found), exclude, pair.0 as int)
            &&& found[pair.0 as int] matches Some(first) && first.1 == pair.1
        },
        None => forall|j: int| !is_candidate(depths_of(found), exclude, j),
    }
}

/// Searches a scene of `shapes` shapes for the one that a ray strikes first.
///
/// `hit(i)` is called for each shape but the excluded one, in the order of
/// the scene; it says whether the ray meets shape `i`, and if so at what
/// depth, together with whatever else the caller wants to know of the hit.
/// The result is the nearest hit at a valid depth, with the index of its
/// shape, or `None` where nothing is struck.
pub fn hit_check<T, F: Fn(usize) -> Option<(u64, T)>>(
    shapes: usize,
    exclude: Option<usize>,
    hit: &F,
) -> (struck: Option<(usize, T)>)
    requires
        forall|i: usize|
            i < shapes && exclude != Some(i) ==> #[trigger] call_requires(hit, (i,)),
    ensures
        exists|found: Seq<Option<(u64, T)>>|
            probed(hit, shapes, exclude, found) && picked(found, exclude, struck),
        exclude matches Some(left) ==> !(struck matches Some(pair) && pair.0 == left),
{
    let mut depths: Vec<Option<u64>> = Vec::new();
    let mut hits: Vec<Option<T>> = Vec::new();
    let ghost mut found: Seq<Option<(u64, T)>> = Seq::empty();
    let mut i: usize = 0;
    while i < shapes
        invariant
            i <= shapes,
            depths.len() == i,
            hits.len() == i,
            found.len() == i,
            forall|k: usize|
                k < shapes && exclude != Some(k) ==> #[trigger] call_requires(hit, (k,)),
            forall|k: int|
                0 <= k < i ==> if exclude == Some(k as usize) {
                    (#[trigger] found[k]) is None
                } else {
                    call_ensures(hit, (k as usize,), found[k])
                },
            forall|k: int|
                0 <= k < i ==> match #[trigger] found[k] {
                    Some(first) => depths[k] == Some(first.0) && hits[k] == Some(first.1),
                    None => depths[k] is None && hits[k] is None,
                },
        decreases shapes - i,
    {
        let skipped = match exclude {
            Some(left) => left == i,
            None => false,
        };
        let probe = if skipped {
            None
        } else {
            hit(i)
        };
        proof {
            found = found.push(probe);
        }
        match probe {
            Some((depth, rest)) => {
                depths.push(Some(depth));
                hits.push(Some(rest));
            },
            None => {
                depths.push(None);
                hits.push(None);
            },
        }
        i += 1;
    }
    proof {
        assert(depths@ =~= depths_of(found));
        assert(probed(hit, shapes, exclude, found));
    }
    let struck = match nearest(&depths, exclude) {
        Some(index) => {
            assert(is_candidate(depths@, exclude, index as int));
            assert(found[index as int] is Some);
            match hits.swap_remove(index) {
                Some(rest) => Some((index, rest)),
                None => None,
            }
        },
        None => None,
    };
    proof {
        assert(picked(found, exclude, struck));
    }
    struck
}

} // verus!
