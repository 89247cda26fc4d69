use raytracer::bounce::{sample, trace, MAX_ITERATIONS};
use raytracer::search::hit_check;
use std::cell::RefCell;

fn depth(lambda: f64) -> u64 {
    lambda.to_bits()
}

/// Follows one sample through a scene that is given as a table: `meets(from)`
/// lists, for the primary ray (`from == None`) or for the ray reflected at
/// shape `from`, the depth at which it meets each shape. What is known of a
/// hit, beside its shape, is the number of reflections that led to it. Gives
/// the hit shown and the shapes struck, in the order in which they were
/// struck.
fn follow(meets: &dyn Fn(Option<usize>) -> Vec<Option<u64>>) -> (Option<(usize, u8)>, Vec<usize>) {
    let struck = RefCell::new(Vec::new());
    let search = |from: Option<usize>, bounces: u8| {
        let depths = meets(from);
        let found = hit_check(depths.len(), from, &|i| depths[i].map(|d| (d, bounces)));
        if let Some((shape, _)) = found {
            struck.borrow_mut().push(shape);
        }
        found
    };
    let shown = trace(search(None, 0), &|shape, bounces: &u8| search(Some(shape), bounces + 1));
    (shown, struck.into_inner())
}

#[test]
fn a_sample_that_meets_nothing_shows_the_background() {
    let (shown, struck) = follow(&|_| vec![None, None]);
    assert_eq!(shown, None);
    assert_eq!(struck, Vec::<usize>::new());
}

#[test]
fn a_sample_on_a_lone_shape_shows_that_shape() {
    // The reflected ray would meet the shape it leaves once more, right at
    // its origin; nothing else is there.
    let (shown, struck) = follow(&|from| match from {
        None => vec![Some(depth(1.5))],
        Some(_) => vec![Some(depth(1e-12))],
    });
    assert_eq!(shown, Some((0, 0)));
    assert_eq!(struck, vec![0]);
}

#[test]
fn a_reflection_shows_the_other_shape_and_not_the_one_it_leaves() {
    // Shape 0 mirrors shape 1; the ray reflected at shape 1 goes off into
    // the void. Each reflected ray meets its own shape first.
    let (shown, struck) = follow(&|from| match from {
        None => vec![Some(depth(1.5)), Some(depth(4.0))],
        Some(0) => vec![Some(depth(1e-12)), Some(depth(0.75))],
        _ => vec![None, Some(depth(1e-12))],
    });
    assert_eq!(shown, Some((1, 1)));
    assert_eq!(struck, vec![0, 1]);
}

#[test]
fn a_sample_between_two_mirrors_ends_at_the_bound() {
    // Two mirrors that face each other: every reflected ray meets the other
    // mirror, and once more the one it leaves, nearer by.
    let (shown, struck) = follow(&|from| match from {
        None => vec![Some(depth(3.0)), None],
        Some(0) => vec![Some(depth(1e-9)), Some(depth(2.0))],
        _ => vec![Some(depth(2.0)), Some(depth(1e-9))],
    });
    assert_eq!(shown, Some((0, 4)));
    assert_eq!(struck, vec![0, 1, 0, 1, 0]);
}

#[test]
fn a_chain_is_followed_for_as_many_reflections_as_the_bound_allows() {
    // Shape `n` mirrors shape `n + 1`, without end.
    let calls = RefCell::new(Vec::new());
    let reflect = |shape: usize, _: &()| {
        calls.borrow_mut().push(shape);
        Some((shape + 1, ()))
    };
    assert_eq!(trace(Some((0, ())), &reflect), Some((MAX_ITERATIONS as usize + 2, ())));
    assert_eq!(*calls.borrow(), vec![0, 1, 2, 3]);
}

#[test]
fn a_chain_ends_where_a_reflected_ray_strikes_nothing() {
    for length in 0usize..8 {
        let calls = RefCell::new(0);
        let reflect = |shape: usize, hit: &&str| {
            *calls.borrow_mut() += 1;
            assert_eq!(*hit, if shape == 10 { "first" } else { "later" });
            if shape + 1 < 10 + length { Some((shape + 1, "later")) } else { None }
        };
        let first = if length == 0 { None } else { Some((10, "first")) };
        let shown = trace(first, &reflect);
        let expected = match length {
            0 => None,
            1 => Some((10, "first")),
            n => Some((10 + n.min(5) - 1, "later")),
        };
        assert_eq!(shown, expected);
        assert_eq!(*calls.borrow(), length.min(4));
    }
}

#[test]
fn a_sample_without_a_primary_hit_reflects_nothing() {
    let reflect = |_: usize, _: &()| -> Option<(usize, ())> { panic!("no ray to reflect") };
    assert_eq!(trace(None, &reflect), None);
}

#[test]
fn a_reflection_may_refuse_shapes_outside_the_scene() {
    // The function that reflects accepts three shapes only; it is asked
    // about the primary hit and about what it gave itself.
    let reflect = |shape: usize, _: &()| {
        assert!(shape < 3);
        if shape < 2 { Some((shape + 1, ())) } else { None }
    };
    assert_eq!(trace(Some((0, ())), &reflect), Some((2, ())));
    assert_eq!(trace(Some((2, ())), &reflect), Some((2, ())));
}

/// The scene of two mirrors that face each other, as functions of the shape:
/// what belongs to a hit is the list of the shapes struck up to it.
fn between_mirrors() -> (impl Fn(usize) -> Option<(u64, Vec<usize>)>, impl Fn(&Vec<usize>, usize) -> Option<(u64, Vec<usize>)>) {
    let primary = |i: usize| if i == 0 { Some((depth(3.0), vec![0])) } else { None };
    let reflected = |hit: &Vec<usize>, i: usize| {
        let from = *hit.last().unwrap();
        assert_ne!(i, from);
        let mut struck = hit.clone();
        struck.push(i);
        Some((depth(2.0), struck))
    };
    (primary, reflected)
}

#[test]
fn a_whole_sample_never_asks_about_the_shape_a_ray_leaves() {
    let (primary, reflected) = between_mirrors();
    assert_eq!(sample(2, &primary, &reflected), Some((0, vec![0, 1, 0, 1, 0])));
}

#[test]
fn a_whole_sample_in_an_empty_scene_shows_the_background() {
    let primary = |_: usize| -> Option<(u64, ())> { panic!("no shape to ask about") };
    let reflected = |_: &(), _: usize| -> Option<(u64, ())> { panic!("no shape to ask about") };
    assert_eq!(sample(0, &primary, &reflected), None);
}

#[test]
fn a_whole_sample_shows_the_nearest_shape_behind_each_reflection() {
    // Three shapes. The primary ray meets shapes 1 and 2 and strikes shape 2,
    // the nearer. The ray reflected there meets shapes 0 and 1 and strikes
    // shape 0. The ray reflected at shape 0 meets nothing.
    let primary = |i: usize| [None, Some((depth(5.0), "far")), Some((depth(2.5), "near"))][i];
    let reflected = |hit: &&str, i: usize| match (*hit, i) {
        ("near", 0) => Some((depth(1.0), "mirrored")),
        ("near", 1) => Some((depth(1.5), "behind")),
        _ => None,
    };
    assert_eq!(sample(3, &primary, &reflected), Some((0, "mirrored")));
}

#[test]
fn a_whole_sample_with_one_shape_shows_the_primary_hit() {
    let primary = |_: usize| Some((depth(1.5), 'p'));
    let reflected = |_: &char, _: usize| -> Option<(u64, char)> { panic!("the only shape is the one left") };
    assert_eq!(sample(1, &primary, &reflected), Some((0, 'p')));
}

#[test]
fn a_whole_sample_ignores_hits_behind_the_ray() {
    let primary = |i: usize| [Some((depth(-1.0), 'a')), Some((depth(0.0), 'b'))][i];
    let reflected = |_: &char, _: usize| -> Option<(u64, char)> { None };
    assert_eq!(sample(2, &primary, &reflected), None);
}
