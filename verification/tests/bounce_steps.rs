use raytracer::bounce::{Step, Tracer, Verdict, MAX_ITERATIONS};

/// Reports the search results one by one, and gives the verdict together
/// with the number of searches that were asked for.
fn run(finds: &[Option<usize>]) -> Option<(Verdict, usize)> {
    let mut tracer = Tracer::new();
    for (searches, found) in finds.iter().enumerate() {
        match tracer.step(*found) {
            Step::Finish(verdict) => return Some((verdict, searches + 1)),
            Step::Reflect { exclude, next } => {
                assert_eq!(Some(exclude), *found);
                tracer = next;
            }
        }
    }
    None
}

#[test]
fn the_bound_on_reflection_is_two() {
    assert_eq!(MAX_ITERATIONS, 2);
}

#[test]
fn a_new_tracer_has_found_nothing() {
    assert_eq!(Tracer::new(), Tracer { hits: 0 });
}

#[test]
fn a_primary_ray_that_strikes_nothing_shows_the_background() {
    assert_eq!(Tracer::new().step(None), Step::Finish(Verdict::Background));
    assert_eq!(run(&[None, Some(3)]), Some((Verdict::Background, 1)));
}

#[test]
fn a_primary_hit_is_reflected_without_the_shape_struck() {
    assert_eq!(
        Tracer::new().step(Some(7)),
        Step::Reflect { exclude: 7, next: Tracer { hits: 1 } }
    );
}

#[test]
fn a_reflection_that_strikes_nothing_leaves_the_primary_hit() {
    assert_eq!(run(&[Some(0), None]), Some((Verdict::Shade { bounces: 0 }, 2)));
}

#[test]
fn the_last_shape_of_the_chain_is_shown() {
    assert_eq!(run(&[Some(0), Some(1), None]), Some((Verdict::Shade { bounces: 1 }, 3)));
    assert_eq!(run(&[Some(0), Some(1), Some(0), None]), Some((Verdict::Shade { bounces: 2 }, 4)));
    assert_eq!(
        run(&[Some(0), Some(1), Some(0), Some(1), None]),
        Some((Verdict::Shade { bounces: 3 }, 5))
    );
}

#[test]
fn the_chain_ends_at_the_bound() {
    let endless = [Some(0), Some(1), Some(0), Some(1), Some(0), Some(1), Some(0), Some(1)];
    assert_eq!(run(&endless), Some((Verdict::Shade { bounces: 4 }, 5)));
    assert_eq!(run(&endless[..5]), Some((Verdict::Shade { bounces: 4 }, 5)));
    assert_eq!(run(&endless[..4]), None);
}

#[test]
fn every_step_before_the_bound_reflects() {
    let mut tracer = Tracer::new();
    for hits in 0..(MAX_ITERATIONS + 2) {
        assert_eq!(tracer.hits, hits);
        match tracer.step(Some(hits as usize)) {
            Step::Reflect { exclude, next } => {
                assert_eq!(exclude, hits as usize);
                tracer = next;
            }
            Step::Finish(_) => panic!("the chain ended early"),
        }
    }
    assert_eq!(tracer.step(Some(9)), Step::Finish(Verdict::Shade { bounces: MAX_ITERATIONS + 2 }));
    assert_eq!(tracer.step(None), Step::Finish(Verdict::Shade { bounces: MAX_ITERATIONS + 1 }));
}

#[test]
fn a_tracer_past_the_bound_still_decides() {
    let tracer = Tracer { hits: 255 };
    assert_eq!(tracer.step(Some(1)), Step::Finish(Verdict::Shade { bounces: 255 }));
    assert_eq!(tracer.step(None), Step::Finish(Verdict::Shade { bounces: 254 }));
}
