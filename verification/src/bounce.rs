//! Mirror reflection to a fixed depth.
//!
//! A pixel sample starts with a primary ray. Where that ray strikes a shape,
//! a reflected ray leaves the shape and the scene is searched again, without
//! the shape just left; where the reflected ray strikes another shape, the
//! same happens there, and so on until a ray strikes nothing or the chain has
//! reached its fixed length. The sample then shows the last shape struck, as
//! lit by the scene's light: a reflection replaces the colour of the surface
//! that mirrors it, it is not mixed with it. A sample whose primary ray
//! strikes nothing shows the background.
//!
//! Casting rays and searching the scene is the caller's work. What is decided
//! here is what to do with each search result. A `Tracer` takes the results
//! one by one and says after each whether to reflect and search again, or how
//! the sample ends. `trace` runs a whole sample that way: it is handed the
//! search as a function, and gives the hit that the sample shows. `sample`
//! does the searching too: it is handed only the functions that say where a
//! ray meets a shape.

use crate::search::{hit_check, is_candidate, depths_of, picked, probed};
use vstd::prelude::*;

verus! {

/// The bound on reflection. The hit of the primary ray is always reflected.
/// The hit of a reflected ray is reflected again as long as at most
/// `MAX_ITERATIONS` reflections came before that ray. So a sample searches
/// the scene at most `MAX_ITERATIONS + 3` times, once for the primary ray and
/// `MAX_ITERATIONS + 2` times for reflected rays, and the bound is inclusive.
pub const MAX_ITERATIONS: u8 = 2;

/// How a pixel sample ends.
#[derive(Clone, Copy, Debug, PartialEq, Eq)]
pub enum Verdict {
    /// The primary ray struck nothing: the sample shows the background.
    Background,
    /// The sample shows the shape struck after `bounces` reflections, the
    /// last one struck, lit directly. With `bounces == 0` that is the shape
    /// struck by the primary ray.
    Shade { bounces: u8 },
}

/// What the caller does after a search.
#[derive(Clone, Copy, Debug, PartialEq, Eq)]
pub enum Step {
    /// Reflect the ray at the hit just found and search again without the
    /// shape `exclude`, the one just struck; report the result to `next`.
    Reflect { exclude: usize, next: Tracer },
    /// The sample is decided.
    Finish(Verdict),
}

/// The state of one pixel sample between two searches: the number of hits
/// found so far. With no hit yet, the search under way is that of the primary
/// ray.
#[derive(Clone, Copy, Debug, PartialEq, Eq)]
pub struct Tracer {
    pub hits: u8,
}

impl Tracer {
    /// A state that a sample can be in: one that `new` and `step` lead to.
    pub open spec fn wf(self) -> bool {
        self.hits <= MAX_ITERATIONS + 2
    }

    /// What follows from this state when the search under way reports
    /// `found`, the index of the shape struck or `None`.
    ///
    /// A miss ends the sample: with the background where the primary ray
    /// missed, else with the last hit. A hit is reflected while the chain is
    /// short of its full length; the hit that completes the chain ends the
    /// sample and is the one shown.
    pub open spec fn after(self, found: Option<usize>) -> Step {
        match found {
            None => if self.hits == 0 {
                Step::Finish(Verdict::Background)
            } else {
                Step::Finish(Verdict::Shade { bounces: (self.hits - 1) as u8 })
            },
            Some(shape) => if self.hits < MAX_ITERATIONS + 2 {
                Step::Reflect { exclude: shape, next: Tracer { hits: (self.hits + 1) as u8 } }
            } else {
                Step::Finish(Verdict::Shade { bounces: self.hits })
            },
        }
    }

    /// The state of a sample whose primary ray has been cast and not yet
    /// searched for.
    pub fn new() -> (tracer: Tracer)
        ensures
            tracer.hits == 0,
            tracer.wf(),
    {
        Tracer { hits: 0 }
    }

    /// Takes the result of the search under way and says what to do next.
    /// A reflected ray is always searched for without the shape it leaves.
    pub fn step(self, found: Option<usize>) -> (step: Step)
        ensures
            step == self.after(found),
            self.wf() ==> (step matches Step::Reflect { next, .. } ==> next.wf()),
            step matches Step::Reflect { exclude, .. } ==> found == Some(exclude),
    {
        match found {
            None => {
                if self.hits == 0 {
                    Step::Finish(Verdict::Background)
                } else {
                    Step::Finish(Verdict::Shade { bounces: self.hits - 1 })
                }
            },
            Some(shape) => {
                if self.hits < MAX_ITERATIONS + 2 {
                    Step::Reflect { exclude: shape, next: Tracer { hits: self.hits + 1 } }
                } else {
                    Step::Finish(Verdict::Shade { bounces: self.hits })
                }
            },
        }
    }
}

/// The number of hits at the head of a list of search results: the length of
/// the chain of reflections that those results allow.
pub open spec fn chain_len(finds: Seq<Option<usize>>) -> nat
    decreases finds.len(),
{
    if finds.len() == 0 || finds[0] is None {
        0
    } else {
        1 + chain_len(finds.drop_first())
    }
}

/// How a sample ends whose searches, with the hits already found, make a
/// chain of `hits` hits: it shows the last hit of the chain, or the last one
/// that the bound on reflection lets it reach.
pub open spec fn verdict_of(hits: nat) -> Verdict {
    if hits == 0 {
        Verdict::Background
    } else if hits >= MAX_ITERATIONS + 3 {
        Verdict::Shade { bounces: (MAX_ITERATIONS + 2) as u8 }
    } else {
        Verdict::Shade { bounces: (hits - 1) as u8 }
    }
}

/// Reports the search results `finds` to `tracer` one after the other, as
/// far as the tracer asks for them. `None` where they run out before the
/// sample is decided.
pub open spec fn run(tracer: Tracer, finds: Seq<Option<usize>>) -> Option<Verdict>
    decreases finds.len(),
{
    if finds.len() == 0 {
        None
    } else {
        match tracer.after(finds[0]) {
            Step::Finish(verdict) => Some(verdict),
            Step::Reflect { next, .. } => run(next, finds.drop_first()),
        }
    }
}

/// From any state of a sample, a list of search results that ends the chain
/// with a miss, or is long enough to complete it, decides the sample: it
/// shows the last hit of the whole chain, within the bound.
pub proof fn lemma_run_from(tracer: Tracer, finds: Seq<Option<usize>>)
    requires
        tracer.wf(),
        chain_len(finds) < finds.len() || tracer.hits + finds.len() >= MAX_ITERATIONS + 3,
    ensures
        run(tracer, finds) == Some(verdict_of(tracer.hits as nat + chain_len(finds))),
    decreases finds.len(),
{
    if finds.len() > 0 {
        if let Step::Reflect { next, .. } = tracer.after(finds[0]) {
            lemma_run_from(next, finds.drop_first());
        }
    }
}

/// A sample is decided after at most `MAX_ITERATIONS + 3` searches, and
/// sooner where a ray strikes nothing. It shows the background exactly when
/// the primary ray strikes nothing, and else the last shape of the chain of
/// reflections, never a mixture.
pub proof fn lemma_sample_is_decided(finds: Seq<Option<usize>>)
    requires
        chain_len(finds) < finds.len() || finds.len() >= MAX_ITERATIONS + 3,
    ensures
        run(Tracer { hits: 0 }, finds) == Some(verdict_of(chain_len(finds))),
        run(Tracer { hits: 0 }, finds) == Some(Verdict::Background) <==> (finds.len() > 0
            && finds[0] is None),
{
    lemma_run_from(Tracer { hits: 0 }, finds);
}

/// `chain` is a chain of reflections that begins with the hit `first` and
/// ends with the hit `last`: each hit but the first is what `reflect` found
/// for the ray reflected at the hit before it, searching without the shape of
/// that hit; and the chain is as long as the bound lets it be, or `reflect`
/// found nothing for the ray reflected at its last hit.
pub open spec fn ends_chain<T, F: Fn(usize, &T) -> Option<(usize, T)>>(
    reflect: &F,
    first: (usize, T),
    chain: Seq<(usize, T)>,
    last: (usize, T),
) -> bool {
    &&& 1 <= chain.len() <= MAX_ITERATIONS + 3
    &&& chain[0] == first
    &&& chain.last() == last
    &&& forall|k: int|
        #![trigger chain[k]]
        0 <= k < chain.len() - 1 ==> call_ensures(
            reflect,
            (chain[k].0, &chain[k].1),
            Some(chain[k + 1]),
        )
    &&& chain.len() < MAX_ITERATIONS + 3 ==> call_ensures(
        reflect,
        (chain.last().0, &chain.last().1),
        None,
    )
}

/// Follows one pixel sample through its reflections and gives the hit that
/// the sample shows, or `None` where it shows the background.
///
/// A hit is a pair: the index of the shape struck, and whatever else the
/// caller knows of the hit. `primary` is what the primary ray struck.
/// `reflect(shape, hit)` is called with a hit and the index of its shape; it
/// casts the ray reflected at that hit and gives what that ray strikes first
/// among the shapes other than `shape`. It must accept the primary hit and
/// every hit that it gives itself; of other hits it is never asked.
pub fn trace<T, F: Fn(usize, &T) -> Option<(usize, T)>>(
    primary: Option<(usize, T)>,
    reflect: &F,
) -> (shown: Option<(usize, T)>)
    requires
        primary matches Some(first) ==> call_requires(reflect, (first.0, &first.1)),
        forall|shape: usize, hit: &T, next: (usize, T)| #[trigger]
            call_ensures(reflect, (shape, hit), Some(next)) ==> call_requires(
                reflect,
                (next.0, &next.1),
            ),
    ensures
        primary is None ==> shown is None,
        primary matches Some(first) ==> shown matches Some(last) && exists|
            chain: Seq<(usize, T)>,
        | ends_chain(reflect, first, chain, last),
{
    let mut tracer = Tracer::new();
    let mut found: Option<(usize, T)> = primary;
    let mut last: Option<(usize, T)> = None;
    let ghost mut chain: Seq<(usize, T)> = Seq::empty();
    loop
        invariant
            forall|shape: usize, hit: &T, next: (usize, T)| #[trigger]
                call_ensures(reflect, (shape, hit), Some(next)) ==> call_requires(
                    reflect,
                    (next.0, &next.1),
                ),
            found matches Some(hit) ==> call_requires(reflect, (hit.0, &hit.1)),
            tracer.wf(),
            tracer.hits == chain.len(),
            chain.len() == 0 ==> found == primary && last is None,
            chain.len() > 0 ==> {
                &&& primary == Some(chain[0])
                &&& last == Some(chain.last())
                &&& call_ensures(reflect, (chain.last().0, &chain.last().1), found)
            },
            forall|k: int|
                #![trigger chain[k]]
                0 <= k < chain.len() - 1 ==> call_ensures(
                    reflect,
                    (chain[k].0, &chain[k].1),
                    Some(chain[k + 1]),
                ),
        decreases MAX_ITERATIONS + 3 - tracer.hits,
    {
        let event = match &found {
            Some(hit) => Some(hit.0),
            None => None,
        };
        match tracer.step(event) {
            Step::Finish(Verdict::Background) => {
                return None;
            },
            Step::Finish(Verdict::Shade { .. }) => {
                match found {
                    Some(hit) => {
                        proof {
                            assert(ends_chain(reflect, primary->0, chain.push(hit), hit));
                        }
                        return Some(hit);
                    },
                    None => {
                        proof {
                            assert(ends_chain(reflect, primary->0, chain, last->0));
                        }
                        return last;
                    },
                }
            },
            Step::Reflect { exclude, next } => {
                let hit = found.unwrap();
                let reflected = reflect(exclude, &hit.1);
                proof {
                    chain = chain.push(hit);
                }
                last = Some(hit);
                found = reflected;
                tracer = next;
            },
        }
    }
}

/// `reflected` can be asked where the ray reflected at `hit` meets each of
/// `shapes` shapes.
pub open spec fn accepts<T, R: Fn(&T, usize) -> Option<(u64, T)>>(
    reflected: &R,
    shapes: usize,
    hit: &T,
) -> bool {
    forall|i: usize| i < shapes ==> #[trigger] call_requires(reflected, (hit, i))
}

/// `next` is what the ray reflected at `hit`, a hit on shape `shape`,
/// strikes first in a scene of `shapes` shapes: the nearest hit at a valid
/// depth among what `reflected` gave for each shape other than `shape`, or
/// `None` where there is none.
pub open spec fn strikes_next<T, R: Fn(&T, usize) -> Option<(u64, T)>>(
    reflected: &R,
    shapes: usize,
    shape: usize,
    hit: &T,
    next: Option<(usize, T)>,
) -> bool {
    exists|found: Seq<Option<(u64, T)>>|
        {
            &&& found.len() == shapes
            &&& forall|i: int|
                0 <= i < shapes ==> if i == shape {
                    (#[trigger] found[i]) is None
                } else {
                    call_ensures(reflected, (hit, i as usize), found[i])
                }
            &&& picked(found, Some(shape), next)
        }
}

/// `next` is what the primary ray strikes first in a scene of `shapes`
/// shapes: the nearest hit at a valid depth among what `primary` gave for
/// each shape, or `None` where there is none.
pub open spec fn strikes_first<T, P: Fn(usize) -> Option<(u64, T)>>(
    primary: &P,
    shapes: usize,
    next: Option<(usize, T)>,
) -> bool {
    exists|found: Seq<Option<(u64, T)>>|
        probed(primary, shapes, None, found) && picked(found, None, next)
}

/// `chain` is the chain of hits of one pixel sample: the primary ray strikes
/// its first hit; the ray reflected at each hit strikes the next one, among
/// the shapes other than the one it leaves; and the chain is as long as the
/// bound lets it be, or the ray reflected at its last hit strikes nothing.
pub open spec fn is_sample_chain<
    T,
    P: Fn(usize) -> Option<(u64, T)>,
    R: Fn(&T, usize) -> Option<(u64, T)>,
>(primary: &P, reflected: &R, shapes: usize, chain: Seq<(usize, T)>) -> bool {
    &&& 1 <= chain.len() <= MAX_ITERATIONS + 3
    &&& strikes_first(primary, shapes, Some(chain[0]))
    &&& forall|k: int|
        #![trigger chain[k]]
        0 <= k < chain.len() - 1 ==> strikes_next(
            reflected,
            shapes,
            chain[k].0,
            &chain[k].1,
            Some(chain[k + 1]),
        )
    &&& chain.len() < MAX_ITERATIONS + 3 ==> strikes_next(
        reflected,
        shapes,
        chain.last().0,
        &chain.last().1,
        None,
    )
}

/// What a reflected ray strikes is a hit on another shape than the one it
/// leaves, a shape of the scene, and one that `reflected` gave for it.
pub proof fn lemma_next_is_of_another_shape<T, R: Fn(&T, usize) -> Option<(u64, T)>>(
    reflected: &R,
    shapes: usize,
    shape: usize,
    hit: &T,
    next: (usize, T),
)
    requires
        strikes_next(reflected, shapes, shape, hit, Some(next)),
    ensures
        next.0 != shape,
        next.0 < shapes,
        exists|depth: u64| call_ensures(reflected, (hit, next.0), Some((depth, next.1))),
{
    let found = choose|found: Seq<Option<(u64, T)>>|
        {
            &&& found.len() == shapes
            &&& forall|i: int|
                0 <= i < shapes ==> if i == shape {
                    (#[trigger] found[i]) is None
                } else {
                    call_ensures(reflected, (hit, i as usize), found[i])
                }
            &&& picked(found, Some(shape), Some(next))
        };
    assert(is_candidate(depths_of(found), Some(shape), next.0 as int));
    let met = found[next.0 as int]->0;
    assert(call_ensures(reflected, (hit, next.0), Some((met.0, next.1))));
}

/// Along the chain of a sample no reflected ray strikes the shape that it
/// leaves: each hit lies on a shape of the scene, and on another shape than
/// the hit before it.
pub proof fn lemma_chain_leaves_each_shape<
    T,
    P: Fn(usize) -> Option<(u64, T)>,
    R: Fn(&T, usize) -> Option<(u64, T)>,
>(primary: &P, reflected: &R, shapes: usize, chain: Seq<(usize, T)>)
    requires
        is_sample_chain(primary, reflected, shapes, chain),
    ensures
        forall|k: int| 0 <= k < chain.len() ==> (#[trigger] chain[k]).0 < shapes,
        forall|k: int|
            #![trigger chain[k]]
            0 <= k < chain.len() - 1 ==> chain[k + 1].0 != chain[k].0,
{
    let found = choose|found: Seq<Option<(u64, T)>>|
        probed(primary, shapes, None, found) && picked(found, None, Some(chain[0]));
    assert(is_candidate(depths_of(found), None, chain[0].0 as int));
    assert forall|k: int| #![trigger chain[k]] 0 <= k < chain.len() - 1 implies chain[k + 1].0
        != chain[k].0 && chain[k + 1].0 < shapes by {
        lemma_next_is_of_another_shape(reflected, shapes, chain[k].0, &chain[k].1, chain[k + 1]);
    }
    assert forall|k: int| 0 <= k < chain.len() implies (#[trigger] chain[k]).0 < shapes by {
        if k > 0 {
            assert(chain[k - 1].0 != chain[k - 1 + 1].0);
        }
    }
}

/// Renders one pixel sample in a scene of `shapes` shapes: searches the
/// scene for the primary ray and for each reflected ray, and gives the hit
/// that the sample shows, or `None` where it shows the background.
///
/// `primary(i)` says where the primary ray meets shape `i`: at what depth,
/// and whatever else the caller wants to know of the hit. `reflected(hit, i)`
/// says the same of the ray reflected at `hit`. Neither is asked about the
/// shape that the ray leaves.
pub fn sample<T, P: Fn(usize) -> Option<(u64, T)>, R: Fn(&T, usize) -> Option<(u64, T)>>(
    shapes: usize,
    primary: &P,
    reflected: &R,
) -> (shown: Option<(usize, T)>)
    requires
        forall|i: usize| i < shapes ==> #[trigger] call_requires(primary, (i,)),
        forall|i: usize, first: (u64, T)|
            i < shapes && #[trigger] call_ensures(primary, (i,), Some(first)) ==> accepts(
                reflected,
                shapes,
                &first.1,
            ),
        forall|hit: &T, i: usize, next: (u64, T)|
            i < shapes && #[trigger] call_ensures(reflected, (hit, i), Some(next)) ==> accepts(
                reflected,
                shapes,
                &next.1,
            ),
    ensures
        match shown {
            Some(last) => exists|chain: Seq<(usize, T)>|
                is_sample_chain(primary, reflected, shapes, chain) && chain.last() == last,
            None => strikes_first(primary, shapes, None),
        },
{
    let first = hit_check(shapes, None, primary);
    let reflect = |shape: usize, hit: &T| -> (next: Option<(usize, T)>)
        requires
            accepts(reflected, shapes, hit),
        ensures
            strikes_next(reflected, shapes, shape, hit, next),
        {
            let meet = |i: usize| -> (met: Option<(u64, T)>)
                requires
                    i < shapes,
                ensures
                    call_ensures(reflected, (hit, i), met),
                { reflected(hit, i) };
            hit_check(shapes, Some(shape), &meet)
        };
    proof {
        if first is Some {
            let found = choose|found: Seq<Option<(u64, T)>>|
                probed(primary, shapes, None, found) && picked(found, None, first);
            let shape = (first->0).0;
            assert(is_candidate(depths_of(found), None, shape as int));
            assert(call_ensures(primary, (shape,), found[shape as int]));
        }
        assert forall|shape: usize, hit: &T, next: (usize, T)| #[trigger]
            call_ensures(reflect, (shape, hit), Some(next)) implies call_requires(
            reflect,
            (next.0, &next.1),
        ) by {
            lemma_next_is_of_another_shape(reflected, shapes, shape, hit, next);
            let depth = choose|depth: u64|
                call_ensures(reflected, (hit, next.0), Some((depth, next.1)));
            let met = (depth, next.1);
            assert(call_ensures(reflected, (hit, next.0), Some(met)));
            assert(accepts(reflected, shapes, &met.1));
        }
    }
    let shown = trace(first, &reflect);
    proof {
        if shown is Some {
            let chain = choose|chain: Seq<(usize, T)>|
                ends_chain(&reflect, first->0, chain, shown->0);
            assert(is_sample_chain(primary, reflected, shapes, chain));
        }
    }
    shown
}

} // verus!
