//! How far a light path is followed, and how it ends.
//!
//! A path starts with a number of bounces it may still take. Each traced ray
//! either escapes to the sky, is absorbed by the surface it strikes, or is
//! scattered into a new ray, which uses up one bounce. A path that has no
//! bounce left contributes nothing. The reals (rays, colours, the product of
//! the attenuations) travel through as an opaque state.
use vstd::prelude::*;

verus! {

/// What tracing one ray through the scene gave.
#[derive(Clone, Copy, Debug, PartialEq, Eq, Structural)]
pub enum Event {
    /// The ray left the scene without striking anything.
    Miss,
    /// The ray struck a surface that scattered nothing.
    Absorbed,
    /// The ray struck a surface that sent a new ray on.
    Scattered,
}

/// What a finished path contributes.
#[derive(Clone, Copy, Debug, PartialEq, Eq, Structural)]
pub enum Ending {
    /// The sky's colour along the last ray, attenuated by every bounce.
    Sky,
    /// Nothing.
    Black,
}

/// What to do next on a path.
#[derive(Clone, Copy, Debug, PartialEq, Eq, Structural)]
pub enum Step {
    /// Trace the current ray; `depth` bounces are left, and `depth > 0`.
    Trace { depth: u32 },
    /// Stop.
    Finish(Ending),
}

/// The first step of a path with `depth` bounces left.
pub open spec fn first_step(depth: u32) -> Step {
    if depth == 0 {
        Step::Finish(Ending::Black)
    } else {
        Step::Trace { depth }
    }
}

/// The step that follows `event` on a path with `depth` bounces left.
pub open spec fn next_step(depth: u32, event: Event) -> Step {
    if depth == 0 {
        Step::Finish(Ending::Black)
    } else {
        match event {
            Event::Miss => Step::Finish(Ending::Sky),
            Event::Absorbed => Step::Finish(Ending::Black),
            Event::Scattered => first_step((depth - 1) as u32),
        }
    }
}

/// The ending of a path of the given depth whose traced rays gave exactly
/// `events`, in order; `None` if no path of that depth has this history
/// (it goes on after its end, or stops before it).
pub open spec fn ending_of(depth: nat, events: Seq<Event>) -> Option<Ending>
    decreases events.len(),
{
    if depth == 0 {
        if events.len() == 0 {
            Some(Ending::Black)
        } else {
            None
        }
    } else if events.len() == 0 {
        None
    } else {
        match events[0] {
            Event::Miss => if events.len() == 1 {
                Some(Ending::Sky)
            } else {
                None
            },
            Event::Absorbed => if events.len() == 1 {
                Some(Ending::Black)
            } else {
                None
            },
            Event::Scattered => ending_of((depth - 1) as nat, events.skip(1)),
        }
    }
}

/// The first step of a path with `depth` bounces left.
pub fn begin(depth: u32) -> (step: Step)
    ensures
        step == first_step(depth),
{
    if depth == 0 {
        Step::Finish(Ending::Black)
    } else {
        Step::Trace { depth }
    }
}

/// The step that follows `event` on a path with `depth` bounces left.
pub fn advance(depth: u32, event: Event) -> (step: Step)
    ensures
        step == next_step(depth, event),
{
    if depth == 0 {
        Step::Finish(Ending::Black)
    } else {
        match event {
            Event::Miss => Step::Finish(Ending::Sky),
            Event::Absorbed => Step::Finish(Ending::Black),
            Event::Scattered => begin(depth - 1),
        }
    }
}

/// Whether `events` and `states` record a run of `bounce` from `start`:
/// the k-th call took `states[k]` and gave `events[k]` and `states[k + 1]`.
pub open spec fn follows<S, F: Fn(S) -> (Event, S)>(
    bounce: F,
    start: S,
    events: Seq<Event>,
    states: Seq<S>,
) -> bool {
    &&& states.len() == events.len() + 1
    &&& states[0] == start
    &&& forall|k: int|
        0 <= k < events.len() ==> call_ensures(
            bounce,
            (states[k],),
            (#[trigger] events[k], states[k + 1]),
        )
}

/// A history that starts with `n` scattered rays ends as the rest of it
/// does on a path with `n` fewer bounces.
pub proof fn lemma_scattered_prefix(depth: nat, events: Seq<Event>, n: nat)
    requires
        n <= events.len(),
        n <= depth,
        forall|k: int| 0 <= k < n ==> events[k] == Event::Scattered,
    ensures
        ending_of(depth, events) == ending_of((depth - n) as nat, events.skip(n as int)),
    decreases n,
{
    if n == 0 {
        assert(events.skip(0) =~= events);
    } else {
        let rest = events.skip(1);
        assert forall|k: int| 0 <= k < n - 1 implies rest[k] == Event::Scattered by {
            assert(rest[k] == events[k + 1]);
        }
        lemma_scattered_prefix((depth - 1) as nat, rest, (n - 1) as nat);
        assert(rest.skip(n - 1) =~= events.skip(n as int));
    }
}

/// How paths end. A path without depth traces nothing and is black. A path
/// traces at most as many rays as its depth; every ray but the last was
/// scattered; the path sees the sky exactly where its last ray escaped; and
/// where the last ray was scattered too, the depth is used up.
pub proof fn lemma_path_ends(depth: nat, events: Seq<Event>)
    requires
        ending_of(depth, events) is Some,
    ensures
        events.len() <= depth,
        depth == 0 ==> ending_of(depth, events) == Some(Ending::Black),
        forall|k: int| 0 <= k < events.len() - 1 ==> events[k] == Event::Scattered,
        ending_of(depth, events) == Some(Ending::Sky) <==> events.len() > 0 && events.last()
            == Event::Miss,
        events.len() > 0 && events.last() == Event::Scattered ==> events.len() == depth,
    decreases events.len(),
{
    if depth > 0 && events.len() > 0 && events[0] == Event::Scattered {
        let rest = events.skip(1);
        lemma_path_ends((depth - 1) as nat, rest);
        assert forall|k: int| 0 <= k < events.len() - 1 implies events[k]
            == Event::Scattered by {
            if k > 0 {
                assert(events[k] == rest[k - 1]);
            }
        }
        if rest.len() > 0 {
            assert(rest.last() == events.last());
        }
    }
}

/// Follows one light path to its end. `bounce` traces the ray held in the
/// state it is given and hands back what happened, with the state to go on
/// from. It is called once for every ray traced, never more than `depth`
/// times, and not at all when `depth` is 0.
pub fn trace_path<S, F: Fn(S) -> (Event, S)>(start: S, depth: u32, bounce: F) -> (end: (Ending, S))
    requires
        forall|s: S| call_requires(bounce, (s,)),
    ensures
        exists|events: Seq<Event>, states: Seq<S>|
            {
                &&& follows(bounce, start, events, states)
                &&& ending_of(depth as nat, events) == Some(end.0)
                &&& states.last() == end.1
            },
        depth == 0 ==> end == (Ending::Black, start),
{
    let mut state = start;
    let mut left = depth;
    let mut ending = Ending::Black;
    let mut running = depth > 0;
    let ghost mut events: Seq<Event> = Seq::empty();
    let ghost mut states: Seq<S> = seq![start];
    while running
        invariant
            forall|s: S| call_requires(bounce, (s,)),
            follows(bounce, start, events, states),
            states.last() == state,
            running ==> left > 0 && events.len() + left == depth,
            running ==> forall|k: int| 0 <= k < events.len() ==> events[k] == Event::Scattered,
            !running ==> ending_of(depth as nat, events) == Some(ending),
            depth == 0 ==> events.len() == 0 && ending == Ending::Black,
        decreases
            if running { left as int + 1 } else { 0 },
    {
        let ghost before = events;
        let (event, next) = bounce(state);
        proof {
            events = events.push(event);
            states = states.push(next);
            assert forall|k: int| 0 <= k < events.len() implies call_ensures(
                bounce,
                (states[k],),
                (#[trigger] events[k], states[k + 1]),
            ) by {
                if k < before.len() {
                    assert(events[k] == before[k]);
                }
            }
        }
        state = next;
        match advance(left, event) {
            Step::Trace { depth: rest } => {
                left = rest;
            },
            Step::Finish(last) => {
                ending = last;
                running = false;
                proof {
                    let n = before.len();
                    lemma_scattered_prefix(depth as nat, events, n);
                    let tail = events.skip(n as int);
                    assert(tail.len() == 1);
                    assert(tail[0] == event);
                    assert(tail.skip(1).len() == 0);
                    assert(ending_of(left as nat, tail) == Some(last)) by {
                        reveal_with_fuel(ending_of, 2);
                    }
                }
            },
        }
    }
    (ending, state)
}

} // verus!
