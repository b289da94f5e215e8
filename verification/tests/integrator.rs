use raytracer::integrator::{advance, begin, trace_path, Ending, Event, Step};
use std::cell::Cell;

#[test]
fn begin_traces_unless_no_bounce_is_left() {
    assert_eq!(begin(0), Step::Finish(Ending::Black));
    assert_eq!(begin(1), Step::Trace { depth: 1 });
    assert_eq!(begin(20), Step::Trace { depth: 20 });
    assert_eq!(begin(u32::MAX), Step::Trace { depth: u32::MAX });
}

#[test]
fn advance_follows_the_event() {
    assert_eq!(advance(5, Event::Miss), Step::Finish(Ending::Sky));
    assert_eq!(advance(5, Event::Absorbed), Step::Finish(Ending::Black));
    assert_eq!(advance(5, Event::Scattered), Step::Trace { depth: 4 });
    assert_eq!(advance(2, Event::Scattered), Step::Trace { depth: 1 });
    assert_eq!(advance(1, Event::Scattered), Step::Finish(Ending::Black));
    assert_eq!(advance(1, Event::Miss), Step::Finish(Ending::Sky));
}

#[test]
fn advance_without_depth_is_black_whatever_happened() {
    assert_eq!(advance(0, Event::Miss), Step::Finish(Ending::Black));
    assert_eq!(advance(0, Event::Absorbed), Step::Finish(Ending::Black));
    assert_eq!(advance(0, Event::Scattered), Step::Finish(Ending::Black));
}

#[test]
fn path_of_depth_zero_is_black_and_traces_nothing() {
    for event in [Event::Miss, Event::Absorbed, Event::Scattered] {
        let calls = Cell::new(0u32);
        let (ending, state) = trace_path([1.0f32, 2.0, 3.0], 0, |ray| {
            calls.set(calls.get() + 1);
            (event, ray)
        });
        assert_eq!(ending, Ending::Black);
        assert_eq!(state, [1.0, 2.0, 3.0]);
        assert_eq!(calls.get(), 0);
    }
}

#[test]
fn ray_that_escapes_ends_in_the_sky() {
    let calls = Cell::new(0u32);
    let (ending, state) = trace_path(7u32, 20, |ray| {
        calls.set(calls.get() + 1);
        (Event::Miss, ray + 1)
    });
    assert_eq!(ending, Ending::Sky);
    assert_eq!(state, 8);
    assert_eq!(calls.get(), 1);
}

#[test]
fn absorbed_ray_ends_black() {
    let calls = Cell::new(0u32);
    let (ending, state) = trace_path(7u32, 20, |ray| {
        calls.set(calls.get() + 1);
        (Event::Absorbed, ray)
    });
    assert_eq!(ending, Ending::Black);
    assert_eq!(state, 7);
    assert_eq!(calls.get(), 1);
}

#[test]
fn path_that_scatters_forever_is_cut_off_at_its_depth() {
    for depth in [1u32, 2, 5, 20, 50] {
        let (ending, bounces) = trace_path(0u32, depth, |bounces| (Event::Scattered, bounces + 1));
        assert_eq!(ending, Ending::Black);
        assert_eq!(bounces, depth);
    }
}

#[test]
fn path_that_scatters_and_then_escapes_sees_the_sky() {
    let (ending, state) = trace_path((0u32, 1.0f32), 20, |(bounces, throughput)| {
        if bounces < 3 {
            (Event::Scattered, (bounces + 1, throughput * 0.5))
        } else {
            (Event::Miss, (bounces, throughput))
        }
    });
    assert_eq!(ending, Ending::Sky);
    assert_eq!(state, (3, 0.125));
}

#[test]
fn escape_on_the_last_bounce_still_sees_the_sky() {
    let (ending, state) = trace_path(0u32, 4, |bounces| {
        if bounces < 3 {
            (Event::Scattered, bounces + 1)
        } else {
            (Event::Miss, bounces + 1)
        }
    });
    assert_eq!(ending, Ending::Sky);
    assert_eq!(state, 4);
    let (ending, state) = trace_path(0u32, 3, |bounces| {
        if bounces < 3 {
            (Event::Scattered, bounces + 1)
        } else {
            (Event::Miss, bounces + 1)
        }
    });
    assert_eq!(ending, Ending::Black);
    assert_eq!(state, 3);
}

#[test]
fn state_is_handed_from_bounce_to_bounce() {
    let (ending, trail) = trace_path(Vec::new(), 10, |mut trail: Vec<usize>| {
        let event = if trail.len() == 4 {
            Event::Absorbed
        } else {
            Event::Scattered
        };
        trail.push(trail.len());
        (event, trail)
    });
    assert_eq!(ending, Ending::Black);
    assert_eq!(trail, vec![0, 1, 2, 3, 4]);
}
