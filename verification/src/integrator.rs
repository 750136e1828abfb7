//! The course of a light path and its bounce budget.
//!
//! The integrator follows a ray from the camera into the scene. At each cast
//! the ray misses every surface and ends in the background, or is absorbed by
//! the surface it hits and ends dark, or is scattered and goes on from there.
//! A path may be cast only as often as its budget allows: once the budget is
//! spent it ends dark, whatever it would have met.
//!
//! What a cast meets is for the caller to find out; this module decides what
//! becomes of the path.

use vstd::prelude::*;

verus! {

/// What a ray met when it was cast into the scene.
#[derive(Clone, Copy, Debug, PartialEq, Eq, Structural)]
pub enum Event {
    /// It hit no surface.
    Missed,
    /// It hit a surface whose material sent nothing back.
    Absorbed,
    /// It hit a surface whose material sent a ray back.
    Scattered,
}

/// Where a light path stands.
#[derive(Clone, Copy, Debug, PartialEq, Eq, Structural)]
pub enum Path {
    /// The ray is to be cast next; after that cast `left` more are allowed.
    Tracing { left: u32 },
    /// The path is over and carries no light: it was absorbed, or its budget
    /// ran out.
    Dark,
    /// The path is over and carries the light of the background.
    Escaped,
}

/// A path at its start, with a budget of `depth` casts.
pub open spec fn begin(depth: u32) -> Path {
    if depth == 0 {
        Path::Dark
    } else {
        Path::Tracing { left: (depth - 1) as u32 }
    }
}

/// The path after its ray was cast and met `event`. A path that is over
/// stays as it is.
pub open spec fn after(path: Path, event: Event) -> Path {
    match path {
        Path::Tracing { left } => match event {
            Event::Missed => Path::Escaped,
            Event::Absorbed => Path::Dark,
            Event::Scattered => begin(left),
        },
        Path::Dark => Path::Dark,
        Path::Escaped => Path::Escaped,
    }
}

/// The path after a run of casts that met `events` in turn.
pub open spec fn after_all(path: Path, events: Seq<Event>) -> Path
    decreases events.len(),
{
    if events.len() == 0 {
        path
    } else {
        after(after_all(path, events.drop_last()), events.last())
    }
}

impl Path {
    /// Whether the path has ended.
    pub open spec fn is_over(self) -> bool {
        !(self is Tracing)
    }

    /// Starts a path with a budget of `depth` casts.
    pub fn start(depth: u32) -> (path: Path)
        ensures
            path == begin(depth),
    {
        if depth == 0 {
            Path::Dark
        } else {
            Path::Tracing { left: depth - 1 }
        }
    }

    /// Takes the path one cast further: its ray met `event`.
    pub fn advance(self, event: Event) -> (path: Path)
        ensures
            path == after(self, event),
    {
        match self {
            Path::Tracing { left } => match event {
                Event::Missed => Path::Escaped,
                Event::Absorbed => Path::Dark,
                Event::Scattered => Path::start(left),
            },
            Path::Dark => Path::Dark,
            Path::Escaped => Path::Escaped,
        }
    }
}

/// A path that is over stays over, and as it is, whatever follows.
pub proof fn lemma_over_stays_over(path: Path, events: Seq<Event>)
    requires
        path.is_over(),
    ensures
        after_all(path, events) == path,
    decreases events.len(),
{
    if events.len() > 0 {
        lemma_over_stays_over(path, events.drop_last());
    }
}

/// Every cast spends one of the budget: a path that is still being traced
/// after a run of casts was scattered at each of them, and the casts made,
/// the cast to come and the casts left add up to the budget it started with.
pub proof fn lemma_every_cast_is_paid(depth: u32, events: Seq<Event>)
    requires
        !after_all(begin(depth), events).is_over(),
    ensures
        forall|i: int| 0 <= i < events.len() ==> events[i] == Event::Scattered,
        events.len() + 1 + after_all(begin(depth), events)->left == depth,
    decreases events.len(),
{
    if events.len() > 0 {
        let front = events.drop_last();
        lemma_every_cast_is_paid(depth, front);
        assert(forall|i: int| 0 <= i < front.len() ==> front[i] == events[i]);
    }
}

/// A path ends within its budget: after as many casts as the budget allows,
/// or more, it is over.
pub proof fn lemma_path_ends_within_budget(depth: u32, events: Seq<Event>)
    requires
        events.len() >= depth,
    ensures
        after_all(begin(depth), events).is_over(),
{
    if !after_all(begin(depth), events).is_over() {
        lemma_every_cast_is_paid(depth, events);
    }
}

/// A path without a budget is dark from the start and stays dark.
pub proof fn lemma_no_budget_is_dark(events: Seq<Event>)
    ensures
        after_all(begin(0), events) == Path::Dark,
{
    lemma_over_stays_over(Path::Dark, events);
}

/// A path with a budget whose first cast misses every surface ends in the
/// background at once: no surface had a part in it.
pub proof fn lemma_first_miss_escapes(depth: u32)
    requires
        depth > 0,
    ensures
        after(begin(depth), Event::Missed) == Path::Escaped,
{
}

/// A path carries the light of the background only if its last cast missed
/// every surface: no hit, absorbed or scattered, ends in the background.
pub proof fn lemma_background_only_after_miss(depth: u32, events: Seq<Event>)
    requires
        after_all(begin(depth), events) == Path::Escaped,
    ensures
        exists|i: int| 0 <= i < events.len() && events[i] == Event::Missed,
    decreases events.len(),
{
    if events.len() > 0 {
        let front = events.drop_last();
        let before = after_all(begin(depth), front);
        if before == Path::Escaped {
            lemma_background_only_after_miss(depth, front);
            let i = choose|i: int| 0 <= i < front.len() && front[i] == Event::Missed;
            assert(events[i] == Event::Missed);
        } else {
            assert(events.last() == Event::Missed);
        }
    }
}

} // verus!
