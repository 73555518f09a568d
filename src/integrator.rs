//! Control of the recursive path-tracing integrator: when a path is shaded, when it
//! stops, and how deep it may go. The radiance arithmetic lies with the caller.
use vstd::prelude::*;

verus! {

/// Bounces after which a path that still hits something contributes black.
pub const MAX_DEPTH: u32 = 16;

/// What a surface's material did with the ray that reached it.
#[derive(PartialEq, Eq, Structural, Clone, Copy, Debug)]
pub enum Scatter {
    /// The light is absorbed: the path contributes black.
    Absorbed,
    /// The material emits light and sends no ray on: its emittance ends the path.
    Emitted,
    /// A new ray leaves the surface, to be traced one level deeper.
    Bounced,
}

/// What becomes of a ray once it has been intersected with the scene.
#[derive(PartialEq, Eq, Structural, Clone, Copy, Debug)]
pub enum Shade {
    /// It missed everything: the sky gradient is its color.
    Sky,
    /// It hit something past the depth limit: black.
    Black,
    /// It hit something within the limit: the surface's material decides.
    Material,
}

/// What the integrator does with the material's answer.
#[derive(PartialEq, Eq, Structural, Clone, Copy, Debug)]
pub enum Next {
    /// The path contributes black.
    Black,
    /// The path ends with the material's emittance.
    Emit,
    /// The outgoing ray is traced at the given depth, its color scaled by the
    /// attenuation.
    Trace(u32),
}

pub open spec fn spec_shade(hit: bool, depth: u32) -> Shade {
    if !hit {
        Shade::Sky
    } else if depth < MAX_DEPTH {
        Shade::Material
    } else {
        Shade::Black
    }
}

pub open spec fn spec_next(depth: u32, scatter: Scatter) -> Next {
    match scatter {
        Scatter::Absorbed => Next::Black,
        Scatter::Emitted => Next::Emit,
        Scatter::Bounced => Next::Trace((depth + 1) as u32),
    }
}

/// Decides what a ray cast at `depth` becomes, given whether it hit the scene.
pub fn shade(hit: bool, depth: u32) -> (r: Shade)
    ensures
        r == spec_shade(hit, depth),
{
    if !hit {
        Shade::Sky
    } else if depth < MAX_DEPTH {
        Shade::Material
    } else {
        Shade::Black
    }
}

/// Decides how a path goes on after the material at `depth` has scattered, which
/// happens only within the depth limit.
pub fn next(depth: u32, scatter: Scatter) -> (r: Next)
    requires
        depth < MAX_DEPTH,
    ensures
        r == spec_next(depth, scatter),
        r matches Next::Trace(d) ==> d == depth + 1 && d <= MAX_DEPTH,
{
    match scatter {
        Scatter::Absorbed => Next::Black,
        Scatter::Emitted => Next::Emit,
        Scatter::Bounced => Next::Trace(depth + 1),
    }
}

/// The ray cast at depth `depth` goes on to depth `depth + 1`, given whether it hit
/// and what the material did.
pub open spec fn goes_deeper(depth: u32, hit: bool, scatter: Scatter) -> bool {
    spec_shade(hit, depth) == Shade::Material && spec_next(depth, scatter) == Next::Trace(
        (depth + 1) as u32,
    )
}

/// Whatever the surfaces do, a path is traced at no more than `MAX_DEPTH + 1`
/// depths: a run of events in which each ray goes one level deeper, starting at
/// depth zero, has at most `MAX_DEPTH` entries, so the recursion terminates.
pub proof fn lemma_depth_bounded(events: Seq<(bool, Scatter)>)
    requires
        forall|k: int|
            0 <= k < events.len() ==> goes_deeper(k as u32, #[trigger] events[k].0, events[k].1),
    ensures
        events.len() <= MAX_DEPTH,
{
    if events.len() > MAX_DEPTH {
        let k = MAX_DEPTH as int;
        assert(goes_deeper(k as u32, events[k].0, events[k].1));
    }
}

} // verus!
