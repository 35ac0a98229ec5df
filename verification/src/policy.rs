//! Event names and the per-event-kind dispatch policy.
//!
//! The hit-test resolver consults one small policy table instead of
//! branching on names: whether matches stack or the last one wins, whether
//! an opaque node blocks the event even without a listener (wheel), and
//! whether an opaque listener match discards earlier matches (click).

use vstd::prelude::*;

verus! {

/// The application-visible name of a dispatched event, one per input sample
/// kind.
#[derive(Clone, Copy, Debug, PartialEq, Eq, Structural)]
pub enum EventName {
    MouseOver,
    MouseDown,
    Click,
    Wheel,
    KeyDown,
    KeyUp,
}

/// The stacking and occlusion rules of one event name.
#[derive(Clone, Copy, Debug, PartialEq, Eq, Structural)]
pub struct EventPolicy {
    /// Several simultaneous targets may all receive the event; otherwise the
    /// most recent match replaces the accumulator.
    pub stacking: bool,
    /// Any opaque node ends the search before its own listener check: the
    /// event never passes through anything opaque.
    pub occludes_without_listener: bool,
    /// A listener match on an opaque node discards all earlier matches.
    pub replace_on_opaque_match: bool,
}

/// Keyboard events are not geometry-filtered and are never occluded;
/// everything else is pointer-class.
pub open spec fn spec_pointer_class(name: EventName) -> bool {
    !(name is KeyDown || name is KeyUp)
}

pub open spec fn spec_policy(name: EventName) -> EventPolicy {
    EventPolicy {
        stacking: name is MouseOver || name is Click || name is KeyDown || name is KeyUp,
        occludes_without_listener: name is Wheel,
        replace_on_opaque_match: name is Click,
    }
}

pub fn pointer_class(name: EventName) -> (r: bool)
    ensures
        r == spec_pointer_class(name),
{
    match name {
        EventName::KeyDown => false,
        EventName::KeyUp => false,
        _ => true,
    }
}

pub fn policy_for(name: EventName) -> (p: EventPolicy)
    ensures
        p == spec_policy(name),
{
    EventPolicy {
        stacking: match name {
            EventName::MouseOver => true,
            EventName::Click => true,
            EventName::KeyDown => true,
            EventName::KeyUp => true,
            _ => false,
        },
        occludes_without_listener: match name {
            EventName::Wheel => true,
            _ => false,
        },
        replace_on_opaque_match: match name {
            EventName::Click => true,
            _ => false,
        },
    }
}

} // verus!
