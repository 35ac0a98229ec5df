//! Raw input samples, the append-only collector they wait in, and the
//! translation of platform window events into samples.
//!
//! The platform layer appends samples as they arrive; the hit-test resolver
//! drains the whole batch exactly once per frame, after which the buffer is
//! unconditionally empty — samples never carry across frames.

use vstd::prelude::*;
use crate::policy::EventName;

verus! {

/// The kind of a raw input sample.
#[derive(Clone, Copy, Debug, PartialEq, Eq, Structural)]
pub enum SampleKind {
    PointerMove,
    PointerDown,
    PointerUp,
    Wheel,
    KeyDown,
    KeyUp,
}

/// One raw input sample as the platform layer delivers it: a kind plus
/// whichever of position, scroll delta and key code the kind carries.
#[derive(Clone, Copy, Debug)]
pub struct InputSample {
    pub kind: SampleKind,
    pub position: Option<(i32, i32)>,
    pub scroll_delta: Option<(i32, i32)>,
    pub key_code: Option<u32>,
}

/// The event name a sample dispatches under.
pub open spec fn spec_event_name(kind: SampleKind) -> EventName {
    match kind {
        SampleKind::PointerMove => EventName::MouseOver,
        SampleKind::PointerDown => EventName::MouseDown,
        SampleKind::PointerUp => EventName::Click,
        SampleKind::Wheel => EventName::Wheel,
        SampleKind::KeyDown => EventName::KeyDown,
        SampleKind::KeyUp => EventName::KeyUp,
    }
}

pub fn event_name_of(kind: SampleKind) -> (n: EventName)
    ensures
        n == spec_event_name(kind),
{
    match kind {
        SampleKind::PointerMove => EventName::MouseOver,
        SampleKind::PointerDown => EventName::MouseDown,
        SampleKind::PointerUp => EventName::Click,
        SampleKind::Wheel => EventName::Wheel,
        SampleKind::KeyDown => EventName::KeyDown,
        SampleKind::KeyUp => EventName::KeyUp,
    }
}

/// The frame's input buffer: appended by the platform layer, drained once
/// per frame by the resolver, then empty.
#[derive(Clone, Debug)]
pub struct EventCollector {
    pub samples: Vec<InputSample>,
}

impl EventCollector {
    pub fn new() -> (c: EventCollector)
        ensures
            c.samples@ == Seq::<InputSample>::empty(),
    {
        EventCollector { samples: Vec::new() }
    }

    /// Appends one sample in arrival order.
    pub fn push(&mut self, s: InputSample)
        ensures
            final(self).samples@ == old(self).samples@.push(s),
    {
        self.samples.push(s);
    }

    /// Hands the whole batch out and leaves the buffer empty.
    pub fn drain(&mut self) -> (batch: Vec<InputSample>)
        ensures
            batch@ == old(self).samples@,
            final(self).samples@ == Seq::<InputSample>::empty(),
    {
        let mut batch: Vec<InputSample> = Vec::new();
        let n = self.samples.len();
        for i in 0..n
            invariant
                n == self.samples@.len(),
                self.samples@ == old(self).samples@,
                batch@ == self.samples@.take(i as int),
        {
            batch.push(self.samples[i]);
            proof {
                assert(batch@ =~= self.samples@.take(i + 1));
            }
        }
        proof {
            assert(self.samples@.take(n as int) =~= self.samples@);
        }
        self.samples.clear();
        batch
    }
}

/// A window event as the platform collaborator reports it, reduced to the
/// plain values the pipeline reads.
#[derive(Clone, Copy, Debug)]
pub enum PlatformEvent {
    CursorMoved { x: i32, y: i32 },
    WheelTicked { delta: Option<(i32, i32)> },
    ButtonPressed,
    ButtonReleased,
    KeyPressed { key_code: u32 },
    KeyReleased { key_code: u32 },
    CloseRequested,
    RedrawRequested,
}

/// What the frame loop should do after noting a platform event.
#[derive(Clone, Copy, Debug, PartialEq, Eq, Structural)]
pub enum FrameAction {
    Continue,
    Redraw,
    Exit,
}

/// The last known pointer position, carried across platform events.
#[derive(Clone, Copy, Debug, PartialEq, Eq, Structural)]
pub struct PointerState {
    pub cursor_x: i32,
    pub cursor_y: i32,
}

/// The sample a platform event contributes, given the pointer state that
/// held when it arrived.
pub open spec fn spec_sample_for(st: PointerState, ev: PlatformEvent) -> Option<InputSample> {
    match ev {
        PlatformEvent::CursorMoved { x, y } => Some(
            InputSample {
                kind: SampleKind::PointerMove,
                position: Some((x, y)),
                scroll_delta: None,
                key_code: None,
            },
        ),
        PlatformEvent::WheelTicked { delta } => Some(
            InputSample {
                kind: SampleKind::Wheel,
                position: Some((st.cursor_x, st.cursor_y)),
                scroll_delta: delta,
                key_code: None,
            },
        ),
        PlatformEvent::ButtonPressed => Some(
            InputSample {
                kind: SampleKind::PointerDown,
                position: Some((st.cursor_x, st.cursor_y)),
                scroll_delta: None,
                key_code: None,
            },
        ),
        PlatformEvent::ButtonReleased => Some(
            InputSample {
                kind: SampleKind::PointerUp,
                position: Some((st.cursor_x, st.cursor_y)),
                scroll_delta: None,
                key_code: None,
            },
        ),
        PlatformEvent::KeyPressed { key_code } => Some(
            InputSample {
                kind: SampleKind::KeyDown,
                position: None,
                scroll_delta: None,
                key_code: Some(key_code),
            },
        ),
        PlatformEvent::KeyReleased { key_code } => Some(
            InputSample {
                kind: SampleKind::KeyUp,
                position: None,
                scroll_delta: None,
                key_code: Some(key_code),
            },
        ),
        PlatformEvent::CloseRequested => None,
        PlatformEvent::RedrawRequested => None,
    }
}

pub open spec fn spec_state_after(st: PointerState, ev: PlatformEvent) -> PointerState {
    match ev {
        PlatformEvent::CursorMoved { x, y } => PointerState { cursor_x: x, cursor_y: y },
        _ => st,
    }
}

pub open spec fn spec_action_for(ev: PlatformEvent) -> FrameAction {
    match ev {
        PlatformEvent::CloseRequested => FrameAction::Exit,
        PlatformEvent::RedrawRequested => FrameAction::Redraw,
        _ => FrameAction::Continue,
    }
}

/// Notes one platform event: updates the pointer state, appends the sample
/// it contributes (if any) to the collector, and tells the frame loop what
/// to do next.
pub fn note_platform_event(
    st: &mut PointerState,
    collector: &mut EventCollector,
    ev: PlatformEvent,
) -> (a: FrameAction)
    ensures
        *final(st) == spec_state_after(*old(st), ev),
        final(collector).samples@ == match spec_sample_for(*old(st), ev) {
            Some(s) => old(collector).samples@.push(s),
            None => old(collector).samples@,
        },
        a == spec_action_for(ev),
{
    match ev {
        PlatformEvent::CursorMoved { x, y } => {
            st.cursor_x = x;
            st.cursor_y = y;
            collector.push(
                InputSample {
                    kind: SampleKind::PointerMove,
                    position: Some((x, y)),
                    scroll_delta: None,
                    key_code: None,
                },
            );
            FrameAction::Continue
        },
        PlatformEvent::WheelTicked { delta } => {
            collector.push(
                InputSample {
                    kind: SampleKind::Wheel,
                    position: Some((st.cursor_x, st.cursor_y)),
                    scroll_delta: delta,
                    key_code: None,
                },
            );
            FrameAction::Continue
        },
        PlatformEvent::ButtonPressed => {
            collector.push(
                InputSample {
                    kind: SampleKind::PointerDown,
                    position: Some((st.cursor_x, st.cursor_y)),
                    scroll_delta: None,
                    key_code: None,
                },
            );
            FrameAction::Continue
        },
        PlatformEvent::ButtonReleased => {
            collector.push(
                InputSample {
                    kind: SampleKind::PointerUp,
                    position: Some((st.cursor_x, st.cursor_y)),
                    scroll_delta: None,
                    key_code: None,
                },
            );
            FrameAction::Continue
        },
        PlatformEvent::KeyPressed { key_code } => {
            collector.push(
                InputSample {
                    kind: SampleKind::KeyDown,
                    position: None,
                    scroll_delta: None,
                    key_code: Some(key_code),
                },
            );
            FrameAction::Continue
        },
        PlatformEvent::KeyReleased { key_code } => {
            collector.push(
                InputSample {
                    kind: SampleKind::KeyUp,
                    position: None,
                    scroll_delta: None,
                    key_code: Some(key_code),
                },
            );
            FrameAction::Continue
        },
        PlatformEvent::CloseRequested => FrameAction::Exit,
        PlatformEvent::RedrawRequested => FrameAction::Redraw,
    }
}

} // verus!
