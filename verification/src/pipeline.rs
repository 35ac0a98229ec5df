//! The per-frame pipeline: one call turns the measured tree snapshot and
//! the buffered input batch into the frame's layers, viewports, paint
//! schedule and dispatched events.
//!
//! The caller (the frame loop around this library) snapshots the tree under
//! its lock, drains nothing itself, and performs the two side effects this
//! core only decides: drawing each paint command and sending each event to
//! the runtime's channel. A corrupt tree aborts the frame instead of
//! painting or dispatching against partial state.

use vstd::prelude::*;
use crate::dispatch::{DispatchedEvent, Priority, resolve_events, spec_resolve};
use crate::input::{EventCollector, InputSample};
use crate::layers::{Layers, assign_layers};
use crate::listeners::ListenerRegistry;
use crate::node::Tree;
use crate::paint::{PaintCommand, paint_schedule, schedule_ok};
use crate::traverse::CorruptTreeError;
use crate::viewport::{Viewports, resolve_viewports};

verus! {

/// Everything one frame produces: the layer partition, the resolved
/// viewports, the ordered culled paint schedule, and the dispatch batch.
#[derive(Debug)]
pub struct FrameOutput {
    pub layers: Layers,
    pub viewports: Viewports,
    pub schedule: Vec<PaintCommand>,
    pub events: Vec<DispatchedEvent>,
}

impl FrameOutput {
    /// The frame contract: layers partition the live nodes under the
    /// stacking law, viewports are consistent, the schedule is exactly the
    /// unculled members bottom-to-top, and the events are the resolved
    /// batch, each `Medium`, non-bubbling and addressed to a listener.
    pub open spec fn ok(
        self,
        t: Tree,
        samples: Seq<InputSample>,
        registry: ListenerRegistry,
    ) -> bool {
        &&& self.layers.zs_sorted()
        &&& self.layers.partitions(t)
        &&& self.layers.stacking_consistent(t)
        &&& self.viewports.consistent(t)
        &&& schedule_ok(t, self.layers, self.viewports, self.schedule@)
        &&& self.events@ == spec_resolve(t, self.layers, self.viewports, samples, registry)
        &&& forall|a: int|
            0 <= a < self.events@.len() ==> (#[trigger] self.events@[a]).priority
                == Priority::Medium && !self.events@[a].bubbles && registry.listening(
                self.events@[a].name,
            ).contains(self.events@[a].target)
        &&& (samples.len() == 0 ==> self.events@.len() == 0)
    }
}

/// Runs one frame of work over the measured tree snapshot: assigns layers,
/// resolves viewports, builds the culled bottom-to-top paint schedule, and
/// resolves the drained input batch into dispatched events. The input
/// buffer is left empty whatever happens.
pub fn process_work(
    t: &Tree,
    collector: &mut EventCollector,
    registry: &ListenerRegistry,
) -> (r: Result<FrameOutput, CorruptTreeError>)
    requires
        t.wf(),
        registry.wf(),
    ensures
        final(collector).samples@ == Seq::<InputSample>::empty(),
        match r {
            Ok(out) => out.ok(*t, old(collector).samples@, *registry),
            Err(CorruptTreeError::MissingNode { id }) => t.reachable(id) && !t.contains_id(id)
                && !t.shaped(),
            Err(CorruptTreeError::RepeatedNode { id }) => t.reachable(id) && !t.shaped(),
        },
{
    let samples = collector.drain();
    let layers = match assign_layers(t) {
        Ok(ls) => ls,
        Err(e) => {
            return Err(e);
        },
    };
    let viewports = match resolve_viewports(t) {
        Ok(vps) => vps,
        Err(e) => {
            return Err(e);
        },
    };
    let schedule = paint_schedule(t, &layers, &viewports);
    let events = resolve_events(t, &layers, &viewports, &samples, registry);
    Ok(FrameOutput { layers, viewports, schedule, events })
}

} // verus!
