//! Per-frame UI pipeline: turns a measured tree of node snapshots into an
//! ordered, clipped paint schedule and a resolved batch of input events.
//!
//! The pipeline runs in stages: the layer assigner buckets nodes into integer
//! z-layers, the viewport resolver computes each node's chain of ancestor clip
//! rectangles, the paint scheduler orders and culls nodes for drawing, and the
//! hit-test resolver turns buffered input samples into addressed events for
//! the runtime's event channel. Window management, rasterization and the
//! retained-tree runtime are external collaborators: they hand this crate
//! plain snapshot values and receive paint commands and dispatched events.

pub mod geometry;
pub mod node;
pub mod traverse;
pub mod layers;
pub mod viewport;
pub mod paint;
pub mod policy;
pub mod input;
pub mod listeners;
pub mod dispatch;
pub mod pipeline;
