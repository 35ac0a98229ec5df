use freya_core::geometry::Rect;
use freya_core::input::{
    note_platform_event, EventCollector, FrameAction, InputSample, PlatformEvent, PointerState,
    SampleKind,
};
use freya_core::listeners::ListenerRegistry;
use freya_core::node::{Background, NodeSnapshot, NodeTag, Tree};
use freya_core::pipeline::process_work;
use freya_core::policy::EventName;
use freya_core::traverse::combine_z;

fn snapshot(
    id: u64,
    tag: NodeTag,
    x: i32,
    y: i32,
    w: i32,
    h: i32,
    clips: bool,
    layer_shift: i16,
    children: Vec<u64>,
) -> NodeSnapshot {
    NodeSnapshot {
        id,
        tag,
        rect: Rect::new(x, y, w, h),
        background: Background::Transparent,
        clips,
        layer_shift,
        children,
    }
}

#[test]
fn rect_clamps_negative_extents() {
    let r = Rect::new(5, 6, -3, -9);
    assert_eq!(r.x, 5);
    assert_eq!(r.y, 6);
    assert_eq!(r.width, 0);
    assert_eq!(r.height, 0);
}

#[test]
fn point_containment_is_open_interval() {
    let r = Rect::new(0, 0, 10, 10);
    assert!(r.contains_point(1, 5));
    assert!(r.contains_point(9, 9));
    assert!(!r.contains_point(0, 5));
    assert!(!r.contains_point(10, 5));
    assert!(!r.contains_point(5, 0));
    assert!(!r.contains_point(5, 10));
}

#[test]
fn zero_area_rect_contains_no_point() {
    let r = Rect::new(0, 0, 0, 10);
    assert!(!r.contains_point(0, 5));
    let q = Rect::new(3, 3, 4, 0);
    assert!(!q.contains_point(4, 3));
}

#[test]
fn overlap_needs_positive_area() {
    let a = Rect::new(0, 0, 10, 10);
    let b = Rect::new(10, 0, 10, 10);
    let c = Rect::new(5, 5, 10, 10);
    assert!(!a.overlaps(&b));
    assert!(a.overlaps(&c));
    assert!(c.overlaps(&a));
    let zero = Rect::new(2, 2, 0, 8);
    assert!(!a.overlaps(&zero));
}

#[test]
fn combine_z_saturates_at_the_depth_bounds() {
    assert_eq!(combine_z(0, 5), 5);
    assert_eq!(combine_z(5, -3), 2);
    assert_eq!(combine_z(32767, 1), 32767);
    assert_eq!(combine_z(-32768, -5), -32768);
}

#[test]
fn layers_partition_live_nodes_by_requested_depth() {
    // Children at shifts -1, 0 and +1 land in three sorted layers; every
    // live node appears exactly once.
    let tree = Tree {
        nodes: vec![
            snapshot(0, NodeTag::Container, 0, 0, 300, 300, false, 0, vec![1, 2, 3]),
            snapshot(1, NodeTag::Text, 0, 0, 100, 100, false, 0, vec![]),
            snapshot(2, NodeTag::Leaf, 0, 0, 100, 100, false, 1, vec![]),
            snapshot(3, NodeTag::Container, 0, 0, 100, 100, false, -1, vec![]),
        ],
        root: 0,
    };
    let mut collector = EventCollector::new();
    let registry = ListenerRegistry::new();
    let out = process_work(&tree, &mut collector, &registry).expect("frame should succeed");
    let zs: Vec<i16> = out.layers.layers.iter().map(|l| l.z).collect();
    assert_eq!(zs, vec![-1, 0, 1]);
    assert_eq!(out.layers.layers[0].members, vec![3]);
    let mut mid = out.layers.layers[1].members.clone();
    mid.sort();
    assert_eq!(mid, vec![0, 1]);
    assert_eq!(out.layers.layers[2].members, vec![2]);
}

#[test]
fn viewport_chains_hold_clipping_ancestors_farthest_first() {
    // Two nested clipping containers: the grandchild's chain lists both,
    // farthest first; chains never shrink from root to leaf.
    let tree = Tree {
        nodes: vec![
            snapshot(0, NodeTag::Container, 0, 0, 300, 300, true, 0, vec![1]),
            snapshot(1, NodeTag::Container, 10, 10, 200, 200, true, 0, vec![2]),
            snapshot(2, NodeTag::Leaf, 20, 20, 50, 50, false, 0, vec![]),
        ],
        root: 0,
    };
    let mut collector = EventCollector::new();
    let registry = ListenerRegistry::new();
    let out = process_work(&tree, &mut collector, &registry).expect("frame should succeed");
    let root_entry = out.viewports.get_entry(0).expect("root entry");
    let mid_entry = out.viewports.get_entry(1).expect("mid entry");
    let leaf_entry = out.viewports.get_entry(2).expect("leaf entry");
    assert_eq!(root_entry.inherited_chain.len(), 0);
    assert_eq!(mid_entry.inherited_chain, vec![0]);
    assert_eq!(leaf_entry.inherited_chain, vec![0, 1]);
    assert_eq!(root_entry.own_clip_rect, Some(Rect::new(0, 0, 300, 300)));
    assert_eq!(mid_entry.own_clip_rect, Some(Rect::new(10, 10, 200, 200)));
    assert_eq!(leaf_entry.own_clip_rect, None);
}

#[test]
fn culling_skips_only_nodes_with_zero_overlap() {
    // One child fully outside its clipping ancestor is culled; a sibling
    // that overlaps the clip rectangle is painted exactly once.
    let tree = Tree {
        nodes: vec![
            snapshot(0, NodeTag::Container, 0, 0, 100, 100, true, 0, vec![1, 2]),
            snapshot(1, NodeTag::Leaf, 200, 200, 10, 10, false, 0, vec![]),
            snapshot(2, NodeTag::Leaf, 50, 50, 100, 100, false, 0, vec![]),
        ],
        root: 0,
    };
    let mut collector = EventCollector::new();
    let registry = ListenerRegistry::new();
    let out = process_work(&tree, &mut collector, &registry).expect("frame should succeed");
    let painted: Vec<u64> = out.schedule.iter().map(|c| c.node_id).collect();
    assert!(painted.contains(&0));
    assert!(painted.contains(&2));
    assert!(!painted.contains(&1));
    assert_eq!(painted.iter().filter(|id| **id == 2).count(), 1);
    let cmd = out.schedule.iter().find(|c| c.node_id == 2).unwrap();
    assert_eq!(cmd.clip_rects, vec![Rect::new(0, 0, 100, 100)]);
}

#[test]
fn schedule_orders_layers_bottom_first() {
    let tree = Tree {
        nodes: vec![
            snapshot(0, NodeTag::Container, 0, 0, 300, 300, false, 0, vec![1, 2]),
            snapshot(1, NodeTag::Leaf, 0, 0, 100, 100, false, 2, vec![]),
            snapshot(2, NodeTag::Leaf, 0, 0, 100, 100, false, -2, vec![]),
        ],
        root: 0,
    };
    let mut collector = EventCollector::new();
    let registry = ListenerRegistry::new();
    let out = process_work(&tree, &mut collector, &registry).expect("frame should succeed");
    let zs: Vec<i16> = out.schedule.iter().map(|c| c.z).collect();
    assert_eq!(zs, vec![-2, 0, 2]);
}

#[test]
fn collector_drains_in_arrival_order_and_empties() {
    let mut collector = EventCollector::new();
    collector.push(InputSample {
        kind: SampleKind::PointerMove,
        position: Some((1, 2)),
        scroll_delta: None,
        key_code: None,
    });
    collector.push(InputSample {
        kind: SampleKind::KeyDown,
        position: None,
        scroll_delta: None,
        key_code: Some(7),
    });
    let batch = collector.drain();
    assert_eq!(batch.len(), 2);
    assert!(matches!(batch[0].kind, SampleKind::PointerMove));
    assert!(matches!(batch[1].kind, SampleKind::KeyDown));
    assert_eq!(collector.samples.len(), 0);
    let again = collector.drain();
    assert_eq!(again.len(), 0);
}

#[test]
fn platform_events_become_samples_at_the_cursor() {
    let mut st = PointerState { cursor_x: 0, cursor_y: 0 };
    let mut collector = EventCollector::new();
    let a1 = note_platform_event(
        &mut st,
        &mut collector,
        PlatformEvent::CursorMoved { x: 40, y: 50 },
    );
    assert!(a1 == FrameAction::Continue);
    assert_eq!((st.cursor_x, st.cursor_y), (40, 50));
    let a2 = note_platform_event(&mut st, &mut collector, PlatformEvent::ButtonReleased);
    assert!(a2 == FrameAction::Continue);
    let a3 = note_platform_event(
        &mut st,
        &mut collector,
        PlatformEvent::WheelTicked { delta: Some((0, -1)) },
    );
    assert!(a3 == FrameAction::Continue);
    let a4 = note_platform_event(&mut st, &mut collector, PlatformEvent::CloseRequested);
    assert!(a4 == FrameAction::Exit);
    let a5 = note_platform_event(&mut st, &mut collector, PlatformEvent::RedrawRequested);
    assert!(a5 == FrameAction::Redraw);
    let batch = collector.drain();
    assert_eq!(batch.len(), 3);
    assert!(matches!(batch[0].kind, SampleKind::PointerMove));
    assert!(matches!(batch[1].kind, SampleKind::PointerUp));
    assert_eq!(batch[1].position, Some((40, 50)));
    assert!(matches!(batch[2].kind, SampleKind::Wheel));
    assert_eq!(batch[2].position, Some((40, 50)));
    assert_eq!(batch[2].scroll_delta, Some((0, -1)));
}

#[test]
fn registry_keeps_registration_order_per_name() {
    let mut registry = ListenerRegistry::new();
    registry.register(EventName::Click, 5);
    registry.register(EventName::Click, 3);
    registry.register(EventName::Wheel, 9);
    assert_eq!(registry.listening_sorted(EventName::Click), vec![5, 3]);
    assert_eq!(registry.listening_sorted(EventName::Wheel), vec![9]);
    assert_eq!(registry.listening_sorted(EventName::KeyUp), Vec::<u64>::new());
}
