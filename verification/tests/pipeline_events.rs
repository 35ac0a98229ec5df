use freya_core::dispatch::{EventPayload, Priority};
use freya_core::geometry::Rect;
use freya_core::input::{EventCollector, InputSample, SampleKind};
use freya_core::listeners::ListenerRegistry;
use freya_core::node::{Background, NodeSnapshot, NodeTag, Tree};
use freya_core::pipeline::{process_work, FrameOutput};
use freya_core::policy::EventName;
use freya_core::traverse::CorruptTreeError;

fn container(
    id: u64,
    x: i32,
    y: i32,
    w: i32,
    h: i32,
    background: Background,
    clips: bool,
    layer_shift: i16,
    children: Vec<u64>,
) -> NodeSnapshot {
    NodeSnapshot {
        id,
        tag: NodeTag::Container,
        rect: Rect::new(x, y, w, h),
        background,
        clips,
        layer_shift,
        children,
    }
}

fn pointer_sample(kind: SampleKind, x: i32, y: i32) -> InputSample {
    InputSample { kind, position: Some((x, y)), scroll_delta: None, key_code: None }
}

fn run_frame(tree: &Tree, samples: Vec<InputSample>, registry: &ListenerRegistry) -> FrameOutput {
    let mut collector = EventCollector::new();
    for s in samples {
        collector.push(s);
    }
    process_work(tree, &mut collector, registry).expect("frame should succeed")
}

#[test]
fn wheel_blocked_by_opaque_non_listener() {
    // An opaque node at z=1 above a wheel listener at z=0, same position:
    // the wheel sample must produce zero events.
    let tree = Tree {
        nodes: vec![
            container(0, 0, 0, 200, 200, Background::Transparent, false, 0, vec![1, 2]),
            container(1, 0, 0, 100, 100, Background::Transparent, false, 0, vec![]),
            container(2, 0, 0, 100, 100, Background::Color { argb: 0xFF0000FF }, false, 1, vec![]),
        ],
        root: 0,
    };
    let mut registry = ListenerRegistry::new();
    registry.register(EventName::Wheel, 1);
    let sample = InputSample {
        kind: SampleKind::Wheel,
        position: Some((50, 50)),
        scroll_delta: Some((0, 3)),
        key_code: None,
    };
    let out = run_frame(&tree, vec![sample], &registry);
    assert_eq!(out.events.len(), 0);
}

#[test]
fn wheel_passes_transparent_non_listener() {
    // A transparent non-listener above a transparent wheel listener does not
    // block the wheel.
    let tree = Tree {
        nodes: vec![
            container(0, 0, 0, 200, 200, Background::Transparent, false, 0, vec![1, 2]),
            container(1, 0, 0, 100, 100, Background::Transparent, false, 0, vec![]),
            container(2, 0, 0, 100, 100, Background::Transparent, false, 1, vec![]),
        ],
        root: 0,
    };
    let mut registry = ListenerRegistry::new();
    registry.register(EventName::Wheel, 1);
    let sample = InputSample {
        kind: SampleKind::Wheel,
        position: Some((50, 50)),
        scroll_delta: Some((-2, 7)),
        key_code: None,
    };
    let out = run_frame(&tree, vec![sample], &registry);
    assert_eq!(out.events.len(), 1);
    assert_eq!(out.events[0].target, 1);
    assert!(out.events[0].name == EventName::Wheel);
    match out.events[0].payload {
        EventPayload::Wheel { delta_x, delta_y } => {
            assert_eq!(delta_x, -2);
            assert_eq!(delta_y, 7);
        }
        _ => panic!("expected a wheel payload"),
    }
}

#[test]
fn click_on_opaque_top_discards_lower_match() {
    // Two stacked click listeners with the topmost opaque: exactly one
    // event, targeting the topmost.
    let tree = Tree {
        nodes: vec![
            container(0, 0, 0, 200, 200, Background::Transparent, false, 0, vec![1, 2]),
            container(1, 0, 0, 100, 100, Background::Transparent, false, 0, vec![]),
            container(2, 0, 0, 100, 100, Background::Color { argb: 0xFF00FF00 }, false, 1, vec![]),
        ],
        root: 0,
    };
    let mut registry = ListenerRegistry::new();
    registry.register(EventName::Click, 1);
    registry.register(EventName::Click, 2);
    let out = run_frame(
        &tree,
        vec![pointer_sample(SampleKind::PointerUp, 50, 50)],
        &registry,
    );
    assert_eq!(out.events.len(), 1);
    assert_eq!(out.events[0].target, 2);
    assert!(out.events[0].name == EventName::Click);
}

#[test]
fn mouseover_stacks_across_nested_transparent_containers() {
    // Three nested transparent containers all listening for mouseover: one
    // pointer-move inside all three yields three events, one per node.
    let tree = Tree {
        nodes: vec![
            container(0, 0, 0, 300, 300, Background::Transparent, false, 0, vec![1]),
            container(1, 10, 10, 200, 200, Background::Transparent, false, 0, vec![2]),
            container(2, 20, 20, 100, 100, Background::Transparent, false, 0, vec![]),
        ],
        root: 0,
    };
    let mut registry = ListenerRegistry::new();
    registry.register(EventName::MouseOver, 0);
    registry.register(EventName::MouseOver, 1);
    registry.register(EventName::MouseOver, 2);
    let out = run_frame(
        &tree,
        vec![pointer_sample(SampleKind::PointerMove, 50, 50)],
        &registry,
    );
    assert_eq!(out.events.len(), 3);
    let mut targets: Vec<u64> = out.events.iter().map(|e| e.target).collect();
    targets.sort();
    assert_eq!(targets, vec![0, 1, 2]);
    for e in &out.events {
        assert!(e.name == EventName::MouseOver);
        assert!(e.priority == Priority::Medium);
        assert!(!e.bubbles);
    }
}

#[test]
fn empty_batch_yields_no_events_and_empty_buffer() {
    // A non-empty, valid tree with an empty input batch: zero events, and
    // the buffer stays empty.
    let tree = Tree {
        nodes: vec![
            container(0, 0, 0, 200, 200, Background::Transparent, false, 0, vec![1]),
            container(1, 0, 0, 100, 100, Background::Transparent, false, 0, vec![]),
        ],
        root: 0,
    };
    let mut registry = ListenerRegistry::new();
    registry.register(EventName::Click, 1);
    let mut collector = EventCollector::new();
    let out = process_work(&tree, &mut collector, &registry).expect("frame should succeed");
    assert_eq!(out.events.len(), 0);
    assert_eq!(collector.samples.len(), 0);
}

#[test]
fn pointer_payload_carries_node_relative_coordinates() {
    // A pointer sample at (53, 27) over a node with rectangle
    // {x:10, y:10, w:50, h:50} yields node-relative coordinates (43, 17).
    let tree = Tree {
        nodes: vec![
            container(0, 0, 0, 300, 300, Background::Transparent, false, 0, vec![1]),
            container(1, 10, 10, 50, 50, Background::Transparent, false, 0, vec![]),
        ],
        root: 0,
    };
    let mut registry = ListenerRegistry::new();
    registry.register(EventName::MouseOver, 1);
    let out = run_frame(
        &tree,
        vec![pointer_sample(SampleKind::PointerMove, 53, 27)],
        &registry,
    );
    assert_eq!(out.events.len(), 1);
    assert_eq!(out.events[0].target, 1);
    match out.events[0].payload {
        EventPayload::Pointer { abs_x, abs_y, rel_x, rel_y } => {
            assert_eq!((abs_x, abs_y), (53, 27));
            assert_eq!((rel_x, rel_y), (43, 17));
        }
        _ => panic!("expected a pointer payload"),
    }
}

#[test]
fn mousedown_keeps_only_most_recent_match() {
    // MouseDown does not stack: with two transparent listeners the later
    // (lower) match replaces the earlier one.
    let tree = Tree {
        nodes: vec![
            container(0, 0, 0, 200, 200, Background::Transparent, false, 0, vec![1, 2]),
            container(1, 0, 0, 100, 100, Background::Transparent, false, 0, vec![]),
            container(2, 0, 0, 100, 100, Background::Transparent, false, 1, vec![]),
        ],
        root: 0,
    };
    let mut registry = ListenerRegistry::new();
    registry.register(EventName::MouseDown, 1);
    registry.register(EventName::MouseDown, 2);
    let out = run_frame(
        &tree,
        vec![pointer_sample(SampleKind::PointerDown, 50, 50)],
        &registry,
    );
    assert_eq!(out.events.len(), 1);
    assert_eq!(out.events[0].target, 1);
}

#[test]
fn keyboard_samples_reach_listeners_without_geometry() {
    // Keyboard samples are not geometry-filtered: the listener receives the
    // key event although no position is given.
    let tree = Tree {
        nodes: vec![
            container(0, 0, 0, 200, 200, Background::Transparent, false, 0, vec![1]),
            container(1, 0, 0, 100, 100, Background::Color { argb: 0xFFFFFFFF }, false, 0, vec![]),
        ],
        root: 0,
    };
    let mut registry = ListenerRegistry::new();
    registry.register(EventName::KeyDown, 1);
    let sample = InputSample {
        kind: SampleKind::KeyDown,
        position: None,
        scroll_delta: None,
        key_code: Some(42),
    };
    let out = run_frame(&tree, vec![sample], &registry);
    assert_eq!(out.events.len(), 1);
    assert_eq!(out.events[0].target, 1);
    match out.events[0].payload {
        EventPayload::Key { key_code } => assert_eq!(key_code, Some(42)),
        _ => panic!("expected a key payload"),
    }
}

#[test]
fn unregistered_name_yields_no_dispatch() {
    // A sample whose event name has no registry entry produces no event.
    let tree = Tree {
        nodes: vec![container(0, 0, 0, 200, 200, Background::Transparent, false, 0, vec![])],
        root: 0,
    };
    let registry = ListenerRegistry::new();
    let out = run_frame(
        &tree,
        vec![pointer_sample(SampleKind::PointerMove, 50, 50)],
        &registry,
    );
    assert_eq!(out.events.len(), 0);
}

#[test]
fn pointer_outside_rectangle_is_filtered() {
    // Open-interval containment: a sample on the rectangle's edge misses.
    let tree = Tree {
        nodes: vec![
            container(0, 0, 0, 200, 200, Background::Transparent, false, 0, vec![1]),
            container(1, 10, 10, 50, 50, Background::Transparent, false, 0, vec![]),
        ],
        root: 0,
    };
    let mut registry = ListenerRegistry::new();
    registry.register(EventName::Click, 1);
    let out = run_frame(
        &tree,
        vec![
            pointer_sample(SampleKind::PointerUp, 10, 30),
            pointer_sample(SampleKind::PointerUp, 60, 30),
        ],
        &registry,
    );
    assert_eq!(out.events.len(), 0);
}

#[test]
fn pointer_outside_viewport_chain_is_filtered() {
    // The node extends past its clipping ancestor: a hit on the part that
    // is clipped away is filtered out, a hit on the visible part passes.
    let tree = Tree {
        nodes: vec![
            container(0, 0, 0, 300, 300, Background::Transparent, false, 0, vec![1]),
            container(1, 0, 0, 50, 50, Background::Transparent, true, 0, vec![2]),
            container(2, 0, 0, 200, 200, Background::Transparent, false, 0, vec![]),
        ],
        root: 0,
    };
    let mut registry = ListenerRegistry::new();
    registry.register(EventName::Click, 2);
    let out = run_frame(
        &tree,
        vec![
            pointer_sample(SampleKind::PointerUp, 100, 100),
            pointer_sample(SampleKind::PointerUp, 25, 25),
        ],
        &registry,
    );
    assert_eq!(out.events.len(), 1);
    assert_eq!(out.events[0].target, 2);
    match out.events[0].payload {
        EventPayload::Pointer { abs_x, abs_y, .. } => assert_eq!((abs_x, abs_y), (25, 25)),
        _ => panic!("expected a pointer payload"),
    }
}

#[test]
fn cyclic_tree_fails_fast() {
    let tree = Tree {
        nodes: vec![
            container(0, 0, 0, 100, 100, Background::Transparent, false, 0, vec![1]),
            container(1, 0, 0, 100, 100, Background::Transparent, false, 0, vec![0]),
        ],
        root: 0,
    };
    let mut collector = EventCollector::new();
    let registry = ListenerRegistry::new();
    let err = process_work(&tree, &mut collector, &registry).unwrap_err();
    assert!(err == CorruptTreeError::RepeatedNode { id: 0 });
}

#[test]
fn missing_child_fails_fast() {
    let tree = Tree {
        nodes: vec![container(0, 0, 0, 100, 100, Background::Transparent, false, 0, vec![9])],
        root: 0,
    };
    let mut collector = EventCollector::new();
    let registry = ListenerRegistry::new();
    let err = process_work(&tree, &mut collector, &registry).unwrap_err();
    assert!(err == CorruptTreeError::MissingNode { id: 9 });
}

#[test]
fn node_claimed_by_two_parents_fails_fast() {
    let tree = Tree {
        nodes: vec![
            container(0, 0, 0, 100, 100, Background::Transparent, false, 0, vec![1, 2]),
            container(1, 0, 0, 100, 100, Background::Transparent, false, 0, vec![3]),
            container(2, 0, 0, 100, 100, Background::Transparent, false, 0, vec![3]),
            container(3, 0, 0, 100, 100, Background::Transparent, false, 0, vec![]),
        ],
        root: 0,
    };
    let mut collector = EventCollector::new();
    let registry = ListenerRegistry::new();
    let err = process_work(&tree, &mut collector, &registry).unwrap_err();
    assert!(err == CorruptTreeError::RepeatedNode { id: 3 });
}

#[test]
fn click_blocked_by_opaque_non_listener_above() {
    // An opaque non-listener above a click listener: opacity blocks
    // pointer-class propagation, so nothing below it is considered.
    let tree = Tree {
        nodes: vec![
            container(0, 0, 0, 200, 200, Background::Transparent, false, 0, vec![1, 2]),
            container(1, 0, 0, 100, 100, Background::Transparent, false, 0, vec![]),
            container(2, 0, 0, 100, 100, Background::Color { argb: 0xFF112233 }, false, 1, vec![]),
        ],
        root: 0,
    };
    let mut registry = ListenerRegistry::new();
    registry.register(EventName::Click, 1);
    let out = run_frame(
        &tree,
        vec![pointer_sample(SampleKind::PointerUp, 50, 50)],
        &registry,
    );
    assert_eq!(out.events.len(), 0);
}

#[test]
fn wheel_blocked_even_on_an_opaque_listener() {
    // Wheel stops at any opaque node before its own listener check: an
    // opaque wheel listener receives nothing.
    let tree = Tree {
        nodes: vec![
            container(0, 0, 0, 200, 200, Background::Transparent, false, 0, vec![1]),
            container(1, 0, 0, 100, 100, Background::Color { argb: 0xFFABCDEF }, false, 0, vec![]),
        ],
        root: 0,
    };
    let mut registry = ListenerRegistry::new();
    registry.register(EventName::Wheel, 1);
    let sample = InputSample {
        kind: SampleKind::Wheel,
        position: Some((50, 50)),
        scroll_delta: Some((1, 1)),
        key_code: None,
    };
    let out = run_frame(&tree, vec![sample], &registry);
    assert_eq!(out.events.len(), 0);
}
