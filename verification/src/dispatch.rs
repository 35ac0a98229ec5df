//! The hit-test and dispatch resolver: turns the frame's buffered input
//! samples into addressed application events.
//!
//! Per frame it walks the layers from top to bottom, geometry-filters
//! pointer and wheel samples against each node's rectangle and viewport
//! chain (keyboard samples pass unfiltered), groups the surviving
//! (node, sample) candidates by event name, intersects each group with the
//! listener registry under the per-name occlusion and stacking policy, and
//! emits one `Medium`-priority, non-bubbling event per surviving pair.

use vstd::prelude::*;
use crate::geometry::Rect;
use crate::input::{InputSample, SampleKind, spec_event_name, event_name_of};
use crate::layers::{Layer, Layers};
use crate::listeners::ListenerRegistry;
use crate::node::{Background, NodeId, Tree};
use crate::paint::spec_node_rect;
use crate::policy::{EventName, spec_policy, spec_pointer_class, policy_for, pointer_class};
use crate::viewport::Viewports;

verus! {

/// One surviving (node, sample) pair: the hit node's id, rectangle and
/// background, with the sample that hit it.
#[derive(Clone, Copy, Debug)]
pub struct Candidate {
    pub node_id: NodeId,
    pub rect: Rect,
    pub background: Background,
    pub sample: InputSample,
}

/// The priority attached to a dispatched event.
#[derive(Clone, Copy, Debug, PartialEq, Eq, Structural)]
pub enum Priority {
    Low,
    Medium,
    High,
}

/// The payload handed to the listener, built from the sample kind. Pointer
/// payloads carry the absolute cursor position and the node-relative
/// position (cursor minus the node rectangle's origin).
#[derive(Clone, Copy, Debug, PartialEq, Eq, Structural)]
pub enum EventPayload {
    Pointer { abs_x: i32, abs_y: i32, rel_x: i64, rel_y: i64 },
    Wheel { delta_x: i32, delta_y: i32 },
    Key { key_code: Option<u32> },
}

/// One addressed, prioritized event, handed to the external event channel.
#[derive(Clone, Copy, Debug)]
pub struct DispatchedEvent {
    pub target: NodeId,
    pub name: EventName,
    pub priority: Priority,
    pub bubbles: bool,
    pub payload: EventPayload,
}

/// The node's background (transparent for an id the tree does not hold).
pub open spec fn spec_background(t: Tree, id: NodeId) -> Background {
    match t.spec_get(id) {
        Some(n) => n.background,
        None => Background::Transparent,
    }
}

/// The point lies strictly inside every clip rectangle of the node's chain.
pub open spec fn spec_point_in_chain(vps: Viewports, id: NodeId, px: int, py: int) -> bool {
    forall|ci: int|
        0 <= ci < vps.chain_of(id).len() ==> match vps.clip_rect_of(
            #[trigger] vps.chain_of(id)[ci],
        ) {
            Some(r) => r.spec_contains_point(px, py),
            None => true,
        }
}

/// The geometry filter for one (node, sample) pair. Keyboard samples are
/// never geometry-filtered; pointer and wheel samples must carry a position
/// strictly inside the node's rectangle and inside every rectangle of its
/// viewport chain.
pub open spec fn spec_hits(t: Tree, vps: Viewports, id: NodeId, s: InputSample) -> bool {
    t.contains_id(id) && if !spec_pointer_class(spec_event_name(s.kind)) {
        true
    } else {
        match s.position {
            Some((px, py)) => spec_node_rect(t, id).spec_contains_point(px as int, py as int)
                && spec_point_in_chain(vps, id, px as int, py as int),
            None => false,
        }
    }
}

pub open spec fn spec_candidate(t: Tree, id: NodeId, s: InputSample) -> Candidate {
    Candidate {
        node_id: id,
        rect: spec_node_rect(t, id),
        background: spec_background(t, id),
        sample: s,
    }
}

/// The candidates one node contributes: the samples that hit it, in arrival
/// order.
pub open spec fn spec_node_candidates(
    t: Tree,
    vps: Viewports,
    id: NodeId,
    samples: Seq<InputSample>,
) -> Seq<Candidate>
    decreases samples.len(),
{
    if samples.len() == 0 {
        Seq::empty()
    } else {
        let pre = spec_node_candidates(t, vps, id, samples.drop_last());
        if spec_hits(t, vps, id, samples.last()) {
            pre.push(spec_candidate(t, id, samples.last()))
        } else {
            pre
        }
    }
}

/// The full candidate sequence: nodes in dispatch order, each contributing
/// its hits in sample-arrival order.
pub open spec fn spec_candidates_over(
    t: Tree,
    vps: Viewports,
    order: Seq<NodeId>,
    samples: Seq<InputSample>,
) -> Seq<Candidate>
    decreases order.len(),
{
    if order.len() == 0 {
        Seq::empty()
    } else {
        spec_candidates_over(t, vps, order.drop_last(), samples) + spec_node_candidates(
            t,
            vps,
            order.last(),
            samples,
        )
    }
}

/// Node ids in dispatch order: the topmost layer's members first, then on
/// down to the bottom layer.
pub open spec fn spec_desc_order(layers: Seq<Layer>) -> Seq<NodeId>
    decreases layers.len(),
{
    if layers.len() == 0 {
        Seq::empty()
    } else {
        layers.last().members@ + spec_desc_order(layers.drop_last())
    }
}

proof fn lemma_desc_order_prepend(layers: Seq<Layer>, x: Layer)
    ensures
        spec_desc_order(seq![x] + layers) == spec_desc_order(layers) + x.members@,
    decreases layers.len(),
{
    let s = seq![x] + layers;
    assert(s.len() == layers.len() + 1);
    if layers.len() == 0 {
        assert(s.len() == 1 && s.last() == x);
        assert(s.drop_last() =~= Seq::<Layer>::empty());
        assert(spec_desc_order(s) == x.members@ + spec_desc_order(Seq::<Layer>::empty()));
        assert(spec_desc_order(s) =~= spec_desc_order(layers) + x.members@);
    } else {
        assert(s.last() == layers.last());
        assert(s.drop_last() =~= seq![x] + layers.drop_last());
        lemma_desc_order_prepend(layers.drop_last(), x);
        assert(spec_desc_order(s) == s.last().members@ + spec_desc_order(s.drop_last()));
        assert(spec_desc_order(s.drop_last()) == spec_desc_order(seq![x] + layers.drop_last()));
        assert(spec_desc_order(s.drop_last()) == spec_desc_order(layers.drop_last()) + x.members@);
        assert(spec_desc_order(layers) == layers.last().members@ + spec_desc_order(
            layers.drop_last(),
        ));
        assert(spec_desc_order(s) =~= spec_desc_order(layers) + x.members@);
    }
}

/// Lists the node ids to walk for dispatch: top layer down to bottom layer,
/// members in layer order.
fn dispatch_order(ls: &Layers) -> (order: Vec<NodeId>)
    ensures
        order@ == spec_desc_order(ls.layers@),
{
    let mut order: Vec<NodeId> = Vec::new();
    let mut li = ls.layers.len();
    proof {
        assert(ls.layers@.skip(li as int) =~= Seq::<Layer>::empty());
    }
    while li > 0
        invariant
            li <= ls.layers@.len(),
            order@ == spec_desc_order(ls.layers@.skip(li as int)),
        decreases li,
    {
        li = li - 1;
        let nm = ls.layers[li].members.len();
        let ghost pre = order@;
        for m in 0..nm
            invariant
                li < ls.layers@.len(),
                nm == ls.layers@[li as int].members@.len(),
                order@ == pre + ls.layers@[li as int].members@.take(m as int),
        {
            order.push(ls.layers[li].members[m]);
            proof {
                assert(order@ =~= pre + ls.layers@[li as int].members@.take(m + 1));
            }
        }
        proof {
            assert(ls.layers@[li as int].members@.take(nm as int) =~= ls.layers@[li
                as int].members@);
            assert(ls.layers@.skip(li as int) =~= seq![ls.layers@[li as int]] + ls.layers@.skip(
                li as int + 1,
            ));
            lemma_desc_order_prepend(ls.layers@.skip(li as int + 1), ls.layers@[li as int]);
        }
    }
    proof {
        assert(ls.layers@.skip(0) =~= ls.layers@);
    }
    order
}

/// Tests whether the point lies inside every clip rectangle of the node's
/// chain.
fn point_in_chain(vps: &Viewports, id: NodeId, px: i32, py: i32) -> (r: bool)
    requires
        vps.ids_unique(),
    ensures
        r == spec_point_in_chain(*vps, id, px as int, py as int),
{
    let entry = match vps.get_entry(id) {
        Some(e) => e,
        None => {
            proof {
                assert(vps.chain_of(id) =~= Seq::<NodeId>::empty());
            }
            return true;
        },
    };
    assert(entry.inherited_chain@ == vps.chain_of(id));
    let nc = entry.inherited_chain.len();
    for ci in 0..nc
        invariant
            vps.ids_unique(),
            nc == entry.inherited_chain@.len(),
            entry.inherited_chain@ == vps.chain_of(id),
            forall|cj: int|
                0 <= cj < ci ==> match vps.clip_rect_of(#[trigger] vps.chain_of(id)[cj]) {
                    Some(r) => r.spec_contains_point(px as int, py as int),
                    None => true,
                },
    {
        let x = entry.inherited_chain[ci];
        match vps.clip_rect(x) {
            Some(r) => {
                if !r.contains_point(px, py) {
                    proof {
                        assert(vps.chain_of(id)[ci as int] == x);
                    }
                    return false;
                }
            },
            None => {},
        }
    }
    true
}

/// Collects the frame's candidates: every (node, sample) pair that survives
/// geometry filtering, nodes in top-to-bottom dispatch order, samples in
/// arrival order.
pub fn collect_candidates(
    t: &Tree,
    ls: &Layers,
    vps: &Viewports,
    samples: &Vec<InputSample>,
) -> (cands: Vec<Candidate>)
    requires
        t.wf(),
        vps.ids_unique(),
    ensures
        cands@ == spec_candidates_over(*t, *vps, spec_desc_order(ls.layers@), samples@),
{
    let order = dispatch_order(ls);
    let mut cands: Vec<Candidate> = Vec::new();
    let no = order.len();
    for oi in 0..no
        invariant
            t.wf(),
            vps.ids_unique(),
            no == order@.len(),
            order@ == spec_desc_order(ls.layers@),
            cands@ == spec_candidates_over(*t, *vps, order@.take(oi as int), samples@),
    {
        let id = order[oi];
        let ghost pre = cands@;
        let node_known = match t.get(id) {
            Some(_) => true,
            None => false,
        };
        if node_known {
            let node = match t.get(id) {
                Some(n) => n,
                None => {
                    proof {
                        assert(false);
                    }
                    return cands;
                },
            };
            let ns = samples.len();
            for si in 0..ns
                invariant
                    t.wf(),
                    vps.ids_unique(),
                    ns == samples@.len(),
                    t.spec_get(id) == Some(*node),
                    cands@ == pre + spec_node_candidates(*t, *vps, id, samples@.take(si as int)),
            {
                let s = samples[si];
                let name = event_name_of(s.kind);
                let hit: bool = if !pointer_class(name) {
                    true
                } else {
                    match s.position {
                        Some((px, py)) => {
                            node.rect.contains_point(px, py) && point_in_chain(vps, id, px, py)
                        },
                        None => false,
                    }
                };
                assert(hit == spec_hits(*t, *vps, id, s));
                if hit {
                    cands.push(
                        Candidate { node_id: id, rect: node.rect, background: node.background, sample: s },
                    );
                }
                proof {
                    assert(samples@.take(si + 1).drop_last() =~= samples@.take(si as int));
                    assert(samples@.take(si + 1).last() == s);
                    if hit {
                        assert(cands@ =~= pre + spec_node_candidates(
                            *t,
                            *vps,
                            id,
                            samples@.take(si + 1),
                        ));
                    }
                }
            }
            proof {
                assert(samples@.take(ns as int) =~= samples@);
            }
        } else {
            proof {
                assert forall|k: int|
                    0 <= k <= samples@.len() implies spec_node_candidates(
                    *t,
                    *vps,
                    id,
                    samples@.take(k),
                ) =~= Seq::<Candidate>::empty() by {
                    lemma_no_candidates_unknown(*t, *vps, id, samples@.take(k));
                }
                assert(samples@.take(samples@.len() as int) =~= samples@);
            }
        }
        proof {
            assert(order@.take(oi + 1).drop_last() =~= order@.take(oi as int));
            assert(order@.take(oi + 1).last() == id);
            assert(cands@ =~= spec_candidates_over(*t, *vps, order@.take(oi + 1), samples@));
        }
    }
    proof {
        assert(order@.take(no as int) =~= order@);
    }
    cands
}

/// An id the tree does not hold contributes no candidate.
proof fn lemma_no_candidates_unknown(t: Tree, vps: Viewports, id: NodeId, samples: Seq<InputSample>)
    requires
        !t.contains_id(id),
    ensures
        spec_node_candidates(t, vps, id, samples) == Seq::<Candidate>::empty(),
    decreases samples.len(),
{
    if samples.len() > 0 {
        lemma_no_candidates_unknown(t, vps, id, samples.drop_last());
    }
}

/// The first-occurrence order of the event names in a candidate sequence.
pub open spec fn spec_group_names(cands: Seq<Candidate>) -> Seq<EventName>
    decreases cands.len(),
{
    if cands.len() == 0 {
        Seq::empty()
    } else {
        let pre = spec_group_names(cands.drop_last());
        if pre.contains(spec_event_name(cands.last().sample.kind)) {
            pre
        } else {
            pre.push(spec_event_name(cands.last().sample.kind))
        }
    }
}

/// One event name's candidate group, in the flat sequence's order.
#[derive(Clone, Debug)]
pub struct CandidateGroup {
    pub name: EventName,
    pub candidates: Vec<Candidate>,
}

pub open spec fn spec_named(name: EventName) -> spec_fn(Candidate) -> bool {
    |c: Candidate| spec_event_name(c.sample.kind) == name
}

/// Groups the flat candidate sequence by event name, keeping each group's
/// candidates in their original order and the groups in first-occurrence
/// order.
pub fn group_candidates(flat: &Vec<Candidate>) -> (groups: Vec<CandidateGroup>)
    ensures
        groups@.map_values(|g: CandidateGroup| g.name) == spec_group_names(flat@),
        forall|g: int|
            0 <= g < groups@.len() ==> (#[trigger] groups@[g]).candidates@ == flat@.filter(
                spec_named(groups@[g].name),
            ),
{
    let mut groups: Vec<CandidateGroup> = Vec::new();
    let n = flat.len();
    for i in 0..n
        invariant
            n == flat@.len(),
            groups@.map_values(|g: CandidateGroup| g.name) == spec_group_names(
                flat@.take(i as int),
            ),
            forall|g: int|
                0 <= g < groups@.len() ==> (#[trigger] groups@[g]).candidates@ == flat@.take(
                    i as int,
                ).filter(spec_named(groups@[g].name)),
    {
        let c = flat[i];
        let name = event_name_of(c.sample.kind);
        let ghost pre_groups = groups@;
        let ghost pre_names = spec_group_names(flat@.take(i as int));

        // Find this name's group, if the name occurred before.
        let ng = groups.len();
        let mut g: usize = 0;
        while g < ng && !group_name_eq(&groups, g, name)
            invariant
                ng == groups@.len(),
                groups@ == pre_groups,
                0 <= g <= ng,
                forall|h: int| 0 <= h < g ==> (#[trigger] groups@[h]).name != name,
            decreases ng - g,
        {
            g += 1;
        }
        proof {
            assert(pre_names.contains(name) <==> g < ng) by {
                if g < ng {
                    assert(pre_names[g as int] == name);
                } else if pre_names.contains(name) {
                    let h = choose|h: int|
                        0 <= h < pre_names.len() && pre_names[h] == name;
                    assert(groups@[h].name == name);
                }
            }
        }
        if g < ng {
            let mut grp = groups.remove(g);
            grp.candidates.push(c);
            groups.insert(g, grp);
            proof {
                assert(groups@ =~= pre_groups.update(g as int, groups@[g as int]));
                lemma_group_extend(pre_groups, groups@, flat@, i as int, g as int, name);
            }
        } else {
            let mut candidates: Vec<Candidate> = Vec::new();
            candidates.push(c);
            groups.push(CandidateGroup { name, candidates });
            proof {
                assert(groups@[pre_groups.len() as int].candidates@ =~= seq![flat@[i as int]]);
                lemma_group_append(pre_groups, groups@, flat@, i as int, name);
            }
        }
    }
    proof {
        assert(flat@.take(n as int) =~= flat@);
    }
    groups
}

fn group_name_eq(groups: &Vec<CandidateGroup>, g: usize, name: EventName) -> (r: bool)
    requires
        g < groups@.len(),
    ensures
        r == (groups@[g as int].name == name),
{
    groups[g].name == name
}

/// Filing a candidate into its existing group keeps all grouping facts.
proof fn lemma_group_extend(
    pre: Seq<CandidateGroup>,
    post: Seq<CandidateGroup>,
    flat: Seq<Candidate>,
    i: int,
    g: int,
    name: EventName,
)
    requires
        0 <= i < flat.len(),
        spec_event_name(flat[i].sample.kind) == name,
        pre.map_values(|gr: CandidateGroup| gr.name) == spec_group_names(flat.take(i)),
        forall|h: int|
            0 <= h < pre.len() ==> (#[trigger] pre[h]).candidates@ == flat.take(i).filter(
                spec_named(pre[h].name),
            ),
        0 <= g < pre.len(),
        pre[g].name == name,
        post.len() == pre.len(),
        forall|h: int| 0 <= h < post.len() && h != g ==> post[h] == pre[h],
        post[g].name == name,
        post[g].candidates@ == pre[g].candidates@.push(flat[i]),
    ensures
        post.map_values(|gr: CandidateGroup| gr.name) == spec_group_names(flat.take(i + 1)),
        forall|h: int|
            0 <= h < post.len() ==> (#[trigger] post[h]).candidates@ == flat.take(i + 1).filter(
                spec_named(post[h].name),
            ),
{
    reveal(Seq::filter);
    lemma_group_names_unique(flat.take(i));
    let names_pre = spec_group_names(flat.take(i));
    assert forall|h: int| 0 <= h < pre.len() implies names_pre[h] == (#[trigger] pre[h]).name by {
        assert(pre.map_values(|gr: CandidateGroup| gr.name)[h] == pre[h].name);
    }
    assert(names_pre.contains(name)) by {
        assert(names_pre[g] == name);
    }
    assert(flat.take(i + 1).drop_last() =~= flat.take(i));
    assert(flat.take(i + 1).last() == flat[i]);
    let names_post = spec_group_names(flat.take(i + 1));
    assert(names_post == names_pre);
    assert(post.map_values(|gr: CandidateGroup| gr.name) =~= names_post) by {
        assert forall|h: int| 0 <= h < post.len() implies (#[trigger] post[h]).name
            == names_post[h] by {
            if h != g {
                assert(post[h] == pre[h]);
            }
        }
        assert forall|h: int|
            0 <= h < post.len() implies post.map_values(|gr: CandidateGroup| gr.name)[h]
            == names_post[h] by {
            assert(post.map_values(|gr: CandidateGroup| gr.name)[h] == post[h].name);
        }
    }
    assert forall|h: int| 0 <= h < post.len() && h != g implies (#[trigger] post[h]).name
        != name by {
        if post[h].name == name {
            assert(names_pre[h] == name && names_pre[g] == name);
            if h < g {
                assert(names_pre[h] != names_pre[g]);
            } else {
                assert(names_pre[g] != names_pre[h]);
            }
        }
    }
    assert forall|h: int| 0 <= h < post.len() implies (#[trigger] post[h]).candidates@ == flat.take(
        i + 1,
    ).filter(spec_named(post[h].name)) by {
        if h == g {
            assert(spec_named(name)(flat[i]));
            assert(flat.take(i + 1).filter(spec_named(name)) =~= flat.take(i).filter(
                spec_named(name),
            ).push(flat[i]));
        } else {
            assert(post[h] == pre[h]);
            assert(!spec_named(post[h].name)(flat[i]));
            assert(flat.take(i + 1).filter(spec_named(post[h].name)) =~= flat.take(i).filter(
                spec_named(post[h].name),
            ));
        }
    }
}

/// Opening a fresh group for a name seen for the first time keeps all
/// grouping facts.
proof fn lemma_group_append(
    pre: Seq<CandidateGroup>,
    post: Seq<CandidateGroup>,
    flat: Seq<Candidate>,
    i: int,
    name: EventName,
)
    requires
        0 <= i < flat.len(),
        spec_event_name(flat[i].sample.kind) == name,
        pre.map_values(|gr: CandidateGroup| gr.name) == spec_group_names(flat.take(i)),
        forall|h: int|
            0 <= h < pre.len() ==> (#[trigger] pre[h]).candidates@ == flat.take(i).filter(
                spec_named(pre[h].name),
            ),
        !spec_group_names(flat.take(i)).contains(name),
        post == pre.push(post[pre.len() as int]),
        post[pre.len() as int].name == name,
        post[pre.len() as int].candidates@ == seq![flat[i]],
    ensures
        post.map_values(|gr: CandidateGroup| gr.name) == spec_group_names(flat.take(i + 1)),
        forall|h: int|
            0 <= h < post.len() ==> (#[trigger] post[h]).candidates@ == flat.take(i + 1).filter(
                spec_named(post[h].name),
            ),
{
    reveal(Seq::filter);
    let g = pre.len() as int;
    let names_pre = spec_group_names(flat.take(i));
    assert forall|h: int| 0 <= h < pre.len() implies names_pre[h] == (#[trigger] pre[h]).name by {
        assert(pre.map_values(|gr: CandidateGroup| gr.name)[h] == pre[h].name);
    }
    assert(flat.take(i + 1).drop_last() =~= flat.take(i));
    assert(flat.take(i + 1).last() == flat[i]);
    let names_post = spec_group_names(flat.take(i + 1));
    assert(names_post == names_pre.push(name));
    assert(post.map_values(|gr: CandidateGroup| gr.name) =~= names_post) by {
        assert forall|h: int| 0 <= h < post.len() implies (#[trigger] post[h]).name
            == names_post[h] by {
            if h < g {
                assert(post[h] == pre[h]);
            }
        }
        assert forall|h: int|
            0 <= h < post.len() implies post.map_values(|gr: CandidateGroup| gr.name)[h]
            == names_post[h] by {
            assert(post.map_values(|gr: CandidateGroup| gr.name)[h] == post[h].name);
        }
    }
    assert forall|h: int| 0 <= h < post.len() implies (#[trigger] post[h]).candidates@ == flat.take(
        i + 1,
    ).filter(spec_named(post[h].name)) by {
        if h == g {
            assert(spec_named(name)(flat[i]));
            lemma_unlisted_name_filter_empty(flat.take(i), name);
            assert(flat.take(i + 1).filter(spec_named(name)) =~= seq![flat[i]]);
        } else {
            assert(post[h] == pre[h]);
            assert(post[h].name != name) by {
                if post[h].name == name {
                    assert(names_pre[h] == name);
                    assert(names_pre.contains(name));
                }
            }
            assert(!spec_named(post[h].name)(flat[i]));
            assert(flat.take(i + 1).filter(spec_named(post[h].name)) =~= flat.take(i).filter(
                spec_named(post[h].name),
            ));
        }
    }
}

/// The first-occurrence name list never repeats a name.
proof fn lemma_group_names_unique(cands: Seq<Candidate>)
    ensures
        forall|a: int, b: int|
            0 <= a < b < spec_group_names(cands).len() ==> spec_group_names(cands)[a]
                != spec_group_names(cands)[b],
    decreases cands.len(),
{
    if cands.len() > 0 {
        lemma_group_names_unique(cands.drop_last());
        let pre = spec_group_names(cands.drop_last());
        let name = spec_event_name(cands.last().sample.kind);
        if !pre.contains(name) {
            assert forall|a: int, b: int|
                0 <= a < b < spec_group_names(cands).len() implies spec_group_names(cands)[a]
                != spec_group_names(cands)[b] by {
                if b == pre.len() {
                    assert(pre[a] != name) by {
                        if pre[a] == name {
                            assert(pre.contains(name));
                        }
                    }
                }
            }
        }
    }
}

/// A name outside the first-occurrence list filters to nothing.
proof fn lemma_unlisted_name_filter_empty(cands: Seq<Candidate>, name: EventName)
    requires
        !spec_group_names(cands).contains(name),
    ensures
        cands.filter(spec_named(name)) == Seq::<Candidate>::empty(),
    decreases cands.len(),
{
    reveal(Seq::filter);
    if cands.len() > 0 {
        let pre = spec_group_names(cands.drop_last());
        assert(!pre.contains(name)) by {
            if pre.contains(name) {
                let a = choose|a: int| 0 <= a < pre.len() && pre[a] == name;
                if pre.contains(spec_event_name(cands.last().sample.kind)) {
                    assert(spec_group_names(cands)[a] == name);
                } else {
                    assert(spec_group_names(cands)[a] == name);
                }
            }
        }
        lemma_unlisted_name_filter_empty(cands.drop_last(), name);
        assert(spec_event_name(cands.last().sample.kind) != name) by {
            if spec_event_name(cands.last().sample.kind) == name {
                let names = spec_group_names(cands);
                if pre.contains(name) {
                } else {
                    assert(names.last() == name);
                }
            }
        }
    }
}


/// The occlusion-and-stacking walk over one event name's candidates, from
/// the topmost candidate down. `acc` is the accumulator of surviving
/// matches:
/// - an opaque node ends a wheel search before its own listener check;
/// - a listener match is accumulated (stacking), replaces the accumulator
///   (non-stacking), or — for click on an opaque node — discards all earlier
///   matches first;
/// - after an opaque node, a pointer-class search stops: opacity blocks
///   propagation. Keyboard events are never occluded.
pub open spec fn spec_walk(
    name: EventName,
    cands: Seq<Candidate>,
    listeners: Seq<NodeId>,
    acc: Seq<Candidate>,
) -> Seq<Candidate>
    decreases cands.len(),
{
    if cands.len() == 0 {
        acc
    } else {
        let c = cands.first();
        let opaque = !c.background.spec_is_transparent();
        if spec_policy(name).occludes_without_listener && opaque {
            acc
        } else {
            let acc2 = if listeners.contains(c.node_id) {
                let base = if spec_policy(name).replace_on_opaque_match && opaque {
                    Seq::empty()
                } else if spec_policy(name).stacking {
                    acc
                } else {
                    Seq::empty()
                };
                base.push(c)
            } else {
                acc
            };
            if spec_pointer_class(name) && opaque {
                acc2
            } else {
                spec_walk(name, cands.drop_first(), listeners, acc2)
            }
        }
    }
}

/// Every survivor of the walk was already accumulated or is a candidate
/// whose node has a listener for the name.
pub proof fn lemma_walk_targets(
    name: EventName,
    cands: Seq<Candidate>,
    listeners: Seq<NodeId>,
    acc: Seq<Candidate>,
)
    ensures
        forall|a: int|
            0 <= a < spec_walk(name, cands, listeners, acc).len() ==> {
                let c = #[trigger] spec_walk(name, cands, listeners, acc)[a];
                acc.contains(c) || (cands.contains(c) && listeners.contains(c.node_id))
            },
    decreases cands.len(),
{
    if cands.len() > 0 {
        let c0 = cands.first();
        let opaque = !c0.background.spec_is_transparent();
        assert(cands.contains(c0)) by {
            assert(cands[0] == c0);
        }
        if spec_policy(name).occludes_without_listener && opaque {
        } else {
            let acc2 = if listeners.contains(c0.node_id) {
                let base = if spec_policy(name).replace_on_opaque_match && opaque {
                    Seq::<Candidate>::empty()
                } else if spec_policy(name).stacking {
                    acc
                } else {
                    Seq::<Candidate>::empty()
                };
                base.push(c0)
            } else {
                acc
            };
            assert forall|a: int| 0 <= a < acc2.len() implies acc.contains(#[trigger] acc2[a]) || (
            cands.contains(acc2[a]) && listeners.contains(acc2[a].node_id)) by {
                if listeners.contains(c0.node_id) && a == acc2.len() - 1 {
                    assert(acc2[a] == c0);
                } else if listeners.contains(c0.node_id) {
                    if !(spec_policy(name).replace_on_opaque_match && opaque) && spec_policy(
                        name,
                    ).stacking {
                        assert(acc.contains(acc2[a])) by {
                            assert(acc2[a] == acc[a]);
                        }
                    }
                } else {
                    assert(acc.contains(acc2[a])) by {
                        assert(acc2[a] == acc[a]);
                    }
                }
            }
            if spec_pointer_class(name) && opaque {
            } else {
                lemma_walk_targets(name, cands.drop_first(), listeners, acc2);
                assert forall|a: int|
                    0 <= a < spec_walk(name, cands, listeners, acc).len() implies {
                    let c = #[trigger] spec_walk(name, cands, listeners, acc)[a];
                    acc.contains(c) || (cands.contains(c) && listeners.contains(c.node_id))
                } by {
                    let c = spec_walk(name, cands, listeners, acc)[a];
                    assert(spec_walk(name, cands, listeners, acc) == spec_walk(
                        name,
                        cands.drop_first(),
                        listeners,
                        acc2,
                    ));
                    if cands.drop_first().contains(c) {
                        let b = choose|b: int|
                            0 <= b < cands.drop_first().len() && cands.drop_first()[b] == c;
                        assert(cands[b + 1] == c);
                    }
                }
            }
        }
    }
}

fn node_ids_contain(ids: &Vec<NodeId>, id: NodeId) -> (r: bool)
    ensures
        r == ids@.contains(id),
{
    let n = ids.len();
    for i in 0..n
        invariant
            n == ids@.len(),
            forall|j: int| 0 <= j < i ==> ids@[j] != id,
    {
        if ids[i] == id {
            return true;
        }
    }
    false
}

/// Runs the walk over one group's candidates.
fn walk_group(
    name: EventName,
    cands: &Vec<Candidate>,
    listeners: &Vec<NodeId>,
) -> (acc: Vec<Candidate>)
    ensures
        acc@ == spec_walk(name, cands@, listeners@, Seq::empty()),
{
    let mut acc: Vec<Candidate> = Vec::new();
    let n = cands.len();
    let mut i: usize = 0;
    let mut stopped = false;
    let policy = policy_for(name);
    let pclass = pointer_class(name);
    proof {
        assert(cands@.skip(0) =~= cands@);
    }
    while i < n && !stopped
        invariant
            n == cands@.len(),
            0 <= i <= n,
            policy == spec_policy(name),
            pclass == spec_pointer_class(name),
            !stopped ==> spec_walk(name, cands@, listeners@, Seq::empty()) == spec_walk(
                name,
                cands@.skip(i as int),
                listeners@,
                acc@,
            ),
            stopped ==> spec_walk(name, cands@, listeners@, Seq::empty()) == acc@,
        decreases n - i,
    {
        let c = cands[i];
        let ghost rest = cands@.skip(i as int);
        proof {
            assert(rest.first() == c);
            assert(rest.drop_first() =~= cands@.skip(i as int + 1));
        }
        let opaque = !c.background.is_transparent();
        if policy.occludes_without_listener && opaque {
            stopped = true;
        } else {
            if node_ids_contain(listeners, c.node_id) {
                if policy.replace_on_opaque_match && opaque {
                    acc.clear();
                } else if !policy.stacking {
                    acc.clear();
                }
                acc.push(c);
            }
            if pclass && opaque {
                stopped = true;
            }
        }
        i += 1;
    }
    proof {
        if !stopped {
            assert(cands@.skip(n as int) =~= Seq::<Candidate>::empty());
        }
    }
    acc
}

/// The event built for one surviving (node, sample) pair: fixed `Medium`
/// priority, no bubbling, payload from the sample kind; a pointer payload's
/// node-relative position is the cursor minus the rectangle origin.
pub open spec fn spec_event_for(name: EventName, c: Candidate) -> DispatchedEvent {
    DispatchedEvent {
        target: c.node_id,
        name,
        priority: Priority::Medium,
        bubbles: false,
        payload: spec_payload(c),
    }
}

pub open spec fn spec_payload(c: Candidate) -> EventPayload {
    match c.sample.kind {
        SampleKind::Wheel => {
            let (dx, dy) = match c.sample.scroll_delta {
                Some(d) => d,
                None => (0, 0),
            };
            EventPayload::Wheel { delta_x: dx, delta_y: dy }
        },
        SampleKind::KeyDown => EventPayload::Key { key_code: c.sample.key_code },
        SampleKind::KeyUp => EventPayload::Key { key_code: c.sample.key_code },
        _ => {
            let (px, py) = match c.sample.position {
                Some(p) => p,
                None => (0, 0),
            };
            EventPayload::Pointer {
                abs_x: px,
                abs_y: py,
                rel_x: (px - c.rect.x) as i64,
                rel_y: (py - c.rect.y) as i64,
            }
        },
    }
}

/// Builds the dispatched event for one surviving pair.
pub fn build_event(name: EventName, c: &Candidate) -> (e: DispatchedEvent)
    ensures
        e == spec_event_for(name, *c),
{
    let payload = match c.sample.kind {
        SampleKind::Wheel => {
            let (dx, dy) = match c.sample.scroll_delta {
                Some(d) => d,
                None => (0, 0),
            };
            EventPayload::Wheel { delta_x: dx, delta_y: dy }
        },
        SampleKind::KeyDown => EventPayload::Key { key_code: c.sample.key_code },
        SampleKind::KeyUp => EventPayload::Key { key_code: c.sample.key_code },
        _ => {
            let (px, py) = match c.sample.position {
                Some(p) => p,
                None => (0, 0),
            };
            let rel_x: i64 = px as i64 - c.rect.x as i64;
            let rel_y: i64 = py as i64 - c.rect.y as i64;
            EventPayload::Pointer { abs_x: px, abs_y: py, rel_x, rel_y }
        },
    };
    DispatchedEvent { target: c.node_id, name, priority: Priority::Medium, bubbles: false, payload }
}

/// The events one name group contributes: its walk survivors, in order.
pub open spec fn spec_group_events(
    name: EventName,
    flat: Seq<Candidate>,
    reg: ListenerRegistry,
) -> Seq<DispatchedEvent> {
    spec_walk(name, flat.filter(spec_named(name)), reg.listening(name), Seq::empty()).map_values(
        |c: Candidate| spec_event_for(name, c),
    )
}

/// The events of the whole frame: each name group's events, groups in
/// first-occurrence order.
pub open spec fn spec_events_for_names(
    flat: Seq<Candidate>,
    names: Seq<EventName>,
    reg: ListenerRegistry,
) -> Seq<DispatchedEvent>
    decreases names.len(),
{
    if names.len() == 0 {
        Seq::empty()
    } else {
        spec_events_for_names(flat, names.drop_last(), reg) + spec_group_events(
            names.last(),
            flat,
            reg,
        )
    }
}

/// The dispatch batch of one frame, from the raw sample batch.
pub open spec fn spec_resolve(
    t: Tree,
    ls: Layers,
    vps: Viewports,
    samples: Seq<InputSample>,
    reg: ListenerRegistry,
) -> Seq<DispatchedEvent> {
    let flat = spec_candidates_over(t, vps, spec_desc_order(ls.layers@), samples);
    spec_events_for_names(flat, spec_group_names(flat), reg)
}

/// Resolves the frame's input batch into dispatched events.
///
/// Every emitted event has `Medium` priority, does not bubble, and is
/// addressed to a node that has a listener registered for the event's name.
/// An empty sample batch yields an empty dispatch batch.
pub fn resolve_events(
    t: &Tree,
    ls: &Layers,
    vps: &Viewports,
    samples: &Vec<InputSample>,
    registry: &ListenerRegistry,
) -> (evs: Vec<DispatchedEvent>)
    requires
        t.wf(),
        vps.ids_unique(),
        registry.wf(),
    ensures
        evs@ == spec_resolve(*t, *ls, *vps, samples@, *registry),
        forall|a: int|
            0 <= a < evs@.len() ==> (#[trigger] evs@[a]).priority == Priority::Medium
                && !evs@[a].bubbles && registry.listening(evs@[a].name).contains(evs@[a].target),
        samples@.len() == 0 ==> evs@.len() == 0,
{
    let flat = collect_candidates(t, ls, vps, samples);
    let groups = group_candidates(&flat);
    let ghost names = spec_group_names(flat@);
    let mut evs: Vec<DispatchedEvent> = Vec::new();
    let ng = groups.len();
    for g in 0..ng
        invariant
            registry.wf(),
            ng == groups@.len(),
            flat@ == spec_candidates_over(*t, *vps, spec_desc_order(ls.layers@), samples@),
            names == spec_group_names(flat@),
            groups@.map_values(|gr: CandidateGroup| gr.name) == names,
            forall|h: int|
                0 <= h < groups@.len() ==> (#[trigger] groups@[h]).candidates@ == flat@.filter(
                    spec_named(groups@[h].name),
                ),
            evs@ == spec_events_for_names(flat@, names.take(g as int), *registry),
            forall|a: int|
                0 <= a < evs@.len() ==> (#[trigger] evs@[a]).priority == Priority::Medium
                    && !evs@[a].bubbles && registry.listening(evs@[a].name).contains(
                    evs@[a].target,
                ),
    {
        let name = groups[g].name;
        proof {
            assert(groups@.map_values(|gr: CandidateGroup| gr.name)[g as int] == name);
        }
        let listeners = registry.listening_sorted(name);
        let survivors = walk_group(name, &groups[g].candidates, &listeners);
        let ghost pre_evs = evs@;
        let ns = survivors.len();
        for si in 0..ns
            invariant
                ns == survivors@.len(),
                registry.wf(),
                g < groups@.len(),
                name == groups@[g as int].name,
                survivors@ == spec_walk(
                    name,
                    flat@.filter(spec_named(name)),
                    registry.listening(name),
                    Seq::empty(),
                ),
                evs@ == pre_evs + survivors@.take(si as int).map_values(
                    |c: Candidate| spec_event_for(name, c),
                ),
                forall|a: int|
                    0 <= a < evs@.len() ==> (#[trigger] evs@[a]).priority == Priority::Medium
                        && !evs@[a].bubbles && registry.listening(evs@[a].name).contains(
                        evs@[a].target,
                    ),
        {
            let e = build_event(name, &survivors[si]);
            proof {
                lemma_walk_targets(
                    name,
                    flat@.filter(spec_named(name)),
                    registry.listening(name),
                    Seq::empty(),
                );
                assert(registry.listening(name).contains(survivors@[si as int].node_id));
            }
            evs.push(e);
            proof {
                assert(survivors@.take(si + 1).drop_last() =~= survivors@.take(si as int));
                assert(evs@ =~= pre_evs + survivors@.take(si + 1).map_values(
                    |c: Candidate| spec_event_for(name, c),
                ));
            }
        }
        proof {
            assert(survivors@.take(ns as int) =~= survivors@);
            assert(names.take(g as int + 1).drop_last() =~= names.take(g as int));
            assert(names.take(g as int + 1).last() == name);
            assert(evs@ =~= spec_events_for_names(flat@, names.take(g as int + 1), *registry));
        }
    }
    proof {
        assert(names.take(ng as int) =~= names);
        if samples@.len() == 0 {
            lemma_no_samples_no_candidates(*t, *vps, spec_desc_order(ls.layers@), samples@);
            assert(flat@.len() == 0);
            assert(names =~= Seq::<EventName>::empty());
        }
    }
    evs
}

/// An empty sample batch yields no candidate anywhere.
proof fn lemma_no_samples_no_candidates(
    t: Tree,
    vps: Viewports,
    order: Seq<NodeId>,
    samples: Seq<InputSample>,
)
    requires
        samples.len() == 0,
    ensures
        spec_candidates_over(t, vps, order, samples) == Seq::<Candidate>::empty(),
    decreases order.len(),
{
    if order.len() > 0 {
        lemma_no_samples_no_candidates(t, vps, order.drop_last(), samples);
        assert(spec_node_candidates(t, vps, order.last(), samples) == Seq::<Candidate>::empty());
        assert(spec_candidates_over(t, vps, order, samples) =~= Seq::<Candidate>::empty());
    }
}

} // verus!
