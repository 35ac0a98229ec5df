//! The paint scheduler: orders layers bottom-to-top and culls nodes that lie
//! entirely outside one of their viewport rectangles.
//!
//! Culling is an optimization, never a correctness risk in the other
//! direction: a node is skipped only if it has zero overlap with some clip
//! rectangle in its chain (the open-interval "outside" test), so anything
//! that could be visible is scheduled. The core decides what to draw and in
//! what clip context; rasterization belongs to the paint backend.

use vstd::prelude::*;
use crate::geometry::Rect;
use crate::layers::Layers;
use crate::node::{NodeId, Tree};
use crate::viewport::Viewports;

verus! {

/// One node to draw: its id, its layer depth, and the clip rectangles (its
/// viewport chain, farthest-first) the backend must intersect before
/// drawing.
#[derive(Clone, Debug)]
pub struct PaintCommand {
    pub node_id: NodeId,
    pub z: i16,
    pub clip_rects: Vec<Rect>,
}

/// The rectangle stored for `id` (a zero rectangle for an unknown id).
pub open spec fn spec_node_rect(t: Tree, id: NodeId) -> Rect {
    match t.spec_get(id) {
        Some(n) => n.rect,
        None => Rect { x: 0, y: 0, width: 0, height: 0 },
    }
}

/// The node lies entirely outside one of its chain's clip rectangles.
pub open spec fn spec_culled(t: Tree, vps: Viewports, id: NodeId) -> bool {
    exists|ci: int|
        0 <= ci < vps.chain_of(id).len() && match vps.clip_rect_of(
            #[trigger] vps.chain_of(id)[ci],
        ) {
            Some(r) => !spec_node_rect(t, id).spec_overlaps(r),
            None => false,
        }
}

pub open spec fn sched_contains(s: Seq<PaintCommand>, id: NodeId) -> bool {
    exists|a: int| 0 <= a < s.len() && (#[trigger] s[a]).node_id == id
}

/// What the paint scheduler guarantees: the schedule holds exactly the
/// unculled layer members, each once, bottom layer first, each with the
/// clip rectangles of its own chain.
pub open spec fn schedule_ok(t: Tree, ls: Layers, vps: Viewports, s: Seq<PaintCommand>) -> bool {
    &&& forall|id: NodeId|
        #[trigger] sched_contains(s, id) <==> ls.contains(id) && !spec_culled(t, vps, id)
    &&& forall|a: int, b: int|
        0 <= a < b < s.len() ==> (#[trigger] s[a]).node_id != (#[trigger] s[b]).node_id
    &&& forall|a: int, b: int| 0 <= a < b < s.len() ==> (#[trigger] s[a]).z <= (#[trigger] s[b]).z
    &&& forall|a: int| 0 <= a < s.len() ==> ls.member_of((#[trigger] s[a]).node_id, s[a].z)
    &&& forall|a: int|
        0 <= a < s.len() ==> (#[trigger] s[a]).clip_rects@.len() == vps.chain_of(
            s[a].node_id,
        ).len()
    &&& forall|a: int, ci: int|
        0 <= a < s.len() && 0 <= ci < s[a].clip_rects@.len() ==> Some(
            #[trigger] s[a].clip_rects@[ci],
        ) == vps.clip_rect_of(vps.chain_of(s[a].node_id)[ci])
}

/// Whether some processed slot (a layer index below `li`, or slot below `m`
/// within layer `li`) holds `id`.
spec fn slot_done(ls: Layers, li: int, m: int, id: NodeId) -> bool {
    exists|lj: int, n: int|
        0 <= lj < ls.layers@.len() && 0 <= n < ls.layers@[lj].members@.len() && (lj < li || (lj
            == li && n < m)) && (#[trigger] ls.layers@[lj].members@[n]) == id
}

/// Builds the frame's paint schedule: walks layers bottom-to-top and keeps
/// every member that overlaps all rectangles of its viewport chain.
pub fn paint_schedule(t: &Tree, ls: &Layers, vps: &Viewports) -> (s: Vec<PaintCommand>)
    requires
        t.wf(),
        ls.zs_sorted(),
        ls.partitions(*t),
        vps.consistent(*t),
    ensures
        schedule_ok(*t, *ls, *vps, s@),
{
    let mut out: Vec<PaintCommand> = Vec::new();
    let nl = ls.layers.len();
    for li in 0..nl
        invariant
            t.wf(),
            ls.zs_sorted(),
            ls.partitions(*t),
            vps.consistent(*t),
            nl == ls.layers@.len(),
            forall|id: NodeId|
                #[trigger] sched_contains(out@, id) <==> slot_done(*ls, li as int, 0, id)
                    && !spec_culled(*t, *vps, id),
            forall|a: int, b: int|
                0 <= a < b < out@.len() ==> (#[trigger] out@[a]).node_id != (
                #[trigger] out@[b]).node_id,
            forall|a: int, b: int|
                0 <= a < b < out@.len() ==> (#[trigger] out@[a]).z <= (#[trigger] out@[b]).z,
            forall|a: int|
                0 <= a < out@.len() ==> ls.member_of((#[trigger] out@[a]).node_id, out@[a].z),
            forall|a: int|
                0 <= a < out@.len() && li < nl ==> (#[trigger] out@[a]).z <= ls.layers@[li as int].z,
            forall|a: int|
                0 <= a < out@.len() ==> (#[trigger] out@[a]).clip_rects@.len() == vps.chain_of(
                    out@[a].node_id,
                ).len(),
            forall|a: int, ci: int|
                0 <= a < out@.len() && 0 <= ci < out@[a].clip_rects@.len() ==> Some(
                    #[trigger] out@[a].clip_rects@[ci],
                ) == vps.clip_rect_of(vps.chain_of(out@[a].node_id)[ci]),
    {
        let nm = ls.layers[li].members.len();
        for m in 0..nm
            invariant
                t.wf(),
                ls.zs_sorted(),
                ls.partitions(*t),
                vps.consistent(*t),
                nl == ls.layers@.len(),
                0 <= li < nl,
                nm == ls.layers@[li as int].members@.len(),
                forall|id: NodeId|
                    #[trigger] sched_contains(out@, id) <==> slot_done(*ls, li as int, m as int, id)
                        && !spec_culled(*t, *vps, id),
                forall|a: int, b: int|
                    0 <= a < b < out@.len() ==> (#[trigger] out@[a]).node_id != (
                    #[trigger] out@[b]).node_id,
                forall|a: int, b: int|
                    0 <= a < b < out@.len() ==> (#[trigger] out@[a]).z <= (#[trigger] out@[b]).z,
                forall|a: int|
                    0 <= a < out@.len() ==> ls.member_of((#[trigger] out@[a]).node_id, out@[a].z),
                forall|a: int|
                    0 <= a < out@.len() ==> (#[trigger] out@[a]).z <= ls.layers@[li as int].z,
                forall|a: int|
                    0 <= a < out@.len() ==> (#[trigger] out@[a]).clip_rects@.len() == vps.chain_of(
                        out@[a].node_id,
                    ).len(),
                forall|a: int, ci: int|
                    0 <= a < out@.len() && 0 <= ci < out@[a].clip_rects@.len()
                        ==> Some(#[trigger] out@[a].clip_rects@[ci]) == vps.clip_rect_of(
                        vps.chain_of(out@[a].node_id)[ci],
                    ),
        {
            let id = ls.layers[li].members[m];
            let z = ls.layers[li].z;
            proof {
                assert(ls.contains(id));
                assert(ls.member_of(id, z));
                assert(t.reachable(id));
                assert(vps.contains(id));
            }
            let entry = match vps.get_entry(id) {
                Some(e) => e,
                None => {
                    proof {
                        assert(false);
                    }
                    return out;
                },
            };
            proof {
                assert(t.contains_id(entry.node_id));
            }
            let node = match t.get(id) {
                Some(n) => n,
                None => {
                    proof {
                        assert(false);
                    }
                    return out;
                },
            };
            assert(node.rect == spec_node_rect(*t, id));
            assert(entry.inherited_chain@ == vps.chain_of(id));

            let mut clip_rects: Vec<Rect> = Vec::new();
            let mut culled = false;
            let nc = entry.inherited_chain.len();
            for ci in 0..nc
                invariant
                    t.wf(),
                    vps.consistent(*t),
                    nc == entry.inherited_chain@.len(),
                    entry.inherited_chain@ == vps.chain_of(id),
                    vps.contains(id),
                    *entry == vps.entries@[vps.spec_index_of(id)],
                    node.rect == spec_node_rect(*t, id),
                    clip_rects@.len() == ci,
                    forall|cj: int|
                        0 <= cj < ci ==> Some(#[trigger] clip_rects@[cj]) == vps.clip_rect_of(
                            vps.chain_of(id)[cj],
                        ),
                    culled ==> spec_culled(*t, *vps, id),
                    !culled ==> forall|cj: int|
                        0 <= cj < ci ==> match vps.clip_rect_of(#[trigger] vps.chain_of(id)[cj]) {
                            Some(r) => spec_node_rect(*t, id).spec_overlaps(r),
                            None => true,
                        },
            {
                let x = entry.inherited_chain[ci];
                proof {
                    assert(entry.inherited_chain@.contains(x)) by {
                        assert(entry.inherited_chain@[ci as int] == x);
                    }
                    let e = vps.spec_index_of(id);
                    assert(vps.entries@[e].inherited_chain@.contains(x));
                    assert(vps.contains(x) && crate::traverse::spec_clips(*t, x));
                }
                match vps.clip_rect(x) {
                    Some(r) => {
                        if !node.rect.overlaps(&r) {
                            culled = true;
                            proof {
                                assert(spec_culled(*t, *vps, id)) by {
                                    assert(vps.chain_of(id)[ci as int] == x);
                                }
                            }
                        }
                        clip_rects.push(r);
                    },
                    None => {
                        proof {
                            let e2 = vps.spec_index_of(x);
                            assert(vps.entries@[e2].node_id == x);
                            assert(false);
                        }
                    },
                }
            }
            proof {
                if !culled {
                    assert(!spec_culled(*t, *vps, id)) by {
                        if spec_culled(*t, *vps, id) {
                            let ci = choose|ci: int|
                                0 <= ci < vps.chain_of(id).len() && match vps.clip_rect_of(
                                    #[trigger] vps.chain_of(id)[ci],
                                ) {
                                    Some(r) => !spec_node_rect(*t, id).spec_overlaps(r),
                                    None => false,
                                };
                        }
                    }
                }
            }

            let ghost pre_out = out@;
            if !culled {
                out.push(PaintCommand { node_id: id, z, clip_rects });
            }
            proof {
                lemma_slot_step(*ls, *t, *vps, pre_out, out@, li as int, m as int, id, culled);
                if !culled {
                    let last = out@.len() - 1;
                    assert forall|a: int| 0 <= a < pre_out.len() implies out@[a] == pre_out[a] by {}
                    // The fresh command's id is new: the schedule held it only
                    // if some earlier slot carried it, which members_unique
                    // forbids.
                    assert forall|a: int| 0 <= a < last implies (#[trigger] out@[a]).node_id
                        != id by {
                        if out@[a].node_id == id {
                            assert(sched_contains(pre_out, id)) by {
                                assert(pre_out[a].node_id == id);
                            }
                            let (lj, n) = choose|lj: int, n: int|
                                0 <= lj < ls.layers@.len() && 0 <= n
                                    < ls.layers@[lj].members@.len() && (lj < li as int || (lj == li
                                    as int && n < m as int)) && (
                                #[trigger] ls.layers@[lj].members@[n]) == id;
                            assert(ls.layers@[lj].members@[n] == ls.layers@[li as int].members@[m
                                as int]);
                        }
                    }
                    assert(out@[last].z == ls.layers@[li as int].z);
                    assert(out@[last].clip_rects@.len() == vps.chain_of(id).len());
                }
            }
        }
        proof {
            assert forall|a: int|
                0 <= a < out@.len() && li as int + 1 < nl implies (#[trigger] out@[a]).z
                <= ls.layers@[li as int + 1].z by {
                assert(ls.layers@[li as int].z < ls.layers@[li as int + 1].z);
            }
            assert forall|id: NodeId|
                slot_done(*ls, li as int + 1, 0, id) implies slot_done(
                *ls,
                li as int,
                ls.layers@[li as int].members@.len() as int,
                id,
            ) by {
                let (lj, n) = choose|lj: int, n: int|
                    0 <= lj < ls.layers@.len() && 0 <= n < ls.layers@[lj].members@.len() && (lj < li
                        as int + 1 || (lj == li as int + 1 && n < 0)) && (
                    #[trigger] ls.layers@[lj].members@[n]) == id;
                assert(ls.layers@[lj].members@[n] == id);
            }
            assert forall|id: NodeId|
                slot_done(*ls, li as int, ls.layers@[li as int].members@.len() as int, id) implies
                slot_done(*ls, li as int + 1, 0, id) by {
                let (lj, n) = choose|lj: int, n: int|
                    0 <= lj < ls.layers@.len() && 0 <= n < ls.layers@[lj].members@.len() && (lj < li
                        as int || (lj == li as int && n < ls.layers@[li as int].members@.len())) && (
                    #[trigger] ls.layers@[lj].members@[n]) == id;
                assert(ls.layers@[lj].members@[n] == id);
            }
        }
    }
    proof {
        assert forall|id: NodeId| #[trigger] ls.contains(id) implies slot_done(
            *ls,
            nl as int,
            0,
            id,
        ) by {
            let (lj, n) = choose|lj: int, n: int|
                0 <= lj < ls.layers@.len() && 0 <= n < ls.layers@[lj].members@.len() && (
                #[trigger] ls.layers@[lj].members@[n]) == id;
            assert(ls.layers@[lj].members@[n] == id);
        }
        assert forall|id: NodeId| slot_done(*ls, nl as int, 0, id) implies ls.contains(id) by {
            let (lj, n) = choose|lj: int, n: int|
                0 <= lj < ls.layers@.len() && 0 <= n < ls.layers@[lj].members@.len() && (lj < nl
                    as int || (lj == nl as int && n < 0)) && (
                #[trigger] ls.layers@[lj].members@[n]) == id;
            assert(ls.layers@[lj].members@[n] == id);
        }
    }
    out
}

/// One member slot processed: the schedule gains the member exactly when it
/// survived culling, and all per-command facts persist.
proof fn lemma_slot_step(
    ls: Layers,
    t: Tree,
    vps: Viewports,
    pre: Seq<PaintCommand>,
    post: Seq<PaintCommand>,
    li: int,
    m: int,
    id: NodeId,
    culled: bool,
)
    requires
        ls.members_unique(),
        0 <= li < ls.layers@.len(),
        0 <= m < ls.layers@[li].members@.len(),
        ls.layers@[li].members@[m] == id,
        forall|idq: NodeId|
            #[trigger] sched_contains(pre, idq) <==> slot_done(ls, li, m, idq) && !spec_culled(
                t,
                vps,
                idq,
            ),
        culled ==> spec_culled(t, vps, id) && post == pre,
        !culled ==> !spec_culled(t, vps, id) && post.len() == pre.len() + 1 && post
            == pre.push(post[post.len() - 1]) && post[post.len() - 1].node_id == id,
    ensures
        forall|idq: NodeId|
            #[trigger] sched_contains(post, idq) <==> slot_done(ls, li, m + 1, idq)
                && !spec_culled(t, vps, idq),
{
    assert forall|idq: NodeId| #[trigger] sched_contains(post, idq) implies slot_done(
        ls,
        li,
        m + 1,
        idq,
    ) && !spec_culled(t, vps, idq) by {
        let a = choose|a: int| 0 <= a < post.len() && (#[trigger] post[a]).node_id == idq;
        if culled || a < pre.len() {
            assert(pre[a].node_id == idq);
            assert(sched_contains(pre, idq));
            let (lj, n) = choose|lj: int, n: int|
                0 <= lj < ls.layers@.len() && 0 <= n < ls.layers@[lj].members@.len() && (lj < li
                    || (lj == li && n < m)) && (#[trigger] ls.layers@[lj].members@[n]) == idq;
            assert(slot_done(ls, li, m + 1, idq));
        } else {
            assert(idq == id);
            assert(ls.layers@[li].members@[m] == idq);
            assert(slot_done(ls, li, m + 1, idq));
        }
    }
    assert forall|idq: NodeId|
        slot_done(ls, li, m + 1, idq) && !spec_culled(t, vps, idq) implies sched_contains(
        post,
        idq,
    ) by {
        let (lj, n) = choose|lj: int, n: int|
            0 <= lj < ls.layers@.len() && 0 <= n < ls.layers@[lj].members@.len() && (lj < li || (lj
                == li && n < m + 1)) && (#[trigger] ls.layers@[lj].members@[n]) == idq;
        if lj == li && n == m {
            assert(idq == id);
            assert(!culled);
            assert(post[post.len() - 1].node_id == idq);
        } else {
            assert(slot_done(ls, li, m, idq));
            assert(sched_contains(pre, idq));
            let a = choose|a: int| 0 <= a < pre.len() && (#[trigger] pre[a]).node_id == idq;
            assert(post[a].node_id == idq);
        }
    }
}

/// The culling-soundness law: a live node whose rectangle overlaps every
/// rectangle of its viewport chain is scheduled exactly once per frame.
pub proof fn lemma_culling_sound(
    t: Tree,
    ls: Layers,
    vps: Viewports,
    s: Seq<PaintCommand>,
    id: NodeId,
)
    requires
        schedule_ok(t, ls, vps, s),
        ls.contains(id),
        forall|ci: int|
            0 <= ci < vps.chain_of(id).len() ==> match vps.clip_rect_of(
                #[trigger] vps.chain_of(id)[ci],
            ) {
                Some(r) => spec_node_rect(t, id).spec_overlaps(r),
                None => true,
            },
    ensures
        exists|a: int| 0 <= a < s.len() && (#[trigger] s[a]).node_id == id,
        forall|a: int, b: int|
            0 <= a < s.len() && 0 <= b < s.len() && (#[trigger] s[a]).node_id == id && (
            #[trigger] s[b]).node_id == id ==> a == b,
{
    assert(!spec_culled(t, vps, id)) by {
        if spec_culled(t, vps, id) {
            let ci = choose|ci: int|
                0 <= ci < vps.chain_of(id).len() && match vps.clip_rect_of(
                    #[trigger] vps.chain_of(id)[ci],
                ) {
                    Some(r) => !spec_node_rect(t, id).spec_overlaps(r),
                    None => false,
                };
        }
    }
    assert(sched_contains(s, id));
    assert forall|a: int, b: int|
        0 <= a < s.len() && 0 <= b < s.len() && (#[trigger] s[a]).node_id == id && (
        #[trigger] s[b]).node_id == id implies a == b by {
        if a < b {
            assert(s[a].node_id != s[b].node_id);
        } else if b < a {
            assert(s[b].node_id != s[a].node_id);
        }
    }
}

} // verus!
