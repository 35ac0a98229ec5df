//! The viewport resolver: computes, for every live node, the chain of
//! ancestor clip rectangles the node must be culled and hit-tested against.
//!
//! A node's inherited chain lists exactly its clipping ancestors,
//! farthest-first (later entries are nearer, tighter clips). A node with no
//! clipping ancestor has an empty chain and is never culled by viewport
//! logic. Chains only grow from root to leaf and never contain the node's
//! own id — the monotonicity law proved at the bottom of this module.

use vstd::prelude::*;
use crate::geometry::Rect;
use crate::node::{NodeId, Tree};
use crate::traverse::{
    CorruptTreeError, VisitRecord, linked_at, spec_child_chain, spec_clips, traversal_contains,
    traversal_ok, traverse,
};

verus! {

/// One node's resolved viewport data: its own clip rectangle if it clips its
/// children, and the ids of its clipping ancestors, farthest-first.
#[derive(Clone, Debug)]
pub struct ViewportEntry {
    pub node_id: NodeId,
    pub own_clip_rect: Option<Rect>,
    pub inherited_chain: Vec<NodeId>,
}

/// The resolved viewports of one frame, one entry per live node, in
/// traversal order.
#[derive(Clone, Debug)]
pub struct Viewports {
    pub entries: Vec<ViewportEntry>,
}

impl Viewports {
    pub open spec fn ids_unique(self) -> bool {
        forall|i: int, j: int|
            0 <= i < j < self.entries@.len() ==> (#[trigger] self.entries@[i]).node_id != (
            #[trigger] self.entries@[j]).node_id
    }

    pub open spec fn contains(self, id: NodeId) -> bool {
        exists|e: int| 0 <= e < self.entries@.len() && (#[trigger] self.entries@[e]).node_id == id
    }

    pub open spec fn spec_index_of(self, id: NodeId) -> int {
        choose|e: int| 0 <= e < self.entries@.len() && (#[trigger] self.entries@[e]).node_id == id
    }

    /// The node's inherited clip chain (empty for an unknown id).
    pub open spec fn chain_of(self, id: NodeId) -> Seq<NodeId> {
        if self.contains(id) {
            self.entries@[self.spec_index_of(id)].inherited_chain@
        } else {
            Seq::empty()
        }
    }

    /// The node's own clip rectangle (`None` for a non-clipping node or an
    /// unknown id).
    pub open spec fn clip_rect_of(self, id: NodeId) -> Option<Rect> {
        if self.contains(id) {
            self.entries@[self.spec_index_of(id)].own_clip_rect
        } else {
            None
        }
    }

    /// What the resolver guarantees about its output for the given tree:
    /// one entry per live node; the clip rectangle mirrors the snapshot's
    /// clip flag; chains hold only clipping ancestors, never the node
    /// itself; and a child's chain is its parent's chain, extended by the
    /// parent exactly when the parent clips.
    pub open spec fn consistent(self, t: Tree) -> bool {
        &&& self.ids_unique()
        &&& forall|id: NodeId| #[trigger] self.contains(id) ==> t.reachable(id)
        &&& forall|id: NodeId| #[trigger] t.reachable(id) ==> self.contains(id)
        &&& forall|e: int|
            0 <= e < self.entries@.len() ==> t.contains_id((#[trigger] self.entries@[e]).node_id)
        &&& forall|e: int|
            0 <= e < self.entries@.len() ==> (#[trigger] self.entries@[e]).own_clip_rect == (
            if spec_clips(t, self.entries@[e].node_id) {
                match t.spec_get(self.entries@[e].node_id) {
                    Some(n) => Some(n.rect),
                    None => None,
                }
            } else {
                None
            })
        &&& forall|e: int|
            0 <= e < self.entries@.len() ==> !(#[trigger] self.entries@[e]).inherited_chain@
                .contains(self.entries@[e].node_id)
        &&& forall|e: int, x: NodeId|
            0 <= e < self.entries@.len() && #[trigger] self.entries@[e].inherited_chain@.contains(
                x,
            ) ==> self.contains(x) && spec_clips(t, x)
        &&& forall|e: int|
            0 <= e < self.entries@.len() && (#[trigger] self.entries@[e]).node_id == t.root
                ==> self.entries@[e].inherited_chain@ == Seq::<NodeId>::empty()
        &&& forall|i: int, j: int|
            0 <= i < self.entries@.len() && 0 <= j < self.entries@.len() && #[trigger] t.child_of(
                self.entries@[j].node_id,
                self.entries@[i].node_id,
            ) ==> self.entries@[j].inherited_chain@ == (if spec_clips(t, self.entries@[i].node_id) {
                self.entries@[i].inherited_chain@.push(self.entries@[i].node_id)
            } else {
                self.entries@[i].inherited_chain@
            })
    }

    /// Looks an entry up by node id.
    pub fn get_entry(&self, id: NodeId) -> (r: Option<&ViewportEntry>)
        requires
            self.ids_unique(),
        ensures
            match r {
                Some(e) => self.contains(id) && *e == self.entries@[self.spec_index_of(id)],
                None => !self.contains(id),
            },
    {
        let n = self.entries.len();
        for e in 0..n
            invariant
                n == self.entries@.len(),
                self.ids_unique(),
                forall|j: int| 0 <= j < e ==> (#[trigger] self.entries@[j]).node_id != id,
        {
            if self.entries[e].node_id == id {
                proof {
                    assert(self.contains(id));
                    let w = self.spec_index_of(id);
                    assert(self.entries@[w].node_id == id);
                    assert(w == e);
                }
                return Some(&self.entries[e]);
            }
        }
        None
    }

    /// The node's own clip rectangle, by id.
    pub fn clip_rect(&self, id: NodeId) -> (r: Option<Rect>)
        requires
            self.ids_unique(),
        ensures
            r == self.clip_rect_of(id),
    {
        match self.get_entry(id) {
            Some(e) => e.own_clip_rect,
            None => None,
        }
    }
}

/// Elements of a record's chain are earlier, clipping records.
proof fn lemma_chain_elements(t: Tree, recs: Seq<VisitRecord>, j: int)
    requires
        traversal_ok(t, recs),
        0 <= j < recs.len(),
    ensures
        forall|x: NodeId| #[trigger]
            recs[j].chain@.contains(x) ==> (exists|k: int|
                0 <= k < j && (#[trigger] recs[k]).id == x) && spec_clips(t, x),
    decreases j,
{
    if j == 0 {
        assert(recs[0].chain@ == Seq::<NodeId>::empty());
        assert forall|x: NodeId| #[trigger] recs[j].chain@.contains(x) implies (exists|k: int|
            0 <= k < j && (#[trigger] recs[k]).id == x) && spec_clips(t, x) by {
            assert(false);
        }
    } else {
        assert(linked_at(t, recs, j));
        let k2 = choose|k2: int|
            0 <= k2 < j && #[trigger] t.child_of(recs[j].id, recs[k2].id) && recs[j].z as int
                == crate::traverse::spec_combine_z(
                recs[k2].z as int,
                crate::traverse::spec_shift(t, recs[j].id),
            ) && recs[j].chain@ == spec_child_chain(t, recs[k2]);
        lemma_chain_elements(t, recs, k2);
        assert forall|x: NodeId| #[trigger] recs[j].chain@.contains(x) implies (exists|k: int|
            0 <= k < j && (#[trigger] recs[k]).id == x) && spec_clips(t, x) by {
            if spec_clips(t, recs[k2].id) {
                assert(recs[j].chain@ == recs[k2].chain@.push(recs[k2].id));
                if x == recs[k2].id {
                    assert(recs[k2].id == x && 0 <= k2 < j);
                } else {
                    let m = choose|m: int|
                        0 <= m < recs[j].chain@.len() && recs[j].chain@[m] == x;
                    assert(recs[k2].chain@[m] == x);
                    assert(recs[k2].chain@.contains(x));
                }
            } else {
                assert(recs[j].chain@ == recs[k2].chain@);
                assert(recs[k2].chain@.contains(x));
            }
        }
    }
}

/// Resolves the viewport chain of every live node.
///
/// On success the output satisfies [`Viewports::consistent`]; a corrupt tree
/// fails fast with the same errors as the layer assigner.
pub fn resolve_viewports(t: &Tree) -> (r: Result<Viewports, CorruptTreeError>)
    requires
        t.wf(),
    ensures
        match r {
            Ok(vps) => vps.consistent(*t),
            Err(CorruptTreeError::MissingNode { id }) => t.reachable(id) && !t.contains_id(id)
                && !t.shaped(),
            Err(CorruptTreeError::RepeatedNode { id }) => t.reachable(id) && !t.shaped(),
        },
{
    let recs = match traverse(t) {
        Ok(recs) => recs,
        Err(e) => {
            return Err(e);
        },
    };
    let mut entries: Vec<ViewportEntry> = Vec::new();
    let n = recs.len();
    for i in 0..n
        invariant
            t.wf(),
            traversal_ok(*t, recs@),
            n == recs@.len(),
            entries@.len() == i,
            forall|k: int|
                0 <= k < i ==> {
                    let e = #[trigger] entries@[k];
                    &&& e.node_id == recs@[k].id
                    &&& e.inherited_chain@ == recs@[k].chain@
                    &&& e.own_clip_rect == (if spec_clips(*t, recs@[k].id) {
                        match t.spec_get(recs@[k].id) {
                            Some(nd) => Some(nd.rect),
                            None => None,
                        }
                    } else {
                        None::<Rect>
                    })
                },
    {
        let rec = &recs[i];
        let node = match t.get(rec.id) {
            Some(nd) => nd,
            None => {
                // Unreachable: every traversal record names a tree node.
                proof {
                    assert(false);
                }
                return Err(CorruptTreeError::MissingNode { id: rec.id });
            },
        };
        let own_clip_rect = if node.clips {
            Some(node.rect)
        } else {
            None
        };
        let chain = crate::traverse::copy_ids(&rec.chain);
        entries.push(ViewportEntry { node_id: rec.id, own_clip_rect, inherited_chain: chain });
    }
    let vps = Viewports { entries };
    proof {
        lemma_resolved_consistent(*t, recs@, vps);
    }
    Ok(vps)
}

/// Entries mirrored one-for-one from a completed traversal are consistent.
proof fn lemma_resolved_consistent(t: Tree, recs: Seq<VisitRecord>, vps: Viewports)
    requires
        traversal_ok(t, recs),
        vps.entries@.len() == recs.len(),
        forall|k: int|
            0 <= k < recs.len() ==> {
                let e = #[trigger] vps.entries@[k];
                &&& e.node_id == recs[k].id
                &&& e.inherited_chain@ == recs[k].chain@
                &&& e.own_clip_rect == (if spec_clips(t, recs[k].id) {
                    match t.spec_get(recs[k].id) {
                        Some(nd) => Some(nd.rect),
                        None => None,
                    }
                } else {
                    None::<Rect>
                })
            },
    ensures
        vps.consistent(t),
{
    assert forall|id: NodeId| #[trigger] vps.contains(id) implies t.reachable(id) by {
        let e = choose|e: int|
            0 <= e < vps.entries@.len() && (#[trigger] vps.entries@[e]).node_id == id;
        assert(recs[e].id == id);
        assert(traversal_contains(recs, id));
    }
    assert forall|id: NodeId| #[trigger] t.reachable(id) implies vps.contains(id) by {
        assert(traversal_contains(recs, id));
        let k = choose|k: int| 0 <= k < recs.len() && (#[trigger] recs[k]).id == id;
        assert(vps.entries@[k].node_id == id);
    }
    assert forall|e: int, x: NodeId|
        0 <= e < vps.entries@.len() && #[trigger] vps.entries@[e].inherited_chain@.contains(
            x,
        ) implies vps.contains(x) && spec_clips(t, x) by {
        lemma_chain_elements(t, recs, e);
        assert(recs[e].chain@.contains(x));
        let k = choose|k: int| 0 <= k < e && (#[trigger] recs[k]).id == x;
        assert(vps.entries@[k].node_id == x);
    }
    assert forall|e: int|
        0 <= e < vps.entries@.len() implies !(#[trigger] vps.entries@[e]).inherited_chain@
        .contains(vps.entries@[e].node_id) by {
        if vps.entries@[e].inherited_chain@.contains(vps.entries@[e].node_id) {
            lemma_chain_elements(t, recs, e);
            let k = choose|k: int| 0 <= k < e && (#[trigger] recs[k]).id == recs[e].id;
        }
    }
    assert forall|i: int, j: int|
        0 <= i < vps.entries@.len() && 0 <= j < vps.entries@.len() && #[trigger] t.child_of(
            vps.entries@[j].node_id,
            vps.entries@[i].node_id,
        ) implies vps.entries@[j].inherited_chain@ == (if spec_clips(
        t,
        vps.entries@[i].node_id,
    ) {
        vps.entries@[i].inherited_chain@.push(vps.entries@[i].node_id)
    } else {
        vps.entries@[i].inherited_chain@
    }) by {
        assert(j != 0) by {
            if j == 0 {
                assert(!t.child_of(t.root, recs[i].id));
            }
        }
        assert(linked_at(t, recs, j));
        let k2 = choose|k2: int|
            0 <= k2 < j && #[trigger] t.child_of(recs[j].id, recs[k2].id) && recs[j].z as int
                == crate::traverse::spec_combine_z(
                recs[k2].z as int,
                crate::traverse::spec_shift(t, recs[j].id),
            ) && recs[j].chain@ == spec_child_chain(t, recs[k2]);
        assert(t.child_of(recs[j].id, recs[k2].id) && t.child_of(recs[j].id, recs[i].id));
        assert(k2 == i);
    }
}

/// The viewport monotonicity law: along any root-to-leaf path, the inherited
/// chain only grows, and no node's chain contains its own id.
pub proof fn lemma_viewport_monotonic(t: Tree, vps: Viewports, path: Seq<NodeId>, a: int, b: int)
    requires
        t.wf(),
        vps.consistent(t),
        t.is_link_path(path),
        0 <= a <= b < path.len(),
    ensures
        vps.chain_of(path[a]).len() <= vps.chain_of(path[b]).len(),
        !vps.chain_of(path[b]).contains(path[b]),
    decreases b - a,
{
    lemma_prefix_reachable(t, path, b);
    let eb = vps.spec_index_of(path[b]);
    assert(vps.contains(path[b]));
    assert(vps.entries@[eb].node_id == path[b]);
    assert(!vps.chain_of(path[b]).contains(path[b]));
    if a < b {
        lemma_viewport_monotonic(t, vps, path, a, b - 1);
        lemma_prefix_reachable(t, path, b - 1);
        let ep = vps.spec_index_of(path[b - 1]);
        assert(vps.entries@[ep].node_id == path[b - 1]);
        assert(t.child_of(path[b - 1 + 1], path[b - 1]));
        assert(t.child_of(vps.entries@[eb].node_id, vps.entries@[ep].node_id));
    }
}

/// Every node on a root-link path is reachable.
proof fn lemma_prefix_reachable(t: Tree, path: Seq<NodeId>, k: int)
    requires
        t.is_link_path(path),
        0 <= k < path.len(),
    ensures
        t.reachable(path[k]),
{
    let pre = path.take(k + 1);
    assert(t.is_link_path(pre)) by {
        assert(pre[0] == path[0]);
        assert forall|i: int| 0 <= i < pre.len() - 1 implies t.child_of(
            #[trigger] pre[i + 1],
            pre[i],
        ) by {
            assert(t.child_of(path[i + 1], path[i]));
        }
    }
    assert(pre.last() == path[k]);
}

} // verus!
