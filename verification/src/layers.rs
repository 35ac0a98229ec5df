//! The layer assigner: buckets every live node into an integer z-layer.
//!
//! Lower z paints first (bottom); event dispatch walks from the highest z
//! down. A node inherits its parent's layer unless its snapshot requests a
//! stacking shift. The layers partition the live nodes: every reachable node
//! lands in exactly one layer, which is the partition law the paint
//! scheduler and the hit-test resolver build on.

use vstd::prelude::*;
use crate::node::{NodeId, Tree};
use crate::traverse::{
    CorruptTreeError, VisitRecord, linked_at, spec_combine_z, spec_shift, traversal_contains,
    traversal_ids_unique, traversal_ok, traverse,
};

verus! {

/// One z-layer and the ids of the nodes stacked at that depth (in traversal
/// order; order within a layer carries no meaning).
#[derive(Clone, Debug)]
pub struct Layer {
    pub z: i16,
    pub members: Vec<NodeId>,
}

/// All layers of one frame, in ascending z order (bottom first).
#[derive(Clone, Debug)]
pub struct Layers {
    pub layers: Vec<Layer>,
}

impl Layers {
    /// Layers are strictly ordered by z: each depth occurs once.
    pub open spec fn zs_sorted(self) -> bool {
        forall|i: int, j: int|
            0 <= i < j < self.layers@.len() ==> (#[trigger] self.layers@[i]).z < (
            #[trigger] self.layers@[j]).z
    }

    /// `id` sits in the layer at depth `z`.
    pub open spec fn member_of(self, id: NodeId, z: i16) -> bool {
        exists|li: int, m: int|
            0 <= li < self.layers@.len() && 0 <= m < self.layers@[li].members@.len()
                && self.layers@[li].z == z && (#[trigger] self.layers@[li].members@[m]) == id
    }

    /// `id` sits in some layer.
    pub open spec fn contains(self, id: NodeId) -> bool {
        exists|li: int, m: int|
            0 <= li < self.layers@.len() && 0 <= m < self.layers@[li].members@.len() && (
            #[trigger] self.layers@[li].members@[m]) == id
    }

    /// No id occupies two member slots, within one layer or across layers.
    pub open spec fn members_unique(self) -> bool {
        forall|li: int, m: int, lj: int, n: int|
            0 <= li < self.layers@.len() && 0 <= m < self.layers@[li].members@.len() && 0 <= lj
                < self.layers@.len() && 0 <= n < self.layers@[lj].members@.len() && (li != lj || m
                != n) ==> (#[trigger] self.layers@[li].members@[m]) != (
            #[trigger] self.layers@[lj].members@[n])
    }

    /// The partition law: the layers hold exactly the live (reachable) node
    /// ids of the tree, each exactly once.
    pub open spec fn partitions(self, t: Tree) -> bool {
        &&& self.members_unique()
        &&& forall|id: NodeId| #[trigger] self.contains(id) ==> t.reachable(id)
        &&& forall|id: NodeId| #[trigger] t.reachable(id) ==> self.contains(id)
    }

    /// The stacking law: the root sits at its own requested depth, and every
    /// child's depth is its parent's combined with the child's shift.
    pub open spec fn stacking_consistent(self, t: Tree) -> bool {
        &&& forall|zr: i16|
            #[trigger] self.member_of(t.root, zr) ==> zr as int == spec_combine_z(
                0,
                spec_shift(t, t.root),
            )
        &&& forall|p: NodeId, c: NodeId, zp: i16, zc: i16|
            #[trigger] self.member_of(p, zp) && #[trigger] self.member_of(c, zc) && t.child_of(
                c,
                p,
            ) ==> zc as int == spec_combine_z(zp as int, spec_shift(t, c))
    }
}

/// Membership in the layers mirrors the first `n` visit records.
spec fn bucketed_upto(recs: Seq<VisitRecord>, ls: Layers, n: int) -> bool {
    &&& forall|id: NodeId, z: i16|
        #[trigger] ls.member_of(id, z) ==> exists|k: int|
            0 <= k < n && (#[trigger] recs[k]).id == id && recs[k].z == z
    &&& forall|k: int|
        0 <= k < n ==> ls.member_of((#[trigger] recs[k]).id, recs[k].z)
}

/// Groups the visit records into layers keyed by z, keeping the layer list
/// sorted.
fn bucket_layers(recs: &Vec<VisitRecord>) -> (ls: Layers)
    requires
        traversal_ids_unique(recs@),
    ensures
        ls.zs_sorted(),
        ls.members_unique(),
        bucketed_upto(recs@, ls, recs@.len() as int),
{
    let mut ls = Layers { layers: Vec::new() };
    let n = recs.len();
    for i in 0..n
        invariant
            n == recs@.len(),
            traversal_ids_unique(recs@),
            ls.zs_sorted(),
            ls.members_unique(),
            bucketed_upto(recs@, ls, i as int),
    {
        let ghost old_ls = ls;
        let id = recs[i].id;
        let z = recs[i].z;
        proof {
            // A fresh id: it matches no earlier record, so no current member.
            assert forall|zq: i16| !old_ls.member_of(id, zq) by {
                if old_ls.member_of(id, zq) {
                    let k = choose|k: int|
                        0 <= k < i && (#[trigger] recs@[k]).id == id && recs@[k].z == zq;
                    assert(recs@[k].id != recs@[i as int].id);
                }
            }
            assert(!old_ls.contains(id)) by {
                if old_ls.contains(id) {
                    let (li, m) = choose|li: int, m: int|
                        0 <= li < old_ls.layers@.len() && 0 <= m
                            < old_ls.layers@[li].members@.len() && (
                        #[trigger] old_ls.layers@[li].members@[m]) == id;
                    assert(old_ls.member_of(id, old_ls.layers@[li].z));
                }
            }
        }

        // Find the insertion point: the first layer at depth z or deeper.
        let mut li: usize = 0;
        let nl = ls.layers.len();
        while li < nl && ls.layers[li].z < z
            invariant
                nl == ls.layers@.len(),
                0 <= li <= nl,
                forall|j: int| 0 <= j < li ==> (#[trigger] ls.layers@[j]).z < z,
            decreases nl - li,
        {
            li += 1;
        }

        if li < nl && ls.layers[li].z == z {
            // Join the existing layer at this depth.
            let mut layer = ls.layers.remove(li);
            layer.members.push(id);
            ls.layers.insert(li, layer);
            proof {
                assert(ls.layers@ =~= old_ls.layers@.update(
                    li as int,
                    ls.layers@[li as int],
                ));
                lemma_member_added(old_ls, ls, recs@, i as int, li as int);
            }
        } else {
            // Open a new layer at this depth.
            let mut members: Vec<NodeId> = Vec::new();
            members.push(id);
            let layer = Layer { z, members };
            ls.layers.insert(li, layer);
            proof {
                assert(ls.layers@[li as int].members@ =~= seq![recs@[i as int].id]);
                assert(ls.layers@ =~= old_ls.layers@.insert(li as int, ls.layers@[li as int]));
                lemma_layer_inserted(old_ls, ls, recs@, i as int, li as int);
            }
        }
    }
    ls
}

/// After pushing `recs[i].id` onto the existing layer `li`, all bucketing
/// invariants still hold.
proof fn lemma_member_added(old_ls: Layers, ls: Layers, recs: Seq<VisitRecord>, i: int, li: int)
    requires
        traversal_ids_unique(recs),
        0 <= i < recs.len(),
        old_ls.zs_sorted(),
        old_ls.members_unique(),
        bucketed_upto(recs, old_ls, i),
        forall|zq: i16| !old_ls.member_of(recs[i].id, zq),
        0 <= li < old_ls.layers@.len(),
        old_ls.layers@[li].z == recs[i].z,
        ls.layers@.len() == old_ls.layers@.len(),
        forall|j: int| 0 <= j < ls.layers@.len() && j != li ==> ls.layers@[j] == old_ls.layers@[j],
        ls.layers@[li].z == old_ls.layers@[li].z,
        ls.layers@[li].members@ == old_ls.layers@[li].members@.push(recs[i].id),
    ensures
        ls.zs_sorted(),
        ls.members_unique(),
        bucketed_upto(recs, ls, i + 1),
{
    let id = recs[i].id;
    let z = recs[i].z;
    assert(ls.zs_sorted());
    // Every old member keeps its slot; the one new slot carries the new id.
    assert forall|lj: int, m: int|
        0 <= lj < ls.layers@.len() && 0 <= m < ls.layers@[lj].members@.len() implies {
        let old_slot = lj != li || m < old_ls.layers@[li].members@.len();
        if old_slot {
            (#[trigger] ls.layers@[lj].members@[m]) == old_ls.layers@[lj].members@[m]
        } else {
            ls.layers@[lj].members@[m] == id
        }
    } by {
        if lj != li {
            assert(ls.layers@[lj] == old_ls.layers@[lj]);
        }
    }
    assert(ls.members_unique()) by {
        assert forall|lj: int, m: int, lk: int, n: int|
            0 <= lj < ls.layers@.len() && 0 <= m < ls.layers@[lj].members@.len() && 0 <= lk
                < ls.layers@.len() && 0 <= n < ls.layers@[lk].members@.len() && (lj != lk || m != n)
                implies (#[trigger] ls.layers@[lj].members@[m]) != (
            #[trigger] ls.layers@[lk].members@[n]) by {
            let fresh_j = lj == li && m == old_ls.layers@[li].members@.len();
            let fresh_k = lk == li && n == old_ls.layers@[li].members@.len();
            if fresh_j && !fresh_k {
                if old_ls.layers@[lk].members@[n] == id {
                    assert(old_ls.member_of(id, old_ls.layers@[lk].z));
                }
            } else if !fresh_j && fresh_k {
                if old_ls.layers@[lj].members@[m] == id {
                    assert(old_ls.member_of(id, old_ls.layers@[lj].z));
                }
            } else if !fresh_j && !fresh_k {
                assert(old_ls.layers@[lj].members@[m] != old_ls.layers@[lk].members@[n]);
            }
        }
    }
    assert(bucketed_upto(recs, ls, i + 1)) by {
        assert forall|idq: NodeId, zq: i16| #[trigger] ls.member_of(idq, zq) implies exists|k: int|
            0 <= k < i + 1 && (#[trigger] recs[k]).id == idq && recs[k].z == zq by {
            let (lj, m) = choose|lj: int, m: int|
                0 <= lj < ls.layers@.len() && 0 <= m < ls.layers@[lj].members@.len()
                    && ls.layers@[lj].z == zq && (#[trigger] ls.layers@[lj].members@[m]) == idq;
            if lj == li && m == old_ls.layers@[li].members@.len() {
                assert(recs[i].id == idq && recs[i].z == zq);
            } else {
                assert(old_ls.layers@[lj].members@[m] == idq && old_ls.layers@[lj].z == zq);
                assert(old_ls.member_of(idq, zq));
            }
        }
        assert forall|k: int| 0 <= k < i + 1 implies ls.member_of(
            (#[trigger] recs[k]).id,
            recs[k].z,
        ) by {
            if k < i {
                assert(old_ls.member_of(recs[k].id, recs[k].z));
                let (lj, m) = choose|lj: int, m: int|
                    0 <= lj < old_ls.layers@.len() && 0 <= m < old_ls.layers@[lj].members@.len()
                        && old_ls.layers@[lj].z == recs[k].z && (
                    #[trigger] old_ls.layers@[lj].members@[m]) == recs[k].id;
                assert(ls.layers@[lj].members@[m] == recs[k].id && ls.layers@[lj].z == recs[k].z);
            } else {
                let m = old_ls.layers@[li].members@.len() as int;
                assert(ls.layers@[li].members@[m] == id && ls.layers@[li].z == z);
            }
        }
    }
}

/// After inserting a fresh singleton layer at position `li`, all bucketing
/// invariants still hold.
proof fn lemma_layer_inserted(old_ls: Layers, ls: Layers, recs: Seq<VisitRecord>, i: int, li: int)
    requires
        traversal_ids_unique(recs),
        0 <= i < recs.len(),
        old_ls.zs_sorted(),
        old_ls.members_unique(),
        bucketed_upto(recs, old_ls, i),
        forall|zq: i16| !old_ls.member_of(recs[i].id, zq),
        0 <= li <= old_ls.layers@.len(),
        forall|j: int| 0 <= j < li ==> (#[trigger] old_ls.layers@[j]).z < recs[i].z,
        li < old_ls.layers@.len() ==> old_ls.layers@[li].z > recs[i].z,
        ls.layers@ == old_ls.layers@.insert(li, ls.layers@[li]),
        ls.layers@[li].z == recs[i].z,
        ls.layers@[li].members@ == seq![recs[i].id],
    ensures
        ls.zs_sorted(),
        ls.members_unique(),
        bucketed_upto(recs, ls, i + 1),
{
    let id = recs[i].id;
    let z = recs[i].z;
    // Index map: slots below li are unchanged, slots above shift up by one.
    assert forall|j: int| 0 <= j < ls.layers@.len() && j != li implies #[trigger] ls.layers@[j]
        == if j < li {
        old_ls.layers@[j]
    } else {
        old_ls.layers@[j - 1]
    } by {}
    assert(ls.zs_sorted()) by {
        assert forall|a: int, b: int| 0 <= a < b < ls.layers@.len() implies (
        #[trigger] ls.layers@[a]).z < (#[trigger] ls.layers@[b]).z by {
            if a == li {
                assert(old_ls.layers@[b - 1].z >= old_ls.layers@[li].z) by {
                    if b - 1 > li {
                        assert(old_ls.layers@[li].z < old_ls.layers@[b - 1].z);
                    }
                }
            } else if b == li {
                assert(old_ls.layers@[a].z < z);
            }
        }
    }
    assert(ls.members_unique()) by {
        assert forall|lj: int, m: int, lk: int, n: int|
            0 <= lj < ls.layers@.len() && 0 <= m < ls.layers@[lj].members@.len() && 0 <= lk
                < ls.layers@.len() && 0 <= n < ls.layers@[lk].members@.len() && (lj != lk || m != n)
                implies (#[trigger] ls.layers@[lj].members@[m]) != (
            #[trigger] ls.layers@[lk].members@[n]) by {
            if lj == li && lk != li {
                if ls.layers@[lk].members@[n] == id {
                    let ok = if lk < li { lk } else { lk - 1 };
                    assert(old_ls.member_of(id, old_ls.layers@[ok].z));
                }
            } else if lk == li && lj != li {
                if ls.layers@[lj].members@[m] == id {
                    let oj = if lj < li { lj } else { lj - 1 };
                    assert(old_ls.member_of(id, old_ls.layers@[oj].z));
                }
            } else if lj != li && lk != li {
                let oj = if lj < li { lj } else { lj - 1 };
                let ok = if lk < li { lk } else { lk - 1 };
                assert(old_ls.layers@[oj].members@[m] != old_ls.layers@[ok].members@[n]);
            }
        }
    }
    assert(bucketed_upto(recs, ls, i + 1)) by {
        assert forall|idq: NodeId, zq: i16| #[trigger] ls.member_of(idq, zq) implies exists|k: int|
            0 <= k < i + 1 && (#[trigger] recs[k]).id == idq && recs[k].z == zq by {
            let (lj, m) = choose|lj: int, m: int|
                0 <= lj < ls.layers@.len() && 0 <= m < ls.layers@[lj].members@.len()
                    && ls.layers@[lj].z == zq && (#[trigger] ls.layers@[lj].members@[m]) == idq;
            if lj == li {
                assert(recs[i].id == idq && recs[i].z == zq);
            } else {
                let oj = if lj < li { lj } else { lj - 1 };
                assert(old_ls.layers@[oj].members@[m] == idq && old_ls.layers@[oj].z == zq);
                assert(old_ls.member_of(idq, zq));
            }
        }
        assert forall|k: int| 0 <= k < i + 1 implies ls.member_of(
            (#[trigger] recs[k]).id,
            recs[k].z,
        ) by {
            if k < i {
                assert(old_ls.member_of(recs[k].id, recs[k].z));
                let (lj, m) = choose|lj: int, m: int|
                    0 <= lj < old_ls.layers@.len() && 0 <= m < old_ls.layers@[lj].members@.len()
                        && old_ls.layers@[lj].z == recs[k].z && (
                    #[trigger] old_ls.layers@[lj].members@[m]) == recs[k].id;
                let nj = if lj < li { lj } else { lj + 1 };
                assert(ls.layers@[nj].members@[m] == recs[k].id && ls.layers@[nj].z == recs[k].z);
            } else {
                assert(ls.layers@[li].members@[0] == id && ls.layers@[li].z == z);
            }
        }
    }
}

/// Assigns every live node of the tree to a z-layer.
///
/// On success the layers partition the live node ids (the partition law) and
/// depths follow the stacking law. A corrupt tree (cycle, repeated node, or
/// a dangling child id) fails fast instead.
pub fn assign_layers(t: &Tree) -> (r: Result<Layers, CorruptTreeError>)
    requires
        t.wf(),
    ensures
        match r {
            Ok(ls) => ls.zs_sorted() && ls.partitions(*t) && ls.stacking_consistent(*t),
            Err(CorruptTreeError::MissingNode { id }) => t.reachable(id) && !t.contains_id(id)
                && !t.shaped(),
            Err(CorruptTreeError::RepeatedNode { id }) => t.reachable(id) && !t.shaped(),
        },
{
    let recs = match traverse(t) {
        Ok(recs) => recs,
        Err(e) => {
            return Err(e);
        },
    };
    let ls = bucket_layers(&recs);
    proof {
        lemma_bucketed_partitions(*t, recs@, ls);
    }
    Ok(ls)
}

/// Layers bucketed from a completed traversal partition the live nodes and
/// obey the stacking law.
proof fn lemma_bucketed_partitions(t: Tree, recs: Seq<VisitRecord>, ls: Layers)
    requires
        traversal_ok(t, recs),
        ls.members_unique(),
        bucketed_upto(recs, ls, recs.len() as int),
    ensures
        ls.partitions(t),
        ls.stacking_consistent(t),
{
    assert forall|id: NodeId| #[trigger] ls.contains(id) implies t.reachable(id) by {
        let (li, m) = choose|li: int, m: int|
            0 <= li < ls.layers@.len() && 0 <= m < ls.layers@[li].members@.len() && (
            #[trigger] ls.layers@[li].members@[m]) == id;
        assert(ls.member_of(id, ls.layers@[li].z));
        let k = choose|k: int| 0 <= k < recs.len() && (#[trigger] recs[k]).id == id;
        assert(traversal_contains(recs, id));
    }
    assert forall|id: NodeId| #[trigger] t.reachable(id) implies ls.contains(id) by {
        assert(traversal_contains(recs, id));
        let k = choose|k: int| 0 <= k < recs.len() && (#[trigger] recs[k]).id == id;
        assert(ls.member_of(recs[k].id, recs[k].z));
    }
    assert forall|zr: i16| #[trigger] ls.member_of(t.root, zr) implies zr as int == spec_combine_z(
        0,
        spec_shift(t, t.root),
    ) by {
        let k = choose|k: int| 0 <= k < recs.len() && (#[trigger] recs[k]).id == t.root && recs[k].z == zr;
        assert(k == 0) by {
            if k != 0 {
                assert(recs[0].id == recs[k].id);
            }
        }
    }
    assert forall|p: NodeId, c: NodeId, zp: i16, zc: i16|
        #[trigger] ls.member_of(p, zp) && #[trigger] ls.member_of(c, zc) && t.child_of(
            c,
            p,
        ) implies zc as int == spec_combine_z(zp as int, spec_shift(t, c)) by {
        let i = choose|i: int| 0 <= i < recs.len() && (#[trigger] recs[i]).id == p && recs[i].z == zp;
        let j = choose|j: int| 0 <= j < recs.len() && (#[trigger] recs[j]).id == c && recs[j].z == zc;
        assert(j != 0) by {
            if j == 0 {
                assert(!t.child_of(t.root, recs[i].id));
            }
        }
        assert(linked_at(t, recs, j));
        let k2 = choose|k2: int|
            0 <= k2 < j && #[trigger] t.child_of(recs[j].id, recs[k2].id) && recs[j].z as int
                == spec_combine_z(recs[k2].z as int, spec_shift(t, recs[j].id)) && recs[j].chain@
                == crate::traverse::spec_child_chain(t, recs[k2]);
        assert(t.child_of(c, recs[k2].id) && t.child_of(c, recs[i].id));
        assert(k2 == i);
    }
}

} // verus!
