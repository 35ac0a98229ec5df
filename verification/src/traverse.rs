//! The shared depth-first walk over a frame's tree.
//!
//! Both the layer assigner and the viewport resolver need the same
//! information per node: its assigned z-layer and its chain of clipping
//! ancestors. [`traverse`] computes both in one guarded pass, failing fast
//! with [`CorruptTreeError`] on a dangling child id or on any id that can be
//! reached twice (a cycle, or a node claimed by two parents), instead of
//! looping forever on a corrupt collaborator tree.

use vstd::prelude::*;
use vstd::seq_lib::*;
use crate::node::{NodeId, NodeSnapshot, Tree};

verus! {

/// A structurally broken tree: the walk aborts the frame rather than paint
/// or hit-test against partial state.
#[derive(Clone, Copy, Debug, PartialEq, Eq, Structural)]
pub enum CorruptTreeError {
    /// A child list names an id that no snapshot carries.
    MissingNode { id: NodeId },
    /// An id was reached twice: a cycle, or one node claimed by two parents.
    RepeatedNode { id: NodeId },
}

/// One visited node: its id, its assigned z-layer, and its inherited clip
/// chain (ids of clipping ancestors, farthest-first).
#[derive(Clone, Debug)]
pub struct VisitRecord {
    pub id: NodeId,
    pub z: i16,
    pub chain: Vec<NodeId>,
}

/// A child's z-layer: the parent's layer plus the child's stacking request,
/// saturating at the `i16` bounds.
pub open spec fn spec_combine_z(parent: int, shift: int) -> int {
    let s = parent + shift;
    if s < -32768 {
        -32768
    } else if s > 32767 {
        32767
    } else {
        s
    }
}

pub fn combine_z(parent: i16, shift: i16) -> (z: i16)
    ensures
        z as int == spec_combine_z(parent as int, shift as int),
{
    let s: i32 = parent as i32 + shift as i32;
    if s < -32768 {
        -32768
    } else if s > 32767 {
        32767
    } else {
        s as i16
    }
}

/// The node's stacking request, 0 for an id the tree does not hold.
pub open spec fn spec_shift(t: Tree, id: NodeId) -> int {
    match t.spec_get(id) {
        Some(n) => n.layer_shift as int,
        None => 0,
    }
}

/// Whether the node clips its descendants.
pub open spec fn spec_clips(t: Tree, id: NodeId) -> bool {
    match t.spec_get(id) {
        Some(n) => n.clips,
        None => false,
    }
}

/// The clip chain a visited node hands to its children: its own chain, plus
/// itself if it clips.
pub open spec fn spec_child_chain(t: Tree, r: VisitRecord) -> Seq<NodeId> {
    if spec_clips(t, r.id) {
        r.chain@.push(r.id)
    } else {
        r.chain@
    }
}

pub open spec fn traversal_ids_unique(recs: Seq<VisitRecord>) -> bool {
    forall|i: int, j: int|
        0 <= i < j < recs.len() ==> (#[trigger] recs[i]).id != (#[trigger] recs[j]).id
}

/// Some visit record carries `id`.
pub open spec fn traversal_contains(recs: Seq<VisitRecord>, id: NodeId) -> bool {
    exists|k: int| 0 <= k < recs.len() && (#[trigger] recs[k]).id == id
}

/// Record `j` derives from an earlier parent record: its parent link, its
/// layer and its chain all come from that record.
pub open spec fn linked_at(t: Tree, recs: Seq<VisitRecord>, j: int) -> bool {
    exists|k: int|
        0 <= k < j && #[trigger] t.child_of(recs[j].id, recs[k].id) && recs[j].z as int
            == spec_combine_z(recs[k].z as int, spec_shift(t, recs[j].id)) && recs[j].chain@
            == spec_child_chain(t, recs[k])
}

/// What a completed walk guarantees. The records list every live (reachable)
/// node exactly once, in depth-first preorder: the root comes first with
/// layer `spec_combine_z(0, shift)` and an empty chain; every other record
/// has exactly one parent among the records, from which its layer and chain
/// are derived.
pub open spec fn traversal_ok(t: Tree, recs: Seq<VisitRecord>) -> bool {
    &&& traversal_ids_unique(recs)
    &&& forall|k: int| 0 <= k < recs.len() ==> t.contains_id((#[trigger] recs[k]).id)
    &&& forall|id: NodeId| #[trigger] traversal_contains(recs, id) ==> t.reachable(id)
    &&& forall|id: NodeId| #[trigger] t.reachable(id) ==> traversal_contains(recs, id)
    &&& recs.len() > 0
    &&& recs[0].id == t.root
    &&& recs[0].z as int == spec_combine_z(0, spec_shift(t, t.root))
    &&& recs[0].chain@ == Seq::<NodeId>::empty()
    &&& forall|i: int, j: int, c: NodeId|
        0 <= i < recs.len() && 0 <= j < recs.len() && #[trigger] t.child_of(c, recs[i].id)
            && #[trigger] t.child_of(c, recs[j].id) ==> i == j
    &&& forall|i: int| 0 <= i < recs.len() ==> !t.child_of(t.root, (#[trigger] recs[i]).id)
    &&& forall|j: int| 1 <= j < recs.len() ==> #[trigger] linked_at(t, recs, j)
}

/// A node still waiting to be visited: the layer it inherits and the clip
/// chain its parent resolved for it.
struct Pending {
    id: NodeId,
    z_inherit: i16,
    chain: Vec<NodeId>,
}

spec fn pending_contains(stack: Seq<Pending>, id: NodeId) -> bool {
    exists|k: int| 0 <= k < stack.len() && (#[trigger] stack[k]).id == id
}

spec fn pending_ids_unique(stack: Seq<Pending>) -> bool {
    forall|i: int, j: int|
        0 <= i < j < stack.len() ==> (#[trigger] stack[i]).id != (#[trigger] stack[j]).id
}

spec fn rec_stack_disjoint(recs: Seq<VisitRecord>, stack: Seq<Pending>) -> bool {
    forall|k: int, m: int|
        0 <= k < recs.len() && 0 <= m < stack.len() ==> (#[trigger] recs[k]).id != (
        #[trigger] stack[m]).id
}

/// Each pending entry is either the initial root entry or was issued by an
/// already-visited parent, inheriting that parent's layer and child chain.
spec fn stack_entries_ok(t: Tree, recs: Seq<VisitRecord>, stack: Seq<Pending>) -> bool {
    forall|m: int| 0 <= m < stack.len() ==> stack_entry_ok(t, recs, #[trigger] stack[m])
}

spec fn stack_entry_ok(t: Tree, recs: Seq<VisitRecord>, p: Pending) -> bool {
    ||| (p.id == t.root && p.z_inherit == 0 && p.chain@ == Seq::<NodeId>::empty())
    ||| (exists|k: int|
        0 <= k < recs.len() && #[trigger] t.child_of(p.id, recs[k].id) && p.z_inherit == recs[k].z
            && p.chain@ == spec_child_chain(t, recs[k]))
}

/// The first record is the root's; every later record derives from an
/// earlier parent record.
spec fn records_linked(t: Tree, recs: Seq<VisitRecord>) -> bool {
    &&& recs.len() > 0 ==> (recs[0].id == t.root && recs[0].z as int == spec_combine_z(
        0,
        spec_shift(t, t.root),
    ) && recs[0].chain@ == Seq::<NodeId>::empty())
    &&& forall|j: int| 1 <= j < recs.len() ==> #[trigger] linked_at(t, recs, j)
}

spec fn paths_ok(
    t: Tree,
    recs: Seq<VisitRecord>,
    stack: Seq<Pending>,
    rpaths: Seq<Seq<NodeId>>,
    spaths: Seq<Seq<NodeId>>,
) -> bool {
    &&& rpaths.len() == recs.len()
    &&& forall|k: int|
        0 <= k < recs.len() ==> t.is_link_path(#[trigger] rpaths[k]) && rpaths[k].last()
            == recs[k].id
    &&& spaths.len() == stack.len()
    &&& forall|k: int|
        0 <= k < stack.len() ==> t.is_link_path(#[trigger] spaths[k]) && spaths[k].last()
            == stack[k].id
}

/// The invariants that hold at every point of the walk.
spec fn inv_base(
    t: Tree,
    recs: Seq<VisitRecord>,
    stack: Seq<Pending>,
    rpaths: Seq<Seq<NodeId>>,
    spaths: Seq<Seq<NodeId>>,
) -> bool {
    &&& traversal_ids_unique(recs)
    &&& pending_ids_unique(stack)
    &&& rec_stack_disjoint(recs, stack)
    &&& forall|k: int| 0 <= k < recs.len() ==> t.contains_id((#[trigger] recs[k]).id)
    &&& recs.len() <= t.nodes@.len()
    &&& paths_ok(t, recs, stack, rpaths, spaths)
    &&& stack_entries_ok(t, recs, stack)
    &&& records_linked(t, recs)
    &&& (recs.len() == 0 ==> stack.len() == 1 && stack[0].id == t.root && stack[0].z_inherit == 0
        && stack[0].chain@ == Seq::<NodeId>::empty())
    &&& (traversal_contains(recs, t.root) || pending_contains(stack, t.root))
}

/// Closure, parent uniqueness and root-not-a-child, for the first `n`
/// records (the records whose children have all been issued).
spec fn settled(t: Tree, recs: Seq<VisitRecord>, stack: Seq<Pending>, n: int) -> bool {
    &&& forall|k: int, c: NodeId|
        0 <= k < n && #[trigger] t.child_of(c, recs[k].id) ==> traversal_contains(recs, c)
            || pending_contains(stack, c)
    &&& forall|i: int, j: int, c: NodeId|
        0 <= i < n && 0 <= j < n && #[trigger] t.child_of(c, recs[i].id) && #[trigger] t.child_of(
            c,
            recs[j].id,
        ) ==> i == j
    &&& forall|i: int| 0 <= i < n ==> !t.child_of(t.root, (#[trigger] recs[i]).id)
}

/// Appending a record whose parent is already linked keeps the records
/// linked.
proof fn lemma_records_linked_push(t: Tree, old_recs: Seq<VisitRecord>, rec: VisitRecord, k: int)
    requires
        records_linked(t, old_recs),
        0 <= k < old_recs.len(),
        t.child_of(rec.id, old_recs[k].id),
        rec.z as int == spec_combine_z(old_recs[k].z as int, spec_shift(t, rec.id)),
        rec.chain@ == spec_child_chain(t, old_recs[k]),
    ensures
        records_linked(t, old_recs.push(rec)),
{
    let recs = old_recs.push(rec);
    assert(recs[0] == old_recs[0]);
    assert forall|j: int| 1 <= j < recs.len() implies #[trigger] linked_at(t, recs, j) by {
        if j == old_recs.len() {
            assert(recs[j] == rec && recs[k] == old_recs[k]);
            assert(0 <= k < j && t.child_of(recs[j].id, recs[k].id) && recs[j].z as int
                == spec_combine_z(recs[k].z as int, spec_shift(t, recs[j].id)) && recs[j].chain@
                == spec_child_chain(t, recs[k]));
        } else {
            assert(recs[j] == old_recs[j]);
            assert(linked_at(t, old_recs, j));
            let k2 = choose|k2: int|
                0 <= k2 < j && #[trigger] t.child_of(old_recs[j].id, old_recs[k2].id)
                    && old_recs[j].z as int == spec_combine_z(
                    old_recs[k2].z as int,
                    spec_shift(t, old_recs[j].id),
                ) && old_recs[j].chain@ == spec_child_chain(t, old_recs[k2]);
            assert(recs[k2] == old_recs[k2]);
            assert(0 <= k2 < j && t.child_of(recs[j].id, recs[k2].id) && recs[j].z as int
                == spec_combine_z(recs[k2].z as int, spec_shift(t, recs[j].id)) && recs[j].chain@
                == spec_child_chain(t, recs[k2]));
        }
    }
}

/// An id issued twice exposes a structural fault: a duplicated child entry,
/// a second parent, or the root listed as a child.
#[verifier::rlimit(30)]
proof fn lemma_repeat_unshaped(
    t: Tree,
    recs: Seq<VisitRecord>,
    stack: Seq<Pending>,
    node: NodeSnapshot,
    cur: VisitRecord,
    c: NodeId,
    ci: int,
    watermark: int,
    dup_sibling: bool,
    on_record: bool,
)
    requires
        t.wf(),
        recs.len() >= 1,
        cur == recs[recs.len() - 1],
        t.spec_get(cur.id) == Some(node),
        traversal_ids_unique(recs),
        forall|k: int| 0 <= k < recs.len() ==> t.contains_id((#[trigger] recs[k]).id),
        records_linked(t, recs),
        0 <= ci < node.children@.len(),
        node.children@[ci] == c,
        dup_sibling <==> exists|p: int| 0 <= p < ci && (#[trigger] node.children@[p]) == c,
        0 <= watermark <= stack.len(),
        forall|m: int|
            0 <= m < watermark ==> stack_entry_ok(
                t,
                recs.take(recs.len() - 1),
                #[trigger] stack[m],
            ),
        stack.len() == watermark + ci,
        forall|m: int|
            watermark <= m < stack.len() ==> (#[trigger] stack[m]).id == node.children@[m
                - watermark],
        on_record ==> traversal_contains(recs, c),
        !on_record ==> pending_contains(stack, c),
    ensures
        !t.shaped(),
{
    if t.shaped() {
        let cur_idx = t.spec_index_of(cur.id);
        assert(t.contains_id(cur.id));
        assert(t.nodes@[cur_idx].id == cur.id && t.nodes@[cur_idx] == node);
        assert(t.child_of(c, cur.id)) by {
            assert(node.children@.contains(c)) by {
                assert(node.children@[ci] == c);
            }
        }
        if dup_sibling {
            // The same parent lists the child twice.
            let p = choose|p: int| 0 <= p < ci && (#[trigger] node.children@[p]) == c;
            assert(t.nodes@[cur_idx].children@.no_duplicates());
            assert(node.children@[p] == node.children@[ci]);
            assert(false);
        } else if on_record {
            let j = choose|j: int| 0 <= j < recs.len() && (#[trigger] recs[j]).id == c;
            if j == 0 {
                // The root is listed as a child.
                assert(c == t.root);
                assert(!t.child_of(t.root, t.nodes@[cur_idx].id));
                assert(false);
            } else {
                assert(linked_at(t, recs, j));
                let k = choose|k: int|
                    0 <= k < j && #[trigger] t.child_of(recs[j].id, recs[k].id) && recs[j].z as int
                        == spec_combine_z(recs[k].z as int, spec_shift(t, recs[j].id))
                        && recs[j].chain@ == spec_child_chain(t, recs[k]);
                lemma_two_parents(t, c, recs[k].id, cur.id);
                assert(false);
            }
        } else {
            let m = choose|m: int| 0 <= m < stack.len() && (#[trigger] stack[m]).id == c;
            if m >= watermark {
                // Issued in this very child loop: the duplicate-sibling scan
                // would have caught it.
                assert(node.children@[m - watermark] == c && m - watermark < ci);
                assert(dup_sibling);
                assert(false);
            } else {
                let older = recs.take(recs.len() - 1);
                assert(stack_entry_ok(t, older, stack[m]));
                if stack[m].id == t.root && stack[m].z_inherit == 0 && stack[m].chain@
                    == Seq::<NodeId>::empty() {
                    assert(c == t.root);
                    assert(!t.child_of(t.root, t.nodes@[cur_idx].id));
                    assert(false);
                } else {
                    let k = choose|k: int|
                        0 <= k < older.len() && #[trigger] t.child_of(stack[m].id, older[k].id)
                            && stack[m].z_inherit == older[k].z && stack[m].chain@
                            == spec_child_chain(t, older[k]);
                    assert(older[k] == recs[k]);
                    lemma_two_parents(t, c, recs[k].id, cur.id);
                    assert(false);
                }
            }
        }
    }
}

/// A child with two distinct parents makes the tree unshaped.
proof fn lemma_two_parents(t: Tree, c: NodeId, p1: NodeId, p2: NodeId)
    requires
        t.wf(),
        t.contains_id(p1),
        t.contains_id(p2),
        p1 != p2,
        t.child_of(c, p1),
        t.child_of(c, p2),
    ensures
        !t.shaped(),
{
    if t.shaped() {
        let i1 = t.spec_index_of(p1);
        let i2 = t.spec_index_of(p2);
        assert(t.nodes@[i1].id == p1 && t.nodes@[i2].id == p2);
        assert(t.child_of(c, t.nodes@[i1].id) && t.child_of(c, t.nodes@[i2].id));
        assert(i1 == i2);
        assert(false);
    }
}

/// A list of distinct ids that all occur in the tree is no longer than the
/// tree's node list.
proof fn lemma_records_bounded(t: Tree, recs: Seq<VisitRecord>)
    requires
        t.wf(),
        traversal_ids_unique(recs),
        forall|k: int| 0 <= k < recs.len() ==> t.contains_id((#[trigger] recs[k]).id),
    ensures
        recs.len() <= t.nodes@.len(),
{
    broadcast use vstd::seq_lib::seq_to_set_is_finite;

    let ids = Seq::new(recs.len(), |k: int| recs[k].id);
    assert(ids.no_duplicates());
    ids.unique_seq_to_set();
    let tree_ids = Seq::new(t.nodes@.len(), |i: int| t.nodes@[i].id);
    assert(tree_ids.no_duplicates());
    tree_ids.unique_seq_to_set();
    assert forall|x: NodeId| ids.to_set().contains(x) implies tree_ids.to_set().contains(x) by {
        let k = choose|k: int| 0 <= k < ids.len() && ids[k] == x;
        assert(t.contains_id(recs[k].id));
        let i = choose|i: int| 0 <= i < t.nodes@.len() && t.nodes@[i].id == x;
        assert(tree_ids[i] == x);
    }
    vstd::set_lib::lemma_len_subset(ids.to_set(), tree_ids.to_set());
}

/// Every node on a root-link path is among the records, once the records are
/// closed under children and contain the root.
proof fn lemma_path_in_records(t: Tree, recs: Seq<VisitRecord>, path: Seq<NodeId>)
    requires
        t.is_link_path(path),
        traversal_contains(recs, t.root),
        forall|k: int, c: NodeId|
            0 <= k < recs.len() && #[trigger] t.child_of(c, recs[k].id) ==> traversal_contains(
                recs,
                c,
            ),
    ensures
        traversal_contains(recs, path.last()),
    decreases path.len(),
{
    if path.len() == 1 {
        assert(path.last() == t.root);
    } else {
        let pre = path.drop_last();
        assert(t.is_link_path(pre)) by {
            assert(pre[0] == path[0]);
            assert forall|i: int| 0 <= i < pre.len() - 1 implies t.child_of(
                #[trigger] pre[i + 1],
                pre[i],
            ) by {
                assert(t.child_of(path[i + 1], path[i]));
            }
        }
        lemma_path_in_records(t, recs, pre);
        let k = choose|k: int| 0 <= k < recs.len() && (#[trigger] recs[k]).id == pre.last();
        let n = path.len() as int;
        assert(t.child_of(path[n - 2 + 1], path[n - 2]));
        assert(t.child_of(path.last(), recs[k].id));
    }
}

fn records_contain(records: &Vec<VisitRecord>, id: NodeId) -> (r: bool)
    ensures
        r == traversal_contains(records@, id),
{
    let n = records.len();
    for i in 0..n
        invariant
            n == records@.len(),
            forall|j: int| 0 <= j < i ==> (#[trigger] records@[j]).id != id,
    {
        if records[i].id == id {
            return true;
        }
    }
    false
}

fn stack_contains(stack: &Vec<Pending>, id: NodeId) -> (r: bool)
    ensures
        r == pending_contains(stack@, id),
{
    let n = stack.len();
    for i in 0..n
        invariant
            n == stack@.len(),
            forall|j: int| 0 <= j < i ==> (#[trigger] stack@[j]).id != id,
    {
        if stack[i].id == id {
            return true;
        }
    }
    false
}

pub(crate) fn copy_ids(v: &Vec<NodeId>) -> (r: Vec<NodeId>)
    ensures
        r@ == v@,
{
    let mut out: Vec<NodeId> = Vec::new();
    let n = v.len();
    for i in 0..n
        invariant
            n == v@.len(),
            out@ == v@.take(i as int),
    {
        out.push(v[i]);
        proof {
            assert(out@ =~= v@.take(i + 1));
        }
    }
    proof {
        assert(v@.take(n as int) =~= v@);
    }
    out
}

/// Walks the tree depth-first from the root, assigning every reachable node
/// its z-layer and clip chain.
///
/// Fails fast instead of looping or double-visiting: a child id without a
/// snapshot yields `MissingNode`, and an id reachable twice (a cycle, or a
/// node listed by two parents or twice by one) yields `RepeatedNode`. Every
/// error implies the tree is not [`Tree::shaped`], so the walk succeeds on
/// every well-formed, shaped tree.
pub fn traverse(t: &Tree) -> (r: Result<Vec<VisitRecord>, CorruptTreeError>)
    requires
        t.wf(),
    ensures
        match r {
            Ok(recs) => traversal_ok(*t, recs@),
            Err(CorruptTreeError::MissingNode { id }) => t.reachable(id) && !t.contains_id(id)
                && !t.shaped(),
            Err(CorruptTreeError::RepeatedNode { id }) => t.reachable(id) && !t.shaped(),
        },
{
    let mut records: Vec<VisitRecord> = Vec::new();
    let mut stack: Vec<Pending> = Vec::new();
    stack.push(Pending { id: t.root, z_inherit: 0, chain: Vec::new() });
    let ghost mut rpaths: Seq<Seq<NodeId>> = Seq::empty();
    let ghost mut spaths: Seq<Seq<NodeId>> = seq![seq![t.root]];
    proof {
        assert(t.is_link_path(seq![t.root]));
        assert(stack@[0].id == t.root);
        assert(pending_contains(stack@, t.root));
        assert(spaths[0] == seq![t.root]);
    }

    while stack.len() != 0
        invariant
            t.wf(),
            inv_base(*t, records@, stack@, rpaths, spaths),
            settled(*t, records@, stack@, records@.len() as int),
        decreases t.nodes@.len() - records@.len(),
    {
        let ghost old_records = records@;
        let ghost old_stack = stack@;
        let entry = stack.pop().unwrap();
        let ghost gpath = spaths.last();
        proof {
            spaths = spaths.drop_last();
            assert(entry == old_stack[old_stack.len() - 1]);
            assert(stack@ =~= old_stack.drop_last());
            assert(t.is_link_path(gpath) && gpath.last() == entry.id);
            // Every id other than the popped one keeps its stack position.
            assert forall|id: NodeId|
                pending_contains(old_stack, id) && id != entry.id implies pending_contains(
                stack@,
                id,
            ) by {
                let k = choose|k: int|
                    0 <= k < old_stack.len() && (#[trigger] old_stack[k]).id == id;
                assert(stack@[k].id == id);
            }
            // The popped id occurs nowhere else in the stack.
            assert(!pending_contains(stack@, entry.id)) by {
                if pending_contains(stack@, entry.id) {
                    let k = choose|k: int|
                        0 <= k < stack@.len() && (#[trigger] stack@[k]).id == entry.id;
                    assert(old_stack[k].id == entry.id);
                }
            }
            assert(!traversal_contains(old_records, entry.id));
        }

        let node = match t.get(entry.id) {
            Some(n) => n,
            None => {
                proof {
                    assert(t.reachable(entry.id));
                    assert(!t.shaped());
                }
                return Err(CorruptTreeError::MissingNode { id: entry.id });
            },
        };
        assert(t.spec_get(entry.id) == Some(*node));

        let z = combine_z(entry.z_inherit, node.layer_shift);
        let mut child_chain = copy_ids(&entry.chain);
        if node.clips {
            child_chain.push(entry.id);
        }

        records.push(VisitRecord { id: entry.id, z, chain: entry.chain });
        proof {
            rpaths = rpaths.push(gpath);
        }
        let ghost cur = records@[records@.len() - 1];
        proof {
            assert(records@ =~= old_records.push(cur));
            assert forall|id: NodeId|
                traversal_contains(old_records, id) implies traversal_contains(records@, id) by {
                let k = choose|k: int|
                    0 <= k < old_records.len() && (#[trigger] old_records[k]).id == id;
                assert(records@[k].id == id);
            }
            assert(traversal_contains(records@, entry.id)) by {
                assert(records@[records@.len() - 1].id == entry.id);
            }
            assert(traversal_ids_unique(records@)) by {
                assert forall|i: int, j: int| 0 <= i < j < records@.len() implies (
                #[trigger] records@[i]).id != (#[trigger] records@[j]).id by {
                    if j == records@.len() - 1 {
                        assert(old_records[i].id != entry.id);
                    }
                }
            }
            assert(t.contains_id(cur.id));
            lemma_records_bounded(*t, records@);
            // The stack no longer holds the visited id, so disjointness holds.
            assert(rec_stack_disjoint(records@, stack@)) by {
                assert forall|k: int, m: int|
                    0 <= k < records@.len() && 0 <= m < stack@.len() implies (
                #[trigger] records@[k]).id != (#[trigger] stack@[m]).id by {
                    if k == records@.len() - 1 {
                        if stack@[m].id == entry.id {
                            assert(pending_contains(stack@, entry.id));
                        }
                    }
                }
            }
            // Pending entries keep their visited-parent witnesses.
            assert(stack_entries_ok(*t, records@, stack@)) by {
                assert forall|m: int| 0 <= m < stack@.len() implies stack_entry_ok(
                    *t,
                    records@,
                    #[trigger] stack@[m],
                ) by {
                    assert(stack_entry_ok(*t, old_records, old_stack[m]));
                    assert(stack@[m] == old_stack[m]);
                    if !(stack@[m].id == t.root && stack@[m].z_inherit == 0 && stack@[m].chain@
                        == Seq::<NodeId>::empty()) {
                        let k = choose|k: int|
                            0 <= k < old_records.len() && #[trigger] t.child_of(
                                old_stack[m].id,
                                old_records[k].id,
                            ) && old_stack[m].z_inherit == old_records[k].z && old_stack[m].chain@
                                == spec_child_chain(*t, old_records[k]);
                        assert(records@[k] == old_records[k]);
                        assert(t.child_of(stack@[m].id, records@[k].id));
                    }
                }
            }
            // The new record links to the records as required.
            if old_records.len() == 0 {
                assert(old_stack.len() == 1);
                assert(entry.id == t.root && entry.z_inherit == 0 && entry.chain@
                    == Seq::<NodeId>::empty());
                assert(records@.len() == 1);
                assert(records@[0].id == t.root);
                assert(records@[0].z as int == spec_combine_z(0, spec_shift(*t, t.root)));
                assert(records@[0].chain@ == Seq::<NodeId>::empty());
                assert(records_linked(*t, records@));
            } else {
                assert(stack_entry_ok(*t, old_records, entry));
                if entry.id == t.root {
                    // Impossible: the first record is already the root's, and
                    // the popped id is fresh among the records.
                    assert(old_records[0].id == entry.id);
                    assert(traversal_contains(old_records, entry.id));
                    assert(false);
                }
                let k = choose|k: int|
                    0 <= k < old_records.len() && #[trigger] t.child_of(
                        entry.id,
                        old_records[k].id,
                    ) && entry.z_inherit == old_records[k].z && entry.chain@ == spec_child_chain(
                        *t,
                        old_records[k],
                    );
                assert(cur.id == entry.id && cur.z == z && cur.chain@ == entry.chain@);
                assert(cur.z as int == spec_combine_z(
                    old_records[k].z as int,
                    spec_shift(*t, cur.id),
                ));
                lemma_records_linked_push(*t, old_records, cur, k);
                assert(records@ == old_records.push(cur));
            }
            assert(records_linked(*t, records@));
            // Paths stay aligned with their records.
            assert forall|k: int| 0 <= k < records@.len() implies t.is_link_path(
                #[trigger] rpaths[k],
            ) && rpaths[k].last() == records@[k].id by {
                if k < records@.len() - 1 {
                    assert(rpaths[k] == rpaths.drop_last()[k]);
                }
            }
            // The root is still a record or still pending.
            assert(traversal_contains(records@, t.root) || pending_contains(stack@, t.root)) by {
                if pending_contains(old_stack, t.root) && t.root != entry.id {
                    assert(pending_contains(stack@, t.root));
                }
            }
            // Settled facts carry over to the unchanged prefix.
            assert(settled(*t, records@, stack@, records@.len() as int - 1)) by {
                let n = records@.len() as int - 1;
                assert forall|k: int, c: NodeId|
                    0 <= k < n && #[trigger] t.child_of(c, records@[k].id) implies
                    traversal_contains(records@, c) || pending_contains(stack@, c) by {
                    assert(records@[k] == old_records[k]);
                    assert(t.child_of(c, old_records[k].id));
                    if pending_contains(old_stack, c) {
                        if c == entry.id {
                            assert(traversal_contains(records@, c));
                        } else {
                            assert(pending_contains(stack@, c));
                        }
                    } else {
                        assert(traversal_contains(old_records, c));
                    }
                }
                assert forall|i: int, j: int, c: NodeId|
                    0 <= i < n && 0 <= j < n && #[trigger] t.child_of(c, records@[i].id)
                        && #[trigger] t.child_of(c, records@[j].id) implies i == j by {
                    assert(records@[i] == old_records[i] && records@[j] == old_records[j]);
                }
                assert forall|i: int| 0 <= i < n implies !t.child_of(
                    t.root,
                    (#[trigger] records@[i]).id,
                ) by {
                    assert(records@[i] == old_records[i]);
                }
            }
        }

        let ghost watermark = stack@.len() as int;
        proof {
            assert(records@.take(records@.len() - 1) =~= old_records);
            assert forall|m: int| 0 <= m < watermark implies stack_entry_ok(
                *t,
                records@.take(records@.len() - 1),
                #[trigger] stack@[m],
            ) by {
                assert(stack@[m] == old_stack[m]);
                assert(stack_entry_ok(*t, old_records, old_stack[m]));
            }
        }
        let n_children = node.children.len();
        for ci in 0..n_children
            invariant
                t.wf(),
                inv_base(*t, records@, stack@, rpaths, spaths),
                settled(*t, records@, stack@, records@.len() as int - 1),
                records@.len() >= 1,
                cur == records@[records@.len() - 1],
                t.spec_get(cur.id) == Some(*node),
                n_children == node.children@.len(),
                z == cur.z,
                child_chain@ == spec_child_chain(*t, cur),
                forall|p: int|
                    0 <= p < ci ==> pending_contains(stack@, #[trigger] node.children@[p]),
                forall|p: int, k: int|
                    0 <= p < ci && 0 <= k < records@.len() - 1 ==> !t.child_of(
                        #[trigger] node.children@[p],
                        (#[trigger] records@[k]).id,
                    ),
                forall|p: int| 0 <= p < ci ==> #[trigger] node.children@[p] != t.root,
                0 <= watermark,
                stack@.len() == watermark + ci,
                forall|m: int|
                    0 <= m < watermark ==> stack_entry_ok(
                        *t,
                        records@.take(records@.len() - 1),
                        #[trigger] stack@[m],
                    ),
                forall|m: int|
                    watermark <= m < stack@.len() ==> (#[trigger] stack@[m]).id
                        == node.children@[m - watermark],
        {
            let c = node.children[ci];
            assert(t.child_of(c, cur.id));
            let on_record = records_contain(&records, c);
            if on_record || stack_contains(&stack, c) {
                // The id was already issued: report which structural fault
                // that exposes, then fail fast.
                let mut dup_sibling = false;
                for cj in 0..ci
                    invariant
                        ci < node.children@.len(),
                        dup_sibling <==> exists|p: int|
                            0 <= p < cj && (#[trigger] node.children@[p]) == node.children@[ci
                                as int],
                {
                    if node.children[cj] == node.children[ci] {
                        dup_sibling = true;
                    }
                    proof {
                        if node.children@[cj as int] == node.children@[ci as int] {
                            assert(exists|p: int|
                                0 <= p < cj + 1 && (#[trigger] node.children@[p])
                                    == node.children@[ci as int]);
                        }
                    }
                }
                proof {
                    assert(t.reachable(cur.id)) by {
                        assert(rpaths[rpaths.len() - 1].last() == cur.id);
                    }
                    t.lemma_reachable_child(cur.id, c);
                    lemma_repeat_unshaped(
                        *t,
                        records@,
                        stack@,
                        *node,
                        cur,
                        c,
                        ci as int,
                        watermark,
                        dup_sibling,
                        on_record,
                    );
                }
                return Err(CorruptTreeError::RepeatedNode { id: c });
            }
            let ghost inner_stack = stack@;
            let chain_copy = copy_ids(&child_chain);
            stack.push(Pending { id: c, z_inherit: z, chain: chain_copy });
            proof {
                let ghost base = rpaths[rpaths.len() - 1];
                spaths = spaths.push(base.push(c));
                assert(stack@ =~= inner_stack.push(stack@[stack@.len() - 1]));
                assert(t.is_link_path(base.push(c))) by {
                    let ext = base.push(c);
                    assert forall|i: int| 0 <= i < ext.len() - 1 implies t.child_of(
                        #[trigger] ext[i + 1],
                        ext[i],
                    ) by {
                        if i < base.len() - 1 {
                            assert(t.child_of(base[i + 1], base[i]));
                        } else {
                            assert(ext[i] == base.last());
                        }
                    }
                }
                assert forall|id: NodeId|
                    pending_contains(inner_stack, id) implies pending_contains(stack@, id) by {
                    let k = choose|k: int|
                        0 <= k < inner_stack.len() && (#[trigger] inner_stack[k]).id == id;
                    assert(stack@[k].id == id);
                }
                assert(pending_contains(stack@, c)) by {
                    assert(stack@[stack@.len() - 1].id == c);
                }
                assert(pending_ids_unique(stack@)) by {
                    assert forall|i: int, j: int| 0 <= i < j < stack@.len() implies (
                    #[trigger] stack@[i]).id != (#[trigger] stack@[j]).id by {
                        if j == stack@.len() - 1 {
                            if inner_stack[i].id == c {
                                assert(pending_contains(inner_stack, c));
                            }
                        }
                    }
                }
                assert(rec_stack_disjoint(records@, stack@)) by {
                    assert forall|k: int, m: int|
                        0 <= k < records@.len() && 0 <= m < stack@.len() implies (
                    #[trigger] records@[k]).id != (#[trigger] stack@[m]).id by {
                        if m == stack@.len() - 1 {
                            if records@[k].id == c {
                                assert(traversal_contains(records@, c));
                            }
                        }
                    }
                }
                assert(stack_entries_ok(*t, records@, stack@)) by {
                    assert forall|m: int| 0 <= m < stack@.len() implies stack_entry_ok(
                        *t,
                        records@,
                        #[trigger] stack@[m],
                    ) by {
                        if m < stack@.len() - 1 {
                            assert(stack@[m] == inner_stack[m]);
                            assert(stack_entry_ok(*t, records@, inner_stack[m]));
                        } else {
                            let k = records@.len() - 1;
                            assert(t.child_of(stack@[m].id, records@[k].id));
                            assert(stack@[m].z_inherit == records@[k].z);
                            assert(stack@[m].chain@ == spec_child_chain(*t, records@[k]));
                        }
                    }
                }
                assert forall|k: int| 0 <= k < stack@.len() implies t.is_link_path(
                    #[trigger] spaths[k],
                ) && spaths[k].last() == stack@[k].id by {
                    if k < stack@.len() - 1 {
                        assert(spaths[k] == spaths.drop_last()[k]);
                        assert(stack@[k] == inner_stack[k]);
                    }
                }
                assert(traversal_contains(records@, t.root) || pending_contains(stack@, t.root));
                // A fresh child cannot already have a settled parent, nor be
                // the root: it would otherwise be a record or pending.
                assert forall|k: int| 0 <= k < records@.len() - 1 implies !t.child_of(
                    c,
                    (#[trigger] records@[k]).id,
                ) by {
                    if t.child_of(c, records@[k].id) {
                        assert(traversal_contains(records@, c) || pending_contains(
                            inner_stack,
                            c,
                        ));
                    }
                }
                assert(c != t.root) by {
                    if c == t.root {
                        assert(traversal_contains(records@, c) || pending_contains(
                            inner_stack,
                            c,
                        ));
                    }
                }
                assert(settled(*t, records@, stack@, records@.len() as int - 1)) by {
                    let n = records@.len() as int - 1;
                    assert forall|k: int, cc: NodeId|
                        0 <= k < n && #[trigger] t.child_of(cc, records@[k].id) implies
                        traversal_contains(records@, cc) || pending_contains(stack@, cc) by {
                        if pending_contains(inner_stack, cc) {
                            assert(pending_contains(stack@, cc));
                        }
                    }
                }
                assert forall|m: int| 0 <= m < watermark implies stack_entry_ok(
                    *t,
                    records@.take(records@.len() - 1),
                    #[trigger] stack@[m],
                ) by {
                    assert(stack@[m] == inner_stack[m]);
                }
                assert forall|m: int| watermark <= m < stack@.len() implies (
                #[trigger] stack@[m]).id == node.children@[m - watermark] by {
                    if m < stack@.len() - 1 {
                        assert(stack@[m] == inner_stack[m]);
                    }
                }
            }
        }

        // All of the node's children are now issued, so the new record joins
        // the settled prefix.
        proof {
            assert(settled(*t, records@, stack@, records@.len() as int)) by {
                let n = records@.len() as int;
                assert forall|k: int, c: NodeId|
                    0 <= k < n && #[trigger] t.child_of(c, records@[k].id) implies
                    traversal_contains(records@, c) || pending_contains(stack@, c) by {
                    if k == n - 1 {
                        let p = choose|p: int|
                            0 <= p < node.children@.len() && node.children@[p] == c;
                        assert(pending_contains(stack@, node.children@[p]));
                    }
                }
                assert forall|i: int, j: int, c: NodeId|
                    0 <= i < n && 0 <= j < n && #[trigger] t.child_of(c, records@[i].id)
                        && #[trigger] t.child_of(c, records@[j].id) implies i == j by {
                    if i == n - 1 && j < n - 1 {
                        let p = choose|p: int|
                            0 <= p < node.children@.len() && node.children@[p] == c;
                        assert(!t.child_of(node.children@[p], records@[j].id));
                    } else if j == n - 1 && i < n - 1 {
                        let p = choose|p: int|
                            0 <= p < node.children@.len() && node.children@[p] == c;
                        assert(!t.child_of(node.children@[p], records@[i].id));
                    }
                }
                assert forall|i: int| 0 <= i < n implies !t.child_of(
                    t.root,
                    (#[trigger] records@[i]).id,
                ) by {
                    if i == n - 1 {
                        if t.child_of(t.root, records@[i].id) {
                            let p = choose|p: int|
                                0 <= p < node.children@.len() && node.children@[p] == t.root;
                            assert(node.children@[p] != t.root);
                        }
                    }
                }
            }
        }
    }

    // The stack is drained: the records are closed under children, contain
    // the root, and every one of them lies on a root-link path.
    proof {
        assert(traversal_contains(records@, t.root));
        assert forall|id: NodeId| #[trigger] t.reachable(id) implies traversal_contains(
            records@,
            id,
        ) by {
            let path = choose|path: Seq<NodeId>| t.is_link_path(path) && path.last() == id;
            lemma_path_in_records(*t, records@, path);
        }
        assert forall|id: NodeId| #[trigger] traversal_contains(records@, id) implies t.reachable(
            id,
        ) by {
            let k = choose|k: int| 0 <= k < records@.len() && (#[trigger] records@[k]).id == id;
            assert(t.is_link_path(rpaths[k]) && rpaths[k].last() == id);
        }
        assert(records@.len() > 0) by {
            assert(traversal_contains(records@, t.root));
        }
    }
    Ok(records)
}

} // verus!
