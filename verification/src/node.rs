//! The per-frame geometry/style snapshot: immutable node data produced by
//! layout measurement, plus the tree that owns it.
//!
//! A [`Tree`] is a flat list of [`NodeSnapshot`]s with unique ids and a root
//! id. Parent/child structure lives in each snapshot's `children` list; the
//! traversal passes guard against cycles and dangling ids instead of trusting
//! the collaborator that built the snapshot.

use vstd::prelude::*;
use crate::geometry::Rect;

verus! {

/// Identifies one node for the duration of a frame.
pub type NodeId = u64;

/// The kind of element a snapshot describes.
#[derive(Clone, Copy, Debug, PartialEq, Eq, Structural)]
pub enum NodeTag {
    Container,
    Text,
    Leaf,
}

/// A node's background: either fully transparent or a solid color given as
/// 0xAARRGGBB. Opacity is what blocks pointer events from nodes painted
/// beneath.
#[derive(Clone, Copy, Debug, PartialEq, Eq, Structural)]
pub enum Background {
    Transparent,
    Color { argb: u32 },
}

impl Background {
    pub open spec fn spec_is_transparent(self) -> bool {
        self is Transparent
    }

    pub fn is_transparent(&self) -> (r: bool)
        ensures
            r == self.spec_is_transparent(),
    {
        match self {
            Background::Transparent => true,
            Background::Color { .. } => false,
        }
    }
}

/// One node's measured geometry and style, valid for one frame.
///
/// `layer_shift` is the node's stacking request: 0 keeps the parent's
/// z-layer, any other value offsets the node's layer from its parent's
/// (saturating at the `i16` bounds). `clips` marks a node whose rectangle
/// clips its descendants (a scrollable container).
#[derive(Clone, Debug)]
pub struct NodeSnapshot {
    pub id: NodeId,
    pub tag: NodeTag,
    pub rect: Rect,
    pub background: Background,
    pub clips: bool,
    pub layer_shift: i16,
    pub children: Vec<NodeId>,
}

impl NodeSnapshot {
    pub open spec fn wf(self) -> bool {
        self.rect.wf()
    }
}

/// The snapshot of one frame: every live node, keyed by id, and the root id.
#[derive(Clone, Debug)]
pub struct Tree {
    pub nodes: Vec<NodeSnapshot>,
    pub root: NodeId,
}

impl Tree {
    /// Ids are unique and every rectangle is well-formed; the root id names a
    /// node of the tree.
    pub open spec fn wf(self) -> bool {
        &&& forall|i: int, j: int|
            0 <= i < j < self.nodes@.len() ==> self.nodes@[i].id != self.nodes@[j].id
        &&& forall|i: int| 0 <= i < self.nodes@.len() ==> (#[trigger] self.nodes@[i]).wf()
        &&& self.contains_id(self.root)
    }

    pub open spec fn contains_id(self, id: NodeId) -> bool {
        exists|i: int| 0 <= i < self.nodes@.len() && (#[trigger] self.nodes@[i]).id == id
    }

    pub open spec fn spec_index_of(self, id: NodeId) -> int {
        choose|i: int| 0 <= i < self.nodes@.len() && (#[trigger] self.nodes@[i]).id == id
    }

    /// The snapshot stored under `id`, if any.
    pub open spec fn spec_get(self, id: NodeId) -> Option<NodeSnapshot> {
        if self.contains_id(id) {
            Some(self.nodes@[self.spec_index_of(id)])
        } else {
            None
        }
    }

    /// `child` is listed among `parent`'s children.
    pub open spec fn child_of(self, child: NodeId, parent: NodeId) -> bool {
        match self.spec_get(parent) {
            Some(p) => p.children@.contains(child),
            None => false,
        }
    }

    /// `path` walks parent-to-child links starting at the root.
    pub open spec fn is_link_path(self, path: Seq<NodeId>) -> bool {
        &&& path.len() > 0
        &&& path[0] == self.root
        &&& forall|i: int|
            0 <= i < path.len() - 1 ==> self.child_of(#[trigger] path[i + 1], path[i])
    }

    /// `id` can be reached from the root along child links. These are the
    /// live nodes of the frame.
    pub open spec fn reachable(self, id: NodeId) -> bool {
        exists|path: Seq<NodeId>| self.is_link_path(path) && path.last() == id
    }

    /// The snapshot's links form a proper tree over its nodes: every
    /// reachable id has a snapshot, no id is listed as a child twice (by two
    /// nodes, or twice by one), and the root is nobody's child. The
    /// traversal passes succeed on every well-formed, shaped snapshot and
    /// fail fast on every other one.
    pub open spec fn shaped(self) -> bool {
        &&& forall|id: NodeId| #[trigger] self.reachable(id) ==> self.contains_id(id)
        &&& forall|i: int, j: int, c: NodeId|
            0 <= i < self.nodes@.len() && 0 <= j < self.nodes@.len() && #[trigger] self.child_of(
                c,
                self.nodes@[i].id,
            ) && #[trigger] self.child_of(c, self.nodes@[j].id) ==> i == j
        &&& forall|i: int|
            0 <= i < self.nodes@.len() ==> (#[trigger] self.nodes@[i]).children@.no_duplicates()
        &&& forall|i: int|
            0 <= i < self.nodes@.len() ==> !self.child_of(self.root, (#[trigger] self.nodes@[i]).id)
    }

    /// Looks a node up by id (linear scan; ids are unique by `wf`).
    pub fn get(&self, id: NodeId) -> (r: Option<&NodeSnapshot>)
        requires
            self.wf(),
        ensures
            match r {
                Some(n) => self.spec_get(id) == Some(*n),
                None => self.spec_get(id) is None,
            },
    {
        let n = self.nodes.len();
        for i in 0..n
            invariant
                n == self.nodes@.len(),
                self.wf(),
                forall|j: int| 0 <= j < i ==> (#[trigger] self.nodes@[j]).id != id,
        {
            if self.nodes[i].id == id {
                return Some(&self.nodes[i]);
            }
        }
        None
    }

    /// The root is always reachable (by the one-element path).
    pub proof fn lemma_root_reachable(self)
        ensures
            self.reachable(self.root),
    {
        let path: Seq<NodeId> = seq![self.root];
        assert(self.is_link_path(path));
        assert(path.last() == self.root);
    }

    /// Reachability steps across one child link.
    pub proof fn lemma_reachable_child(self, parent: NodeId, child: NodeId)
        requires
            self.reachable(parent),
            self.child_of(child, parent),
        ensures
            self.reachable(child),
    {
        let path = choose|path: Seq<NodeId>|
            self.is_link_path(path) && path.last() == parent;
        let ext = path.push(child);
        assert forall|i: int| 0 <= i < ext.len() - 1 implies self.child_of(
            #[trigger] ext[i + 1],
            ext[i],
        ) by {
            if i < path.len() - 1 {
                assert(self.child_of(path[i + 1], path[i]));
            } else {
                assert(ext[i] == path.last());
            }
        }
        assert(self.is_link_path(ext));
        assert(ext.last() == child);
    }
}

} // verus!
