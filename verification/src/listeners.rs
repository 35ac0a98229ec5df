//! The listener registry the resolver queries: for each event name, the
//! ordered list of node ids that registered a listener for it.
//!
//! The retained tree owns the registry in the running system; the resolver
//! consumes it read-only. A name with no entry simply yields no dispatch.

use vstd::prelude::*;
use crate::node::NodeId;
use crate::policy::EventName;
use crate::traverse::copy_ids;

verus! {

/// The listeners of one event name, in the registry's own order.
#[derive(Clone, Debug)]
pub struct ListenerList {
    pub name: EventName,
    pub nodes: Vec<NodeId>,
}

/// All listener registrations of the frame, one list per event name.
#[derive(Clone, Debug)]
pub struct ListenerRegistry {
    pub lists: Vec<ListenerList>,
}

impl ListenerRegistry {
    /// Each event name has at most one list.
    pub open spec fn wf(self) -> bool {
        forall|i: int, j: int|
            0 <= i < j < self.lists@.len() ==> (#[trigger] self.lists@[i]).name != (
            #[trigger] self.lists@[j]).name
    }

    pub open spec fn has_list(self, name: EventName) -> bool {
        exists|i: int| 0 <= i < self.lists@.len() && (#[trigger] self.lists@[i]).name == name
    }

    pub open spec fn spec_list_index(self, name: EventName) -> int {
        choose|i: int| 0 <= i < self.lists@.len() && (#[trigger] self.lists@[i]).name == name
    }

    /// The ordered node ids listening for `name` (empty when none
    /// registered).
    pub open spec fn listening(self, name: EventName) -> Seq<NodeId> {
        if self.has_list(name) {
            self.lists@[self.spec_list_index(name)].nodes@
        } else {
            Seq::empty()
        }
    }

    pub fn new() -> (r: ListenerRegistry)
        ensures
            r.wf(),
            forall|name: EventName| #[trigger] r.listening(name) == Seq::<NodeId>::empty(),
    {
        let r = ListenerRegistry { lists: Vec::new() };
        proof {
            assert forall|name: EventName| #[trigger]
                r.listening(name) == Seq::<NodeId>::empty() by {
                assert(!r.has_list(name));
            }
        }
        r
    }

    /// Registers `node` as a listener for `name`, after all earlier
    /// registrations for that name.
    pub fn register(&mut self, name: EventName, node: NodeId)
        requires
            old(self).wf(),
        ensures
            final(self).wf(),
            final(self).listening(name) == old(self).listening(name).push(node),
            forall|other: EventName|
                other != name ==> #[trigger] final(self).listening(other) == old(self).listening(
                    other,
                ),
    {
        let ghost pre = *self;
        let n = self.lists.len();
        let mut at: usize = 0;
        while at < n && !lists_name_eq(&self.lists, at, name)
            invariant
                n == self.lists@.len(),
                *self == pre,
                0 <= at <= n,
                forall|j: int| 0 <= j < at ==> (#[trigger] self.lists@[j]).name != name,
            decreases n - at,
        {
            at += 1;
        }
        if at < n {
            // Extend the existing list for this name.
            let mut list = self.lists.remove(at);
            list.nodes.push(node);
            self.lists.insert(at, list);
            proof {
                assert(self.lists@ =~= pre.lists@.update(at as int, self.lists@[at as int]));
                assert(pre.has_list(name)) by {
                    assert(pre.lists@[at as int].name == name);
                }
                assert(pre.spec_list_index(name) == at as int);
                assert(self.has_list(name)) by {
                    assert(self.lists@[at as int].name == name);
                }
                assert(self.spec_list_index(name) == at as int);
                assert forall|other: EventName|
                    other != name implies #[trigger] self.listening(other) == pre.listening(
                    other,
                ) by {
                    if pre.has_list(other) {
                        let i = pre.spec_list_index(other);
                        assert(self.lists@[i].name == other);
                        assert(self.spec_list_index(other) == i);
                    } else {
                        if self.has_list(other) {
                            let i = self.spec_list_index(other);
                            assert(pre.lists@[i].name == other);
                        }
                    }
                }
            }
        } else {
            // First registration for this name: open a new list at the end.
            let mut nodes: Vec<NodeId> = Vec::new();
            nodes.push(node);
            self.lists.push(ListenerList { name, nodes });
            proof {
                let last = self.lists@.len() - 1;
                assert(self.lists@[last].name == name);
                assert(self.has_list(name));
                assert(!pre.has_list(name));
                assert(self.spec_list_index(name) == last) by {
                    let i = self.spec_list_index(name);
                    if i < last {
                        assert(pre.lists@[i].name == name);
                    }
                }
                assert(self.listening(name) =~= pre.listening(name).push(node));
                assert forall|other: EventName|
                    other != name implies #[trigger] self.listening(other) == pre.listening(
                    other,
                ) by {
                    if pre.has_list(other) {
                        let i = pre.spec_list_index(other);
                        assert(self.lists@[i].name == other);
                        assert(self.spec_list_index(other) == i);
                    } else {
                        if self.has_list(other) {
                            let i = self.spec_list_index(other);
                            assert(i < last ==> pre.lists@[i].name == other);
                        }
                    }
                }
            }
        }
    }

    /// The registry's ordered listener ids for `name`, as the external tree
    /// would hand them out.
    pub fn listening_sorted(&self, name: EventName) -> (r: Vec<NodeId>)
        requires
            self.wf(),
        ensures
            r@ == self.listening(name),
    {
        let n = self.lists.len();
        for i in 0..n
            invariant
                n == self.lists@.len(),
                self.wf(),
                forall|j: int| 0 <= j < i ==> (#[trigger] self.lists@[j]).name != name,
        {
            if self.lists[i].name == name {
                proof {
                    assert(self.has_list(name));
                    assert(self.spec_list_index(name) == i as int) by {
                        let w = self.spec_list_index(name);
                        assert(self.lists@[w].name == name);
                    }
                }
                return copy_ids(&self.lists[i].nodes);
            }
        }
        proof {
            assert(!self.has_list(name));
        }
        Vec::new()
    }
}

fn lists_name_eq(lists: &Vec<ListenerList>, at: usize, name: EventName) -> (r: bool)
    requires
        at < lists@.len(),
    ensures
        r == (lists@[at as int].name == name),
{
    lists[at].name == name
}

} // verus!
