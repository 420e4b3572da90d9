//! The cursor: a position in a list, to move along it and to edit it in place.

use vstd::prelude::*;
use super::List;
use crate::chain::{
    lemma_distinct_slots_bounded, lemma_revalued_chained, linked_at, revalued, rewired, slot_at,
};
use crate::node::{Link, Node};

verus! {

/// Where a cursor at `pos` in a list of `len` nodes stands after one step
/// towards the back: from off the list at the front, from the last node off
/// the list.
pub open spec fn next_position(pos: Option<int>, len: nat) -> Option<int> {
    match pos {
        Some(i) => if i + 1 < len {
            Some(i + 1)
        } else {
            None
        },
        None => if len > 0 {
            Some(0)
        } else {
            None
        },
    }
}

/// Where a cursor at `pos` in a list of `len` nodes stands after one step
/// towards the front: from off the list at the back, from the first node
/// off the list.
pub open spec fn prev_position(pos: Option<int>, len: nat) -> Option<int> {
    match pos {
        Some(i) => if i > 0 {
            Some(i - 1)
        } else {
            None
        },
        None => if len > 0 {
            Some(len - 1)
        } else {
            None
        },
    }
}

/// Where a cursor stands after the node at position `i` of `len` has been
/// removed from under it: at the same position, which now holds the
/// successor, or off the list when the removed node was the last one.
pub open spec fn position_after_remove(i: int, len: nat) -> Option<int> {
    if i + 1 < len {
        Some(i)
    } else {
        None
    }
}

/// The slot under a cursor at `pos` in `order`.
pub open spec fn slot_under(order: Seq<usize>, pos: Option<int>) -> Link {
    match pos {
        Some(i) => slot_at(order, i),
        None => None,
    }
}

/// A position in a list that can move both ways, remove the node under it
/// and insert a node before it. The list is borrowed exclusively for as
/// long as the cursor lives.
///
/// A cursor is on one of the nodes or off the list. Off the list is a single
/// state: a cursor starts there, and gets there by moving past either end.
/// The index is kept only while the cursor is on a node, where it is the
/// position of that node; off the list there is none.
///
/// In a contract, `*cursor.list()` is the list as the cursor sees it now,
/// and `*final(cursor.list())` is the list as its owner gets it back. No
/// operation changes what the latter stands for.
pub struct CursorMut<'a, T> {
    idx: Option<usize>,
    current: Link,
    list: &'a mut List<T>,
}

impl<'a, T> CursorMut<'a, T> {
    /// The borrow of the list that the cursor holds.
    pub closed spec fn list(self) -> &'a mut List<T> {
        self.list
    }

    /// The 0-based position of the node under the cursor, or nothing when
    /// the cursor is off the list.
    pub closed spec fn position(self) -> Option<int> {
        match self.idx {
            Some(i) => Some(i as int),
            None => None,
        }
    }

    /// The link to the node under the cursor.
    pub closed spec fn current_link(self) -> Link {
        self.current
    }

    /// The list is consistent with `nodes`, and the cursor is either off the
    /// list, with no current node, or at a position of the list, with the
    /// node at that position as its current node.
    pub open spec fn wf(self, nodes: Seq<Node<T>>) -> bool {
        &&& self.list().wf(nodes)
        &&& self.position() matches Some(i) ==> 0 <= i < self.list()@.len()
        &&& self.current_link() == slot_under(self.list()@, self.position())
    }

    /// Once the cursor is no longer used, the list is what the cursor last
    /// saw. To be called after the last use of the cursor, before the list
    /// is used again.
    pub proof fn lemma_released(self)
        requires
            has_resolved(self),
        ensures
            *final(self.list()) == *self.list(),
    {
    }

    /// A cursor that holds `list` and is off the list.
    pub(super) fn new(list: &'a mut List<T>) -> (cursor: Self)
        ensures
            *cursor.list() == *old(list),
            *final(cursor.list()) == *final(list),
            cursor.position() is None,
            cursor.current_link() is None,
    {
        CursorMut { idx: None, current: None, list }
    }

    /// Moves one node towards the back. From off the list the cursor goes to
    /// the front, and from the last node off the list. On an empty list it
    /// stays off the list.
    pub fn move_next(&mut self, nodes: &Vec<Node<T>>)
        requires
            old(self).wf(nodes@),
        ensures
            final(self).wf(nodes@),
            *final(self).list() == *old(self).list(),
            *final(final(self).list()) == *final(old(self).list()),
            final(self).position() == next_position(
                old(self).position(),
                old(self).list()@.len(),
            ),
    {
        proof {
            use_type_invariant(&*self.list);
        }
        match (self.current, self.idx) {
            (Some(node), Some(i)) => {
                assert(linked_at(nodes@, self.list@, i as int));
                self.current = nodes[node].next();
                self.idx = if self.current.is_some() {
                    Some(i + 1)
                } else {
                    None
                };
            },
            _ => {
                self.current = self.list.front;
                self.idx = if self.current.is_some() {
                    Some(0)
                } else {
                    None
                };
            },
        }
    }

    /// Moves one node towards the front. From off the list the cursor goes
    /// to the back, and from the first node off the list. On an empty list
    /// it stays off the list.
    pub fn move_prev(&mut self, nodes: &Vec<Node<T>>)
        requires
            old(self).wf(nodes@),
        ensures
            final(self).wf(nodes@),
            *final(self).list() == *old(self).list(),
            *final(final(self).list()) == *final(old(self).list()),
            final(self).position() == prev_position(
                old(self).position(),
                old(self).list()@.len(),
            ),
    {
        proof {
            use_type_invariant(&*self.list);
        }
        match (self.current, self.idx) {
            (Some(node), Some(i)) => {
                assert(linked_at(nodes@, self.list@, i as int));
                self.current = nodes[node].prev();
                self.idx = if self.current.is_some() {
                    Some(i - 1)
                } else {
                    None
                };
            },
            _ => {
                self.current = self.list.back;
                self.idx = if self.current.is_some() {
                    Some(self.list.len() - 1)
                } else {
                    None
                };
            },
        }
    }

    /// The element under the cursor, to be changed in place, or nothing when
    /// the cursor is off the list. Neither the cursor nor a link changes.
    pub fn current_value<'b>(&mut self, nodes: &'b mut Vec<Node<T>>) -> (val: Option<&'b mut T>)
        requires
            old(self).wf(old(nodes)@),
        ensures
            *final(self) == *old(self),
            match val {
                Some(v) => old(self).current_link() matches Some(slot) && *v == old(
                    nodes,
                )@[slot as int].value() && revalued(
                    old(nodes)@,
                    final(nodes)@,
                    slot as int,
                    *final(v),
                ),
                None => old(self).current_link() is None && final(nodes)@ == old(nodes)@,
            },
            final(self).wf(final(nodes)@),
    {
        match (self.current, self.idx) {
            (Some(slot), Some(i)) => {
                proof {
                    assert(linked_at(nodes@, self.list@, i as int));
                    lemma_revalued_chained(nodes@, self.list@, slot as int);
                }
                Some(nodes[slot].elem_mut())
            },
            _ => None,
        }
    }

    /// Detaches the node under the cursor and returns its slot. The cursor
    /// goes to the node that followed, which takes over the position, or
    /// off the list when none followed. The detached node is left without
    /// links. Off the list nothing happens and nothing is returned.
    pub fn remove(&mut self, nodes: &mut Vec<Node<T>>) -> (removed: Link)
        requires
            old(self).wf(old(nodes)@),
        ensures
            final(self).wf(final(nodes)@),
            *final(final(self).list()) == *final(old(self).list()),
            removed == old(self).current_link(),
            rewired(old(nodes)@, final(nodes)@, old(self).list()@),
            match old(self).position() {
                Some(i) => final(self).list()@ == old(self).list()@.remove(i)
                    && final(self).position() == position_after_remove(
                    i,
                    old(self).list()@.len(),
                ) && final(nodes)@[old(self).list()@[i] as int].detached(),
                None => *final(self).list() == *old(self).list() && final(nodes)@ == old(nodes)@
                    && final(self).position() is None,
            },
    {
        let link_current = self.current;
        match (link_current, self.idx) {
            (Some(slot), Some(at)) => {
                let ghost order = self.list@;
                let ghost table = nodes@;
                let ghost i = at as int;
                proof {
                    use_type_invariant(&*self.list);
                    assert(linked_at(table, order, i));
                }
                self.move_next(nodes);
                // The successor slides into the place of the node that goes.
                self.idx = match self.idx {
                    Some(x) => Some(x - 1),
                    None => None,
                };
                match (nodes[slot].prev(), nodes[slot].next()) {
                    (None, None) => self.list.pop_front(nodes),
                    (None, Some(_)) => self.list.pop_front(nodes),
                    (Some(_), None) => self.list.pop_back(nodes),
                    (Some(p), Some(n)) => {
                        let ghost spliced = order.remove(i);
                        proof {
                            assert(linked_at(table, order, i - 1));
                            assert(linked_at(table, order, i + 1));
                        }
                        nodes[p].set_next(Some(n));
                        nodes[n].set_prev(Some(p));
                        nodes[slot].set_prev(None);
                        nodes[slot].set_next(None);
                        proof {
                            assert forall|k: int|
                                0 <= k < spliced.len() implies #[trigger] linked_at(
                                nodes@,
                                spliced,
                                k,
                            ) by {
                                if k < i {
                                    assert(linked_at(table, order, k));
                                } else {
                                    assert(linked_at(table, order, k + 1));
                                }
                            }
                            assert(order[i - 1] == p && order[i] == slot && order[i + 1] == n);
                        }
                        *self.list = List {
                            len: self.list.len - 1,
                            order: Ghost(spliced),
                            ..*self.list
                        };
                        link_current
                    },
                }
            },
            _ => None,
        }
    }

    /// Links the node in slot `node` right before the node under the cursor.
    /// The cursor stays on its node, whose position grows by one. Off the
    /// list there is no place before the cursor, and nothing happens.
    ///
    /// The node may be any node of the table that is not in the list.
    /// Whatever links it held are overwritten.
    pub fn insert_before(&mut self, nodes: &mut Vec<Node<T>>, node: usize)
        requires
            old(self).wf(old(nodes)@),
            old(self).position() is Some ==> node < old(nodes).len() && !old(
                self,
            ).list()@.contains(node),
        ensures
            final(self).wf(final(nodes)@),
            *final(final(self).list()) == *final(old(self).list()),
            rewired(old(nodes)@, final(nodes)@, final(self).list()@),
            match old(self).position() {
                Some(i) => final(self).list()@ == old(self).list()@.insert(i, node)
                    && final(self).position() == Some(i + 1),
                None => *final(self).list() == *old(self).list() && final(nodes)@ == old(nodes)@
                    && final(self).position() is None,
            },
    {
        match (self.current, self.idx) {
            (Some(slot), Some(at)) => {
                let ghost order = self.list@;
                let ghost table = nodes@;
                let ghost i = at as int;
                let ghost grown = order.insert(i, node);
                proof {
                    use_type_invariant(&*self.list);
                    assert(linked_at(table, order, i));
                    assert(grown.no_duplicates()) by {
                        assert forall|a: int, b: int|
                            0 <= a < grown.len() && 0 <= b < grown.len() && a != b implies grown[a]
                            != grown[b] by {
                            let ka = if a < i { a } else { a - 1 };
                            let kb = if b < i { b } else { b - 1 };
                            if a != i {
                                assert(grown[a] == order[ka]);
                            }
                            if b != i {
                                assert(grown[b] == order[kb]);
                            }
                        }
                    }
                    assert forall|k: int| 0 <= k < grown.len() implies grown[k] < table.len() by {
                        if k < i {
                            assert(linked_at(table, order, k));
                        } else if k > i {
                            assert(linked_at(table, order, k - 1));
                        }
                    }
                    lemma_distinct_slots_bounded(grown, table.len());
                }
                if let Some(before) = nodes[slot].prev() {
                    proof {
                        assert(linked_at(table, order, i - 1));
                    }
                    nodes[before].set_next(Some(node));
                    nodes[slot].set_prev(Some(node));
                    nodes[node].set_prev(Some(before));
                    nodes[node].set_next(Some(slot));
                    proof {
                        assert forall|k: int| 0 <= k < grown.len() implies #[trigger] linked_at(
                            nodes@,
                            grown,
                            k,
                        ) by {
                            if k < i {
                                assert(linked_at(table, order, k));
                            } else if k > i {
                                assert(linked_at(table, order, k - 1));
                            }
                        }
                        assert(grown[i - 1] == before && grown[i] == node && grown[i + 1] == slot);
                    }
                    *self.list = List {
                        len: self.list.len + 1,
                        order: Ghost(grown),
                        ..*self.list
                    };
                } else {
                    self.list.push_front(nodes, node);
                }
                self.idx = Some(at + 1);
            },
            _ => {},
        }
    }
}

} // verus!
