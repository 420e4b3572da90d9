//! The list: the links to its two ends and a count, over a table of nodes.

use std::marker::PhantomData;
use vstd::prelude::*;
use crate::chain::{
    backward_walk, chained, first_of, forward_walk, last_of, lemma_distinct_slots_bounded,
    lemma_revalued_chained, lemma_walks_follow_chain, linked_at, revalued, rewired,
};
use crate::node::{Link, Node};

pub mod cursor;

use cursor::CursorMut;

verus! {

/// The view of a list after its front has been popped: without its first
/// slot, or as it was when it held none.
pub open spec fn after_pop_front(order: Seq<usize>) -> Seq<usize> {
    if order.len() > 0 {
        order.drop_first()
    } else {
        order
    }
}

/// The view of a list after its back has been popped: without its last
/// slot, or as it was when it held none.
pub open spec fn after_pop_back(order: Seq<usize>) -> Seq<usize> {
    if order.len() > 0 {
        order.drop_last()
    } else {
        order
    }
}

/// An intrusive doubly linked list.
///
/// The list holds the links to its two end nodes and a count. The nodes
/// themselves stay in the caller's table, which every operation that
/// follows a link is handed. The order of the nodes is kept as ghost state
/// beside them: it is the view of the list.
pub struct List<T> {
    front: Link,
    back: Link,
    len: usize,
    order: Ghost<Seq<usize>>,
    _phantom: PhantomData<T>,
}

impl<T> View for List<T> {
    type V = Seq<usize>;

    /// The slots of the linked nodes, front to back.
    closed spec fn view(&self) -> Seq<usize> {
        self.order@
    }
}

impl<T> List<T> {
    /// The count is the number of linked nodes.
    #[verifier::type_invariant]
    spec fn counts(self) -> bool {
        self.len == self.order@.len()
    }

    /// The link to the head node.
    pub closed spec fn front_link(self) -> Link {
        self.front
    }

    /// The link to the tail node.
    pub closed spec fn back_link(self) -> Link {
        self.back
    }

    /// The list is consistent with the table `nodes`: its two end links name
    /// the first and the last slot of its view, so that both are missing
    /// exactly when the list is empty, and the links in `nodes` chain the
    /// slots of the view together, each of them once.
    pub open spec fn wf(self, nodes: Seq<Node<T>>) -> bool {
        &&& self.front_link() == first_of(self@)
        &&& self.back_link() == last_of(self@)
        &&& chained(nodes, self@)
    }

    /// Walking `next` from the front of a well-formed list meets exactly its
    /// nodes, front to back, and walking `prev` from its back meets them
    /// back to front. Both walks stop there, however far they are allowed to
    /// go, so both count as many nodes as `len` reports.
    pub proof fn lemma_walks_count_len(self, nodes: Seq<Node<T>>, limit: nat)
        requires
            self.wf(nodes),
            limit >= self@.len(),
        ensures
            forward_walk(nodes, self.front_link(), limit) == self@,
            backward_walk(nodes, self.back_link(), limit) == self@.reverse(),
            forward_walk(nodes, self.front_link(), limit).len() == self@.len(),
            backward_walk(nodes, self.back_link(), limit).len() == self@.len(),
    {
        lemma_walks_follow_chain(nodes, self@, limit);
    }

    /// An empty list, well formed over every table.
    pub fn new() -> (list: Self)
        ensures
            list@ == Seq::<usize>::empty(),
            forall|nodes: Seq<Node<T>>| #[trigger] list.wf(nodes),
    {
        List { front: None, back: None, len: 0, order: Ghost(Seq::empty()), _phantom: PhantomData }
    }

    /// The number of linked nodes.
    pub fn len(&self) -> (n: usize)
        ensures
            n == self@.len(),
    {
        proof {
            use_type_invariant(self);
        }
        self.len
    }

    /// Whether no node is linked.
    pub fn empty(&self) -> (e: bool)
        ensures
            e <==> self@.len() == 0,
    {
        proof {
            use_type_invariant(self);
        }
        self.len == 0
    }

    /// Links the node in slot `node` as the new head.
    ///
    /// The node may be any node of the table that is not in the list.
    /// Whatever links it held are overwritten.
    pub fn push_front(&mut self, nodes: &mut Vec<Node<T>>, node: usize)
        requires
            old(self).wf(old(nodes)@),
            node < old(nodes).len(),
            !old(self)@.contains(node),
        ensures
            final(self).wf(final(nodes)@),
            final(self)@ == seq![node] + old(self)@,
            rewired(old(nodes)@, final(nodes)@, final(self)@),
    {
        let ghost before = self.order@;
        let ghost table = nodes@;
        let ghost order = seq![node] + before;
        proof {
            use_type_invariant(&*self);
            assert forall|i: int| 0 <= i < order.len() implies order[i] < table.len() by {
                if i > 0 {
                    assert(linked_at(table, before, i - 1));
                }
            }
            lemma_distinct_slots_bounded(order, table.len());
        }
        nodes[node].set_prev(None);
        if let Some(old_front) = self.front {
            assert(linked_at(table, before, 0));
            nodes[node].set_next(Some(old_front));
            nodes[old_front].set_prev(Some(node));
        } else {
            nodes[node].set_next(None);
            self.back = Some(node);
        }
        self.front = Some(node);
        proof {
            assert forall|i: int| 0 <= i < order.len() implies #[trigger] linked_at(
                nodes@,
                order,
                i,
            ) by {
                if i > 0 {
                    assert(linked_at(table, before, i - 1));
                }
            }
            assert(order[0] == node);
            assert(before.len() > 0 ==> order[1] == before[0]);
        }
        *self = List { len: self.len + 1, order: Ghost(order), ..*self };
    }

    /// Links the node in slot `node` as the new tail.
    ///
    /// The node may be any node of the table that is not in the list.
    /// Whatever links it held are overwritten.
    pub fn push_back(&mut self, nodes: &mut Vec<Node<T>>, node: usize)
        requires
            old(self).wf(old(nodes)@),
            node < old(nodes).len(),
            !old(self)@.contains(node),
        ensures
            final(self).wf(final(nodes)@),
            final(self)@ == old(self)@.push(node),
            rewired(old(nodes)@, final(nodes)@, final(self)@),
    {
        let ghost before = self.order@;
        let ghost table = nodes@;
        let ghost order = before.push(node);
        proof {
            use_type_invariant(&*self);
            assert forall|i: int| 0 <= i < order.len() implies order[i] < table.len() by {
                if i < before.len() {
                    assert(linked_at(table, before, i));
                }
            }
            lemma_distinct_slots_bounded(order, table.len());
        }
        nodes[node].set_next(None);
        if let Some(old_back) = self.back {
            assert(linked_at(table, before, before.len() - 1));
            nodes[node].set_prev(Some(old_back));
            nodes[old_back].set_next(Some(node));
        } else {
            nodes[node].set_prev(None);
            self.front = Some(node);
        }
        self.back = Some(node);
        proof {
            assert forall|i: int| 0 <= i < order.len() implies #[trigger] linked_at(
                nodes@,
                order,
                i,
            ) by {
                if i < before.len() {
                    assert(linked_at(table, before, i));
                }
            }
            assert(order[before.len() as int] == node);
            assert(before.len() > 0 ==> order[before.len() - 1] == before[before.len() - 1]);
        }
        *self = List { len: self.len + 1, order: Ghost(order), ..*self };
    }

    /// Detaches the head and returns its slot, or returns nothing and
    /// changes nothing when the list is empty. The detached node is left
    /// without links.
    pub fn pop_front(&mut self, nodes: &mut Vec<Node<T>>) -> (popped: Link)
        requires
            old(self).wf(old(nodes)@),
        ensures
            final(self).wf(final(nodes)@),
            popped == first_of(old(self)@),
            final(self)@ == after_pop_front(old(self)@),
            rewired(old(nodes)@, final(nodes)@, old(self)@),
            match popped {
                Some(slot) => final(nodes)@[slot as int].detached(),
                None => final(nodes)@ == old(nodes)@,
            },
    {
        let ghost before = self.order@;
        let ghost table = nodes@;
        proof {
            use_type_invariant(&*self);
        }
        match self.front {
            None => None,
            Some(old_front) => {
                let ghost order = before.drop_first();
                assert(linked_at(table, before, 0));
                let next = nodes[old_front].next();
                nodes[old_front].set_next(None);
                if let Some(new_front) = next {
                    assert(linked_at(table, before, 1));
                    nodes[new_front].set_prev(None);
                } else {
                    self.back = None;
                }
                self.front = next;
                proof {
                    assert forall|i: int| 0 <= i < order.len() implies #[trigger] linked_at(
                        nodes@,
                        order,
                        i,
                    ) by {
                        assert(linked_at(table, before, i + 1));
                    }
                }
                *self = List { len: self.len - 1, order: Ghost(order), ..*self };
                Some(old_front)
            },
        }
    }

    /// Detaches the tail and returns its slot, or returns nothing and
    /// changes nothing when the list is empty. The detached node is left
    /// without links.
    pub fn pop_back(&mut self, nodes: &mut Vec<Node<T>>) -> (popped: Link)
        requires
            old(self).wf(old(nodes)@),
        ensures
            final(self).wf(final(nodes)@),
            popped == last_of(old(self)@),
            final(self)@ == after_pop_back(old(self)@),
            rewired(old(nodes)@, final(nodes)@, old(self)@),
            match popped {
                Some(slot) => final(nodes)@[slot as int].detached(),
                None => final(nodes)@ == old(nodes)@,
            },
    {
        let ghost before = self.order@;
        let ghost table = nodes@;
        proof {
            use_type_invariant(&*self);
        }
        match self.back {
            None => None,
            Some(old_back) => {
                let ghost order = before.drop_last();
                assert(linked_at(table, before, before.len() - 1));
                let prev = nodes[old_back].prev();
                nodes[old_back].set_prev(None);
                if let Some(new_back) = prev {
                    assert(linked_at(table, before, before.len() - 2));
                    nodes[new_back].set_next(None);
                } else {
                    self.front = None;
                }
                self.back = prev;
                proof {
                    assert forall|i: int| 0 <= i < order.len() implies #[trigger] linked_at(
                        nodes@,
                        order,
                        i,
                    ) by {
                        assert(linked_at(table, before, i));
                    }
                }
                *self = List { len: self.len - 1, order: Ghost(order), ..*self };
                Some(old_back)
            },
        }
    }

    /// The element of the head, which stays linked.
    pub fn front_val<'a>(&self, nodes: &'a Vec<Node<T>>) -> (val: Option<&'a T>)
        requires
            self.wf(nodes@),
        ensures
            match val {
                Some(v) => first_of(self@) matches Some(slot) && *v == nodes@[slot as int].value(),
                None => first_of(self@) is None,
            },
    {
        match self.front {
            Some(slot) => {
                assert(linked_at(nodes@, self@, 0));
                Some(nodes[slot].elem())
            },
            None => None,
        }
    }

    /// The element of the head, to be changed in place. The list and every
    /// link stay as they are.
    pub fn front_val_mut<'a>(&mut self, nodes: &'a mut Vec<Node<T>>) -> (val: Option<&'a mut T>)
        requires
            old(self).wf(old(nodes)@),
        ensures
            *final(self) == *old(self),
            match val {
                Some(v) => first_of(old(self)@) matches Some(slot) && *v == old(
                    nodes,
                )@[slot as int].value() && revalued(
                    old(nodes)@,
                    final(nodes)@,
                    slot as int,
                    *final(v),
                ),
                None => first_of(old(self)@) is None && final(nodes)@ == old(nodes)@,
            },
            final(self).wf(final(nodes)@),
    {
        match self.front {
            Some(slot) => {
                proof {
                    assert(linked_at(nodes@, self@, 0));
                    lemma_revalued_chained(nodes@, self@, slot as int);
                }
                Some(nodes[slot].elem_mut())
            },
            None => None,
        }
    }

    /// The element of the tail, which stays linked.
    pub fn back_val<'a>(&self, nodes: &'a Vec<Node<T>>) -> (val: Option<&'a T>)
        requires
            self.wf(nodes@),
        ensures
            match val {
                Some(v) => last_of(self@) matches Some(slot) && *v == nodes@[slot as int].value(),
                None => last_of(self@) is None,
            },
    {
        match self.back {
            Some(slot) => {
                assert(linked_at(nodes@, self@, self@.len() - 1));
                Some(nodes[slot].elem())
            },
            None => None,
        }
    }

    /// The element of the tail, to be changed in place. The list and every
    /// link stay as they are.
    pub fn back_val_mut<'a>(&mut self, nodes: &'a mut Vec<Node<T>>) -> (val: Option<&'a mut T>)
        requires
            old(self).wf(old(nodes)@),
        ensures
            *final(self) == *old(self),
            match val {
                Some(v) => last_of(old(self)@) matches Some(slot) && *v == old(
                    nodes,
                )@[slot as int].value() && revalued(
                    old(nodes)@,
                    final(nodes)@,
                    slot as int,
                    *final(v),
                ),
                None => last_of(old(self)@) is None && final(nodes)@ == old(nodes)@,
            },
            final(self).wf(final(nodes)@),
    {
        match self.back {
            Some(slot) => {
                proof {
                    assert(linked_at(nodes@, self@, self@.len() - 1));
                    lemma_revalued_chained(nodes@, self@, slot as int);
                }
                Some(nodes[slot].elem_mut())
            },
            None => None,
        }
    }

    /// A cursor over the list, off the list to begin with. It holds the
    /// list until it is dropped.
    pub fn cursor_mut<'a>(&'a mut self) -> (cursor: CursorMut<'a, T>)
        ensures
            *cursor.list() == *old(self),
            *final(cursor.list()) == *final(self),
            cursor.position() is None,
            cursor.current_link() is None,
    {
        CursorMut::new(self)
    }
}

} // verus!
