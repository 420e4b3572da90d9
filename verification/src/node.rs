//! The node of an intrusive list: a payload and two non-owning links.

use vstd::prelude::*;

verus! {

/// A non-owning reference to a node: its slot in the caller's table, or
/// nothing at a boundary of the list.
pub type Link = Option<usize>;

/// One element together with the links to its neighbours.
///
/// A node is made and dropped by the caller. A list only rewrites its two
/// links and never touches the element.
pub struct Node<T> {
    next: Link,
    prev: Link,
    elem: T,
}

impl<T> Node<T> {
    /// The link to the following node.
    pub closed spec fn next_link(self) -> Link {
        self.next
    }

    /// The link to the preceding node.
    pub closed spec fn prev_link(self) -> Link {
        self.prev
    }

    /// The element.
    pub closed spec fn value(self) -> T {
        self.elem
    }

    /// Neither link is set.
    pub open spec fn detached(self) -> bool {
        self.next_link() is None && self.prev_link() is None
    }

    /// A node is no more than its element and its two links: what fixes
    /// these three fixes the node.
    pub proof fn lemma_ext(self, other: Self)
        requires
            self.next_link() == other.next_link(),
            self.prev_link() == other.prev_link(),
            self.value() == other.value(),
        ensures
            self == other,
    {
    }

    /// A node that holds `data` and is linked to nothing.
    pub fn new(data: T) -> (node: Self)
        ensures
            node.detached(),
            node.value() == data,
    {
        Node { next: None, prev: None, elem: data }
    }

    /// The element.
    pub fn elem(&self) -> (e: &T)
        ensures
            *e == self.value(),
    {
        &self.elem
    }

    /// The element, to be changed in place. The links stay as they are.
    pub fn elem_mut(&mut self) -> (e: &mut T)
        ensures
            *e == old(self).value(),
            final(self).value() == *final(e),
            final(self).next_link() == old(self).next_link(),
            final(self).prev_link() == old(self).prev_link(),
    {
        &mut self.elem
    }

    pub(crate) fn next(&self) -> (link: Link)
        ensures
            link == self.next_link(),
    {
        self.next
    }

    pub(crate) fn prev(&self) -> (link: Link)
        ensures
            link == self.prev_link(),
    {
        self.prev
    }

    pub(crate) fn set_next(&mut self, link: Link)
        ensures
            final(self).next_link() == link,
            final(self).prev_link() == old(self).prev_link(),
            final(self).value() == old(self).value(),
    {
        self.next = link;
    }

    pub(crate) fn set_prev(&mut self, link: Link)
        ensures
            final(self).prev_link() == link,
            final(self).next_link() == old(self).next_link(),
            final(self).value() == old(self).value(),
    {
        self.prev = link;
    }
}

} // verus!
