//! How the links of a table of nodes chain a sequence of slots together.

use vstd::prelude::*;
use crate::node::{Link, Node};

verus! {

/// The first slot of `order`, if there is one.
pub open spec fn first_of(order: Seq<usize>) -> Link {
    if order.len() > 0 {
        Some(order[0])
    } else {
        None
    }
}

/// The last slot of `order`, if there is one.
pub open spec fn last_of(order: Seq<usize>) -> Link {
    if order.len() > 0 {
        Some(order[order.len() - 1])
    } else {
        None
    }
}

/// The slot at position `i` of `order`, or nothing when `i` is outside it.
pub open spec fn slot_at(order: Seq<usize>, i: int) -> Link {
    if 0 <= i < order.len() {
        Some(order[i])
    } else {
        None
    }
}

/// The node at position `i` of `order` lies in the table, and its two links
/// name exactly its neighbours in `order`.
pub open spec fn linked_at<T>(nodes: Seq<Node<T>>, order: Seq<usize>, i: int) -> bool {
    &&& order[i] < nodes.len()
    &&& nodes[order[i] as int].prev_link() == slot_at(order, i - 1)
    &&& nodes[order[i] as int].next_link() == slot_at(order, i + 1)
}

/// The links of `nodes` chain the slots of `order` together, in that order
/// and in both directions, and no slot occurs twice.
pub open spec fn chained<T>(nodes: Seq<Node<T>>, order: Seq<usize>) -> bool {
    &&& order.no_duplicates()
    &&& forall|i: int| 0 <= i < order.len() ==> #[trigger] linked_at(nodes, order, i)
}

/// What an operation may do to the table: it keeps its size and every
/// payload, and leaves the slots outside `within` exactly as they were.
pub open spec fn rewired<T>(before: Seq<Node<T>>, after: Seq<Node<T>>, within: Seq<usize>) -> bool {
    &&& after.len() == before.len()
    &&& forall|i: int| 0 <= i < before.len() ==> (#[trigger] after[i]).value() == before[i].value()
    &&& forall|i: int|
        0 <= i < before.len() && !within.contains(i as usize) ==> #[trigger] after[i] == before[i]
}

/// `after` is `before` with the payload of slot `at` replaced by `value`:
/// no link has changed.
pub open spec fn revalued<T>(before: Seq<Node<T>>, after: Seq<Node<T>>, at: int, value: T) -> bool {
    &&& after.len() == before.len()
    &&& forall|i: int| 0 <= i < before.len() && i != at ==> #[trigger] after[i] == before[i]
    &&& after[at].next_link() == before[at].next_link()
    &&& after[at].prev_link() == before[at].prev_link()
    &&& after[at].value() == value
}

/// The two nodes have the same links.
pub open spec fn same_links<T>(a: Node<T>, b: Node<T>) -> bool {
    a.next_link() == b.next_link() && a.prev_link() == b.prev_link()
}

/// Whether a table chains `order` depends on nothing but the links of the
/// slots of `order`. A table that keeps those links chains `order` too: the
/// caller may grow the table, change payloads, and rewire any slot that is
/// not in `order`.
pub proof fn lemma_chained_frame<T>(before: Seq<Node<T>>, after: Seq<Node<T>>, order: Seq<usize>)
    requires
        chained(before, order),
        forall|slot: int|
            0 <= slot < before.len() && order.contains(slot as usize) ==> slot < after.len()
                && same_links(before[slot], #[trigger] after[slot]),
    ensures
        chained(after, order),
{
    assert forall|i: int| 0 <= i < order.len() implies #[trigger] linked_at(after, order, i) by {
        assert(linked_at(before, order, i));
        assert(order.contains(order[i]));
        assert(same_links(before[order[i] as int], after[order[i] as int]));
    }
}

/// Replacing the payload of one slot never breaks a chain, whatever the new
/// payload is.
pub proof fn lemma_revalued_chained<T>(before: Seq<Node<T>>, order: Seq<usize>, at: int)
    requires
        chained(before, order),
        0 <= at < before.len(),
    ensures
        forall|after: Seq<Node<T>>|
            revalued(before, after, at, after[at].value()) ==> #[trigger] chained(after, order),
{
    assert forall|after: Seq<Node<T>>|
        revalued(before, after, at, after[at].value()) implies #[trigger] chained(after, order) by {
        lemma_chained_frame(before, after, order);
    }
}

/// Distinct slots below `n` are at most `n` many.
pub proof fn lemma_distinct_slots_bounded(order: Seq<usize>, n: nat)
    requires
        order.no_duplicates(),
        forall|i: int| 0 <= i < order.len() ==> order[i] < n,
    ensures
        order.len() <= n,
    decreases n,
{
    if order.len() > 0 {
        assert(order[0] < n);
        let top = (n - 1) as nat;
        if exists|j: int| 0 <= j < order.len() && order[j] == top {
            let j = choose|j: int| 0 <= j < order.len() && order[j] == top;
            let rest = order.remove(j);
            assert forall|i: int| 0 <= i < rest.len() implies rest[i] < top by {
                let k = if i < j { i } else { i + 1 };
                assert(rest[i] == order[k]);
                assert(order[k] != order[j]);
            }
            assert(rest.no_duplicates()) by {
                assert forall|a: int, b: int|
                    0 <= a < rest.len() && 0 <= b < rest.len() && a != b implies rest[a]
                    != rest[b] by {
                    let ka = if a < j { a } else { a + 1 };
                    let kb = if b < j { b } else { b + 1 };
                    assert(rest[a] == order[ka] && rest[b] == order[kb]);
                }
            }
            lemma_distinct_slots_bounded(rest, top);
        } else {
            lemma_distinct_slots_bounded(order, top);
        }
    }
}

/// The slots met by following `next` links, starting at `from` and going on
/// until a link is missing or `limit` slots have been met.
pub open spec fn forward_walk<T>(nodes: Seq<Node<T>>, from: Link, limit: nat) -> Seq<usize>
    decreases limit,
{
    match from {
        Some(slot) => if limit > 0 && slot < nodes.len() {
            seq![slot] + forward_walk(nodes, nodes[slot as int].next_link(), (limit - 1) as nat)
        } else {
            Seq::empty()
        },
        None => Seq::empty(),
    }
}

/// The slots met by following `prev` links, starting at `from` and going on
/// until a link is missing or `limit` slots have been met.
pub open spec fn backward_walk<T>(nodes: Seq<Node<T>>, from: Link, limit: nat) -> Seq<usize>
    decreases limit,
{
    match from {
        Some(slot) => if limit > 0 && slot < nodes.len() {
            seq![slot] + backward_walk(nodes, nodes[slot as int].prev_link(), (limit - 1) as nat)
        } else {
            Seq::empty()
        },
        None => Seq::empty(),
    }
}

/// From position `k` of a chain, the forward walk meets the rest of the chain.
proof fn lemma_forward_walk_from<T>(nodes: Seq<Node<T>>, order: Seq<usize>, k: int, limit: nat)
    requires
        chained(nodes, order),
        0 <= k <= order.len(),
        limit >= order.len() - k,
    ensures
        forward_walk(nodes, slot_at(order, k), limit) == order.subrange(k, order.len() as int),
    decreases order.len() - k,
{
    if k < order.len() {
        assert(linked_at(nodes, order, k));
        lemma_forward_walk_from(nodes, order, k + 1, (limit - 1) as nat);
        assert(seq![order[k]] + order.subrange(k + 1, order.len() as int) =~= order.subrange(
            k,
            order.len() as int,
        ));
    } else {
        assert(order.subrange(k, order.len() as int) =~= Seq::<usize>::empty());
    }
}

/// From position `k` of a chain, the backward walk meets the chain up to
/// `k`, last slot first.
proof fn lemma_backward_walk_from<T>(nodes: Seq<Node<T>>, order: Seq<usize>, k: int, limit: nat)
    requires
        chained(nodes, order),
        -1 <= k < order.len(),
        limit >= k + 1,
    ensures
        backward_walk(nodes, slot_at(order, k), limit) == order.subrange(0, k + 1).reverse(),
    decreases k + 1,
{
    if k >= 0 {
        assert(linked_at(nodes, order, k));
        lemma_backward_walk_from(nodes, order, k - 1, (limit - 1) as nat);
        assert(seq![order[k]] + order.subrange(0, k).reverse() =~= order.subrange(
            0,
            k + 1,
        ).reverse());
    } else {
        assert(order.subrange(0, k + 1).reverse() =~= Seq::<usize>::empty());
    }
}

/// Following `next` from the first slot of a chain meets exactly the slots
/// of the chain, in order, and following `prev` from the last slot meets
/// them in reverse order. Neither walk goes on after that, whatever `limit`
/// it is given.
pub proof fn lemma_walks_follow_chain<T>(nodes: Seq<Node<T>>, order: Seq<usize>, limit: nat)
    requires
        chained(nodes, order),
        limit >= order.len(),
    ensures
        forward_walk(nodes, first_of(order), limit) == order,
        backward_walk(nodes, last_of(order), limit) == order.reverse(),
{
    lemma_forward_walk_from(nodes, order, 0, limit);
    lemma_backward_walk_from(nodes, order, order.len() - 1, limit);
    assert(order.subrange(0, order.len() as int) =~= order);
}

} // verus!
