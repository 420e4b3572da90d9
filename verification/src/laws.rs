//! What holds of whole runs of operations, stated over the views of the
//! list and the positions of the cursor.

use vstd::prelude::*;
use crate::chain::{first_of, last_of};
use crate::list::cursor::{next_position, position_after_remove, slot_under};
use crate::list::{after_pop_back, after_pop_front};

verus! {

/// The view of a list after the slots of `pushed` have been pushed to its
/// front, the first of them first.
pub open spec fn push_front_all(order: Seq<usize>, pushed: Seq<usize>) -> Seq<usize>
    decreases pushed.len(),
{
    if pushed.len() == 0 {
        order
    } else {
        push_front_all(seq![pushed[0]] + order, pushed.drop_first())
    }
}

/// The slots that come out of a list when its back is popped until nothing
/// is left, in the order in which they come out.
pub open spec fn pop_back_all(order: Seq<usize>) -> Seq<usize>
    decreases order.len(),
{
    match last_of(order) {
        Some(slot) => seq![slot] + pop_back_all(after_pop_back(order)),
        None => Seq::empty(),
    }
}

proof fn lemma_push_front_all_reverses(order: Seq<usize>, pushed: Seq<usize>)
    ensures
        push_front_all(order, pushed) == pushed.reverse() + order,
    decreases pushed.len(),
{
    if pushed.len() > 0 {
        let rest = pushed.drop_first();
        lemma_push_front_all_reverses(seq![pushed[0]] + order, rest);
        assert(rest.reverse() + (seq![pushed[0]] + order) =~= pushed.reverse() + order);
    } else {
        assert(pushed.reverse() + order =~= order);
    }
}

proof fn lemma_pop_back_all_reverses(order: Seq<usize>)
    ensures
        pop_back_all(order) == order.reverse(),
    decreases order.len(),
{
    if order.len() > 0 {
        lemma_pop_back_all_reverses(order.drop_last());
        assert(seq![order.last()] + order.drop_last().reverse() =~= order.reverse());
    } else {
        assert(order.reverse() =~= Seq::<usize>::empty());
    }
}

/// Nodes pushed to the front of an empty list, one after another, come out
/// of its back in the order in which they went in, and there are as many
/// of them: from one end the list is a stack, from end to end a queue.
pub proof fn lemma_front_in_back_out(pushed: Seq<usize>)
    ensures
        pop_back_all(push_front_all(Seq::empty(), pushed)) == pushed,
        push_front_all(Seq::empty(), pushed).len() == pushed.len(),
{
    let filled = push_front_all(Seq::empty(), pushed);
    lemma_push_front_all_reverses(Seq::empty(), pushed);
    lemma_pop_back_all_reverses(filled);
    assert(filled =~= pushed.reverse());
    assert(pushed.reverse().reverse() =~= pushed);
}

/// The view of a list after one pop for each entry of `at_front`, in that
/// order: a pop of the front where the entry is set, of the back where it is
/// not.
pub open spec fn after_pops(order: Seq<usize>, at_front: Seq<bool>) -> Seq<usize>
    decreases at_front.len(),
{
    if at_front.len() == 0 {
        order
    } else {
        let so_far = after_pops(order, at_front.drop_last());
        if at_front.last() {
            after_pop_front(so_far)
        } else {
            after_pop_back(so_far)
        }
    }
}

/// Popping an empty list changes nothing, at whichever ends and however
/// often: the list stays empty, and the next pop, at either end, gives
/// nothing again.
pub proof fn lemma_pops_on_empty(at_front: Seq<bool>)
    ensures
        after_pops(Seq::empty(), at_front) == Seq::<usize>::empty(),
        first_of(after_pops(Seq::empty(), at_front)) is None,
        last_of(after_pops(Seq::empty(), at_front)) is None,
    decreases at_front.len(),
{
    if at_front.len() > 0 {
        lemma_pops_on_empty(at_front.drop_last());
    }
}

/// Where a cursor that started at `pos` stands after `steps` calls of
/// `move_next` on a list of `len` nodes.
pub open spec fn after_moves_next(pos: Option<int>, len: nat, steps: nat) -> Option<int>
    decreases steps,
{
    if steps == 0 {
        pos
    } else {
        next_position(after_moves_next(pos, len, (steps - 1) as nat), len)
    }
}

/// From off the list, the `k`-th call of `move_next` puts the cursor on the
/// `k`-th node from the front, for every `k` up to the length of the list,
/// and the call after that takes the cursor off the list again. Where no
/// slot is twice in the list, no node is visited twice.
pub proof fn lemma_traversal_complete(order: Seq<usize>)
    ensures
        forall|k: nat|
            1 <= k <= order.len() ==> #[trigger] after_moves_next(None, order.len(), k) == Some(
                k - 1,
            ),
        forall|k: nat|
            1 <= k <= order.len() ==> slot_under(
                order,
                #[trigger] after_moves_next(None, order.len(), k),
            ) == Some(order[k - 1]),
        after_moves_next(None, order.len(), order.len() + 1) is None,
        order.no_duplicates() ==> forall|j: nat, k: nat|
            1 <= j < k <= order.len() ==> slot_under(
                order,
                #[trigger] after_moves_next(None, order.len(), j),
            ) != slot_under(order, #[trigger] after_moves_next(None, order.len(), k)),
{
    let len = order.len();
    assert forall|k: nat| 1 <= k <= len implies #[trigger] after_moves_next(None, len, k) == Some(
        k - 1,
    ) by {
        lemma_moves_next_from_off(len, k);
    }
    if len > 0 {
        lemma_moves_next_from_off(len, len);
    }
    assert(after_moves_next(None, len, len + 1) == next_position(
        after_moves_next(None, len, len),
        len,
    ));
}

proof fn lemma_moves_next_from_off(len: nat, k: nat)
    requires
        1 <= k <= len,
    ensures
        after_moves_next(None, len, k) == Some(k - 1),
    decreases k,
{
    if k > 1 {
        lemma_moves_next_from_off(len, (k - 1) as nat);
    } else {
        assert(after_moves_next(None, len, 0) == None::<int>);
    }
}

/// The slots that a cursor at `pos` hands out when `remove` is called until
/// the cursor is off the list, in the order in which they come.
pub open spec fn removed_until_off(order: Seq<usize>, pos: Option<int>) -> Seq<usize>
    decreases order.len(),
{
    match pos {
        Some(i) => if 0 <= i < order.len() {
            seq![order[i]] + removed_until_off(
                order.remove(i),
                position_after_remove(i, order.len()),
            )
        } else {
            Seq::empty()
        },
        None => Seq::empty(),
    }
}

/// The view that is left when a cursor at `pos` has called `remove` until
/// it is off the list.
pub open spec fn left_until_off(order: Seq<usize>, pos: Option<int>) -> Seq<usize>
    decreases order.len(),
{
    match pos {
        Some(i) => if 0 <= i < order.len() {
            left_until_off(order.remove(i), position_after_remove(i, order.len()))
        } else {
            order
        },
        None => order,
    }
}

/// Removing until the cursor is off the list hands out every node from the
/// cursor's position to the back, each once and in list order, and leaves
/// the nodes before that position as they were. What was removed and what
/// is left together count as many as the list held. From the front, the
/// whole list is removed.
pub proof fn lemma_remove_until_off(order: Seq<usize>, i: int)
    requires
        0 <= i < order.len(),
    ensures
        removed_until_off(order, Some(i)) == order.subrange(i, order.len() as int),
        left_until_off(order, Some(i)) == order.subrange(0, i),
        removed_until_off(order, Some(i)).len() + left_until_off(order, Some(i)).len()
            == order.len(),
        i == 0 ==> removed_until_off(order, Some(i)) == order && left_until_off(order, Some(i))
            == Seq::<usize>::empty(),
    decreases order.len() - i,
{
    let len = order.len() as int;
    let rest = order.remove(i);
    let next = position_after_remove(i, order.len());
    assert(removed_until_off(order, Some(i)) == seq![order[i]] + removed_until_off(rest, next));
    assert(left_until_off(order, Some(i)) == left_until_off(rest, next));
    if i + 1 < len {
        lemma_remove_until_off(rest, i);
        assert(rest.subrange(i, len - 1) =~= order.subrange(i + 1, len));
        assert(seq![order[i]] + order.subrange(i + 1, len) =~= order.subrange(i, len));
        assert(rest.subrange(0, i) =~= order.subrange(0, i));
    } else {
        assert(removed_until_off(rest, next) == Seq::<usize>::empty());
        assert(left_until_off(rest, next) == rest);
        assert(seq![order[i]] + Seq::<usize>::empty() =~= order.subrange(i, len));
        assert(rest =~= order.subrange(0, i));
    }
    if i == 0 {
        assert(order.subrange(0, len) =~= order);
        assert(order.subrange(0, 0) =~= Seq::<usize>::empty());
    }
}

/// The view of a list after the slots of `inserted` have been put before a
/// cursor that stood at position `i`, the first of them first.
pub open spec fn insert_all_before(order: Seq<usize>, i: int, inserted: Seq<usize>) -> Seq<usize>
    decreases inserted.len(),
{
    if inserted.len() == 0 {
        order
    } else {
        insert_all_before(order.insert(i, inserted[0]), i + 1, inserted.drop_first())
    }
}

/// After any number of insertions before the cursor the list is longer by
/// exactly that number: the new nodes stand in the order of their insertion
/// right before the node under the cursor, and every other node keeps its
/// place among the others.
pub proof fn lemma_insert_all_before(order: Seq<usize>, i: int, inserted: Seq<usize>)
    requires
        0 <= i < order.len(),
    ensures
        insert_all_before(order, i, inserted).len() == order.len() + inserted.len(),
        insert_all_before(order, i, inserted) == order.subrange(0, i) + inserted + order.subrange(
            i,
            order.len() as int,
        ),
    decreases inserted.len(),
{
    let len = order.len() as int;
    if inserted.len() > 0 {
        let grown = order.insert(i, inserted[0]);
        let rest = inserted.drop_first();
        lemma_insert_all_before(grown, i + 1, rest);
        assert(grown.subrange(0, i + 1) =~= order.subrange(0, i) + seq![inserted[0]]);
        assert(grown.subrange(i + 1, len + 1) =~= order.subrange(i, len));
        assert(order.subrange(0, i) + seq![inserted[0]] + rest + order.subrange(i, len)
            =~= order.subrange(0, i) + inserted + order.subrange(i, len));
    } else {
        assert(order.subrange(0, i) + inserted + order.subrange(i, len) =~= order);
    }
}

} // verus!
