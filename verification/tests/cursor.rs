use raw_list::{CursorMut, List, Node};

fn numbered(count: usize) -> (Vec<Node<usize>>, List<usize>) {
    let mut nodes = Vec::new();
    let mut list = List::new();
    for i in 0..count {
        nodes.push(Node::new(i));
        list.push_back(&mut nodes, i);
    }
    (nodes, list)
}

/// The element under the cursor, if the cursor is on a node.
fn under(cursor: &mut CursorMut<usize>, nodes: &mut Vec<Node<usize>>) -> Option<usize> {
    cursor.current_value(nodes).map(|v| *v)
}

fn values(list: &mut List<usize>, nodes: &mut Vec<Node<usize>>) -> Vec<usize> {
    let mut seen = Vec::new();
    let mut cursor = list.cursor_mut();
    cursor.move_next(nodes);
    while let Some(v) = cursor.current_value(nodes) {
        seen.push(*v);
        cursor.move_next(nodes);
    }
    seen
}

#[test]
fn test_cursor_remove() {
    const COUNT: usize = 100;
    let mut nodes = Vec::with_capacity(COUNT);
    let mut list = List::new();
    for i in 0..COUNT {
        nodes.push(Node::new(i));
        list.push_front(&mut nodes, i);
    }

    let mut counter = 0;
    let start_idx = rand::random_range(0..list.len());
    let mut cursor = list.cursor_mut();
    cursor.move_next(&nodes);
    for _ in 0..start_idx {
        cursor.move_next(&nodes);
    }

    while cursor.current_value(&mut nodes).is_some() {
        cursor.remove(&mut nodes);
        counter += 1;
    }

    drop(cursor);
    while list.pop_front(&mut nodes).is_some() {
        counter += 1;
    }
    assert!(counter == COUNT);
}

#[test]
fn test_cursor_insert_before() {
    const COUNT: usize = 100;
    const INSERT_MAX: usize = 20;
    let mut nodes = Vec::with_capacity(COUNT);
    let mut list = List::new();
    for i in 0..COUNT {
        nodes.push(Node::new(i));
        list.push_front(&mut nodes, i);
    }

    let start_idx = rand::random_range(0..list.len());
    let mut cursor = list.cursor_mut();
    cursor.move_next(&nodes);
    for _ in 0..start_idx {
        cursor.move_next(&nodes);
    }
    let insert_count = rand::random_range(1..INSERT_MAX);
    for i in 0..insert_count {
        nodes.push(Node::new(i));
        let slot = nodes.len() - 1;
        cursor.insert_before(&mut nodes, slot);
    }
    drop(cursor);
    println!("{}", list.len());
    println!("{}", insert_count);
    assert!(list.len() == COUNT + insert_count);
}

#[test]
fn a_new_cursor_is_off_the_list() {
    let (mut nodes, mut list) = numbered(3);
    let mut cursor = list.cursor_mut();
    assert_eq!(under(&mut cursor, &mut nodes), None);
}

#[test]
fn move_next_visits_every_node_once_in_order() {
    let (mut nodes, mut list) = numbered(10);
    let len = list.len();
    let mut cursor = list.cursor_mut();
    for i in 0..len {
        cursor.move_next(&nodes);
        assert_eq!(under(&mut cursor, &mut nodes), Some(i));
    }
    cursor.move_next(&nodes);
    assert_eq!(under(&mut cursor, &mut nodes), None);
    // Off the list is also the start: the next move is at the front again.
    cursor.move_next(&nodes);
    assert_eq!(under(&mut cursor, &mut nodes), Some(0));
}

#[test]
fn move_prev_visits_every_node_once_in_reverse() {
    let (mut nodes, mut list) = numbered(10);
    let len = list.len();
    let mut cursor = list.cursor_mut();
    for i in 0..len {
        cursor.move_prev(&nodes);
        assert_eq!(under(&mut cursor, &mut nodes), Some(len - 1 - i));
    }
    cursor.move_prev(&nodes);
    assert_eq!(under(&mut cursor, &mut nodes), None);
    cursor.move_prev(&nodes);
    assert_eq!(under(&mut cursor, &mut nodes), Some(9));
}

#[test]
fn move_prev_from_the_front_leaves_the_list() {
    let (mut nodes, mut list) = numbered(3);
    let mut cursor = list.cursor_mut();
    cursor.move_next(&nodes);
    assert_eq!(under(&mut cursor, &mut nodes), Some(0));
    cursor.move_prev(&nodes);
    assert_eq!(under(&mut cursor, &mut nodes), None);
    // From off the list the cursor enters at the back, or at the front.
    cursor.move_prev(&nodes);
    assert_eq!(under(&mut cursor, &mut nodes), Some(2));
    cursor.move_next(&nodes);
    assert_eq!(under(&mut cursor, &mut nodes), None);
    cursor.move_next(&nodes);
    assert_eq!(under(&mut cursor, &mut nodes), Some(0));
}

#[test]
fn moves_on_an_empty_list_stay_off_the_list() {
    let (mut nodes, mut list) = numbered(0);
    let mut cursor = list.cursor_mut();
    for _ in 0..3 {
        cursor.move_next(&nodes);
        assert_eq!(under(&mut cursor, &mut nodes), None);
        cursor.move_prev(&nodes);
        assert_eq!(under(&mut cursor, &mut nodes), None);
    }
    assert_eq!(cursor.remove(&mut nodes), None);
    drop(cursor);
    assert_eq!(list.len(), 0);
}

#[test]
fn moves_back_and_forth_in_the_middle() {
    let (mut nodes, mut list) = numbered(4);
    let mut cursor = list.cursor_mut();
    cursor.move_next(&nodes);
    cursor.move_next(&nodes);
    cursor.move_next(&nodes);
    assert_eq!(under(&mut cursor, &mut nodes), Some(2));
    cursor.move_prev(&nodes);
    assert_eq!(under(&mut cursor, &mut nodes), Some(1));
    cursor.move_prev(&nodes);
    assert_eq!(under(&mut cursor, &mut nodes), Some(0));
    cursor.move_next(&nodes);
    assert_eq!(under(&mut cursor, &mut nodes), Some(1));
}

#[test]
fn current_value_can_be_changed() {
    let (mut nodes, mut list) = numbered(3);
    let mut cursor = list.cursor_mut();
    cursor.move_next(&nodes);
    cursor.move_next(&nodes);
    *cursor.current_value(&mut nodes).unwrap() = 11;
    drop(cursor);
    assert_eq!(values(&mut list, &mut nodes), vec![0, 11, 2]);
    assert_eq!(*nodes[1].elem(), 11);
}

#[test]
fn remove_off_the_list_does_nothing() {
    let (mut nodes, mut list) = numbered(3);
    let mut cursor = list.cursor_mut();
    assert_eq!(cursor.remove(&mut nodes), None);
    // The cursor has not moved: it is still off the list.
    assert_eq!(under(&mut cursor, &mut nodes), None);
    cursor.move_next(&nodes);
    assert_eq!(under(&mut cursor, &mut nodes), Some(0));
    drop(cursor);
    assert_eq!(list.len(), 3);
    assert_eq!(values(&mut list, &mut nodes), vec![0, 1, 2]);
}

#[test]
fn remove_the_only_node() {
    let (mut nodes, mut list) = numbered(1);
    let mut cursor = list.cursor_mut();
    cursor.move_next(&nodes);
    assert_eq!(cursor.remove(&mut nodes), Some(0));
    assert_eq!(under(&mut cursor, &mut nodes), None);
    assert_eq!(cursor.remove(&mut nodes), None);
    drop(cursor);
    assert_eq!(list.len(), 0);
    assert!(list.empty());
    assert_eq!(list.pop_front(&mut nodes), None);
    assert_eq!(list.pop_back(&mut nodes), None);
    assert!(list.front_val(&nodes).is_none());
    assert!(list.back_val(&nodes).is_none());
}

#[test]
fn remove_the_front_node() {
    let (mut nodes, mut list) = numbered(3);
    let mut cursor = list.cursor_mut();
    cursor.move_next(&nodes);
    assert_eq!(cursor.remove(&mut nodes), Some(0));
    // The cursor is on what was the next node, now the front.
    assert_eq!(under(&mut cursor, &mut nodes), Some(1));
    cursor.move_prev(&nodes);
    assert_eq!(under(&mut cursor, &mut nodes), None);
    drop(cursor);
    assert_eq!(list.len(), 2);
    assert_eq!(list.front_val(&nodes), Some(&1));
    assert_eq!(values(&mut list, &mut nodes), vec![1, 2]);
}

#[test]
fn remove_the_back_node() {
    let (mut nodes, mut list) = numbered(3);
    let mut cursor = list.cursor_mut();
    cursor.move_prev(&nodes);
    assert_eq!(cursor.remove(&mut nodes), Some(2));
    // Nothing followed the back node: the cursor is off the list.
    assert_eq!(under(&mut cursor, &mut nodes), None);
    cursor.move_prev(&nodes);
    assert_eq!(under(&mut cursor, &mut nodes), Some(1));
    drop(cursor);
    assert_eq!(list.len(), 2);
    assert_eq!(list.back_val(&nodes), Some(&1));
    assert_eq!(values(&mut list, &mut nodes), vec![0, 1]);
}

#[test]
fn remove_an_interior_node() {
    let (mut nodes, mut list) = numbered(5);
    let mut cursor = list.cursor_mut();
    cursor.move_next(&nodes);
    cursor.move_next(&nodes);
    cursor.move_next(&nodes);
    assert_eq!(cursor.remove(&mut nodes), Some(2));
    assert_eq!(under(&mut cursor, &mut nodes), Some(3));
    // The neighbours of the removed node are now neighbours of each other.
    cursor.move_prev(&nodes);
    assert_eq!(under(&mut cursor, &mut nodes), Some(1));
    cursor.move_next(&nodes);
    assert_eq!(under(&mut cursor, &mut nodes), Some(3));
    drop(cursor);
    assert_eq!(list.len(), 4);
    assert_eq!(values(&mut list, &mut nodes), vec![0, 1, 3, 4]);
    // The removed node can be linked again.
    list.push_back(&mut nodes, 2);
    assert_eq!(values(&mut list, &mut nodes), vec![0, 1, 3, 4, 2]);
}

#[test]
fn remove_until_off_takes_the_rest_of_the_list_from_every_start() {
    let count = 12;
    for start in 0..count {
        let (mut nodes, mut list) = numbered(count);
        let mut cursor = list.cursor_mut();
        cursor.move_next(&nodes);
        for _ in 0..start {
            cursor.move_next(&nodes);
        }
        let mut removed = Vec::new();
        while cursor.current_value(&mut nodes).is_some() {
            removed.push(cursor.remove(&mut nodes).unwrap());
        }
        drop(cursor);
        let expected: Vec<usize> = (start..count).collect();
        assert_eq!(removed, expected);
        assert_eq!(list.len(), start);
        assert_eq!(removed.len() + list.len(), count);
        let left: Vec<usize> = (0..start).collect();
        assert_eq!(values(&mut list, &mut nodes), left);
    }
}

#[test]
fn remove_from_the_front_empties_the_list() {
    let (mut nodes, mut list) = numbered(100);
    let mut cursor = list.cursor_mut();
    cursor.move_next(&nodes);
    let mut counter = 0;
    while cursor.current_value(&mut nodes).is_some() {
        assert_eq!(cursor.remove(&mut nodes), Some(counter));
        counter += 1;
    }
    drop(cursor);
    assert_eq!(counter, 100);
    assert_eq!(list.len(), 0);
    assert!(list.empty());
}

#[test]
fn insert_before_off_the_list_does_nothing() {
    let (mut nodes, mut list) = numbered(3);
    nodes.push(Node::new(99));
    let mut cursor = list.cursor_mut();
    cursor.insert_before(&mut nodes, 3);
    assert_eq!(under(&mut cursor, &mut nodes), None);
    drop(cursor);
    assert_eq!(list.len(), 3);
    assert_eq!(values(&mut list, &mut nodes), vec![0, 1, 2]);
}

#[test]
fn insert_before_the_front() {
    let (mut nodes, mut list) = numbered(3);
    nodes.push(Node::new(99));
    let mut cursor = list.cursor_mut();
    cursor.move_next(&nodes);
    cursor.insert_before(&mut nodes, 3);
    // The cursor stays on the same node, which is now second.
    assert_eq!(under(&mut cursor, &mut nodes), Some(0));
    cursor.move_prev(&nodes);
    assert_eq!(under(&mut cursor, &mut nodes), Some(99));
    cursor.move_prev(&nodes);
    assert_eq!(under(&mut cursor, &mut nodes), None);
    drop(cursor);
    assert_eq!(list.len(), 4);
    assert_eq!(list.front_val(&nodes), Some(&99));
    assert_eq!(values(&mut list, &mut nodes), vec![99, 0, 1, 2]);
}

#[test]
fn insert_before_an_interior_node() {
    let (mut nodes, mut list) = numbered(3);
    nodes.push(Node::new(99));
    let mut cursor = list.cursor_mut();
    cursor.move_next(&nodes);
    cursor.move_next(&nodes);
    cursor.insert_before(&mut nodes, 3);
    assert_eq!(under(&mut cursor, &mut nodes), Some(1));
    cursor.move_prev(&nodes);
    assert_eq!(under(&mut cursor, &mut nodes), Some(99));
    cursor.move_prev(&nodes);
    assert_eq!(under(&mut cursor, &mut nodes), Some(0));
    drop(cursor);
    assert_eq!(list.len(), 4);
    assert_eq!(values(&mut list, &mut nodes), vec![0, 99, 1, 2]);
}

#[test]
fn insert_before_the_back() {
    let (mut nodes, mut list) = numbered(3);
    nodes.push(Node::new(99));
    let mut cursor = list.cursor_mut();
    cursor.move_prev(&nodes);
    cursor.insert_before(&mut nodes, 3);
    assert_eq!(under(&mut cursor, &mut nodes), Some(2));
    cursor.move_next(&nodes);
    assert_eq!(under(&mut cursor, &mut nodes), None);
    drop(cursor);
    assert_eq!(list.back_val(&nodes), Some(&2));
    assert_eq!(values(&mut list, &mut nodes), vec![0, 1, 99, 2]);
}

#[test]
fn inserting_k_nodes_adds_k_at_every_position() {
    let count = 10;
    for start in 0..count {
        for k in 1..5 {
            let (mut nodes, mut list) = numbered(count);
            let mut cursor = list.cursor_mut();
            cursor.move_next(&nodes);
            for _ in 0..start {
                cursor.move_next(&nodes);
            }
            for j in 0..k {
                nodes.push(Node::new(100 + j));
                let slot = nodes.len() - 1;
                cursor.insert_before(&mut nodes, slot);
            }
            assert_eq!(under(&mut cursor, &mut nodes), Some(start));
            drop(cursor);
            assert_eq!(list.len(), count + k);
            let mut expected: Vec<usize> = (0..start).collect();
            expected.extend(100..100 + k);
            expected.extend(start..count);
            let seen = values(&mut list, &mut nodes);
            assert_eq!(seen.len(), list.len());
            assert_eq!(seen, expected);
        }
    }
}

#[test]
fn remove_then_insert_at_the_same_place() {
    let (mut nodes, mut list) = numbered(4);
    let mut cursor = list.cursor_mut();
    cursor.move_next(&nodes);
    cursor.move_next(&nodes);
    let removed = cursor.remove(&mut nodes).unwrap();
    assert_eq!(removed, 1);
    cursor.insert_before(&mut nodes, removed);
    assert_eq!(under(&mut cursor, &mut nodes), Some(2));
    drop(cursor);
    assert_eq!(values(&mut list, &mut nodes), vec![0, 1, 2, 3]);
    assert_eq!(list.len(), 4);
}

#[test]
fn off_the_tail_is_the_same_as_a_fresh_cursor() {
    let (mut nodes, mut list) = numbered(3);
    nodes.push(Node::new(99));
    let mut cursor = list.cursor_mut();
    for _ in 0..4 {
        cursor.move_next(&nodes);
    }
    assert_eq!(under(&mut cursor, &mut nodes), None);
    // Nothing to remove and nowhere to insert.
    assert_eq!(cursor.remove(&mut nodes), None);
    cursor.insert_before(&mut nodes, 3);
    assert_eq!(under(&mut cursor, &mut nodes), None);
    // One step back from off the list is the back, not a node past it.
    cursor.move_prev(&nodes);
    assert_eq!(under(&mut cursor, &mut nodes), Some(2));
    cursor.insert_before(&mut nodes, 3);
    cursor.move_prev(&nodes);
    assert_eq!(under(&mut cursor, &mut nodes), Some(99));
    cursor.move_prev(&nodes);
    assert_eq!(under(&mut cursor, &mut nodes), Some(1));
    drop(cursor);
    assert_eq!(values(&mut list, &mut nodes), vec![0, 1, 99, 2]);
}

#[test]
fn random_operations_agree_with_a_vector() {
    for _ in 0..200 {
        let mut nodes: Vec<Node<usize>> = Vec::new();
        let mut list: List<usize> = List::new();
        let mut model: Vec<usize> = Vec::new();
        let mut free: Vec<usize> = Vec::new();
        for _ in 0..60 {
            let mut fresh = |nodes: &mut Vec<Node<usize>>, free: &mut Vec<usize>| match free.pop() {
                Some(slot) => slot,
                None => {
                    nodes.push(Node::new(nodes.len()));
                    nodes.len() - 1
                }
            };
            match rand::random_range(0..7) {
                0 => {
                    let slot = fresh(&mut nodes, &mut free);
                    list.push_front(&mut nodes, slot);
                    model.insert(0, slot);
                }
                1 => {
                    let slot = fresh(&mut nodes, &mut free);
                    list.push_back(&mut nodes, slot);
                    model.push(slot);
                }
                2 => {
                    let expected = if model.is_empty() { None } else { Some(model.remove(0)) };
                    let popped = list.pop_front(&mut nodes);
                    assert_eq!(popped, expected);
                    free.extend(popped);
                }
                3 => {
                    let expected = model.pop();
                    let popped = list.pop_back(&mut nodes);
                    assert_eq!(popped, expected);
                    free.extend(popped);
                }
                4 => {
                    if !model.is_empty() {
                        let at = rand::random_range(0..model.len());
                        let mut cursor = list.cursor_mut();
                        for _ in 0..at + 1 {
                            cursor.move_next(&nodes);
                        }
                        assert_eq!(under(&mut cursor, &mut nodes), Some(model[at]));
                        let removed = cursor.remove(&mut nodes);
                        assert_eq!(removed, Some(model.remove(at)));
                        assert_eq!(under(&mut cursor, &mut nodes), model.get(at).copied());
                        free.extend(removed);
                    }
                }
                5 => {
                    if !model.is_empty() {
                        let at = rand::random_range(0..model.len());
                        let slot = fresh(&mut nodes, &mut free);
                        let mut cursor = list.cursor_mut();
                        for _ in 0..model.len() - at {
                            cursor.move_prev(&nodes);
                        }
                        assert_eq!(under(&mut cursor, &mut nodes), Some(model[at]));
                        cursor.insert_before(&mut nodes, slot);
                        assert_eq!(under(&mut cursor, &mut nodes), Some(model[at]));
                        model.insert(at, slot);
                    }
                }
                _ => {
                    assert_eq!(list.front_val(&nodes), model.first());
                    assert_eq!(list.back_val(&nodes), model.last());
                }
            }
            assert_eq!(list.len(), model.len());
            assert_eq!(list.empty(), model.is_empty());
        }
        assert_eq!(values(&mut list, &mut nodes), model);
        let mut backwards = Vec::new();
        let mut cursor = list.cursor_mut();
        cursor.move_prev(&nodes);
        while let Some(v) = under(&mut cursor, &mut nodes) {
            backwards.push(v);
            cursor.move_prev(&nodes);
        }
        backwards.reverse();
        assert_eq!(backwards, model);
    }
}
