use singly_linked_list::linked_list::LinkedListNode;
use singly_linked_list::linked_list::NodeArena;
use singly_linked_list::linked_list::SinglyLinkedList;
use singly_linked_list::linked_list::SinglyLinkedListIterator;
use singly_linked_list::linked_list::SinglyLinkedListNode;

#[test]
fn single_linked_list_test() {
    // Default test
    assert_eq!(1, 1);

    let mut arena: NodeArena<usize> = NodeArena::new();
    let mut list: SinglyLinkedList = SinglyLinkedList::new();

    let n3 = SinglyLinkedListNode::create_node(&mut arena, Some(3), None);
    list.tail_insert_node(&mut arena, n3);
    let n2 = SinglyLinkedListNode::create_node(&mut arena, Some(2), None);
    list.add_node(&mut arena, n2);
    list.head_insert_element(&mut arena, 1);

    let vec: Vec<usize> = list.iter().collect(&arena);
    assert_eq!(vec, vec![1, 3, 2]);

    let mut list1: SinglyLinkedList = SinglyLinkedList::new();
    list1.head_insert_element(&mut arena, 5);
    list1.add_node(&mut arena, list.get_head_node());

    let vec: Vec<usize> = list1.iter().collect(&arena);
    assert_eq!(vec, vec![5, 1, 3, 2]);

    let mut list2: SinglyLinkedList = SinglyLinkedList::new();
    let n7 = SinglyLinkedListNode::create_node(&mut arena, Some(7), None);
    list2.tail_insert_node(&mut arena, n7);
    list2.head_insert_element(&mut arena, 6);
    list2.add_node(&mut arena, list.get_head_node());

    let vec: Vec<usize> = list2.iter().collect(&arena);
    assert_eq!(vec, vec![6, 7, 1, 3, 2]);
}

#[test]
fn head_inserts_come_out_reversed() {
    let mut arena: NodeArena<u64> = NodeArena::new();
    let mut list = SinglyLinkedList::new();
    list.head_insert_element(&mut arena, 10);
    list.head_insert_element(&mut arena, 20);
    list.head_insert_element(&mut arena, 30);
    let vec: Vec<u64> = list.iter().collect(&arena);
    assert_eq!(vec, vec![30, 20, 10]);
    assert_eq!(list.len(), 3);
}

#[test]
fn tail_insert_appends_whole_chain() {
    let mut arena: NodeArena<u64> = NodeArena::new();
    let mut list = SinglyLinkedList::new();
    list.head_insert_element(&mut arena, 2);
    list.head_insert_element(&mut arena, 1);

    // A two-node chain [4, 5] built by hand, then hung off the tail.
    let n5 = SinglyLinkedListNode::create_node(&mut arena, Some(5), None);
    let n4 = SinglyLinkedListNode::create_node(&mut arena, Some(4), n5);
    list.tail_insert_node(&mut arena, n4);

    let vec: Vec<u64> = list.iter().collect(&arena);
    assert_eq!(vec, vec![1, 2, 4, 5]);
}

#[test]
fn adopted_head_aliases_both_lists() {
    let mut arena: NodeArena<i32> = NodeArena::new();
    let mut a = SinglyLinkedList::new();
    a.head_insert_element(&mut arena, 2);
    a.head_insert_element(&mut arena, 1);

    let mut b = SinglyLinkedList::new();
    b.head_insert_element(&mut arena, 9);
    b.add_node(&mut arena, a.get_head_node());

    // B's tail chain is now A's full chain, by content sequence.
    let vec_b: Vec<i32> = b.iter().collect(&arena);
    assert_eq!(vec_b, vec![9, 1, 2]);

    // Appending behind the shared node through B is visible through A too:
    // the adopted chain is an alias, not a copy.
    let n7 = SinglyLinkedListNode::create_node(&mut arena, Some(7), None);
    b.tail_insert_node(&mut arena, n7);
    let vec_b: Vec<i32> = b.iter().collect(&arena);
    assert_eq!(vec_b, vec![9, 1, 2, 7]);
    let vec_a: Vec<i32> = a.iter().collect(&arena);
    assert_eq!(vec_a, vec![1, 2, 7]);
}

#[test]
fn len_counts_head_inserts_only() {
    let mut arena: NodeArena<u8> = NodeArena::new();
    let mut list = SinglyLinkedList::new();
    let n1 = SinglyLinkedListNode::create_node(&mut arena, Some(1), None);
    list.tail_insert_node(&mut arena, n1);
    let n2 = SinglyLinkedListNode::create_node(&mut arena, Some(2), None);
    list.add_node(&mut arena, n2);
    assert_eq!(list.len(), 0);
    list.head_insert_element(&mut arena, 3);
    assert_eq!(list.len(), 1);
    // Three reachable elements, but the counter saw only the head insert.
    let vec: Vec<u8> = list.iter().collect(&arena);
    assert_eq!(vec.len(), 3);
    assert_ne!(vec.len() as u32, list.len());
}

#[test]
fn empty_list_iterates_to_nothing() {
    let arena: NodeArena<u64> = NodeArena::new();
    let list = SinglyLinkedList::new();
    assert_eq!(list.get_head_node(), None);
    let mut it = list.iter();
    assert_eq!(it.next(&arena), None);
    assert_eq!(it.next(&arena), None);
    let vec: Vec<u64> = list.iter().collect(&arena);
    assert_eq!(vec, Vec::<u64>::new());
}

#[test]
fn iterator_is_exhausted_after_the_terminal_node() {
    let mut arena: NodeArena<u64> = NodeArena::new();
    let mut list = SinglyLinkedList::new();
    list.head_insert_element(&mut arena, 8);
    let mut it = list.iter();
    assert_eq!(it.next(&arena), Some(8));
    assert_eq!(it.next(&arena), None);
    assert_eq!(it.next(&arena), None);
}

#[test]
fn next_node_walks_the_handles() {
    let mut arena: NodeArena<u64> = NodeArena::new();
    let mut list = SinglyLinkedList::new();
    list.head_insert_element(&mut arena, 1);
    list.head_insert_element(&mut arena, 2);
    let mut it = list.iter();
    let first = it.next_node(&arena);
    assert_eq!(first, list.get_head_node());
    let second = it.next_node(&arena);
    assert!(second.is_some());
    assert_ne!(second, first);
    assert_eq!(it.next_node(&arena), None);
}

#[test]
fn create_node_without_content_creates_nothing() {
    let mut arena: NodeArena<u64> = NodeArena::new();
    let r = SinglyLinkedListNode::create_node(&mut arena, None, None);
    assert_eq!(r, None);
    assert_eq!(arena.node_count(), 0);
}

#[test]
fn node_mutation_is_seen_through_the_list() {
    let mut arena: NodeArena<u64> = NodeArena::new();
    let mut list = SinglyLinkedList::new();
    list.head_insert_element(&mut arena, 5);
    let h = list.get_head_node().unwrap();

    let mut node = arena.node_at(h);
    node.set_node(Some(42));
    arena.put_node(h, node);

    let vec: Vec<u64> = list.iter().collect(&arena);
    assert_eq!(vec, vec![42]);
}

#[test]
fn set_next_node_links_and_clears() {
    let mut arena: NodeArena<u64> = NodeArena::new();
    let n2 = SinglyLinkedListNode::create_node(&mut arena, Some(2), None);
    let n1 = SinglyLinkedListNode::create_node(&mut arena, Some(1), None);

    let mut node = arena.node_at(n1.unwrap());
    assert_eq!(node.get_next_node(), None);
    node.set_next_node(n2);
    arena.put_node(n1.unwrap(), node);
    assert_eq!(arena.node_at(n1.unwrap()).get_next_node(), n2);

    let mut it = SinglyLinkedListIterator::new(n1);
    let vec: Vec<u64> = it.collect(&arena);
    assert_eq!(vec, vec![1, 2]);

    let mut node = arena.node_at(n1.unwrap());
    node.set_next_node(None);
    arena.put_node(n1.unwrap(), node);
    let mut it = SinglyLinkedListIterator::new(n1);
    let vec: Vec<u64> = it.collect(&arena);
    assert_eq!(vec, vec![1]);
}
