use data_structures::pointed_doubly_linked_list::{PointedNode, PointedDoublyLinkedList};
use std::any::{Any, TypeId};

fn first(list: &PointedDoublyLinkedList<u8>) -> &PointedNode<u8> {
    list.node(list.head().unwrap())
}

fn after<'a>(list: &'a PointedDoublyLinkedList<u8>, node: &PointedNode<u8>) -> &'a PointedNode<u8> {
    list.node(node.next.unwrap())
}

#[test]
fn pointed_doubly_linked_list_instantiation() {
    assert_eq!(
        PointedDoublyLinkedList::<u8>::new().type_id(),
        TypeId::of::<PointedDoublyLinkedList<u8>>()
    );
    assert_ne!(
        PointedDoublyLinkedList::<u8>::new().type_id(),
        TypeId::of::<PointedDoublyLinkedList<u16>>()
    );
}

#[test]
fn pointed_doubly_linked_list_default_instantiation() {
    let list = PointedDoublyLinkedList::<u8>::new();

    assert_eq!(list.size(), 0);
    assert!(list.head().is_none());
    assert!(list.tail().is_none());
    assert_eq!(list.peek(), None);
}

#[test]
fn pointed_doubly_linked_list_first_peek_instruction() {
    let mut list = PointedDoublyLinkedList::<u8>::new();

    list.add(0);

    assert_eq!(list.size(), 1);
    assert!(list.head().is_some());
    assert_eq!(*first(&list), PointedNode::<u8>::new(0));
    assert_eq!(list.peek(), Some(&0));
}

#[test]
fn pointed_doubly_linked_list_first_add_instruction() {
    let mut list = PointedDoublyLinkedList::<u8>::new();

    list.add(0);

    assert_eq!(list.size(), 1);
    assert!(list.head().is_some());
    assert_eq!(*first(&list), PointedNode::<u8>::new(0));
    assert_eq!(list.peek(), Some(&0));
    assert_eq!(first(&list).data, 0);
    assert!(first(&list).next.is_none());
    assert!(first(&list).prev.is_none());
}

#[test]
fn pointed_doubly_linked_list_second_add_instruction() {
    let mut list = PointedDoublyLinkedList::<u8>::new();
    let first_node = PointedNode::<u8>::new(128);
    let second_node = PointedNode::<u8>::new(255);

    list.add(128);
    list.add(255);

    assert_eq!(list.size(), 2);
    assert!(list.head().is_some());
    assert_eq!(first(&list).data, first_node.data);
    assert_eq!(list.peek(), Some(&128));
    assert!(first(&list).next.is_some());
    assert_eq!(after(&list, first(&list)).data, second_node.data);
    assert!(after(&list, first(&list)).next.is_none());
    assert!(first(&list).prev.is_none());
    assert_eq!(after(&list, first(&list)).prev, list.head());
}

#[test]
fn pointed_doubly_linked_list_third_add_instruction() {
    let mut list = PointedDoublyLinkedList::<u8>::new();

    list.add(128);
    list.add(255);
    list.add(0);

    assert_eq!(list.size(), 3);
    assert!(list.head().is_some());
    assert_eq!(first(&list).data, 128);
    assert_eq!(list.peek(), Some(&128));
    assert!(first(&list).next.is_some());
    assert_eq!(after(&list, first(&list)).data, 255);
    assert!(after(&list, first(&list)).next.is_some());
    assert_eq!(after(&list, after(&list, first(&list))).data, 0);
    assert!(after(&list, after(&list, first(&list))).next.is_none());
    assert!(first(&list).prev.is_none());
    assert_eq!(after(&list, after(&list, first(&list))).prev, first(&list).next);
    assert_eq!(list.tail(), after(&list, first(&list)).next);
}

#[test]
fn pointed_doubly_linked_list_clear_instruction() {
    let mut list = PointedDoublyLinkedList::<u8>::new();

    list.add(128);
    list.add(255);
    list.add(0);

    assert_eq!(list.size(), 3);
    assert_eq!(list.peek(), Some(&128));

    list.clear();

    assert_eq!(list.size(), 0);
    assert!(list.head().is_none());
    assert!(list.tail().is_none());
}

#[test]
fn pointed_doubly_linked_list_remove_instruction() {
    let mut list = PointedDoublyLinkedList::<u8>::new();
    let first_node = PointedNode::<u8>::new(255);
    let second_node = PointedNode::<u8>::new(0);

    list.add(128);
    list.add(255);
    list.add(0);
    let removed_item = list.remove();

    assert_eq!(removed_item, Some(128));
    assert_eq!(list.size(), 2);
    assert!(list.head().is_some());
    assert_eq!(first(&list).data, first_node.data);
    assert_eq!(list.peek(), Some(&255));
    assert_eq!(after(&list, first(&list)).data, second_node.data);
    assert!(first(&list).next.is_some());
    assert_eq!(after(&list, first(&list)).next, second_node.next);
    assert!(after(&list, first(&list)).next.is_none());
    assert_eq!(after(&list, first(&list)).data, 0);
    assert_eq!(after(&list, first(&list)).prev, list.head());
    assert_eq!(list.remove(), Some(255));
    assert_eq!(list.remove(), Some(0));
    assert_eq!(list.remove(), None);
}

#[test]
fn pointed_doubly_linked_list_contains_instruction() {
    let mut list = PointedDoublyLinkedList::<u8>::new();

    list.add(128);
    list.add(255);
    list.add(0);

    assert!(list.contains(128));
    assert!(list.contains(255));
    assert!(list.contains(0));
    assert!(!list.contains(1));
}

#[test]
fn pointed_doubly_linked_list_index_of_instruction() {
    let mut list = PointedDoublyLinkedList::<u8>::new();

    list.add(128);
    list.add(255);
    list.add(0);

    assert_eq!(list.index_of(128), Some(0));
    assert_eq!(list.index_of(255), Some(1));
    assert_eq!(list.index_of(0), Some(2));
    assert_eq!(list.index_of(1), None);
}

#[test]
fn pointed_doubly_linked_list_reuse_after_emptying() {
    let mut list = PointedDoublyLinkedList::<u8>::new();
    list.add(1);
    assert_eq!(list.remove(), Some(1));
    assert_eq!(list.remove(), None);
    list.add(2);
    list.add(3);
    assert_eq!(list.size(), 2);
    assert!(list.contains(2) && list.contains(3));
    assert!(!list.contains(1));
}
