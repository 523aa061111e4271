use data_structures::dynamic_array::DynamicArray;
use std::any::{Any, TypeId};

#[test]
fn dynamic_array_instantiation() {
    assert_eq!(DynamicArray::new().type_id(), TypeId::of::<DynamicArray>());
}

#[test]
fn default_length_and_capacity() {
    let dynamic_array = DynamicArray::new();

    assert_eq!(dynamic_array.len(), 0);
    assert_eq!(dynamic_array.capacity(), 0);
    assert_eq!(dynamic_array.get(0), None);
}

#[test]
fn first_grow_instruction() {
    let mut dynamic_array = DynamicArray::new();

    dynamic_array.grow();

    assert_eq!(dynamic_array.len(), 0);
    assert_eq!(dynamic_array.capacity(), 1);
    assert_eq!(dynamic_array.get(0), None);
}

#[test]
fn second_grow_instruction() {
    let mut dynamic_array = DynamicArray::new();

    dynamic_array.grow();
    dynamic_array.grow();

    assert_eq!(dynamic_array.len(), 0);
    assert_eq!(dynamic_array.capacity(), 2);
    assert_eq!(dynamic_array.get(0), None);
}

#[test]
fn third_grow_instruction() {
    let mut dynamic_array = DynamicArray::new();

    dynamic_array.grow();
    dynamic_array.grow();
    dynamic_array.grow();

    assert_eq!(dynamic_array.len(), 0);
    assert_eq!(dynamic_array.capacity(), 4);
    assert_eq!(dynamic_array.get(0), None);
}

#[test]
fn first_push_instruction() {
    let mut dynamic_array = DynamicArray::new();

    dynamic_array.push(128);

    assert_eq!(dynamic_array.len(), 1);
    assert_eq!(dynamic_array.capacity(), 1);
    assert_eq!(dynamic_array.get(0), Some(&128));
}

#[test]
fn second_push_instruction() {
    let mut dynamic_array = DynamicArray::new();

    dynamic_array.push(128);
    dynamic_array.push(255);

    assert_eq!(dynamic_array.len(), 2);
    assert_eq!(dynamic_array.capacity(), 2);
    assert_eq!(dynamic_array.get(0), Some(&128));
    assert_eq!(dynamic_array.get(1), Some(&255));
}

#[test]
fn third_push_instruction() {
    let mut dynamic_array = DynamicArray::new();

    dynamic_array.push(128);
    dynamic_array.push(255);
    dynamic_array.push(128);

    assert_eq!(dynamic_array.len(), 3);
    assert_eq!(dynamic_array.capacity(), 4);
    assert_eq!(dynamic_array.get(0), Some(&128));
    assert_eq!(dynamic_array.get(1), Some(&255));
    assert_eq!(dynamic_array.get(2), Some(&128));
}

#[test]
fn push_past_several_growths() {
    let mut dynamic_array = DynamicArray::new();
    for i in 0..9u8 {
        dynamic_array.push(i);
    }
    assert_eq!(dynamic_array.len(), 9);
    assert_eq!(dynamic_array.capacity(), 16);
    assert_eq!(dynamic_array.get(8), Some(&8));
    assert_eq!(dynamic_array.get(9), None);
}
