use array_list::vector_array::VectorArray;
use array_list::IArray;

#[test]
fn vector_array_it_works() {
    let mut bytes = VectorArray::<u8>::new(10);
    bytes.push(42);
    assert_eq!(42, bytes.pop().unwrap());
    assert!(bytes.pop().is_none());
}

#[test]
fn vector_array_bells_and_whistles() {
    let mut bytes = VectorArray::<u8>::new(10);
    (0..=u8::MAX).for_each(|x| bytes.push(x));
    assert_eq!(256, bytes.len());
    assert_eq!(22, bytes[22]);
    *bytes.get_mut(255) = 42;
    assert_eq!(&42, bytes.last().unwrap());
    *bytes.first_mut().unwrap() = 255;
    assert_eq!(*bytes.first().unwrap(), bytes.get(254) + 1);
}

#[test]
fn vector_array_array_interface() {
    let mut array = VectorArray::<i64>::new(10);
    array.insert(42, 0);
    array.insert(1024, 0);
    array.insert(-339, 2);
    array.insert(-851, 1);
    assert_eq!(&1024, array.get(0));
    assert_eq!(&(-851), array.get(1));
    assert_eq!(&42, array.get(2));
    assert_eq!(&(-339), array.get(3));
    assert_eq!(1024, array.remove(0));
    assert_eq!(&(-851), array.get(0));
    assert_eq!(&42, array.get(1));
    assert_eq!(&(-339), array.get(2));
}

#[test]
fn vector_array_capacity_grows_by_block() {
    let mut array = VectorArray::<u32>::new(3);
    assert_eq!(3, array.block());
    assert_eq!(0, array.capacity());
    let mut seen = vec![];
    for i in 0..8 {
        array.push(i);
        seen.push(array.capacity());
    }
    assert_eq!(vec![3, 3, 3, 6, 6, 6, 9, 9], seen);
    assert_eq!(0, array.remove(0));
    assert_eq!(Some(7), array.pop());
    assert_eq!(9, array.capacity());
    assert_eq!(6, array.size());
}

#[test]
fn vector_array_default_block_is_five() {
    let mut array = VectorArray::<u8>::default();
    assert_eq!(5, array.block());
    array.push(1);
    assert_eq!(5, array.capacity());
    for i in 0..5 {
        array.push(i);
    }
    assert_eq!(10, array.capacity());
}

#[test]
fn vector_array_push_then_pop_in_reverse() {
    let mut array = VectorArray::<u16>::new(2);
    for x in [1u16, 2, 3, 4, 5] {
        array.push(x);
    }
    let mut popped = vec![];
    while let Some(x) = array.pop() {
        popped.push(x);
    }
    assert_eq!(vec![5, 4, 3, 2, 1], popped);
    assert_eq!(6, array.capacity());
}

#[test]
fn vector_array_insert_then_remove_round_trip() {
    let mut array = VectorArray::<i32>::new(4);
    for i in 0..5 {
        array.push(i - 2);
    }
    for at in 0..=5 {
        array.insert(77, at);
        assert_eq!(&77, array.get(at));
        assert_eq!(77, array.remove(at));
        assert_eq!(5, array.size());
        for i in 0..5 {
            assert_eq!(i as i32 - 2, *array.get(i));
        }
    }
}
