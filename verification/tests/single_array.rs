use array_list::single_array::SingleArray;
use array_list::IArray;

#[test]
fn single_array_it_works() {
    let mut bytes = SingleArray::<u8>::new();
    bytes.push(42);
    assert_eq!(42, bytes.pop().unwrap());
    assert!(bytes.pop().is_none());
}

#[test]
fn single_array_bells_and_whistles() {
    let mut bytes = SingleArray::<u8>::new();
    (0..=u8::MAX).for_each(|x| bytes.push(x));
    assert_eq!(256, bytes.len());
    assert_eq!(22, bytes[22]);
    *bytes.get_mut(255) = 42;
    assert_eq!(&42, bytes.last().unwrap());
    *bytes.first_mut().unwrap() = 255;
    assert_eq!(*bytes.first().unwrap(), bytes.get(254) + 1);
}

#[test]
fn single_array_array_interface() {
    let mut array = SingleArray::<i64>::new();
    array.insert(42, 0);
    array.insert(1024, 0);
    array.insert(-339, 2);
    array.insert(-851, 1);
    assert_eq!(&1024, array.get(0));
    assert_eq!(&(-851), array.get(1));
    assert_eq!(&42, array.get(2));
    assert_eq!(&(-339), array.get(3));
    assert_eq!(1024, array.remove(0));
    assert_eq!(&(-851), array.get(0));
    assert_eq!(&42, array.get(1));
    assert_eq!(&(-339), array.get(2));
}

#[test]
fn single_array_capacity_grows_by_one() {
    let mut array = SingleArray::<u32>::new();
    assert_eq!(0, array.capacity());
    let mut seen = vec![];
    for i in 0..5 {
        array.push(i);
        seen.push(array.capacity());
    }
    assert_eq!(vec![1, 2, 3, 4, 5], seen);
    assert_eq!(Some(4), array.pop());
    assert_eq!(0, array.remove(0));
    assert_eq!(5, array.capacity());
    array.insert(9, 1);
    array.insert(8, 0);
    assert_eq!(5, array.capacity());
    array.push(7);
    assert_eq!(6, array.capacity());
    assert_eq!(6, array.size());
}

#[test]
fn single_array_push_then_pop_in_reverse() {
    let mut array = SingleArray::<u16>::default();
    for x in [1u16, 2, 3, 4] {
        array.push(x);
    }
    let mut popped = vec![];
    while let Some(x) = array.pop() {
        popped.push(x);
    }
    assert_eq!(vec![4, 3, 2, 1], popped);
    assert!(array.is_empty());
}

#[test]
fn single_array_insert_then_remove_round_trip() {
    let mut array = SingleArray::<i32>::new();
    for i in 0..4 {
        array.push(i * 10);
    }
    for at in 0..=4 {
        array.insert(-1, at);
        assert_eq!(-1, array.remove(at));
        assert_eq!(4, array.size());
        for i in 0..4 {
            assert_eq!((i * 10) as i32, *array.get(i));
        }
    }
}
