use array_list::array::Array;
use array_list::IArray;

#[test]
fn array_it_works() {
    let mut bytes = Array::<u8>::new();
    bytes.push(42);
    assert_eq!(42, bytes.pop().unwrap());
    assert!(bytes.pop().is_none());
}

#[test]
fn array_bells_and_whistles() {
    let mut bytes = Array::<u8>::new();
    (0..=u8::MAX).for_each(|x| bytes.push(x));
    assert_eq!(256, bytes.len());
    assert_eq!(22, bytes[22]);
    *bytes.get_mut(255) = 42;
    assert_eq!(&42, bytes.last().unwrap());
    *bytes.first_mut().unwrap() = 255;
    assert_eq!(*bytes.first().unwrap(), bytes.get(254) + 1);
}

#[test]
fn array_array_interface() {
    let mut array = Array::<i64>::new();
    array.insert(42, 0);
    array.insert(1024, 0);
    array.insert(-339, 2);
    array.insert(-851, 1);
    assert_eq!(&1024, array.get(0));
    assert_eq!(&(-851), array.get(1));
    assert_eq!(&42, array.get(2));
    assert_eq!(&(-339), array.get(3));
    assert_eq!(1024, array.remove(0));
    assert_eq!(&(-851), array.get(0));
    assert_eq!(&42, array.get(1));
    assert_eq!(&(-339), array.get(2));
    assert_eq!(3, array.size());
}

#[test]
fn array_capacity_doubles() {
    let mut array = Array::<u32>::new();
    assert_eq!(0, array.capacity());
    let mut seen = vec![];
    for i in 0..9 {
        array.push(i);
        seen.push(array.capacity());
    }
    assert_eq!(vec![1, 2, 4, 4, 8, 8, 8, 8, 16], seen);
    assert!(array.len() <= array.capacity());
}

#[test]
fn array_capacity_stays_after_pop_and_remove() {
    let mut array = Array::<u32>::default();
    for i in 0..5 {
        array.push(i);
    }
    assert_eq!(8, array.capacity());
    assert_eq!(Some(4), array.pop());
    assert_eq!(1, array.remove(1));
    assert_eq!(8, array.capacity());
    assert_eq!(3, array.len());
    while array.pop().is_some() {}
    assert_eq!(8, array.capacity());
    assert!(array.is_empty());
}

#[test]
fn array_push_then_pop_in_reverse() {
    let mut array = Array::<u16>::new();
    array.push(7);
    let items = [10u16, 20, 30, 40, 50];
    for x in items {
        array.push(x);
    }
    let mut popped = vec![];
    for _ in 0..items.len() {
        popped.push(array.pop().unwrap());
    }
    assert_eq!(vec![50, 40, 30, 20, 10], popped);
    assert_eq!(1, array.len());
    assert_eq!(&7, array.get(0));
}

#[test]
fn array_insert_at_end_is_push() {
    let mut pushed = Array::<i32>::new();
    let mut inserted = Array::<i32>::new();
    for i in 0..6 {
        pushed.push(i * 3);
        let end = inserted.size();
        inserted.insert(i * 3, end);
    }
    assert_eq!(pushed.len(), inserted.len());
    assert_eq!(pushed.capacity(), inserted.capacity());
    for i in 0..6 {
        assert_eq!(pushed.get(i), inserted.get(i));
    }
}

#[test]
fn array_insert_then_remove_round_trip() {
    let mut array = Array::<i32>::new();
    for i in 0..7 {
        array.push(i);
    }
    for at in 0..=7 {
        array.insert(99, at);
        assert_eq!(8, array.size());
        assert_eq!(&99, array.get(at));
        assert_eq!(99, array.remove(at));
        assert_eq!(7, array.size());
        for i in 0..7 {
            assert_eq!(i as i32, *array.get(i));
        }
    }
}

#[test]
fn array_remove_shifts_down() {
    let mut array = Array::<char>::new();
    for c in ['a', 'b', 'c', 'd', 'e'] {
        array.push(c);
    }
    assert_eq!('c', array.remove(2));
    assert_eq!(4, array.size());
    assert_eq!(&'a', array.get(0));
    assert_eq!(&'b', array.get(1));
    assert_eq!(&'d', array.get(2));
    assert_eq!(&'e', array.get(3));
}

#[test]
fn array_first_and_last_of_empty() {
    let mut array = Array::<String>::new();
    assert!(array.first().is_none());
    assert!(array.last().is_none());
    assert!(array.first_mut().is_none());
    assert!(array.last_mut().is_none());
    array.push(String::from("x"));
    array.push(String::from("y"));
    array.last_mut().unwrap().push('!');
    assert_eq!("y!", array[1]);
    assert_eq!("x", array.first().unwrap());
}
