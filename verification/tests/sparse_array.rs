use array_list::sparse_array::{SparseArray, Value};
use array_list::IArray;

#[test]
fn sparse_array_it_works() {
    let mut a = SparseArray::<u8>::new();
    a.insert(0, 42);
    assert_eq!(43, a.size());
    a.insert(1, 28); // index of 0 becomes 43
    assert_eq!(44, a.size());
    a.insert(2, 43); // index of 0 becomes 44
    assert_eq!(45, a.size());
    a.insert(3, 42); // index of 2 becomes 44, index of 0 becomes 45
    a.insert(4, 105);
    assert_eq!(106, a.size());
    assert_eq!(&0, a.get(23));
    assert_eq!(&1, a.get(28));
    assert_eq!(&2, a.get(44));
    assert_eq!(&3, a.get(42));
    assert_eq!(&0, a.get(45));
    a.remove(55); // index of 4 becomes 104
    a.remove(33); // index of 2 becomes 43, index of 3 becomes 41, index of 4 becomes 103
    a.remove(42); // index of 2 becomes 42, index of 4 becomes 102
    a.remove(28); // index of 2 becomes 41, index of 3 becomes 40, index of 4 becomes 101
    assert_eq!(&2, a.get(41));
    assert_eq!(&3, a.get(40));
    assert_eq!(&4, a.get(101));
    a.insert(0, 105);
    println!("{}", a.repr());
    println!("{}", a.to_string());
}

#[test]
fn sparse_repr_lists_entries() {
    let mut a = SparseArray::<u8>::new();
    assert_eq!("[]", a.repr());
    a.insert(1, 28);
    a.insert(2, 43);
    a.insert(3, 42);
    assert_eq!("[(28, 1), (42, 3), (44, 2)]", a.repr());
    assert_eq!(45, a.size());
    assert_eq!(1, a.remove(28));
    assert_eq!("[(41, 3), (43, 2)]", a.repr());
    assert_eq!(0, a.remove(0));
    assert_eq!("[(40, 3), (42, 2)]", a.repr());
    assert_eq!(0, a.remove(41));
    assert_eq!("[(40, 3), (41, 2)]", a.repr());
    assert_eq!(42, a.size());
}

#[test]
fn sparse_to_string_lists_every_position() {
    let mut a = SparseArray::<i32>::new();
    assert_eq!("[]", a.to_string());
    a.insert(7, 2);
    a.push(-1);
    a.insert(0, 1);
    assert_eq!("[0, 0, 0, 7, -1]", a.to_string());
    assert_eq!("[(3, 7), (4, -1)]", a.repr());
}

#[test]
fn sparse_defaults_add_no_entry() {
    let mut a = SparseArray::<u8>::new();
    a.push(5);
    a.push(6);
    let entries = a.repr();
    a.push(0);
    a.insert(0, 20);
    assert_eq!(21, a.size());
    assert_eq!(entries, a.repr());
    a.insert(0, 0);
    a.insert(0, 1);
    a.insert(0, 2);
    assert_eq!("[(3, 5), (4, 6)]", a.repr());
    assert_eq!(24, a.size());
    assert_eq!(&0, a.get(0));
    assert_eq!(&0, a.get(2));
    assert_eq!(&5, a.get(3));
    assert_eq!(&0, a.get(23));
    assert_eq!(&0, a.get(1000));
}

#[test]
fn sparse_insert_then_remove_round_trip() {
    let mut a = SparseArray::<u8>::new();
    for x in [0u8, 3, 0, 0, 9, 0] {
        a.push(x);
    }
    let before = a.to_string();
    let entries = a.repr();
    for at in 0..=6 {
        for v in [0u8, 4] {
            a.insert(v, at);
            assert_eq!(7, a.size());
            assert_eq!(&v, a.get(at));
            assert_eq!(v, a.remove(at));
            assert_eq!(6, a.size());
            assert_eq!(before, a.to_string());
            assert_eq!(entries, a.repr());
        }
    }
}

#[test]
fn sparse_remove_shifts_down() {
    let mut a = SparseArray::<u8>::default();
    for x in [1u8, 0, 2, 0, 3] {
        a.push(x);
    }
    assert_eq!(0, a.remove(1));
    assert_eq!("[1, 2, 0, 3]", a.to_string());
    assert_eq!(2, a.remove(1));
    assert_eq!("[1, 0, 3]", a.to_string());
    assert_eq!(3, a.remove(2));
    assert_eq!("[1, 0]", a.to_string());
    assert_eq!("[(0, 1)]", a.repr());
}

#[test]
fn sparse_value_new_keeps_both() {
    let v = Value::new(3, "x");
    assert_eq!(3, v.index);
    assert_eq!("x", v.value);
}

#[test]
fn sparse_value_default_is_zero_at_zero() {
    let v = Value::<i32>::default();
    assert_eq!(0, v.index);
    assert_eq!(0, v.value);
}
