use array_list::matrix_array::MatrixArray;
use array_list::IArray;

#[test]
fn creation() {
    let mut bytes = MatrixArray::<u8>::new(100);
    assert_eq!(0, bytes.size());
    bytes.push(42);
    assert_eq!(1, bytes.size());
}

#[test]
fn push_get_insert_remove() {
    let mut array = MatrixArray::<i64>::new(10);
    for i in -42..42 {
        array.push(i);
    }
    assert_eq!(84, array.size());
    assert_eq!(&0, array.get(42));
    array.insert(686, 42);
    assert_eq!(&686, array.get(42));
    assert_eq!(&7, array.get(50));
    array.remove(42);
    assert_eq!(&0, array.get(42));
    for _ in 0..13 {
        array.remove(42);
    }
    println!("{}", array.repr());
}

#[test]
fn insert() {
    let mut bytes = MatrixArray::<u8>::new(3);
    for i in 0..10 {
        bytes.push(i);
    }
    bytes.insert(42, 4);
    assert_eq!(0, bytes.remove(0));
    assert_eq!(6, bytes.remove(6));
    println!("{}", bytes.repr());
}

#[test]
fn matrix_repr_shows_packed_blocks() {
    let mut bytes = MatrixArray::<u8>::new(3);
    assert_eq!("[\n]", bytes.repr());
    for i in 0..7 {
        bytes.push(i);
    }
    assert_eq!("[\n[0, 1, 2],\n[3, 4, 5],\n[6],\n]", bytes.repr());
    bytes.insert(42, 1);
    assert_eq!("[\n[0, 42, 1],\n[2, 3, 4],\n[5, 6],\n]", bytes.repr());
    bytes.insert(43, 0);
    assert_eq!("[\n[43, 0, 42],\n[1, 2, 3],\n[4, 5, 6],\n]", bytes.repr());
    bytes.insert(44, 9);
    assert_eq!("[\n[43, 0, 42],\n[1, 2, 3],\n[4, 5, 6],\n[44],\n]", bytes.repr());
    assert_eq!(10, bytes.size());
    assert_eq!(2, bytes.remove(4));
    assert_eq!("[\n[43, 0, 42],\n[1, 3, 4],\n[5, 6, 44],\n]", bytes.repr());
    assert_eq!(44, bytes.remove(8));
    assert_eq!("[\n[43, 0, 42],\n[1, 3, 4],\n[5, 6],\n]", bytes.repr());
    assert_eq!(8, bytes.size());
}

#[test]
fn matrix_repr_uses_debug_of_elements() {
    let mut words = MatrixArray::<&str>::new(2);
    words.push("a");
    words.push("b c");
    words.push("d");
    assert_eq!("[\n[\"a\", \"b c\"],\n[\"d\"],\n]", words.repr());
}

#[test]
fn matrix_size_counts_every_insert_once() {
    let mut array = MatrixArray::<u32>::new(2);
    for i in 0..6 {
        array.push(i);
    }
    array.insert(100, 0);
    assert_eq!(7, array.size());
    array.push(101);
    assert_eq!(8, array.size());
    let mut all = vec![];
    for i in 0..array.size() {
        all.push(*array.get(i));
    }
    assert_eq!(vec![100, 0, 1, 2, 3, 4, 5, 101], all);
}

#[test]
fn matrix_insert_then_remove_round_trip() {
    let mut array = MatrixArray::<i32>::new(3);
    for i in 0..9 {
        array.push(i);
    }
    let shape = array.repr();
    for at in 0..=9 {
        array.insert(-5, at);
        assert_eq!(10, array.size());
        assert_eq!(&-5, array.get(at));
        assert_eq!(-5, array.remove(at));
        assert_eq!(9, array.size());
        assert_eq!(shape, array.repr());
    }
}

#[test]
fn matrix_remove_until_empty() {
    let mut array = MatrixArray::<u8>::default();
    for i in 0..12 {
        array.push(i);
    }
    assert_eq!("[\n[0, 1, 2, 3, 4],\n[5, 6, 7, 8, 9],\n[10, 11],\n]", array.repr());
    for expected in 0..12 {
        assert_eq!(expected, array.remove(0));
    }
    assert_eq!(0, array.size());
    assert_eq!("[\n]", array.repr());
    array.push(1);
    assert_eq!("[\n[1],\n]", array.repr());
}

#[test]
fn matrix_block_of_one() {
    let mut array = MatrixArray::<u8>::new(1);
    array.push(1);
    array.push(3);
    array.insert(2, 1);
    array.insert(0, 0);
    assert_eq!("[\n[0],\n[1],\n[2],\n[3],\n]", array.repr());
    assert_eq!(1, array.remove(1));
    assert_eq!("[\n[0],\n[2],\n[3],\n]", array.repr());
}
