use array_list::array::Array;
use array_list::matrix_array::MatrixArray;
use array_list::single_array::SingleArray;
use array_list::sparse_array::SparseArray;
use array_list::vector_array::VectorArray;
use array_list::{IArray, IndexOutOfBounds, Wrapper};

fn check_bounds<A: IArray<i64>>(mut array: A) {
    assert_eq!(Err(IndexOutOfBounds { index: 0, size: 0 }), array.try_get(0));
    assert_eq!(Err(IndexOutOfBounds { index: 0, size: 0 }), array.try_remove(0));
    assert_eq!(Err(IndexOutOfBounds { index: 1, size: 0 }), array.try_insert(5, 1));
    assert_eq!(0, array.size());
    assert_eq!(Ok(()), array.try_insert(10, 0));
    assert_eq!(Ok(()), array.try_insert(30, 1));
    assert_eq!(Ok(()), array.try_insert(20, 1));
    assert_eq!(3, array.size());
    assert_eq!(Ok(&10), array.try_get(0));
    assert_eq!(Ok(&20), array.try_get(1));
    assert_eq!(Ok(&30), array.try_get(2));
    assert_eq!(Err(IndexOutOfBounds { index: 3, size: 3 }), array.try_get(3));
    assert_eq!(Err(IndexOutOfBounds { index: 3, size: 3 }), array.try_remove(3));
    assert_eq!(Err(IndexOutOfBounds { index: 4, size: 3 }), array.try_insert(40, 4));
    assert_eq!(Err(IndexOutOfBounds { index: usize::MAX, size: 3 }), array.try_get(usize::MAX));
    assert_eq!(3, array.size());
    assert_eq!(Ok(20), array.try_remove(1));
    assert_eq!(Ok(30), array.try_remove(1));
    assert_eq!(Err(IndexOutOfBounds { index: 1, size: 1 }), array.try_remove(1));
    assert_eq!(Ok(10), array.try_remove(0));
    assert_eq!(0, array.size());
}

#[test]
fn array_index_out_of_bounds() {
    check_bounds(Array::<i64>::new());
}

#[test]
fn single_array_index_out_of_bounds() {
    check_bounds(SingleArray::<i64>::new());
}

#[test]
fn vector_array_index_out_of_bounds() {
    check_bounds(VectorArray::<i64>::new(2));
}

#[test]
fn matrix_array_index_out_of_bounds() {
    check_bounds(MatrixArray::<i64>::new(2));
}

#[test]
fn sparse_array_index_out_of_bounds() {
    check_bounds(SparseArray::<i64>::new());
}

#[test]
fn wrapper_index_out_of_bounds() {
    check_bounds(Wrapper::<i64>::new());
}

fn check_contract<A: IArray<u8>>(mut array: A) {
    for i in 0..20u8 {
        array.push(i);
        assert_eq!(i as usize + 1, array.size());
    }
    assert_eq!(7, array.remove(7));
    assert_eq!(19, array.size());
    for j in 0..7 {
        assert_eq!(j as u8, *array.get(j));
    }
    for j in 7..19 {
        assert_eq!(j as u8 + 1, *array.get(j));
    }
    array.insert(7, 7);
    for j in 0..20 {
        assert_eq!(j as u8, *array.get(j));
    }
    let end = array.size();
    array.insert(20, end);
    assert_eq!(21, array.size());
    assert_eq!(&20, array.get(20));
}

#[test]
fn every_container_follows_the_contract() {
    check_contract(Array::<u8>::new());
    check_contract(SingleArray::<u8>::new());
    check_contract(VectorArray::<u8>::new(3));
    check_contract(MatrixArray::<u8>::new(4));
    check_contract(SparseArray::<u8>::new());
    check_contract(Wrapper::<u8>::new());
}
