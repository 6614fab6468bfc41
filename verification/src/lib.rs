use vstd::prelude::*;

pub mod array;
pub mod laws;
pub mod matrix_array;
pub mod packing;
pub mod priority_queue;
pub mod single_array;
pub mod slots;
pub mod sparse_array;
pub mod text;
pub mod vector_array;

verus! {

/// An index that lies outside the range an operation accepts.
#[derive(Debug, Clone, Copy, PartialEq, Eq, Structural)]
pub struct IndexOutOfBounds {
    /// The index that was asked for.
    pub index: usize,
    /// The size of the container at that time.
    pub size: usize,
}

/// The shared contract of an index-addressable sequence container.
///
/// The view of a container is the sequence of its elements in index order.
/// An index outside the range that a method names is a fault of the caller:
/// the method's `requires` leaves it out.
pub trait IArray<T>: View<V = Seq<T>> {
    /// The representation invariant of the container.
    spec fn wf(&self) -> bool;

    /// The number of elements.
    fn size(&self) -> (n: usize)
        requires
            self.wf(),
        ensures
            n == self@.len(),
    ;

    /// Appends `elem`: the same as inserting it at the end.
    fn push(&mut self, elem: T)
        requires
            old(self).wf(),
            old(self)@.len() < usize::MAX,
        ensures
            final(self).wf(),
            final(self)@ == old(self)@.push(elem),
            final(self)@ == old(self)@.insert(old(self)@.len() as int, elem),
    ;

    /// The element at `index`, which must lie within the sequence.
    fn get(&self, index: usize) -> (r: &T)
        requires
            self.wf(),
            index < self@.len(),
        ensures
            *r == self@[index as int],
    ;

    /// Puts `elem` at `index`, which must not lie past the end, and moves
    /// every element from `index` on one place up.
    fn insert(&mut self, elem: T, index: usize)
        requires
            old(self).wf(),
            index <= old(self)@.len(),
            old(self)@.len() < usize::MAX,
        ensures
            final(self).wf(),
            final(self)@ == old(self)@.insert(index as int, elem),
    ;

    /// Takes the element at `index`, which must lie within the sequence,
    /// out and moves every later element one place down.
    fn remove(&mut self, index: usize) -> (r: T)
        requires
            old(self).wf(),
            index < old(self)@.len(),
        ensures
            final(self).wf(),
            r == old(self)@[index as int],
            final(self)@ == old(self)@.remove(index as int),
    ;

    /// The element at `index`, or the error if `index` is not within the
    /// sequence.
    fn try_get(&self, index: usize) -> (r: Result<&T, IndexOutOfBounds>)
        requires
            self.wf(),
        ensures
            index < self@.len() ==> r == Ok::<&T, IndexOutOfBounds>(&self@[index as int]),
            index >= self@.len() ==> r == Err::<&T, IndexOutOfBounds>(
                IndexOutOfBounds { index, size: self@.len() as usize },
            ),
    {
        let size = self.size();
        if index < size {
            Ok(self.get(index))
        } else {
            Err(IndexOutOfBounds { index, size })
        }
    }

    /// Inserts `elem` at `index`, or leaves the container as it is and
    /// returns the error if `index` lies past the end.
    fn try_insert(&mut self, elem: T, index: usize) -> (r: Result<(), IndexOutOfBounds>)
        requires
            old(self).wf(),
            old(self)@.len() < usize::MAX,
        ensures
            final(self).wf(),
            index <= old(self)@.len() ==> r is Ok && final(self)@ == old(self)@.insert(
                index as int,
                elem,
            ),
            index > old(self)@.len() ==> final(self)@ == old(self)@ && r == Err::<
                (),
                IndexOutOfBounds,
            >(IndexOutOfBounds { index, size: old(self)@.len() as usize }),
    {
        let size = self.size();
        if index <= size {
            self.insert(elem, index);
            Ok(())
        } else {
            Err(IndexOutOfBounds { index, size })
        }
    }

    /// Removes the element at `index` and returns it, or leaves the
    /// container as it is and returns the error if `index` is not within the
    /// sequence.
    fn try_remove(&mut self, index: usize) -> (r: Result<T, IndexOutOfBounds>)
        requires
            old(self).wf(),
        ensures
            final(self).wf(),
            index < old(self)@.len() ==> r == Ok::<T, IndexOutOfBounds>(old(self)@[index as int])
                && final(self)@ == old(self)@.remove(index as int),
            index >= old(self)@.len() ==> final(self)@ == old(self)@ && r == Err::<
                T,
                IndexOutOfBounds,
            >(IndexOutOfBounds { index, size: old(self)@.len() as usize }),
    {
        let size = self.size();
        if index < size {
            Ok(self.remove(index))
        } else {
            Err(IndexOutOfBounds { index, size })
        }
    }
}

/// The same contract over a standard vector.
#[derive(Debug)]
pub struct Wrapper<T> {
    inner: Vec<T>,
}

impl<T> View for Wrapper<T> {
    type V = Seq<T>;

    /// The elements, in order.
    closed spec fn view(&self) -> Seq<T> {
        self.inner@
    }
}

impl<T> Wrapper<T> {
    /// An empty sequence.
    pub fn new() -> (s: Self)
        ensures
            s.wf(),
            s@ == Seq::<T>::empty(),
    {
        Wrapper { inner: Vec::new() }
    }
}

impl<T> IArray<T> for Wrapper<T> {
    /// A vector is always well formed.
    open spec fn wf(&self) -> bool {
        true
    }

    fn size(&self) -> (n: usize) {
        self.inner.len()
    }

    fn push(&mut self, elem: T) {
        self.inner.push(elem);
        assert(old(self)@.insert(old(self)@.len() as int, elem) =~= old(self)@.push(elem));
    }

    fn get(&self, index: usize) -> (r: &T) {
        &self.inner[index]
    }

    fn insert(&mut self, elem: T, index: usize) {
        self.inner.insert(index, elem);
    }

    fn remove(&mut self, index: usize) -> (r: T) {
        self.inner.remove(index)
    }
}

impl<T> Default for Wrapper<T> {
    fn default() -> (s: Self)
        ensures
            s.wf(),
            s@ == Seq::<T>::empty(),
    {
        Wrapper::new()
    }
}

} // verus!
