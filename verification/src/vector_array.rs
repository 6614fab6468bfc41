use vstd::prelude::*;
use crate::slots::Slots;
use crate::IArray;

verus! {

/// A growable buffer that grows by a fixed number of slots when it is full.
///
/// Its view is the sequence of its elements. Its capacity is the number of
/// slots it holds; it changes only when an insertion finds the buffer full.
#[derive(Debug)]
pub struct VectorArray<T> {
    buf: Slots<T>,
    vector: usize,
}

impl<T> View for VectorArray<T> {
    type V = Seq<T>;

    /// The elements, in order.
    closed spec fn view(&self) -> Seq<T> {
        self.buf@
    }
}

impl<T> VectorArray<T> {
    /// The number of slots the buffer holds, occupied or free.
    pub closed spec fn spec_capacity(&self) -> usize {
        self.buf.spec_capacity()
    }

    /// The number of slots by which a full buffer grows.
    pub closed spec fn spec_block(&self) -> usize {
        self.vector
    }

    /// The capacity that this buffer grows to when it is full at capacity
    /// `capacity`.
    pub open spec fn grown(&self, capacity: int) -> int {
        capacity + self.spec_block()
    }

    /// Growth strictly enlarges the buffer.
    pub proof fn lemma_grown_exceeds(&self, capacity: int)
        requires
            self.wf(),
        ensures
            self.grown(capacity) > capacity,
    {
    }

    /// The capacity is never less than the length.
    pub proof fn lemma_len_le_capacity(&self)
        requires
            self.wf(),
        ensures
            self@.len() <= self.spec_capacity(),
    {
        self.buf.lemma_len_le_capacity();
    }

    /// An empty buffer without any slot, which will grow by `vector` slots
    /// at a time.
    pub fn new(vector: usize) -> (s: Self)
        requires
            vector > 0,
        ensures
            s.wf(),
            s@ == Seq::<T>::empty(),
            s.spec_capacity() == 0,
            s.spec_block() == vector,
    {
        VectorArray { buf: Slots::new(), vector }
    }

    /// The number of slots by which a full buffer grows.
    #[verifier::when_used_as_spec(spec_block)]
    pub fn block(&self) -> (n: usize)
        ensures
            n == self.spec_block(),
    {
        self.vector
    }

    /// The number of slots the buffer holds, occupied or free.
    #[verifier::when_used_as_spec(spec_capacity)]
    pub fn capacity(&self) -> (n: usize)
        ensures
            n == self.spec_capacity(),
    {
        self.buf.capacity()
    }

    /// The number of elements.
    pub fn len(&self) -> (n: usize)
        requires
            self.wf(),
        ensures
            n == self@.len(),
    {
        self.buf.len()
    }

    /// Whether the buffer holds no element.
    pub fn is_empty(&self) -> (b: bool)
        requires
            self.wf(),
        ensures
            b <==> self@.len() == 0,
    {
        self.buf.len() == 0
    }

    /// Removes the last element and returns it, or `None` if the buffer is empty.
    pub fn pop(&mut self) -> (r: Option<T>)
        requires
            old(self).wf(),
        ensures
            final(self).wf(),
            final(self).spec_block() == old(self).spec_block(),
            final(self).spec_capacity() == old(self).spec_capacity(),
            old(self)@.len() == 0 ==> r is None && final(self)@ == old(self)@,
            old(self)@.len() > 0 ==> r == Some(old(self)@.last())
                && final(self)@ == old(self)@.drop_last(),
    {
        self.buf.pop()
    }

    /// Enlarges the buffer to the capacity that the policy gives.
    fn grow(&mut self)
        requires
            old(self).wf(),
        ensures
            final(self).wf(),
            final(self).spec_block() == old(self).spec_block(),
            final(self)@ == old(self)@,
            final(self).spec_capacity() == old(self).grown(old(self).spec_capacity() as int),
    {
        self.buf.extend(self.vector);
    }

    /// The first element, if there is one.
    pub fn first(&self) -> (r: Option<&T>)
        requires
            self.wf(),
        ensures
            self@.len() == 0 ==> r is None,
            self@.len() > 0 ==> r == Some(&self@[0]),
    {
        self.buf.first()
    }

    /// The last element, if there is one.
    pub fn last(&self) -> (r: Option<&T>)
        requires
            self.wf(),
        ensures
            self@.len() == 0 ==> r is None,
            self@.len() > 0 ==> r == Some(&self@.last()),
    {
        self.buf.last()
    }

    /// A mutable reference to the first element, if there is one.
    pub fn first_mut(&mut self) -> (r: Option<&mut T>)
        requires
            old(self).wf(),
        ensures
            final(self).wf(),
            final(self).spec_block() == old(self).spec_block(),
            final(self).spec_capacity() == old(self).spec_capacity(),
            old(self)@.len() == 0 ==> r is None && final(self)@ == old(self)@,
            old(self)@.len() > 0 ==> r is Some && *r.unwrap() == old(self)@[0]
                && final(self)@ == old(self)@.update(0, *final(r.unwrap())),
    {
        self.buf.first_mut()
    }

    /// A mutable reference to the last element, if there is one.
    pub fn last_mut(&mut self) -> (r: Option<&mut T>)
        requires
            old(self).wf(),
        ensures
            final(self).wf(),
            final(self).spec_block() == old(self).spec_block(),
            final(self).spec_capacity() == old(self).spec_capacity(),
            old(self)@.len() == 0 ==> r is None && final(self)@ == old(self)@,
            old(self)@.len() > 0 ==> r is Some && *r.unwrap() == old(self)@.last()
                && final(self)@ == old(self)@.update(old(self)@.len() - 1, *final(r.unwrap())),
    {
        self.buf.last_mut()
    }

    /// A mutable reference to the element at `index`.
    pub fn get_mut(&mut self, index: usize) -> (r: &mut T)
        requires
            old(self).wf(),
            index < old(self)@.len(),
        ensures
            *r == old(self)@[index as int],
            final(self).wf(),
            final(self).spec_block() == old(self).spec_block(),
            final(self)@ == old(self)@.update(index as int, *final(r)),
            final(self).spec_capacity() == old(self).spec_capacity(),
    {
        self.buf.get_mut(index)
    }
}

impl<T> IArray<T> for VectorArray<T> {
    /// The representation invariant: the elements fill the first slots.
    closed spec fn wf(&self) -> bool {
        self.buf.wf() && self.vector > 0
    }

    fn size(&self) -> (n: usize) {
        self.buf.len()
    }

    fn push(&mut self, elem: T)
        ensures
            final(self).spec_block() == old(self).spec_block(),
            old(self)@.len() < old(self).spec_capacity()
                ==> final(self).spec_capacity() == old(self).spec_capacity(),
            old(self)@.len() == old(self).spec_capacity() ==> final(self).spec_capacity()
                == old(self).grown(old(self).spec_capacity() as int),
            final(self).spec_capacity() >= old(self).spec_capacity(),
            final(self)@.len() <= final(self).spec_capacity(),
    {
        let end = self.buf.len();
        self.insert(elem, end);
        assert(old(self)@.insert(old(self)@.len() as int, elem) =~= old(self)@.push(elem));
    }

    fn get(&self, index: usize) -> (r: &T) {
        self.buf.get(index)
    }

    fn insert(&mut self, elem: T, index: usize)
        ensures
            final(self).spec_block() == old(self).spec_block(),
            old(self)@.len() < old(self).spec_capacity()
                ==> final(self).spec_capacity() == old(self).spec_capacity(),
            old(self)@.len() == old(self).spec_capacity() ==> final(self).spec_capacity()
                == old(self).grown(old(self).spec_capacity() as int),
            final(self).spec_capacity() >= old(self).spec_capacity(),
            final(self)@.len() <= final(self).spec_capacity(),
    {
        proof {
            self.buf.lemma_len_le_capacity();
        }
        if self.buf.len() == self.buf.capacity() {
            self.grow();
        }
        self.buf.insert(elem, index);
    }

    fn remove(&mut self, index: usize) -> (r: T)
        ensures
            final(self).spec_block() == old(self).spec_block(),
            final(self).spec_capacity() == old(self).spec_capacity(),
    {
        self.buf.remove(index)
    }
}

impl<T> Default for VectorArray<T> {
    fn default() -> (s: Self)
        ensures
            s.wf(),
            s@ == Seq::<T>::empty(),
            s.spec_capacity() == 0,
            s.spec_block() == 5,
    {
        VectorArray::new(5)
    }
}

impl<T> std::ops::Index<usize> for VectorArray<T> {
    type Output = T;

    /// The element at `index`.
    fn index(&self, index: usize) -> (r: &T)
        ensures
            *r == self@[index as int],
    {
        self.buf.get(index)
    }
}

impl<T> vstd::std_specs::core::IndexSpecImpl<usize> for VectorArray<T> {
    open spec fn index_req(&self, index: &usize) -> bool {
        self.wf() && *index < self@.len()
    }
}

} // verus!
