use vstd::prelude::*;
use crate::slots::Slots;
use crate::IArray;

verus! {

/// A growable buffer that doubles its capacity when it is full.
///
/// Its view is the sequence of its elements. Its capacity is the number of
/// slots it holds; it changes only when an insertion finds the buffer full.
#[derive(Debug)]
pub struct Array<T> {
    buf: Slots<T>,
}

impl<T> View for Array<T> {
    type V = Seq<T>;

    /// The elements, in order.
    closed spec fn view(&self) -> Seq<T> {
        self.buf@
    }
}

impl<T> Array<T> {
    /// The number of slots the buffer holds, occupied or free.
    pub closed spec fn spec_capacity(&self) -> usize {
        self.buf.spec_capacity()
    }

    /// The capacity that a full buffer of capacity `capacity` grows to.
    pub open spec fn grown(capacity: int) -> int {
        if capacity == 0 {
            1
        } else {
            2 * capacity
        }
    }

    /// Growth strictly enlarges the buffer.
    pub proof fn lemma_grown_exceeds(capacity: int)
        requires
            0 <= capacity,
        ensures
            Self::grown(capacity) > capacity,
    {
    }

    /// The capacity is never less than the length.
    pub proof fn lemma_len_le_capacity(&self)
        requires
            self.wf(),
        ensures
            self@.len() <= self.spec_capacity(),
    {
        self.buf.lemma_len_le_capacity();
    }

    /// An empty buffer without any slot.
    pub fn new() -> (s: Self)
        ensures
            s.wf(),
            s@ == Seq::<T>::empty(),
            s.spec_capacity() == 0,
    {
        Array { buf: Slots::new() }
    }

    /// The number of slots the buffer holds, occupied or free.
    #[verifier::when_used_as_spec(spec_capacity)]
    pub fn capacity(&self) -> (n: usize)
        ensures
            n == self.spec_capacity(),
    {
        self.buf.capacity()
    }

    /// The number of elements.
    pub fn len(&self) -> (n: usize)
        requires
            self.wf(),
        ensures
            n == self@.len(),
    {
        self.buf.len()
    }

    /// Whether the buffer holds no element.
    pub fn is_empty(&self) -> (b: bool)
        requires
            self.wf(),
        ensures
            b <==> self@.len() == 0,
    {
        self.buf.len() == 0
    }

    /// Appends `elem`, growing first if the buffer is full.
    pub fn push(&mut self, elem: T)
        requires
            old(self).wf(),
        ensures
            final(self).wf(),
            final(self)@ == old(self)@.push(elem),
            final(self)@ == old(self)@.insert(old(self)@.len() as int, elem),
            old(self)@.len() < old(self).spec_capacity()
                ==> final(self).spec_capacity() == old(self).spec_capacity(),
            old(self)@.len() == old(self).spec_capacity() ==> final(self).spec_capacity()
                == Self::grown(old(self).spec_capacity() as int),
            final(self).spec_capacity() >= old(self).spec_capacity(),
            final(self)@.len() <= final(self).spec_capacity(),
    {
        let end = self.buf.len();
        self.insert(elem, end);
        assert(old(self)@.insert(old(self)@.len() as int, elem) =~= old(self)@.push(elem));
    }

    /// Puts `elem` at `index`, growing first if the buffer is full, and moves
    /// every element from `index` on one place up.
    pub fn insert(&mut self, elem: T, index: usize)
        requires
            old(self).wf(),
            index <= old(self)@.len(),
        ensures
            final(self).wf(),
            final(self)@ == old(self)@.insert(index as int, elem),
            old(self)@.len() < old(self).spec_capacity()
                ==> final(self).spec_capacity() == old(self).spec_capacity(),
            old(self)@.len() == old(self).spec_capacity() ==> final(self).spec_capacity()
                == Self::grown(old(self).spec_capacity() as int),
            final(self).spec_capacity() >= old(self).spec_capacity(),
            final(self)@.len() <= final(self).spec_capacity(),
    {
        proof {
            self.buf.lemma_len_le_capacity();
        }
        if self.buf.len() == self.buf.capacity() {
            self.grow();
        }
        self.buf.insert(elem, index);
    }

    /// Removes the last element and returns it, or `None` if the buffer is empty.
    pub fn pop(&mut self) -> (r: Option<T>)
        requires
            old(self).wf(),
        ensures
            final(self).wf(),
            final(self).spec_capacity() == old(self).spec_capacity(),
            old(self)@.len() == 0 ==> r is None && final(self)@ == old(self)@,
            old(self)@.len() > 0 ==> r == Some(old(self)@.last())
                && final(self)@ == old(self)@.drop_last(),
    {
        self.buf.pop()
    }

    /// Enlarges the buffer to the capacity that the policy gives.
    fn grow(&mut self)
        requires
            old(self).wf(),
        ensures
            final(self).wf(),
            final(self)@ == old(self)@,
            final(self).spec_capacity() == Self::grown(old(self).spec_capacity() as int),
    {
        let cap = self.buf.capacity();
        let extra: usize = if cap == 0 {
            1
        } else {
            cap
        };
        self.buf.extend(extra);
    }

    /// The first element, if there is one.
    pub fn first(&self) -> (r: Option<&T>)
        requires
            self.wf(),
        ensures
            self@.len() == 0 ==> r is None,
            self@.len() > 0 ==> r == Some(&self@[0]),
    {
        self.buf.first()
    }

    /// The last element, if there is one.
    pub fn last(&self) -> (r: Option<&T>)
        requires
            self.wf(),
        ensures
            self@.len() == 0 ==> r is None,
            self@.len() > 0 ==> r == Some(&self@.last()),
    {
        self.buf.last()
    }

    /// A mutable reference to the first element, if there is one.
    pub fn first_mut(&mut self) -> (r: Option<&mut T>)
        requires
            old(self).wf(),
        ensures
            final(self).wf(),
            final(self).spec_capacity() == old(self).spec_capacity(),
            old(self)@.len() == 0 ==> r is None && final(self)@ == old(self)@,
            old(self)@.len() > 0 ==> r is Some && *r.unwrap() == old(self)@[0]
                && final(self)@ == old(self)@.update(0, *final(r.unwrap())),
    {
        self.buf.first_mut()
    }

    /// A mutable reference to the last element, if there is one.
    pub fn last_mut(&mut self) -> (r: Option<&mut T>)
        requires
            old(self).wf(),
        ensures
            final(self).wf(),
            final(self).spec_capacity() == old(self).spec_capacity(),
            old(self)@.len() == 0 ==> r is None && final(self)@ == old(self)@,
            old(self)@.len() > 0 ==> r is Some && *r.unwrap() == old(self)@.last()
                && final(self)@ == old(self)@.update(old(self)@.len() - 1, *final(r.unwrap())),
    {
        self.buf.last_mut()
    }

    /// A mutable reference to the element at `index`.
    pub fn get_mut(&mut self, index: usize) -> (r: &mut T)
        requires
            old(self).wf(),
            index < old(self)@.len(),
        ensures
            *r == old(self)@[index as int],
            final(self).wf(),
            final(self)@ == old(self)@.update(index as int, *final(r)),
            final(self).spec_capacity() == old(self).spec_capacity(),
    {
        self.buf.get_mut(index)
    }
}

impl<T> IArray<T> for Array<T> {
    /// The representation invariant: the elements fill the first slots.
    closed spec fn wf(&self) -> bool {
        self.buf.wf()
    }

    fn size(&self) -> (n: usize) {
        self.buf.len()
    }

    fn push(&mut self, elem: T)
        ensures
            old(self)@.len() < old(self).spec_capacity()
                ==> final(self).spec_capacity() == old(self).spec_capacity(),
            old(self)@.len() == old(self).spec_capacity() ==> final(self).spec_capacity()
                == Self::grown(old(self).spec_capacity() as int),
            final(self).spec_capacity() >= old(self).spec_capacity(),
            final(self)@.len() <= final(self).spec_capacity(),
    {
        Array::push(self, elem);
    }

    fn get(&self, index: usize) -> (r: &T) {
        self.buf.get(index)
    }

    fn insert(&mut self, elem: T, index: usize)
        ensures
            old(self)@.len() < old(self).spec_capacity()
                ==> final(self).spec_capacity() == old(self).spec_capacity(),
            old(self)@.len() == old(self).spec_capacity() ==> final(self).spec_capacity()
                == Self::grown(old(self).spec_capacity() as int),
            final(self).spec_capacity() >= old(self).spec_capacity(),
            final(self)@.len() <= final(self).spec_capacity(),
    {
        Array::insert(self, elem, index);
    }

    fn remove(&mut self, index: usize) -> (r: T)
        ensures
            final(self).spec_capacity() == old(self).spec_capacity(),
    {
        self.buf.remove(index)
    }
}

impl<T> Default for Array<T> {
    fn default() -> (s: Self)
        ensures
            s.wf(),
            s@ == Seq::<T>::empty(),
            s.spec_capacity() == 0,
    {
        Array::new()
    }
}

impl<T> std::ops::Index<usize> for Array<T> {
    type Output = T;

    /// The element at `index`.
    fn index(&self, index: usize) -> (r: &T)
        ensures
            *r == self@[index as int],
    {
        self.buf.get(index)
    }
}

impl<T> vstd::std_specs::core::IndexSpecImpl<usize> for Array<T> {
    open spec fn index_req(&self, index: &usize) -> bool {
        self.wf() && *index < self@.len()
    }
}

} // verus!
