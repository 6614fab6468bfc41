use vstd::prelude::*;

verus! {

/// A contiguous run of slots of which the first `len` are occupied.
///
/// This is the storage shared by the growable buffers: it never grows by
/// itself, and an insertion needs a free slot.
#[derive(Debug)]
pub struct Slots<T> {
    slots: Vec<Option<T>>,
    len: usize,
}

impl<T> View for Slots<T> {
    type V = Seq<T>;

    /// The occupied slots, in order.
    closed spec fn view(&self) -> Seq<T> {
        Seq::new(self.len as nat, |i: int| self.slots@[i].unwrap())
    }
}

impl<T> Slots<T> {
    /// The occupied slots come first and the free ones after them.
    pub closed spec fn wf(&self) -> bool {
        &&& self.len <= self.slots@.len()
        &&& forall|i: int|
            0 <= i < self.slots@.len() ==> ((#[trigger] self.slots@[i]) is Some <==> i < self.len)
    }

    /// The number of slots, occupied or free.
    pub closed spec fn spec_capacity(&self) -> usize {
        self.slots.len()
    }

    /// There are never more elements than slots.
    pub proof fn lemma_len_le_capacity(&self)
        requires
            self.wf(),
        ensures
            self@.len() <= self.spec_capacity(),
    {
    }

    /// A run without any slot.
    pub fn new() -> (s: Self)
        ensures
            s.wf(),
            s@ == Seq::<T>::empty(),
            s.spec_capacity() == 0,
    {
        Slots { slots: Vec::new(), len: 0 }
    }

    /// The number of occupied slots.
    pub fn len(&self) -> (n: usize)
        requires
            self.wf(),
        ensures
            n == self@.len(),
    {
        self.len
    }

    /// The number of slots, occupied or free.
    #[verifier::when_used_as_spec(spec_capacity)]
    pub fn capacity(&self) -> (n: usize)
        ensures
            n == self.spec_capacity(),
    {
        self.slots.len()
    }

    /// Adds `extra` free slots behind the existing ones. The room for them
    /// is asked for at once; where it cannot be had, the program ends there.
    pub fn extend(&mut self, extra: usize)
        requires
            old(self).wf(),
        ensures
            final(self).wf(),
            final(self)@ == old(self)@,
            final(self).spec_capacity() == old(self).spec_capacity() + extra,
    {
        self.slots.reserve(extra);
        let mut added: usize = 0;
        while added < extra
            invariant
                added <= extra,
                self.wf(),
                self.len == old(self).len,
                self.slots@.len() == old(self).slots@.len() + added,
                forall|i: int| 0 <= i < self.len ==> self.slots@[i] == old(self).slots@[i],
            decreases extra - added,
        {
            self.slots.push(None);
            added += 1;
        }
        assert(self@ =~= old(self)@);
    }

    /// The element at `index`.
    pub fn get(&self, index: usize) -> (r: &T)
        requires
            self.wf(),
            index < self@.len(),
        ensures
            *r == self@[index as int],
    {
        self.slots[index].as_ref().unwrap()
    }

    /// A mutable reference to the element at `index`.
    pub fn get_mut(&mut self, index: usize) -> (r: &mut T)
        requires
            old(self).wf(),
            index < old(self)@.len(),
        ensures
            *r == old(self)@[index as int],
            final(self).wf(),
            final(self)@ == old(self)@.update(index as int, *final(r)),
            final(self).spec_capacity() == old(self).spec_capacity(),
    {
        self.slots[index].as_mut().unwrap()
    }

    /// The first element, if there is one.
    pub fn first(&self) -> (r: Option<&T>)
        requires
            self.wf(),
        ensures
            self@.len() == 0 ==> r is None,
            self@.len() > 0 ==> r == Some(&self@[0]),
    {
        if self.len == 0 {
            None
        } else {
            Some(self.get(0))
        }
    }

    /// The last element, if there is one.
    pub fn last(&self) -> (r: Option<&T>)
        requires
            self.wf(),
        ensures
            self@.len() == 0 ==> r is None,
            self@.len() > 0 ==> r == Some(&self@.last()),
    {
        if self.len == 0 {
            None
        } else {
            Some(self.get(self.len - 1))
        }
    }

    /// A mutable reference to the first element, if there is one.
    pub fn first_mut(&mut self) -> (r: Option<&mut T>)
        requires
            old(self).wf(),
        ensures
            final(self).wf(),
            final(self).spec_capacity() == old(self).spec_capacity(),
            old(self)@.len() == 0 ==> r is None && final(self)@ == old(self)@,
            old(self)@.len() > 0 ==> r is Some && *r.unwrap() == old(self)@[0]
                && final(self)@ == old(self)@.update(0, *final(r.unwrap())),
    {
        if self.len == 0 {
            None
        } else {
            Some(self.get_mut(0))
        }
    }

    /// A mutable reference to the last element, if there is one.
    pub fn last_mut(&mut self) -> (r: Option<&mut T>)
        requires
            old(self).wf(),
        ensures
            final(self).wf(),
            final(self).spec_capacity() == old(self).spec_capacity(),
            old(self)@.len() == 0 ==> r is None && final(self)@ == old(self)@,
            old(self)@.len() > 0 ==> r is Some && *r.unwrap() == old(self)@.last()
                && final(self)@ == old(self)@.update(old(self)@.len() - 1, *final(r.unwrap())),
    {
        if self.len == 0 {
            None
        } else {
            let at = self.len - 1;
            Some(self.get_mut(at))
        }
    }

    /// Moves every element from `index` on one slot up and puts `elem` at `index`.
    pub fn insert(&mut self, elem: T, index: usize)
        requires
            old(self).wf(),
            index <= old(self)@.len(),
            old(self)@.len() < old(self).spec_capacity(),
        ensures
            final(self).wf(),
            final(self)@ == old(self)@.insert(index as int, elem),
            final(self).spec_capacity() == old(self).spec_capacity(),
    {
        let mut j: usize = self.len;
        while j > index
            invariant
                index <= j <= self.len,
                self.len == old(self).len,
                self.len < self.slots@.len(),
                self.slots@.len() == old(self).slots@.len(),
                self.slots@[j as int] is None,
                forall|i: int| 0 <= i < j ==> self.slots@[i] == old(self).slots@[i],
                forall|i: int| j < i <= self.len ==> self.slots@[i] == old(self).slots@[i - 1],
                forall|i: int| self.len < i < self.slots@.len() ==> self.slots@[i] is None,
            decreases j - index,
        {
            let item = self.slots[j - 1].take();
            self.slots[j] = item;
            j -= 1;
        }
        self.slots[index] = Some(elem);
        self.len += 1;
        assert(self@ =~= old(self)@.insert(index as int, elem));
    }

    /// Takes the element at `index` out and moves every later element one slot down.
    pub fn remove(&mut self, index: usize) -> (r: T)
        requires
            old(self).wf(),
            index < old(self)@.len(),
        ensures
            final(self).wf(),
            r == old(self)@[index as int],
            final(self)@ == old(self)@.remove(index as int),
            final(self).spec_capacity() == old(self).spec_capacity(),
    {
        let item = self.slots[index].take().unwrap();
        let mut j: usize = index + 1;
        while j < self.len
            invariant
                index < j <= self.len,
                self.len == old(self).len,
                self.len <= self.slots@.len(),
                self.slots@.len() == old(self).slots@.len(),
                self.slots@[j - 1] is None,
                forall|i: int| 0 <= i < index ==> self.slots@[i] == old(self).slots@[i],
                forall|i: int| index <= i < j - 1 ==> self.slots@[i] == old(self).slots@[i + 1],
                forall|i: int| j <= i < self.slots@.len() ==> self.slots@[i] == old(self).slots@[i],
            decreases self.len - j,
        {
            let next = self.slots[j].take();
            self.slots[j - 1] = next;
            j += 1;
        }
        self.len -= 1;
        assert(self@ =~= old(self)@.remove(index as int));
        item
    }

    /// Takes the last element out, if there is one.
    pub fn pop(&mut self) -> (r: Option<T>)
        requires
            old(self).wf(),
        ensures
            final(self).wf(),
            final(self).spec_capacity() == old(self).spec_capacity(),
            old(self)@.len() == 0 ==> r is None && final(self)@ == old(self)@,
            old(self)@.len() > 0 ==> r == Some(old(self)@.last())
                && final(self)@ == old(self)@.drop_last(),
    {
        if self.len == 0 {
            None
        } else {
            self.len -= 1;
            let item = self.slots[self.len].take();
            assert(self@ =~= old(self)@.drop_last());
            item
        }
    }
}

} // verus!
