use vstd::prelude::*;
use crate::array::Array;
use crate::packing::{
    lemma_div_mod, lemma_empty_last, lemma_full_prefix, lemma_insert_in_block, lemma_packed_index,
    lemma_remove_in_block, lemma_split_at, lemma_start_after_update, lemma_start_next,
    lemma_start_of_end, packed, start_of,
};
use crate::text::{join, joined, views, wrap};
use crate::vector_array::VectorArray;
use crate::IArray;
use vstd::string::StringExecFns;

verus! {

/// A sequence kept in blocks of a fixed capacity, every block full but the last.
#[derive(Debug)]
pub struct MatrixArray<T> {
    inner: Array<VectorArray<T>>,
    size: usize,
    vector: usize,
}

impl<T> View for MatrixArray<T> {
    type V = Seq<T>;

    /// The blocks, one after the other.
    open spec fn view(&self) -> Seq<T> {
        self.blocks().flatten()
    }
}

/// The contents of each block.
spec fn block_views<T>(inner: Seq<VectorArray<T>>) -> Seq<Seq<T>> {
    Seq::new(inner.len(), |i: int| inner[i]@)
}

/// All blocks but `b` are as in a packed sequence, block `b` holds one element
/// too many, and the last block has room for one more.
spec fn long_at<T>(blocks: Seq<Seq<T>>, capacity: int, b: int) -> bool {
    &&& 0 <= b < blocks.len()
    &&& forall|i: int| 0 <= i < blocks.len() - 1 && i != b
        ==> (#[trigger] blocks[i]).len() == capacity
    &&& b < blocks.len() - 1 ==> blocks[b].len() == capacity + 1 && blocks.last().len() < capacity
    &&& b == blocks.len() - 1 ==> 1 <= blocks[b].len() <= capacity
}

/// All blocks but `b` are as in a packed sequence, and block `b` holds one
/// element too few.
spec fn short_at<T>(blocks: Seq<Seq<T>>, capacity: int, b: int) -> bool {
    &&& 0 <= b < blocks.len()
    &&& forall|i: int| 0 <= i < blocks.len() - 1 && i != b
        ==> (#[trigger] blocks[i]).len() == capacity
    &&& b < blocks.len() - 1
        ==> blocks[b].len() == capacity - 1 && 1 <= blocks.last().len() <= capacity
    &&& b == blocks.len() - 1 ==> 0 <= blocks[b].len() <= capacity - 1
}

/// The text of one block: its elements' texts between brackets, then a comma.
pub open spec fn row_text(items: Seq<Seq<char>>) -> Seq<char> {
    "["@ + joined(items, ", "@) + "],"@
}

/// The text of the blocks: an opening bracket, a line for each block, and a
/// closing bracket.
pub open spec fn layout(rows: Seq<Seq<Seq<char>>>) -> Seq<char> {
    joined(seq!["["@] + Seq::new(rows.len(), |i: int| row_text(rows[i])) + seq!["]"@], "\n"@)
}

/// `rows` holds one text for each element of each block.
pub open spec fn shaped_like<T>(rows: Seq<Seq<Seq<char>>>, blocks: Seq<Seq<T>>) -> bool {
    &&& rows.len() == blocks.len()
    &&& forall|i: int| 0 <= i < rows.len() ==> (#[trigger] rows[i]).len() == blocks[i].len()
}

/// The text that the element's `Debug` implementation gives for it, as
/// `format!("{:?}", item)` returns it. Nothing is claimed of the text.
#[verifier::external_body]
fn debug_text<T: std::fmt::Debug>(item: &T) -> (text: String) {
    format!("{:?}", item)
}

impl<T> MatrixArray<T> {
    /// The blocks as text, one line for each block, each element as its
    /// `Debug` implementation writes it.
    pub fn repr(&self) -> (text: String) where T: std::fmt::Debug
        requires
            self.wf(),
        ensures
            exists|rows: Seq<Seq<Seq<char>>>|
                shaped_like(rows, self.blocks()) && text@ == #[trigger] layout(rows),
    {
        let mut result: Vec<String> = Vec::new();
        result.push(String::from_str("["));
        let ghost mut rows: Seq<Seq<Seq<char>>> = Seq::empty();
        let count = self.inner.size();
        let mut i: usize = 0;
        while i < count
            invariant
                self.wf(),
                count == self.blocks().len(),
                i <= count,
                rows.len() == i,
                forall|k: int| 0 <= k < i ==> (#[trigger] rows[k]).len() == self.blocks()[k].len(),
                result@.len() == i + 1,
                result@[0]@ == "["@,
                forall|k: int| 0 <= k < i ==> (#[trigger] result@[k + 1])@ == row_text(rows[k]),
            decreases count - i,
        {
            let store = self.inner.get(i);
            let mut items: Vec<String> = Vec::new();
            let width = store.size();
            let mut j: usize = 0;
            while j < width
                invariant
                    store.wf(),
                    width == store@.len(),
                    j <= width,
                    items@.len() == j,
                decreases width - j,
            {
                items.push(debug_text(store.get(j)));
                j += 1;
            }
            let inside = join(&items, ", ");
            let line = wrap("[", inside.as_str(), "],");
            result.push(line);
            proof {
                rows = rows.push(views(items@));
            }
            i += 1;
        }
        result.push(String::from_str("]"));
        proof {
            let target = seq!["["@] + Seq::new(rows.len(), |k: int| row_text(rows[k])) + seq!["]"@];
            assert forall|k: int| 0 <= k < target.len() implies views(result@)[k] == target[k] by {
                if 0 < k <= rows.len() {
                    assert(result@[(k - 1) + 1]@ == row_text(rows[k - 1]));
                }
            }
            assert(views(result@) =~= target);
            assert(shaped_like(rows, self.blocks()));
        }
        let text = join(&result, "\n");
        assert(text@ == layout(rows));
        text
    }

    /// The contents of the blocks, in order.
    pub closed spec fn blocks(&self) -> Seq<Seq<T>> {
        block_views(self.inner@)
    }

    /// The number of elements that a block holds when it is full.
    pub closed spec fn spec_block_capacity(&self) -> usize {
        self.vector
    }

    /// Every block is a well-formed buffer that grows by the block capacity.
    spec fn blocks_ok(&self) -> bool {
        &&& self.vector > 0
        &&& self.inner.wf()
        &&& forall|i: int|
            0 <= i < self.inner@.len() ==> (#[trigger] self.inner@[i]).wf()
                && self.inner@[i].spec_block() == self.vector
    }

    /// Every block except the last holds exactly the block capacity, and the
    /// last block is not empty.
    pub proof fn lemma_packed(&self)
        requires
            self.wf(),
        ensures
            self.spec_block_capacity() > 0,
            packed(self.blocks(), self.spec_block_capacity() as int),
    {
    }

    /// Position `index` of the sequence is position `index % capacity` of
    /// block `index / capacity`.
    pub proof fn lemma_position(&self, index: int)
        requires
            self.wf(),
            0 <= index < self@.len(),
        ensures
            ({
                let capacity = self.spec_block_capacity() as int;
                &&& 0 <= index / capacity < self.blocks().len()
                &&& 0 <= index % capacity < self.blocks()[index / capacity].len()
                &&& self@[index] == self.blocks()[index / capacity][index % capacity]
            }),
    {
        lemma_packed_index(self.blocks(), self.vector as int, index);
    }

    /// An empty sequence whose blocks hold `vector` elements each.
    pub fn new(vector: usize) -> (s: Self)
        requires
            vector > 0,
        ensures
            s.wf(),
            s@ == Seq::<T>::empty(),
            s.spec_block_capacity() == vector,
    {
        let s = MatrixArray { inner: Array::new(), size: 0, vector };
        assert(s.blocks() =~= Seq::<Seq<T>>::empty());
        s
    }

    /// The block that holds position `index`, and the position within it.
    fn make_indice(&self, index: usize) -> (r: (usize, usize))
        requires
            self.vector > 0,
        ensures
            r.0 == index / self.vector,
            r.1 == index % self.vector,
    {
        (index / self.vector, index % self.vector)
    }

    /// Whether there is no block or the last one is full.
    fn need_to_grow(&self) -> (b: bool)
        requires
            self.blocks_ok(),
        ensures
            b <==> (self.blocks().len() == 0 || self.blocks().last().len() >= self.vector),
    {
        match self.inner.last() {
            Some(last) => last.size() >= self.vector,
            None => true,
        }
    }

    /// Appends an empty block if there is no block or the last one is full.
    fn make_room(&mut self)
        requires
            old(self).wf(),
        ensures
            final(self).blocks_ok(),
            final(self).vector == old(self).vector,
            final(self).size == old(self).size,
            final(self)@ == old(self)@,
            final(self).blocks().len() > 0,
            forall|i: int|
                0 <= i < final(self).blocks().len() - 1
                    ==> (#[trigger] final(self).blocks()[i]).len() == final(self).vector,
            final(self).blocks().last().len() < final(self).vector,
    {
        if self.need_to_grow() {
            let ghost before = self.blocks();
            self.inner.push(VectorArray::new(self.vector));
            proof {
                assert(self.blocks() =~= before.push(Seq::<T>::empty()));
                before.lemma_flatten_push(Seq::<T>::empty());
                assert(before.flatten() + Seq::<T>::empty() =~= before.flatten());
            }
        }
    }

    /// Drops the last block if it is empty.
    fn check_last_and_remove_if_empty(&mut self)
        requires
            old(self).blocks_ok(),
        ensures
            final(self).blocks_ok(),
            final(self).vector == old(self).vector,
            final(self).size == old(self).size,
            final(self)@ == old(self)@,
            old(self).blocks().len() > 0 && old(self).blocks().last().len() == 0
                ==> final(self).blocks() == old(self).blocks().drop_last(),
            !(old(self).blocks().len() > 0 && old(self).blocks().last().len() == 0)
                ==> final(self).blocks() == old(self).blocks(),
    {
        let empty_last = match self.inner.last() {
            Some(last) => last.is_empty(),
            None => false,
        };
        if empty_last {
            let last_index = self.inner.size() - 1;
            self.inner.remove(last_index);
            proof {
                assert(self.blocks() =~= old(self).blocks().drop_last());
                lemma_empty_last(old(self).blocks());
            }
        }
    }

    /// From block `inner_index + 1` on, hands the first element of each block
    /// to the block before it.
    fn shift_after_remove(&mut self, inner_index: usize)
        requires
            old(self).blocks_ok(),
            short_at(old(self).blocks(), old(self).vector as int, inner_index as int),
        ensures
            final(self).blocks_ok(),
            final(self).vector == old(self).vector,
            final(self).size == old(self).size,
            final(self)@ == old(self)@,
            final(self).blocks().len() == old(self).blocks().len(),
            short_at(final(self).blocks(), final(self).vector as int, final(self).blocks().len() - 1),
    {
        let count = self.inner.size();
        let mut j: usize = inner_index + 1;
        while j < count
            invariant
                self.blocks_ok(),
                self.vector == old(self).vector,
                self.size == old(self).size,
                self@ == old(self)@,
                count == self.blocks().len(),
                inner_index < j <= count,
                short_at(self.blocks(), self.vector as int, j - 1),
            decreases count - j,
        {
            let ghost before = self.blocks();
            let ghost flat = self@;
            proof {
                assert(before[j as int] == self.inner@[j as int]@);
                assert(before[j - 1] == self.inner@[j - 1]@);
            }
            let store = self.inner.get_mut(j);
            let shifted = store.remove(0);
            let ghost middle = self.blocks();
            let prev = self.inner.get_mut(j - 1);
            prev.push(shifted);
            proof {
                let at = start_of(before, j as int);
                assert(middle =~= before.update(j as int, before[j as int].remove(0)));
                lemma_remove_in_block(before, j as int, 0);
                assert(middle.flatten() == flat.remove(at));
                assert(self.blocks() =~= middle.update(j - 1, middle[j - 1].push(shifted)));
                assert(middle[j - 1].push(shifted) =~= middle[j - 1].insert(
                    middle[j - 1].len() as int,
                    shifted,
                ));
                lemma_insert_in_block(middle, j - 1, middle[j - 1].len() as int, shifted);
                lemma_start_next(before, j - 1);
                assert(middle.take(j - 1) =~= before.take(j - 1));
                assert(flat.remove(at).insert(at, flat[at]) =~= flat);
            }
            j += 1;
        }
    }
}

impl<T> IArray<T> for MatrixArray<T> {
    /// The representation invariant: well-formed blocks, every one full but
    /// the last, which is not empty, and a size that counts their elements.
    closed spec fn wf(&self) -> bool {
        &&& self.blocks_ok()
        &&& packed(self.blocks(), self.vector as int)
        &&& self.size == self.blocks().flatten().len()
    }

    fn size(&self) -> (n: usize) {
        self.size
    }

    fn push(&mut self, elem: T)
        ensures
            final(self).spec_block_capacity() == old(self).spec_block_capacity(),
            packed(final(self).blocks(), final(self).spec_block_capacity() as int),
    {
        let end = self.size;
        self.insert(elem, end);
        assert(old(self)@.insert(old(self)@.len() as int, elem) =~= old(self)@.push(elem));
    }

    fn get(&self, index: usize) -> (r: &T) {
        proof {
            lemma_packed_index(self.blocks(), self.vector as int, index as int);
        }
        let (inner_index, single_index) = self.make_indice(index);
        let store = self.inner.get(inner_index);
        store.get(single_index)
    }

    /// Inserts into the block that holds `index` and carries each overflowing
    /// block's last element over to the block after it.
    fn insert(&mut self, elem: T, index: usize)
        ensures
            final(self).spec_block_capacity() == old(self).spec_block_capacity(),
            packed(final(self).blocks(), final(self).spec_block_capacity() as int),
    {
        self.make_room();
        let (inner_index, single_index) = self.make_indice(index);
        let ghost cap = self.vector as int;
        let ghost roomy = self.blocks();
        let ghost target = old(self)@.insert(index as int, elem);
        proof {
            let n = roomy.len() as int;
            lemma_full_prefix(roomy, cap, n - 1);
            lemma_start_next(roomy, n - 1);
            lemma_start_of_end(roomy);
            lemma_div_mod(index as int, cap);
            assert(inner_index < n) by (nonlinear_arith)
                requires
                    index == inner_index * cap + single_index,
                    0 <= single_index,
                    index < (n - 1) * cap + cap,
                    cap > 0,
            ;
            lemma_full_prefix(roomy, cap, inner_index as int);
            lemma_split_at(roomy, inner_index as int);
            lemma_insert_in_block(roomy, inner_index as int, single_index as int, elem);
        }
        let store = self.inner.get_mut(inner_index);
        store.insert(elem, single_index);
        self.size += 1;
        assert(self.blocks() =~= roomy.update(
            inner_index as int,
            roomy[inner_index as int].insert(single_index as int, elem),
        ));
        let mut b: usize = inner_index;
        while self.inner.get(b).size() > self.vector
            invariant
                self.blocks_ok(),
                self.vector == old(self).vector,
                self.size == old(self).size + 1,
                self@ == target,
                target.len() == old(self).size + 1,
                long_at(self.blocks(), self.vector as int, b as int),
            decreases self.blocks().len() - b,
        {
            let ghost before = self.blocks();
            let ghost flat = self@;
            proof {
                self.inner.lemma_len_le_capacity();
                assert(before[b as int] == self.inner@[b as int]@);
                assert(before[b + 1] == self.inner@[b + 1]@);
            }
            let store = self.inner.get_mut(b);
            let at = store.size() - 1;
            let last_elem = store.remove(at);
            let ghost middle = self.blocks();
            let next = self.inner.get_mut(b + 1);
            next.insert(last_elem, 0);
            proof {
                let p = start_of(before, b as int) + at;
                assert(middle =~= before.update(b as int, before[b as int].remove(at as int)));
                lemma_remove_in_block(before, b as int, at as int);
                assert(self.blocks() =~= middle.update(b + 1, middle[b + 1].insert(0, last_elem)));
                lemma_insert_in_block(middle, b + 1, 0, last_elem);
                lemma_start_after_update(before, b as int, before[b as int].remove(at as int));
                assert(flat.remove(p).insert(p, flat[p]) =~= flat);
            }
            b += 1;
        }
    }

    /// Removes from the block that holds `index` and closes the gap from the
    /// blocks after it.
    fn remove(&mut self, index: usize) -> (r: T)
        ensures
            final(self).spec_block_capacity() == old(self).spec_block_capacity(),
            packed(final(self).blocks(), final(self).spec_block_capacity() as int),
    {
        let (inner_index, single_index) = self.make_indice(index);
        let ghost before = self.blocks();
        proof {
            lemma_packed_index(before, self.vector as int, index as int);
            lemma_div_mod(index as int, self.vector as int);
            lemma_remove_in_block(before, inner_index as int, single_index as int);
        }
        let store = self.inner.get_mut(inner_index);
        let removed = store.remove(single_index);
        assert(self.blocks() =~= before.update(
            inner_index as int,
            before[inner_index as int].remove(single_index as int),
        ));
        assert(self@ == old(self)@.remove(index as int));
        assert(short_at(self.blocks(), self.vector as int, inner_index as int));
        self.shift_after_remove(inner_index);
        self.check_last_and_remove_if_empty();
        self.size -= 1;
        removed
    }
}

impl<T> Default for MatrixArray<T> {
    fn default() -> (s: Self)
        ensures
            s.wf(),
            s@ == Seq::<T>::empty(),
            s.spec_block_capacity() == 5,
    {
        MatrixArray::new(5)
    }
}

} // verus!
