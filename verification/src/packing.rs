use vstd::prelude::*;
use vstd::seq_lib::lemma_flatten_concat;

verus! {

/// Every block but the last holds exactly `capacity` elements, and the last
/// one, if there is any, holds between one and `capacity` elements.
pub open spec fn packed<T>(blocks: Seq<Seq<T>>, capacity: int) -> bool {
    &&& forall|i: int| 0 <= i < blocks.len() - 1 ==> (#[trigger] blocks[i]).len() == capacity
    &&& blocks.len() > 0 ==> 1 <= blocks.last().len() <= capacity
}

/// The position in the concatenation at which block `b` starts.
pub open spec fn start_of<T>(blocks: Seq<Seq<T>>, b: int) -> int {
    blocks.take(b).flatten().len() as int
}

/// The concatenation splits around any one block.
pub proof fn lemma_split_at<T>(blocks: Seq<Seq<T>>, b: int)
    requires
        0 <= b < blocks.len(),
    ensures
        blocks.flatten() == blocks.take(b).flatten() + blocks[b] + blocks.skip(b + 1).flatten(),
{
    let left = blocks.take(b);
    let mid = seq![blocks[b]];
    let right = blocks.skip(b + 1);
    assert(blocks =~= left + mid + right);
    lemma_flatten_concat(left + mid, right);
    lemma_flatten_concat(left, mid);
    mid.lemma_flatten_one_element();
    assert(mid.first() == blocks[b]);
}

/// Replacing one block replaces its part of the concatenation.
pub proof fn lemma_update_block<T>(blocks: Seq<Seq<T>>, b: int, block: Seq<T>)
    requires
        0 <= b < blocks.len(),
    ensures
        blocks.update(b, block).flatten() == blocks.take(b).flatten() + block + blocks.skip(
            b + 1,
        ).flatten(),
        start_of(blocks.update(b, block), b) == start_of(blocks, b),
{
    let after = blocks.update(b, block);
    lemma_split_at(after, b);
    assert(after.take(b) =~= blocks.take(b));
    assert(after.skip(b + 1) =~= blocks.skip(b + 1));
}

/// The next block starts where this one ends.
pub proof fn lemma_start_next<T>(blocks: Seq<Seq<T>>, b: int)
    requires
        0 <= b < blocks.len(),
    ensures
        start_of(blocks, b + 1) == start_of(blocks, b) + blocks[b].len(),
        start_of(blocks, b + 1) <= blocks.flatten().len(),
{
    assert(blocks.take(b + 1) =~= blocks.take(b).push(blocks[b]));
    blocks.take(b).lemma_flatten_push(blocks[b]);
    lemma_split_at(blocks, b);
}

/// A block that changes leaves the start of every block up to the next one in place,
/// but for the change of its own length.
pub proof fn lemma_start_after_update<T>(blocks: Seq<Seq<T>>, b: int, block: Seq<T>)
    requires
        0 <= b < blocks.len(),
    ensures
        start_of(blocks.update(b, block), b + 1) == start_of(blocks, b) + block.len(),
{
    let after = blocks.update(b, block);
    lemma_start_next(after, b);
    assert(after.take(b) =~= blocks.take(b));
}

/// The concatenation splits between any two blocks.
pub proof fn lemma_split_between<T>(blocks: Seq<Seq<T>>, b: int)
    requires
        0 <= b <= blocks.len(),
    ensures
        blocks.flatten() == blocks.take(b).flatten() + blocks.skip(b).flatten(),
{
    assert(blocks =~= blocks.take(b) + blocks.skip(b));
    lemma_flatten_concat(blocks.take(b), blocks.skip(b));
}

/// A new block between two blocks adds its elements where it stands.
pub proof fn lemma_insert_block<T>(blocks: Seq<Seq<T>>, b: int, block: Seq<T>)
    requires
        0 <= b <= blocks.len(),
    ensures
        blocks.insert(b, block).flatten() == blocks.take(b).flatten() + block + blocks.skip(
            b,
        ).flatten(),
{
    let after = blocks.insert(b, block);
    lemma_split_at(after, b);
    assert(after.take(b) =~= blocks.take(b));
    assert(after.skip(b + 1) =~= blocks.skip(b));
}

/// What holds of every element of every block holds of every element of
/// the concatenation.
pub proof fn lemma_flatten_all<T>(blocks: Seq<Seq<T>>, pred: spec_fn(T) -> bool)
    requires
        forall|b: int, k: int|
            0 <= b < blocks.len() && 0 <= k < blocks[b].len() ==> pred(#[trigger] blocks[b][k]),
    ensures
        forall|i: int| 0 <= i < blocks.flatten().len() ==> pred(#[trigger] blocks.flatten()[i]),
    decreases blocks.len(),
{
    if blocks.len() > 0 {
        let rest = blocks.drop_first();
        assert forall|b: int, k: int| 0 <= b < rest.len() && 0 <= k < rest[b].len() implies pred(
            #[trigger] rest[b][k],
        ) by {
            assert(rest[b] == blocks[b + 1]);
        }
        lemma_flatten_all(rest, pred);
        let flat = blocks.flatten();
        assert forall|i: int| 0 <= i < flat.len() implies pred(#[trigger] flat[i]) by {
            if i < blocks.first().len() {
                assert(flat[i] == blocks[0][i]);
            } else {
                assert(flat[i] == rest.flatten()[i - blocks.first().len()]);
            }
        }
    }
}

/// Inserting into one block inserts into the concatenation.
pub proof fn lemma_insert_in_block<T>(blocks: Seq<Seq<T>>, b: int, off: int, elem: T)
    requires
        0 <= b < blocks.len(),
        0 <= off <= blocks[b].len(),
    ensures
        blocks.update(b, blocks[b].insert(off, elem)).flatten() == blocks.flatten().insert(
            start_of(blocks, b) + off,
            elem,
        ),
{
    lemma_split_at(blocks, b);
    lemma_update_block(blocks, b, blocks[b].insert(off, elem));
    let pre = blocks.take(b).flatten();
    let post = blocks.skip(b + 1).flatten();
    assert(pre + blocks[b].insert(off, elem) + post =~= (pre + blocks[b] + post).insert(
        pre.len() + off,
        elem,
    ));
}

/// Removing from one block removes from the concatenation.
pub proof fn lemma_remove_in_block<T>(blocks: Seq<Seq<T>>, b: int, off: int)
    requires
        0 <= b < blocks.len(),
        0 <= off < blocks[b].len(),
    ensures
        blocks.update(b, blocks[b].remove(off)).flatten() == blocks.flatten().remove(
            start_of(blocks, b) + off,
        ),
        blocks.flatten()[start_of(blocks, b) + off] == blocks[b][off],
        start_of(blocks, b) + off < blocks.flatten().len(),
{
    lemma_split_at(blocks, b);
    lemma_update_block(blocks, b, blocks[b].remove(off));
    let pre = blocks.take(b).flatten();
    let post = blocks.skip(b + 1).flatten();
    assert(pre + blocks[b].remove(off) + post =~= (pre + blocks[b] + post).remove(pre.len() + off));
}

/// Full blocks at the front: block `b` starts at `b * capacity`.
pub proof fn lemma_full_prefix<T>(blocks: Seq<Seq<T>>, capacity: int, b: int)
    requires
        0 <= b <= blocks.len(),
        forall|i: int| 0 <= i < b ==> (#[trigger] blocks[i]).len() == capacity,
    ensures
        start_of(blocks, b) == b * capacity,
    decreases b,
{
    if b == 0 {
        assert(blocks.take(0) =~= Seq::<Seq<T>>::empty());
    } else {
        lemma_full_prefix(blocks, capacity, b - 1);
        lemma_start_next(blocks, b - 1);
        assert((b - 1) * capacity + capacity == b * capacity) by (nonlinear_arith);
    }
}

/// The whole concatenation ends where a block past the last would start.
pub proof fn lemma_start_of_end<T>(blocks: Seq<Seq<T>>)
    ensures
        start_of(blocks, blocks.len() as int) == blocks.flatten().len(),
{
    assert(blocks.take(blocks.len() as int) =~= blocks);
}

/// An empty block at the end adds nothing to the concatenation.
pub proof fn lemma_empty_last<T>(blocks: Seq<Seq<T>>)
    requires
        blocks.len() > 0,
        blocks.last().len() == 0,
    ensures
        blocks.drop_last().flatten() == blocks.flatten(),
{
    assert(blocks =~= blocks.drop_last().push(blocks.last()));
    blocks.drop_last().lemma_flatten_push(blocks.last());
    assert(blocks.drop_last().flatten() + blocks.last() =~= blocks.drop_last().flatten());
}

/// The length of a packed sequence of blocks.
pub proof fn lemma_packed_len<T>(blocks: Seq<Seq<T>>, capacity: int)
    requires
        packed(blocks, capacity),
    ensures
        blocks.len() == 0 ==> blocks.flatten().len() == 0,
        blocks.len() > 0 ==> blocks.flatten().len() == (blocks.len() - 1) * capacity
            + blocks.last().len(),
{
    if blocks.len() > 0 {
        let last = blocks.len() - 1;
        lemma_full_prefix(blocks, capacity, last);
        lemma_start_next(blocks, last);
        lemma_start_of_end(blocks);
    }
}

/// In a packed sequence of blocks, position `i` of the concatenation is
/// position `i % capacity` of block `i / capacity`.
pub proof fn lemma_packed_index<T>(blocks: Seq<Seq<T>>, capacity: int, i: int)
    requires
        packed(blocks, capacity),
        capacity > 0,
        0 <= i < blocks.flatten().len(),
    ensures
        0 <= i / capacity < blocks.len(),
        0 <= i % capacity < blocks[i / capacity].len(),
        start_of(blocks, i / capacity) == (i / capacity) * capacity,
        blocks.flatten()[i] == blocks[i / capacity][i % capacity],
{
    let b = i / capacity;
    let off = i % capacity;
    let n = blocks.len() as int;
    lemma_packed_len(blocks, capacity);
    lemma_div_mod(i, capacity);
    assert(b < n) by (nonlinear_arith)
        requires
            i == b * capacity + off,
            0 <= off,
            i < (n - 1) * capacity + capacity,
            capacity > 0,
    ;
    lemma_full_prefix(blocks, capacity, b);
    if b == n - 1 {
        assert(off < blocks[b].len());
    }
    lemma_remove_in_block(blocks, b, off);
}

/// Quotient and remainder of a position by a positive capacity.
pub proof fn lemma_div_mod(i: int, capacity: int)
    requires
        0 <= i,
        capacity > 0,
    ensures
        i == (i / capacity) * capacity + i % capacity,
        0 <= i % capacity < capacity,
        0 <= i / capacity,
{
    vstd::arithmetic::div_mod::lemma_fundamental_div_mod(i, capacity);
    vstd::arithmetic::div_mod::lemma_mod_bound(i, capacity);
    vstd::arithmetic::div_mod::lemma_div_pos_is_pos(i, capacity);
    assert(capacity * (i / capacity) == (i / capacity) * capacity) by (nonlinear_arith);
}

} // verus!
