use vstd::prelude::*;
use crate::IArray;

verus! {

/// The sequence after each of `items` was pushed onto `s` in turn.
pub open spec fn pushes<T>(s: Seq<T>, items: Seq<T>) -> Seq<T>
    decreases items.len(),
{
    if items.len() == 0 {
        s
    } else {
        pushes(s, items.drop_last()).push(items.last())
    }
}

/// The sequence after `n` elements were popped off `s`.
pub open spec fn pops<T>(s: Seq<T>, n: nat) -> Seq<T>
    decreases n,
{
    if n == 0 {
        s
    } else {
        pops(s.drop_last(), (n - 1) as nat)
    }
}

/// Pushing appends: after the pushes the sequence is `s` followed by `items`.
pub proof fn lemma_pushes_append<T>(s: Seq<T>, items: Seq<T>)
    ensures
        pushes(s, items) == s + items,
    decreases items.len(),
{
    if items.len() == 0 {
        assert(s + items =~= s);
    } else {
        lemma_pushes_append(s, items.drop_last());
        assert((s + items.drop_last()).push(items.last()) =~= s + items);
    }
}

/// After `n` pushes onto an empty container its size is `n`.
pub proof fn lemma_size_after_pushes<T>(items: Seq<T>)
    ensures
        pushes(Seq::<T>::empty(), items).len() == items.len(),
{
    lemma_pushes_append(Seq::<T>::empty(), items);
}

/// Popping takes from the end: after `n` pops the first `len - n` elements are left.
pub proof fn lemma_pops_take<T>(s: Seq<T>, n: nat)
    requires
        n <= s.len(),
    ensures
        pops(s, n) == s.take(s.len() - n),
    decreases n,
{
    if n == 0 {
        assert(s.take(s.len() as int) =~= s);
    } else {
        lemma_pops_take(s.drop_last(), (n - 1) as nat);
        assert(s.drop_last().take(s.len() - n) =~= s.take(s.len() - n));
    }
}

/// Pushing `items` and then popping as many elements hands them back in
/// reverse order, pop number `j` (from zero) giving `items[len - 1 - j]`,
/// and leaves the sequence as it was.
pub proof fn lemma_pops_reverse_pushes<T>(s: Seq<T>, items: Seq<T>, j: int)
    requires
        0 <= j < items.len(),
    ensures
        pops(pushes(s, items), j as nat).len() > 0,
        pops(pushes(s, items), j as nat).last() == items[items.len() - 1 - j],
        pops(pushes(s, items), items.len()) == s,
{
    lemma_pushes_append(s, items);
    lemma_pops_take(s + items, j as nat);
    lemma_pops_take(s + items, items.len());
    assert((s + items).take(s.len() as int) =~= s);
}

/// Removing at `i` shortens a container by one, leaves the elements before
/// `i` in place and moves each later element one place down.
pub proof fn lemma_remove_closes_gap<T, A: IArray<T>>(a: A, i: int)
    requires
        a.wf(),
        0 <= i < a@.len(),
    ensures
        a@.remove(i).len() == a@.len() - 1,
        forall|j: int| 0 <= j < i ==> a@.remove(i)[j] == a@[j],
        forall|j: int| i <= j < a@.len() - 1 ==> a@.remove(i)[j] == a@[j + 1],
{
}

/// Inserting `v` at `i` and then removing at `i` hands `v` back and
/// restores the container's sequence: its size and every element.
pub proof fn lemma_insert_then_remove<T, A: IArray<T>>(a: A, v: T, i: int)
    requires
        a.wf(),
        0 <= i <= a@.len(),
    ensures
        a@.insert(i, v)[i] == v,
        a@.insert(i, v).remove(i) == a@,
        a@.insert(i, v).remove(i).len() == a@.len(),
{
    assert(a@.insert(i, v).remove(i) =~= a@);
}

/// Inserting at the end is pushing.
pub proof fn lemma_insert_at_end_is_push<T, A: IArray<T>>(a: A, v: T)
    requires
        a.wf(),
    ensures
        a@.insert(a@.len() as int, v) == a@.push(v),
{
    assert(a@.insert(a@.len() as int, v) =~= a@.push(v));
}

} // verus!
