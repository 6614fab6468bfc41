use vstd::prelude::*;
use crate::array::Array;
use crate::packing::{
    lemma_empty_last, lemma_flatten_all, lemma_insert_block, lemma_insert_in_block,
    lemma_remove_in_block, lemma_split_between, lemma_start_next, lemma_start_of_end, start_of,
};
use crate::IArray;

verus! {

/// A last-in, first-out stack. Its view lists the items from the bottom up.
pub struct Stack<T> {
    inner: Array<T>,
}

impl<T> View for Stack<T> {
    type V = Seq<T>;

    /// The items, from the bottom up.
    closed spec fn view(&self) -> Seq<T> {
        self.inner@
    }
}

impl<T> Stack<T> {
    /// The representation invariant of the stack.
    pub closed spec fn wf(&self) -> bool {
        self.inner.wf()
    }

    /// An empty stack.
    pub fn new() -> (s: Self)
        ensures
            s.wf(),
            s@ == Seq::<T>::empty(),
    {
        Stack { inner: Array::new() }
    }

    /// Whether the stack holds no item.
    pub fn is_empty(&self) -> (b: bool)
        requires
            self.wf(),
        ensures
            b <==> self@.len() == 0,
    {
        self.inner.len() == 0
    }

    /// Puts `elem` on top.
    pub fn push(&mut self, elem: T)
        requires
            old(self).wf(),
        ensures
            final(self).wf(),
            final(self)@ == old(self)@.push(elem),
    {
        self.inner.push(elem);
    }

    /// Takes the item that was pushed last, if there is one.
    pub fn pop(&mut self) -> (r: Option<T>)
        requires
            old(self).wf(),
        ensures
            final(self).wf(),
            old(self)@.len() == 0 ==> r is None && final(self)@ == old(self)@,
            old(self)@.len() > 0 ==> r == Some(old(self)@.last())
                && final(self)@ == old(self)@.drop_last(),
    {
        self.inner.pop()
    }
}

/// The items that wait at one priority.
pub struct Priority<T> {
    pub priority: i64,
    pub stack: Stack<T>,
}

impl<T> Priority<T> {
    /// An empty bucket for priority `p`.
    pub fn new(p: i64) -> (r: Self)
        ensures
            r.priority == p,
            r.stack.wf(),
            r.stack@ == Seq::<T>::empty(),
    {
        Priority { priority: p, stack: Stack::new() }
    }
}

/// The items of one bucket, each with the bucket's priority.
pub open spec fn tagged<T>(priority: i64, items: Seq<T>) -> Seq<(i64, T)> {
    Seq::new(items.len(), |k: int| (priority, items[k]))
}

/// The entries of each bucket.
pub open spec fn bucket_entries<T>(buckets: Seq<(i64, Seq<T>)>) -> Seq<Seq<(i64, T)>> {
    Seq::new(buckets.len(), |i: int| tagged(buckets[i].0, buckets[i].1))
}

/// No bucket is empty, and the priorities strictly fall from bucket to bucket.
pub open spec fn well_bucketed<T>(buckets: Seq<(i64, Seq<T>)>) -> bool {
    &&& forall|i: int| 0 <= i < buckets.len() ==> (#[trigger] buckets[i]).1.len() > 0
    &&& forall|i: int, j: int|
        0 <= i < j < buckets.len() ==> (#[trigger] buckets[i]).0 > (#[trigger] buckets[j]).0
}

/// The priorities never rise from one entry to the next.
pub open spec fn descending<T>(entries: Seq<(i64, T)>) -> bool {
    forall|i: int, j: int|
        0 <= i <= j < entries.len() ==> (#[trigger] entries[i]).0 >= (#[trigger] entries[j]).0
}

/// The number of entries whose priority is at least `priority`.
pub open spec fn rank<T>(entries: Seq<(i64, T)>, priority: i64) -> int
    decreases entries.len(),
{
    if entries.len() == 0 {
        0
    } else if entries.last().0 >= priority {
        rank(entries.drop_last(), priority) + 1
    } else {
        rank(entries.drop_last(), priority)
    }
}

/// Where the entries at or above `priority` come first, their number is the
/// place at which they end.
proof fn lemma_rank_concat<T>(upper: Seq<(i64, T)>, lower: Seq<(i64, T)>, priority: i64)
    requires
        forall|i: int| 0 <= i < upper.len() ==> (#[trigger] upper[i]).0 >= priority,
        forall|j: int| 0 <= j < lower.len() ==> (#[trigger] lower[j]).0 < priority,
    ensures
        rank(upper + lower, priority) == upper.len(),
    decreases lower.len(), upper.len(),
{
    let all = upper + lower;
    if lower.len() > 0 {
        assert(all.drop_last() =~= upper + lower.drop_last());
        assert(all.last() == lower.last());
        lemma_rank_concat(upper, lower.drop_last(), priority);
    } else if upper.len() > 0 {
        assert(all =~= upper);
        assert(upper.drop_last() + lower =~= upper.drop_last());
        lemma_rank_concat(upper.drop_last(), lower, priority);
    } else {
        assert(all =~= Seq::<(i64, T)>::empty());
    }
}

/// Where the priorities never rise, `rank` is the place that parts the
/// entries whose priority is at least `priority` from those whose priority
/// is less.
pub proof fn lemma_rank_parts<T>(entries: Seq<(i64, T)>, priority: i64)
    requires
        descending(entries),
    ensures
        0 <= rank(entries, priority) <= entries.len(),
        forall|i: int| 0 <= i < rank(entries, priority) ==> (#[trigger] entries[i]).0 >= priority,
        forall|i: int|
            rank(entries, priority) <= i < entries.len() ==> (#[trigger] entries[i]).0 < priority,
    decreases entries.len(),
{
    if entries.len() > 0 {
        let front = entries.drop_last();
        assert forall|i: int, j: int| 0 <= i <= j < front.len() implies (#[trigger] front[i]).0 >= (
        #[trigger] front[j]).0 by {
            assert(front[i] == entries[i]);
            assert(front[j] == entries[j]);
        }
        lemma_rank_parts(front, priority);
        let k = rank(front, priority);
        assert forall|i: int| 0 <= i < rank(entries, priority) implies (#[trigger] entries[i]).0
            >= priority by {
            if i < front.len() {
                assert(front[i] == entries[i]);
                assert(entries[i].0 >= entries.last().0);
            }
        }
        assert forall|i: int| rank(entries, priority) <= i < entries.len() implies (
        #[trigger] entries[i]).0 < priority by {
            if i < front.len() {
                assert(front[i] == entries[i]);
            }
        }
    }
}

/// A queue that hands out the item whose priority number is least, and among
/// items of one priority the one that came last.
///
/// Its view lists the entries, each a priority and an item, in the order in
/// which they are kept: the last entry is the next to leave.
pub struct PriorityQueue<T> {
    queue: Array<Priority<T>>,
}

impl<T> View for PriorityQueue<T> {
    type V = Seq<(i64, T)>;

    /// The entries of the buckets, one bucket after the other.
    open spec fn view(&self) -> Seq<(i64, T)> {
        bucket_entries(self.buckets()).flatten()
    }
}

impl<T> PriorityQueue<T> {
    /// The buckets in the order in which they are kept: each a priority and
    /// the items that wait at it, the oldest first.
    pub closed spec fn buckets(&self) -> Seq<(i64, Seq<T>)> {
        Seq::new(self.queue@.len(), |i: int| (self.queue@[i].priority, self.queue@[i].stack@))
    }

    /// The buckets and their stacks are well formed.
    spec fn stacks_ok(&self) -> bool {
        &&& self.queue.wf()
        &&& forall|i: int| 0 <= i < self.queue@.len() ==> (#[trigger] self.queue@[i]).stack.wf()
    }

    /// The representation invariant: well-formed stacks, no empty bucket,
    /// strictly falling priorities.
    pub closed spec fn wf(&self) -> bool {
        &&& self.stacks_ok()
        &&& well_bucketed(self.buckets())
    }

    /// No bucket is empty, and no two buckets share a priority: the
    /// priorities strictly fall from the first bucket to the last.
    pub proof fn lemma_well_bucketed(&self)
        requires
            self.wf(),
        ensures
            well_bucketed(self.buckets()),
    {
    }

    /// The priorities of the entries never rise: the entry that leaves next
    /// has the least priority number.
    pub proof fn lemma_descending(&self)
        requires
            self.wf(),
        ensures
            descending(self@),
    {
        let buckets = self.buckets();
        let entries = bucket_entries(buckets);
        let flat = entries.flatten();
        assert forall|i: int, j: int| 0 <= i <= j < flat.len() implies (#[trigger] flat[i]).0 >= (
        #[trigger] flat[j]).0 by {
            lemma_bucket_of(buckets, i);
            lemma_bucket_of(buckets, j);
            let bi = bucket_of(buckets, i);
            let bj = bucket_of(buckets, j);
            if bi > bj {
                lemma_start_le(entries, bj + 1, bi);
            }
        }
    }

    /// An empty queue.
    pub fn new() -> (s: Self)
        ensures
            s.wf(),
            s@ == Seq::<(i64, T)>::empty(),
    {
        let s = PriorityQueue { queue: Array::new() };
        assert(bucket_entries(s.buckets()) =~= Seq::<Seq<(i64, T)>>::empty());
        s
    }

    /// Adds `item` behind every entry whose priority is at least `priority`.
    pub fn enqueue(&mut self, priority: i64, item: T)
        requires
            old(self).wf(),
        ensures
            final(self).wf(),
            final(self)@ == old(self)@.insert(rank(old(self)@, priority), (priority, item)),
            well_bucketed(final(self).buckets()),
    {
        let ghost before = self.buckets();
        let position = self.find_priority_or_insert_new(priority);
        let ghost middle = self.buckets();
        let to_push = self.queue.get_mut(position);
        to_push.stack.push(item);
        proof {
            let at = position as int;
            let entry = (priority, item);
            let after = self.buckets();
            assert(after =~= middle.update(at, (priority, middle[at].1.push(item))));
            let e0 = bucket_entries(before);
            let e1 = bucket_entries(middle);
            let e2 = bucket_entries(after);
            assert(tagged(priority, middle[at].1.push(item))
                =~= tagged(priority, middle[at].1).push(
                entry,
            ));
            assert(e2 =~= e1.update(at, e1[at].push(entry)));
            assert(e1[at].push(entry) =~= e1[at].insert(e1[at].len() as int, entry));
            lemma_insert_in_block(e1, at, e1[at].len() as int, entry);
            lemma_start_next(e1, at);
            if middle == before {
                lemma_rank_at(before, priority, at + 1);
            } else {
                let gap = Seq::<(i64, T)>::empty();
                assert(middle == before.insert(at, (priority, Seq::<T>::empty())));
                assert(tagged(priority, Seq::<T>::empty()) =~= gap);
                assert(e1 =~= e0.insert(at, gap));
                lemma_insert_block(e0, at, gap);
                lemma_split_between(e0, at);
                assert(e0.take(at).flatten() + gap =~= e0.take(at).flatten());
                assert(e1.take(at) =~= e0.take(at));
                assert forall|i: int| at <= i < before.len() implies (#[trigger] before[i]).0
                    < priority by {
                    assert(before[i] == middle[i + 1]);
                }
                assert forall|i: int| 0 <= i < at implies (#[trigger] before[i]).0
                    >= priority by {
                    assert(before[i] == middle[i]);
                }
                lemma_rank_at(before, priority, at);
            }
            assert forall|i: int| 0 <= i < after.len() implies (#[trigger] after[i]).1.len()
                > 0 by {
                if i != at {
                    assert(after[i] == middle[i]);
                    if middle != before {
                        if i < at {
                            assert(middle[i] == before[i]);
                        } else {
                            assert(middle[i] == before[i - 1]);
                        }
                    }
                }
            }
            assert forall|i: int, j: int| 0 <= i < j < after.len() implies (#[trigger] after[i]).0 > (
            #[trigger] after[j]).0 by {
                assert(after[i].0 == middle[i].0);
                assert(after[j].0 == middle[j].0);
                if i != at && j != at {
                    if middle != before {
                        let oi = if i < at { i } else { i - 1 };
                        let oj = if j < at { j } else { j - 1 };
                        assert(middle[i] == before[oi]);
                        assert(middle[j] == before[oj]);
                    }
                }
            }
        }
    }

    /// Takes the last entry's item out, if there is any entry.
    pub fn dequeue(&mut self) -> (r: Option<T>)
        requires
            old(self).wf(),
        ensures
            final(self).wf(),
            old(self)@.len() == 0 ==> r is None && final(self)@ == old(self)@,
            old(self)@.len() > 0 ==> r == Some(old(self)@.last().1)
                && final(self)@ == old(self)@.drop_last(),
            well_bucketed(final(self).buckets()),
    {
        let ghost before = self.buckets();
        let ghost e0 = bucket_entries(before);
        proof {
            if before.len() == 0 {
                assert(e0 =~= Seq::<Seq<(i64, T)>>::empty());
            } else {
                let k = before.len() - 1;
                lemma_start_next(e0, k);
                lemma_start_of_end(e0);
                lemma_remove_in_block(e0, k, e0[k].len() - 1);
            }
        }
        let last = match self.queue.last_mut() {
            Some(last) => last,
            None => {
                return None;
            },
        };
        let result = last.stack.pop();
        let emptied = last.stack.is_empty();
        proof {
            let k = before.len() - 1;
            let after = self.buckets();
            assert(after =~= before.update(k, (before[k].0, before[k].1.drop_last())));
            assert(tagged(before[k].0, before[k].1.drop_last()) =~= e0[k].remove(e0[k].len() - 1));
            let e1 = bucket_entries(after);
            assert(e1 =~= e0.update(k, e0[k].remove(e0[k].len() - 1)));
            assert(old(self)@.remove(old(self)@.len() - 1) =~= old(self)@.drop_last());
        }
        if emptied {
            let ghost e1 = bucket_entries(self.buckets());
            self.queue.pop();
            proof {
                assert(self.buckets() =~= before.drop_last());
                assert(bucket_entries(self.buckets()) =~= e1.drop_last());
                lemma_empty_last(e1);
            }
        }
        result
    }

    /// The bucket for priority `p`, made first if there is none: its place.
    fn find_priority_or_insert_new(&mut self, p: i64) -> (position: usize)
        requires
            old(self).wf(),
        ensures
            final(self).stacks_ok(),
            position < final(self).buckets().len(),
            final(self).buckets()[position as int].0 == p,
            forall|i: int| 0 <= i < position ==> (#[trigger] final(self).buckets()[i]).0 > p,
            forall|i: int|
                position < i < final(self).buckets().len()
                    ==> (#[trigger] final(self).buckets()[i]).0 < p,
            final(self).buckets() == old(self).buckets() || (position <= old(self).buckets().len()
                && final(self).buckets() == old(self).buckets().insert(
                position as int,
                (p, Seq::<T>::empty()),
            )),
    {
        match self.find_priority_position(p) {
            Some(position) => position,
            None => self.insert_new_priority(p),
        }
    }

    /// The place of the bucket for priority `p`, if there is one.
    fn find_priority_position(&self, p: i64) -> (r: Option<usize>)
        requires
            self.stacks_ok(),
        ensures
            match r {
                Some(position) => position < self.buckets().len()
                    && self.buckets()[position as int].0 == p,
                None => forall|i: int|
                    0 <= i < self.buckets().len() ==> (#[trigger] self.buckets()[i]).0 != p,
            },
    {
        let count = self.queue.len();
        let mut position: usize = 0;
        while position < count
            invariant
                self.stacks_ok(),
                count == self.buckets().len(),
                position <= count,
                forall|i: int| 0 <= i < position ==> (#[trigger] self.buckets()[i]).0 != p,
            decreases count - position,
        {
            if self.queue.get(position).priority == p {
                return Some(position);
            }
            position += 1;
        }
        None
    }

    /// Puts an empty bucket for `p`, which no bucket has, where its priority belongs.
    fn insert_new_priority(&mut self, p: i64) -> (position: usize)
        requires
            old(self).wf(),
            forall|i: int|
                0 <= i < old(self).buckets().len() ==> (#[trigger] old(self).buckets()[i]).0 != p,
        ensures
            final(self).stacks_ok(),
            position <= old(self).buckets().len(),
            final(self).buckets() == old(self).buckets().insert(
                position as int,
                (p, Seq::<T>::empty()),
            ),
            forall|i: int| 0 <= i < position ==> (#[trigger] old(self).buckets()[i]).0 > p,
            forall|i: int|
                position <= i < old(self).buckets().len() ==> (#[trigger] old(self).buckets()[i]).0
                    < p,
    {
        let pos = self.get_position_for_new_priority(p);
        self.queue.insert(Priority::new(p), pos);
        assert(self.buckets() =~= old(self).buckets().insert(pos as int, (p, Seq::<T>::empty())));
        pos
    }

    /// The first place whose bucket has a priority of at most `p`.
    fn get_position_for_new_priority(&self, p: i64) -> (pos: usize)
        requires
            self.stacks_ok(),
        ensures
            pos <= self.buckets().len(),
            forall|i: int| 0 <= i < pos ==> (#[trigger] self.buckets()[i]).0 > p,
            pos < self.buckets().len() ==> self.buckets()[pos as int].0 <= p,
    {
        let queue_len = self.queue.len();
        let mut pos: usize = 0;
        while pos < queue_len && self.queue.get(pos).priority > p
            invariant
                self.stacks_ok(),
                queue_len == self.buckets().len(),
                pos <= queue_len,
                forall|i: int| 0 <= i < pos ==> (#[trigger] self.buckets()[i]).0 > p,
            decreases queue_len - pos,
        {
            pos += 1;
        }
        pos
    }
}

impl<T> Default for PriorityQueue<T> {
    fn default() -> (s: Self)
        ensures
            s.wf(),
            s@ == Seq::<(i64, T)>::empty(),
    {
        PriorityQueue::new()
    }
}

/// The bucket that holds entry `i`.
spec fn bucket_of<T>(buckets: Seq<(i64, Seq<T>)>, i: int) -> int {
    choose|b: int|
        0 <= b < buckets.len() && #[trigger] start_of(bucket_entries(buckets), b) <= i
            < start_of(bucket_entries(buckets), b + 1)
}

/// Every entry lies in a bucket and has that bucket's priority.
proof fn lemma_bucket_of<T>(buckets: Seq<(i64, Seq<T>)>, i: int)
    requires
        0 <= i < bucket_entries(buckets).flatten().len(),
    ensures
        0 <= bucket_of(buckets, i) < buckets.len(),
        start_of(bucket_entries(buckets), bucket_of(buckets, i)) <= i < start_of(
            bucket_entries(buckets),
            bucket_of(buckets, i) + 1,
        ),
        bucket_entries(buckets).flatten()[i].0 == buckets[bucket_of(buckets, i)].0,
{
    let entries = bucket_entries(buckets);
    lemma_find_block(entries, i, 0);
    let b = bucket_of(buckets, i);
    lemma_start_next(entries, b);
    lemma_remove_in_block(entries, b, i - start_of(entries, b));
}

/// Some block from `from` on holds position `i`, if `i` is not before block `from`.
proof fn lemma_find_block<T>(blocks: Seq<Seq<T>>, i: int, from: int)
    requires
        0 <= from <= blocks.len(),
        start_of(blocks, from) <= i < blocks.flatten().len(),
    ensures
        exists|b: int|
            0 <= b < blocks.len() && #[trigger] start_of(blocks, b) <= i < start_of(blocks, b + 1),
    decreases blocks.len() - from,
{
    lemma_start_of_end(blocks);
    if from < blocks.len() {
        lemma_start_next(blocks, from);
        if i >= start_of(blocks, from + 1) {
            lemma_find_block(blocks, i, from + 1);
        }
    }
}

/// Later blocks start later.
proof fn lemma_start_le<T>(blocks: Seq<Seq<T>>, a: int, b: int)
    requires
        0 <= a <= b <= blocks.len(),
    ensures
        start_of(blocks, a) <= start_of(blocks, b),
    decreases b - a,
{
    if a < b {
        lemma_start_next(blocks, b - 1);
        lemma_start_le(blocks, a, b - 1);
    }
}

/// Where the buckets before `k` have a priority of at least `priority` and
/// the others a lesser one, `rank` is the place at which bucket `k` starts.
proof fn lemma_rank_at<T>(buckets: Seq<(i64, Seq<T>)>, priority: i64, k: int)
    requires
        0 <= k <= buckets.len(),
        forall|i: int| 0 <= i < k ==> (#[trigger] buckets[i]).0 >= priority,
        forall|i: int| k <= i < buckets.len() ==> (#[trigger] buckets[i]).0 < priority,
    ensures
        rank(bucket_entries(buckets).flatten(), priority) == start_of(bucket_entries(buckets), k),
{
    let entries = bucket_entries(buckets);
    let upper = entries.take(k);
    let lower = entries.skip(k);
    lemma_split_between(entries, k);
    assert forall|b: int, j: int| 0 <= b < upper.len() && 0 <= j < upper[b].len() implies (
    #[trigger] upper[b][j]).0 >= priority by {
        assert(upper[b] == tagged(buckets[b].0, buckets[b].1));
    }
    lemma_flatten_all(upper, |e: (i64, T)| e.0 >= priority);
    assert forall|b: int, j: int| 0 <= b < lower.len() && 0 <= j < lower[b].len() implies (
    #[trigger] lower[b][j]).0 < priority by {
        assert(lower[b] == tagged(buckets[b + k].0, buckets[b + k].1));
    }
    lemma_flatten_all(lower, |e: (i64, T)| e.0 < priority);
    lemma_rank_concat(upper.flatten(), lower.flatten(), priority);
}

} // verus!
