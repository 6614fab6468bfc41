use vstd::prelude::*;
use vstd::laws_eq::obeys_concrete_eq;
use crate::array::Array;
use crate::text::{join, joined, views, wrap};
use crate::IArray;
use vstd::string::to_string_from_display_ensures;
use vstd::string::StringExecFns;

verus! {

/// One materialized entry: a value and the position at which it stands.
pub struct Value<T> {
    pub value: T,
    pub index: usize,
}

impl<T> Value<T> {
    /// The entry that holds `v` at position `i`.
    pub fn new(i: usize, v: T) -> (r: Self)
        ensures
            r.index == i,
            r.value == v,
    {
        Value { value: v, index: i }
    }
}

impl<T: Default> Default for Value<T> {
    /// The entry that holds a default value at position zero.
    fn default() -> (r: Self)
        ensures
            r.index == 0,
            call_ensures(T::default, (), r.value),
    {
        Value { value: T::default(), index: 0 }
    }
}

/// `T::default()` has one value only.
pub open spec fn single_default<T: Default>() -> bool {
    forall|a: T, b: T|
        #[trigger] call_ensures(T::default, (), a) && #[trigger] call_ensures(T::default, (), b)
            ==> a == b
}

/// The element type's `==` tells equal values from unequal ones, and its
/// default is a single value.
pub open spec fn plain<T: Default + PartialEq>() -> bool {
    obeys_concrete_eq::<T>() && single_default::<T>()
}

/// Entry `k` stands at `position`.
pub open spec fn entry_at<T>(entries: Seq<(usize, T)>, k: int, position: int) -> bool {
    0 <= k < entries.len() && entries[k].0 == position
}

/// The value at `position`: that of the entry that stands there, or the
/// default where there is none.
pub open spec fn value_at<T>(entries: Seq<(usize, T)>, default: T, position: int) -> T {
    if exists|k: int| entry_at(entries, k, position) {
        entries[choose|k: int| entry_at(entries, k, position)].1
    } else {
        default
    }
}

/// The sequence of length `len` that the entries stand for.
pub open spec fn dense<T>(entries: Seq<(usize, T)>, default: T, len: nat) -> Seq<T> {
    Seq::new(len, |i: int| value_at(entries, default, i))
}

/// The positions strictly rise, no entry holds the default, and every
/// position is below `len`.
pub open spec fn sparse_inv<T>(entries: Seq<(usize, T)>, default: T, len: int) -> bool {
    &&& forall|i: int, j: int|
        0 <= i < j < entries.len() ==> (#[trigger] entries[i]).0 < (#[trigger] entries[j]).0
    &&& forall|i: int| 0 <= i < entries.len() ==> (#[trigger] entries[i]).1 != default
    &&& forall|i: int| 0 <= i < entries.len() ==> (#[trigger] entries[i]).0 < len
}

/// The entries with every position from `index` on raised by one.
spec fn shifted_up<T>(entries: Seq<(usize, T)>, index: int) -> Seq<(usize, T)> {
    Seq::new(
        entries.len(),
        |k: int|
            if entries[k].0 >= index {
                ((entries[k].0 + 1) as usize, entries[k].1)
            } else {
                entries[k]
            },
    )
}

/// The entries with every position above `index` lowered by one.
spec fn shifted_down<T>(entries: Seq<(usize, T)>, index: int) -> Seq<(usize, T)> {
    Seq::new(
        entries.len(),
        |k: int|
            if entries[k].0 > index {
                ((entries[k].0 - 1) as usize, entries[k].1)
            } else {
                entries[k]
            },
    )
}

/// An entry's value is the value at its position.
pub proof fn lemma_value_at<T>(entries: Seq<(usize, T)>, default: T, len: int, k: int)
    requires
        sparse_inv(entries, default, len),
        0 <= k < entries.len(),
    ensures
        value_at(entries, default, entries[k].0 as int) == entries[k].1,
{
    let position = entries[k].0 as int;
    assert(entry_at(entries, k, position));
    let chosen = choose|c: int| entry_at(entries, c, position);
    assert(entry_at(entries, chosen, position));
    if chosen < k {
        assert(entries[chosen].0 < entries[k].0);
    } else if k < chosen {
        assert(entries[k].0 < entries[chosen].0);
    }
}

/// Making room at `index`: the sequence gets a default at `index`.
proof fn lemma_shift_up<T>(entries: Seq<(usize, T)>, default: T, len: nat, index: int)
    requires
        sparse_inv(entries, default, len as int),
        0 <= index <= len,
        len < usize::MAX,
    ensures
        sparse_inv(shifted_up(entries, index), default, len as int + 1),
        dense(shifted_up(entries, index), default, len + 1) == dense(entries, default, len).insert(
            index,
            default,
        ),
        forall|k: int| !entry_at(shifted_up(entries, index), k, index),
{
    let shifted = shifted_up(entries, index);
    let before = dense(entries, default, len);
    let after = dense(shifted, default, len + 1);
    assert forall|i: int| 0 <= i < len + 1 implies after[i] == before.insert(index, default)[i] by {
        let source = if i < index { i } else { i - 1 };
        if i == index {
            assert forall|k: int| !entry_at(shifted, k, i) by {}
        } else if exists|k: int| entry_at(entries, k, source) {
            let k = choose|k: int| entry_at(entries, k, source);
            lemma_value_at(entries, default, len as int, k);
            assert(shifted[k].0 == i);
            lemma_value_at(shifted, default, len as int + 1, k);
        } else {
            assert forall|k: int| !entry_at(shifted, k, i) by {
                if entry_at(shifted, k, i) {
                    assert(entry_at(entries, k, source));
                }
            }
        }
    }
    assert(after =~= before.insert(index, default));
}

/// Closing the gap at `index`, where no entry stands: the sequence loses
/// position `index`.
proof fn lemma_shift_down<T>(entries: Seq<(usize, T)>, default: T, len: nat, index: int)
    requires
        sparse_inv(entries, default, len as int),
        0 <= index < len,
        forall|k: int| !entry_at(entries, k, index),
    ensures
        sparse_inv(shifted_down(entries, index), default, len - 1),
        dense(shifted_down(entries, index), default, (len - 1) as nat) == dense(
            entries,
            default,
            len,
        ).remove(index),
{
    let shifted = shifted_down(entries, index);
    let before = dense(entries, default, len);
    let after = dense(shifted, default, (len - 1) as nat);
    assert forall|i: int, j: int| 0 <= i < j < shifted.len() implies (#[trigger] shifted[i]).0 < (
    #[trigger] shifted[j]).0 by {
        assert(entries[i].0 < entries[j].0);
        assert(!entry_at(entries, i, index));
        assert(!entry_at(entries, j, index));
    }
    assert forall|i: int| 0 <= i < shifted.len() implies (#[trigger] shifted[i]).0 < len - 1 by {
        assert(entries[i].0 < len);
        assert(!entry_at(entries, i, index));
    }
    assert forall|i: int| 0 <= i < len - 1 implies after[i] == before.remove(index)[i] by {
        let source = if i < index { i } else { i + 1 };
        if exists|k: int| entry_at(entries, k, source) {
            let k = choose|k: int| entry_at(entries, k, source);
            lemma_value_at(entries, default, len as int, k);
            assert(shifted[k].0 == i);
            lemma_value_at(shifted, default, len - 1, k);
        } else {
            assert forall|k: int| !entry_at(shifted, k, i) by {
                if entry_at(shifted, k, i) {
                    assert(!entry_at(entries, k, index));
                    assert(entry_at(entries, k, source));
                }
            }
        }
    }
    assert(after =~= before.remove(index));
}

/// A new entry in its place: the sequence changes at its position only.
proof fn lemma_add_entry<T>(
    entries: Seq<(usize, T)>,
    default: T,
    len: nat,
    at: int,
    index: usize,
    elem: T,
)
    requires
        sparse_inv(entries, default, len as int),
        0 <= at <= entries.len(),
        forall|k: int| 0 <= k < at ==> (#[trigger] entries[k]).0 < index,
        forall|k: int| at <= k < entries.len() ==> (#[trigger] entries[k]).0 > index,
        index < len,
        elem != default,
    ensures
        sparse_inv(entries.insert(at, (index, elem)), default, len as int),
        dense(entries.insert(at, (index, elem)), default, len) == dense(entries, default, len).update(
            index as int,
            elem,
        ),
{
    let grown = entries.insert(at, (index, elem));
    let before = dense(entries, default, len);
    let after = dense(grown, default, len);
    assert forall|i: int, j: int| 0 <= i < j < grown.len() implies (#[trigger] grown[i]).0 < (
    #[trigger] grown[j]).0 by {
        let oi = if i < at { i } else { i - 1 };
        let oj = if j < at { j } else { j - 1 };
        if i != at && j != at {
            assert(grown[i] == entries[oi]);
            assert(grown[j] == entries[oj]);
        } else if i == at {
            assert(grown[j] == entries[oj]);
        } else {
            assert(grown[i] == entries[oi]);
        }
    }
    assert forall|i: int| 0 <= i < grown.len() implies (#[trigger] grown[i]).1 != default && grown[i].0
        < len by {
        if i < at {
            assert(grown[i] == entries[i]);
        } else if i > at {
            assert(grown[i] == entries[i - 1]);
        }
    }
    assert forall|i: int| 0 <= i < len implies after[i] == before.update(index as int, elem)[i] by {
        if i == index {
            assert(grown[at].0 == i);
            lemma_value_at(grown, default, len as int, at);
        } else if exists|k: int| entry_at(entries, k, i) {
            let k = choose|k: int| entry_at(entries, k, i);
            lemma_value_at(entries, default, len as int, k);
            let g = if k < at { k } else { k + 1 };
            assert(grown[g] == entries[k]);
            lemma_value_at(grown, default, len as int, g);
        } else {
            assert forall|g: int| !entry_at(grown, g, i) by {
                if entry_at(grown, g, i) {
                    let k = if g < at { g } else { g - 1 };
                    assert(grown[g] == entries[k]);
                    assert(entry_at(entries, k, i));
                }
            }
        }
    }
    assert(after =~= before.update(index as int, elem));
}

/// An entry taken away: the sequence has the default at its position.
proof fn lemma_drop_entry<T>(entries: Seq<(usize, T)>, default: T, len: nat, at: int)
    requires
        sparse_inv(entries, default, len as int),
        0 <= at < entries.len(),
    ensures
        sparse_inv(entries.remove(at), default, len as int),
        dense(entries.remove(at), default, len) == dense(entries, default, len).update(
            entries[at].0 as int,
            default,
        ),
        forall|k: int| !entry_at(entries.remove(at), k, entries[at].0 as int),
        forall|k: int| 0 <= k < at ==> (#[trigger] entries.remove(at)[k]).0 < entries[at].0,
        forall|k: int|
            at <= k < entries.remove(at).len() ==> (#[trigger] entries.remove(at)[k]).0
                > entries[at].0,
{
    let index = entries[at].0 as int;
    let rest = entries.remove(at);
    let before = dense(entries, default, len);
    let after = dense(rest, default, len);
    assert forall|k: int| 0 <= k < rest.len() implies (#[trigger] rest[k]) == entries[if k < at {
        k
    } else {
        k + 1
    }] by {}
    assert forall|i: int, j: int| 0 <= i < j < rest.len() implies (#[trigger] rest[i]).0 < (
    #[trigger] rest[j]).0 by {
        let oi = if i < at { i } else { i + 1 };
        let oj = if j < at { j } else { j + 1 };
        assert(entries[oi].0 < entries[oj].0);
    }
    assert forall|k: int| 0 <= k < at implies (#[trigger] rest[k]).0 < entries[at].0 by {
        assert(entries[k].0 < entries[at].0);
    }
    assert forall|k: int| at <= k < rest.len() implies (#[trigger] rest[k]).0 > entries[at].0 by {
        assert(entries[at].0 < entries[k + 1].0);
    }
    assert forall|k: int| !entry_at(rest, k, index) by {
        if entry_at(rest, k, index) {
            if k < at {
                assert(rest[k].0 < entries[at].0);
            } else {
                assert(rest[k].0 > entries[at].0);
            }
        }
    }
    assert forall|i: int| 0 <= i < len implies after[i] == before.update(index, default)[i] by {
        if i == index {
        } else if exists|k: int| entry_at(entries, k, i) {
            let k = choose|k: int| entry_at(entries, k, i);
            lemma_value_at(entries, default, len as int, k);
            let g = if k < at { k } else { k - 1 };
            assert(rest[g] == entries[k]);
            lemma_value_at(rest, default, len as int, g);
        } else {
            assert forall|g: int| !entry_at(rest, g, i) by {
                if entry_at(rest, g, i) {
                    let k = if g < at { g } else { g + 1 };
                    assert(entry_at(entries, k, i));
                }
            }
        }
    }
    assert(after =~= before.update(index, default));
}

/// A greater length adds defaults at the end.
proof fn lemma_extend<T>(entries: Seq<(usize, T)>, default: T, len: nat, longer: nat)
    requires
        sparse_inv(entries, default, len as int),
        len <= longer,
    ensures
        sparse_inv(entries, default, longer as int),
        dense(entries, default, longer) == dense(entries, default, len) + Seq::new(
            (longer - len) as nat,
            |i: int| default,
        ),
{
    let padded = dense(entries, default, len) + Seq::new((longer - len) as nat, |i: int| default);
    assert forall|i: int| 0 <= i < longer implies dense(entries, default, longer)[i]
        == padded[i] by {
        if i >= len {
            assert forall|k: int| !entry_at(entries, k, i) by {
                if entry_at(entries, k, i) {
                    assert(entries[k].0 < len);
                }
            }
        }
    }
    assert(dense(entries, default, longer) =~= padded);
}

/// The position and the value of each stored entry.
spec fn entries_of<T>(inner: Seq<Value<T>>) -> Seq<(usize, T)> {
    Seq::new(inner.len(), |k: int| (inner[k].index, inner[k].value))
}

/// The text of one entry: its position and its value between parentheses.
pub open spec fn pair_text(position: Seq<char>, value: Seq<char>) -> Seq<char> {
    "("@ + position + ", "@ + value + ")"@
}

/// The text of each entry.
pub open spec fn pair_texts(texts: Seq<(String, String)>) -> Seq<Seq<char>> {
    Seq::new(texts.len(), |k: int| pair_text(texts[k].0@, texts[k].1@))
}

/// `texts` holds, for each entry, what `to_string` gives for its position
/// and for its value.
pub open spec fn entries_written<T: std::fmt::Display>(
    entries: Seq<(usize, T)>,
    texts: Seq<(String, String)>,
) -> bool {
    &&& texts.len() == entries.len()
    &&& forall|k: int|
        0 <= k < texts.len() ==> to_string_from_display_ensures::<usize>(
            &entries[k].0,
            (#[trigger] texts[k]).0,
        ) && to_string_from_display_ensures::<T>(&entries[k].1, texts[k].1)
}

/// `texts` holds, for each element, what `to_string` gives for it.
pub open spec fn elements_written<T: std::fmt::Display>(
    elements: Seq<T>,
    texts: Seq<String>,
) -> bool {
    &&& texts.len() == elements.len()
    &&& forall|k: int|
        0 <= k < texts.len() ==> to_string_from_display_ensures::<T>(
            &elements[k],
            #[trigger] texts[k],
        )
}

/// A sequence that stores only the elements that differ from the default.
pub struct SparseArray<T> {
    inner: Array<Value<T>>,
    zero: T,
    len: usize,
}

impl<T> View for SparseArray<T> {
    type V = Seq<T>;

    /// The whole sequence, defaults included.
    open spec fn view(&self) -> Seq<T> {
        dense(self.entries(), self.default_value(), self.spec_len() as nat)
    }
}

impl<T> SparseArray<T> {
    /// The stored entries, each a position and the value at it.
    pub closed spec fn entries(&self) -> Seq<(usize, T)> {
        entries_of(self.inner@)
    }

    /// The value of every position at which no entry stands.
    pub closed spec fn default_value(&self) -> T {
        self.zero
    }

    /// The length of the sequence.
    pub closed spec fn spec_len(&self) -> usize {
        self.len
    }
}

impl<T: Default + PartialEq> SparseArray<T> {
    /// The entries are ordered by position, none holds the default, and all
    /// lie within the length.
    pub proof fn lemma_invariant(&self)
        requires
            self.wf(),
        ensures
            sparse_inv(self.entries(), self.default_value(), self.spec_len() as int),
            plain::<T>(),
            call_ensures(T::default, (), self.default_value()),
    {
    }

    /// A position at which no entry stands holds the default.
    pub proof fn lemma_unset_is_default(&self, index: int)
        requires
            self.wf(),
            0 <= index < self@.len(),
            forall|k: int| !entry_at(self.entries(), k, index),
        ensures
            self@[index] == self.default_value(),
    {
    }

    /// An empty sequence.
    pub fn new() -> (s: Self)
        requires
            plain::<T>(),
        ensures
            s.wf(),
            s@ == Seq::<T>::empty(),
            s.entries() == Seq::<(usize, T)>::empty(),
            call_ensures(T::default, (), s.default_value()),
    {
        let s = SparseArray { inner: Array::new(), zero: T::default(), len: 0 };
        assert(s.entries() =~= Seq::<(usize, T)>::empty());
        assert(s@ =~= Seq::<T>::empty());
        s
    }

    /// The stored entries as text: each entry's position and value in
    /// parentheses, the entries between brackets.
    pub fn repr(&self) -> (text: String) where T: std::fmt::Display
        requires
            self.wf(),
        ensures
            exists|texts: Seq<(String, String)>|
                entries_written(self.entries(), texts) && text@ == "["@ + joined(
                    #[trigger] pair_texts(texts),
                    ", "@,
                ) + "]"@,
    {
        let mut result: Vec<String> = Vec::new();
        let ghost mut texts: Seq<(String, String)> = Seq::empty();
        let count = self.inner.len();
        let mut at: usize = 0;
        while at < count
            invariant
                self.wf(),
                count == self.entries().len(),
                at <= count,
                texts.len() == at,
                forall|k: int|
                    0 <= k < at ==> to_string_from_display_ensures::<usize>(
                        &self.entries()[k].0,
                        (#[trigger] texts[k]).0,
                    ) && to_string_from_display_ensures::<T>(&self.entries()[k].1, texts[k].1),
                result@.len() == at,
                forall|k: int|
                    0 <= k < at ==> (#[trigger] result@[k])@ == pair_text(texts[k].0@, texts[k].1@),
            decreases count - at,
        {
            let v = self.inner.get(at);
            let position = v.index.to_string();
            let value = v.value.to_string();
            let mut pair = String::new();
            pair.append("(");
            pair.append(position.as_str());
            pair.append(", ");
            pair.append(value.as_str());
            pair.append(")");
            result.push(pair);
            proof {
                texts = texts.push((position, value));
                assert(pair@ =~= pair_text(position@, value@));
                assert(self.entries()[at as int] == (v.index, v.value));
            }
            at += 1;
        }
        let inside = join(&result, ", ");
        proof {
            assert(entries_written(self.entries(), texts));
            assert(views(result@) =~= pair_texts(texts));
        }
        wrap("[", inside.as_str(), "]")
    }

    /// The whole sequence as text: each element as `to_string` writes it,
    /// the elements between brackets.
    pub fn to_string(&self) -> (text: String) where T: std::fmt::Display
        requires
            self.wf(),
        ensures
            exists|texts: Seq<String>|
                elements_written(self@, texts) && text@ == "["@ + joined(
                    #[trigger] views(texts),
                    ", "@,
                ) + "]"@,
    {
        let mut result: Vec<String> = Vec::new();
        let mut i: usize = 0;
        while i < self.len
            invariant
                self.wf(),
                i <= self.len,
                result@.len() == i,
                forall|k: int|
                    0 <= k < i ==> to_string_from_display_ensures::<T>(
                        &self@[k],
                        #[trigger] result@[k],
                    ),
            decreases self.len - i,
        {
            result.push(self.get(i).to_string());
            i += 1;
        }
        let inside = join(&result, ", ");
        proof {
            assert(elements_written(self@, result@));
        }
        wrap("[", inside.as_str(), "]")
    }

    /// The entry that stands at `index`, if there is one.
    fn find_inner_value(&self, index: usize) -> (r: Option<&Value<T>>)
        requires
            self.wf(),
        ensures
            match r {
                Some(found) => found.index == index && found.value == value_at(
                    self.entries(),
                    self.default_value(),
                    index as int,
                ) && exists|k: int| entry_at(self.entries(), k, index as int),
                None => forall|k: int| !entry_at(self.entries(), k, index as int),
            },
    {
        let count = self.inner.len();
        let mut at: usize = 0;
        while at < count
            invariant
                self.wf(),
                count == self.entries().len(),
                at <= count,
                forall|k: int| 0 <= k < at ==> !entry_at(self.entries(), k, index as int),
            decreases count - at,
        {
            let current = self.inner.get(at);
            if current.index == index {
                proof {
                    lemma_value_at(self.entries(), self.zero, self.len as int, at as int);
                    assert(entry_at(self.entries(), at as int, index as int));
                }
                return Some(current);
            }
            at += 1;
        }
        None
    }

    /// The place among the entries of the one that stands at `index`, if there is one.
    fn find_position(&self, index: usize) -> (r: Option<usize>)
        requires
            self.wf(),
        ensures
            match r {
                Some(at) => entry_at(self.entries(), at as int, index as int),
                None => forall|k: int| !entry_at(self.entries(), k, index as int),
            },
    {
        let count = self.inner.len();
        let mut at: usize = 0;
        while at < count
            invariant
                self.wf(),
                count == self.entries().len(),
                at <= count,
                forall|k: int| 0 <= k < at ==> !entry_at(self.entries(), k, index as int),
            decreases count - at,
        {
            if self.inner.get(at).index == index {
                return Some(at);
            }
            at += 1;
        }
        None
    }

    /// The value at `index`: the default where no entry stands, also past the end.
    pub fn get(&self, index: usize) -> (r: &T)
        requires
            self.wf(),
        ensures
            *r == value_at(self.entries(), self.default_value(), index as int),
            index < self@.len() ==> *r == self@[index as int],
            index >= self@.len() ==> *r == self.default_value(),
    {
        proof {
            if index >= self.len {
                assert forall|k: int| !entry_at(self.entries(), k, index as int) by {
                    if entry_at(self.entries(), k, index as int) {
                        assert(self.entries()[k].0 < self.len);
                    }
                }
            }
        }
        match self.find_inner_value(index) {
            Some(found) => &found.value,
            None => &self.zero,
        }
    }

    /// Puts `elem` at `index`. Within the sequence the elements from `index`
    /// on move one place up; at or past the end the sequence is lengthened
    /// with defaults up to `index`.
    pub fn insert(&mut self, elem: T, index: usize)
        requires
            old(self).wf(),
            index < usize::MAX,
            old(self)@.len() < usize::MAX,
        ensures
            final(self).wf(),
            final(self).default_value() == old(self).default_value(),
            index <= old(self)@.len() ==> final(self)@ == old(self)@.insert(index as int, elem),
            index > old(self)@.len() ==> final(self)@ == (old(self)@ + Seq::new(
                (index - old(self)@.len()) as nat,
                |i: int| old(self).default_value(),
            )).push(elem),
            elem == old(self).default_value()
                ==> final(self).entries().len() == old(self).entries().len(),
            elem != old(self).default_value()
                ==> final(self).entries().len() == old(self).entries().len() + 1,
            sparse_inv(
                final(self).entries(),
                final(self).default_value(),
                final(self)@.len() as int,
            ),
    {
        if index < self.len {
            self.inner_insert(elem, index);
        } else {
            let ghost before = self.entries();
            let ghost default = self.zero;
            let ghost shorter = self.len as nat;
            let ghost gap = Seq::new((index - shorter) as nat, |i: int| default);
            proof {
                lemma_extend(before, default, shorter, (index + 1) as nat);
                reveal(obeys_concrete_eq);
                assert(dense(before, default, (index + 1) as nat)
                    =~= (old(self)@ + gap).push(default));
            }
            self.len = index + 1;
            if self.zero != elem {
                proof {
                    assert forall|k: int| 0 <= k < before.len() implies (#[trigger] before[k]).0
                        < index by {
                        assert(before[k].0 < shorter);
                    }
                    lemma_add_entry(
                        before,
                        default,
                        (index + 1) as nat,
                        before.len() as int,
                        index,
                        elem,
                    );
                    assert(before.insert(before.len() as int, (index, elem)) =~= before.push(
                        (index, elem),
                    ));
                    assert((old(self)@ + gap).push(default).update(index as int, elem)
                        =~= (old(self)@ + gap).push(elem));
                }
                self.inner.push(Value::new(index, elem));
                assert(self.entries() =~= before.push((index, elem)));
            }
            proof {
                if index == shorter {
                    assert((old(self)@ + gap).push(elem) =~= old(self)@.insert(index as int, elem));
                }
            }
        }
    }

    /// Puts `elem` at `index`, which lies within the sequence.
    fn inner_insert(&mut self, elem: T, index: usize)
        requires
            old(self).wf(),
            index < old(self).len,
            old(self).len < usize::MAX,
        ensures
            final(self).wf(),
            final(self).default_value() == old(self).default_value(),
            final(self)@ == old(self)@.insert(index as int, elem),
            elem == old(self).default_value()
                ==> final(self).entries().len() == old(self).entries().len(),
            elem != old(self).default_value()
                ==> final(self).entries().len() == old(self).entries().len() + 1,
            sparse_inv(
                final(self).entries(),
                final(self).default_value(),
                final(self)@.len() as int,
            ),
    {
        let ghost before = self.entries();
        let ghost default = self.zero;
        let ghost shorter = self.len as nat;
        let count = self.inner.len();
        let mut pos: usize = 0;
        while pos < count && index > self.inner.get(pos).index
            invariant
                self.wf(),
                before == self.entries(),
                count == before.len(),
                pos <= count,
                forall|k: int| 0 <= k < pos ==> (#[trigger] before[k]).0 < index,
            decreases count - pos,
        {
            pos += 1;
        }
        assert forall|k: int| pos <= k < count implies (#[trigger] before[k]).0 >= index by {
            if k > pos {
                assert(before[pos as int].0 < before[k].0);
            }
        }
        let mut at: usize = pos;
        while at < count
            invariant
                self.inner.wf(),
                self.entries().len() == count,
                before.len() == count,
                pos <= at <= count,
                self.len == old(self).len,
                self.zero == old(self).zero,
                shorter == self.len,
                shorter < usize::MAX,
                sparse_inv(before, default, shorter as int),
                forall|k: int|
                    0 <= k < count ==> (#[trigger] self.entries()[k]) == (if pos <= k < at {
                        ((before[k].0 + 1) as usize, before[k].1)
                    } else {
                        before[k]
                    }),
            decreases count - at,
        {
            let ghost current = self.entries();
            assert(current[at as int] == before[at as int]);
            let v = self.inner.get_mut(at);
            v.index += 1;
            proof {
                assert(self.entries() =~= current.update(
                    at as int,
                    ((before[at as int].0 + 1) as usize, before[at as int].1),
                ));
            }
            at += 1;
        }
        proof {
            assert(self.entries() =~= shifted_up(before, index as int));
            lemma_shift_up(before, default, shorter, index as int);
            reveal(obeys_concrete_eq);
        }
        self.len += 1;
        if self.zero != elem {
            let ghost shifted = self.entries();
            proof {
                assert forall|k: int| 0 <= k < pos implies (#[trigger] shifted[k]).0 < index by {
                    assert(before[k].0 < index);
                }
                assert forall|k: int| pos <= k < shifted.len() implies (#[trigger] shifted[k]).0
                    > index by {
                    assert(before[k].0 >= index);
                }
                lemma_add_entry(shifted, default, shorter + 1, pos as int, index, elem);
                assert(old(self)@.insert(index as int, default).update(index as int, elem)
                    =~= old(self)@.insert(index as int, elem));
            }
            self.inner.insert(Value::new(index, elem), pos);
            assert(self.entries() =~= shifted.insert(pos as int, (index, elem)));
        }
    }
}

impl<T: Default + PartialEq> IArray<T> for SparseArray<T> {
    /// The representation invariant: the entries are ordered by position,
    /// none holds the default, all lie within the length, and the element
    /// type is plain.
    closed spec fn wf(&self) -> bool {
        &&& self.inner.wf()
        &&& sparse_inv(self.entries(), self.zero, self.len as int)
        &&& plain::<T>()
        &&& call_ensures(T::default, (), self.zero)
    }

    fn size(&self) -> (n: usize) {
        self.len
    }

    fn push(&mut self, elem: T)
        ensures
            final(self).default_value() == old(self).default_value(),
            elem == old(self).default_value()
                ==> final(self).entries().len() == old(self).entries().len(),
            elem != old(self).default_value()
                ==> final(self).entries().len() == old(self).entries().len() + 1,
            sparse_inv(
                final(self).entries(),
                final(self).default_value(),
                final(self)@.len() as int,
            ),
    {
        let end = self.len;
        SparseArray::insert(self, elem, end);
        assert(old(self)@.insert(old(self)@.len() as int, elem) =~= old(self)@.push(elem));
    }

    fn get(&self, index: usize) -> (r: &T) {
        SparseArray::get(self, index)
    }

    fn insert(&mut self, elem: T, index: usize)
        ensures
            final(self).default_value() == old(self).default_value(),
            elem == old(self).default_value()
                ==> final(self).entries().len() == old(self).entries().len(),
            elem != old(self).default_value()
                ==> final(self).entries().len() == old(self).entries().len() + 1,
            sparse_inv(
                final(self).entries(),
                final(self).default_value(),
                final(self)@.len() as int,
            ),
    {
        SparseArray::insert(self, elem, index);
    }

    /// Takes the element at `index` out and moves every later element one
    /// place down.
    fn remove(&mut self, index: usize) -> (r: T)
        ensures
            final(self).default_value() == old(self).default_value(),
            r == old(self).default_value()
                ==> final(self).entries().len() == old(self).entries().len(),
            r != old(self).default_value()
                ==> final(self).entries().len() + 1 == old(self).entries().len(),
            sparse_inv(
                final(self).entries(),
                final(self).default_value(),
                final(self)@.len() as int,
            ),
    {
        let ghost before = self.entries();
        let ghost default = self.zero;
        let ghost longer = self.len as nat;
        match self.find_position(index) {
            Some(pos) => {
                proof {
                    lemma_value_at(before, default, longer as int, pos as int);
                    lemma_drop_entry(before, default, longer, pos as int);
                }
                let taken = self.inner.remove(pos);
                let ghost rest = self.entries();
                assert(rest =~= before.remove(pos as int));
                let count = self.inner.len();
                let mut at: usize = pos;
                while at < count
                    invariant
                        self.inner.wf(),
                        self.entries().len() == count,
                        rest.len() == count,
                        pos <= at <= count,
                        self.len == old(self).len,
                        self.zero == old(self).zero,
                        forall|k: int| pos <= k < count ==> (#[trigger] rest[k]).0 > index,
                        forall|k: int|
                            0 <= k < count ==> (#[trigger] self.entries()[k]) == (if pos <= k < at {
                                ((rest[k].0 - 1) as usize, rest[k].1)
                            } else {
                                rest[k]
                            }),
                    decreases count - at,
                {
                    let ghost current = self.entries();
                    assert(current[at as int] == rest[at as int]);
                    let v = self.inner.get_mut(at);
                    v.index -= 1;
                    proof {
                        assert(self.entries() =~= current.update(
                            at as int,
                            ((rest[at as int].0 - 1) as usize, rest[at as int].1),
                        ));
                    }
                    at += 1;
                }
                proof {
                    assert forall|k: int| 0 <= k < pos implies !((#[trigger] rest[k]).0 > index) by {}
                    assert(self.entries() =~= shifted_down(rest, index as int));
                    lemma_shift_down(rest, default, longer, index as int);
                    assert(old(self)@.update(index as int, default).remove(index as int)
                        =~= old(self)@.remove(index as int));
                }
                self.len -= 1;
                taken.value
            },
            None => {
                let count = self.inner.len();
                let mut at: usize = 0;
                while at < count
                    invariant
                        self.inner.wf(),
                        self.entries().len() == count,
                        before.len() == count,
                        at <= count,
                        self.len == old(self).len,
                        self.zero == old(self).zero,
                        forall|k: int|
                            0 <= k < count ==> (#[trigger] self.entries()[k]) == (if k < at
                                && before[k].0 > index {
                                ((before[k].0 - 1) as usize, before[k].1)
                            } else {
                                before[k]
                            }),
                    decreases count - at,
                {
                    let ghost current = self.entries();
                    assert(current[at as int] == before[at as int]);
                    let v = self.inner.get_mut(at);
                    if v.index > index {
                        v.index -= 1;
                    }
                    proof {
                        assert(self.entries() =~= current.update(
                            at as int,
                            if before[at as int].0 > index {
                                ((before[at as int].0 - 1) as usize, before[at as int].1)
                            } else {
                                before[at as int]
                            },
                        ));
                    }
                    at += 1;
                }
                proof {
                    assert(self.entries() =~= shifted_down(before, index as int));
                    lemma_shift_down(before, default, longer, index as int);
                }
                self.len -= 1;
                T::default()
            },
        }
    }
}

impl<T: Default + PartialEq> Default for SparseArray<T> {
    fn default() -> (s: Self)
        ensures
            plain::<T>() ==> s.wf(),
            s@ == Seq::<T>::empty(),
            s.entries() == Seq::<(usize, T)>::empty(),
            call_ensures(T::default, (), s.default_value()),
    {
        let s = SparseArray { inner: Array::new(), zero: T::default(), len: 0 };
        assert(s.entries() =~= Seq::<(usize, T)>::empty());
        assert(s@ =~= Seq::<T>::empty());
        s
    }
}

} // verus!
