//! Slab allocator with a free list.
//!
//! Values live in slots of a vector; a removed slot joins a free list that
//! runs through the vacant slots, and the next insertion takes the head of
//! that list (or appends a slot when the list is empty). Slot numbers stay
//! stable while a value is present.

use vstd::prelude::*;
use crate::storage::index_types::SlabIndex;

verus! {

/// A slot: vacant (with the next free slot) or occupied.
pub enum Entry<T> {
    /// Slot is free; holds the next slot of the free list.
    Vacant(usize),
    /// Slot holds a value.
    Occupied(T),
}

/// The number of occupied slots.
pub open spec fn occupied<T>(e: Seq<Entry<T>>) -> nat
    decreases e.len(),
{
    if e.len() == 0 {
        0
    } else {
        occupied(e.drop_last()) + if e.last() is Occupied { 1nat } else { 0nat }
    }
}

/// Updating a slot changes the count by what left and what came in.
pub proof fn lemma_occupied_update<T>(e: Seq<Entry<T>>, i: int, x: Entry<T>)
    requires
        0 <= i < e.len(),
    ensures
        occupied(e.update(i, x)) + (if e[i] is Occupied { 1int } else { 0int })
            == occupied(e) + (if x is Occupied { 1int } else { 0int }),
        occupied(e) <= e.len(),
        e[i] is Occupied ==> occupied(e) >= 1,
    decreases e.len(),
{
    if i == e.len() - 1 {
        assert(e.update(i, x).drop_last() =~= e.drop_last());
        lemma_occupied_bound(e.drop_last());
    } else {
        lemma_occupied_update(e.drop_last(), i, x);
        assert(e.update(i, x).drop_last() =~= e.drop_last().update(i, x));
    }
}

/// At most every slot is occupied.
pub proof fn lemma_occupied_bound<T>(e: Seq<Entry<T>>)
    ensures
        occupied(e) <= e.len(),
    decreases e.len(),
{
    if e.len() > 0 {
        lemma_occupied_bound(e.drop_last());
    }
}

/// Whether slot `i` is among the listed items.
pub open spec fn listed<T>(r: Seq<(usize, &T)>, i: int) -> bool {
    exists|k: int| 0 <= k < r.len() && r[k].0 == i
}

/// A slab of values with stable slot numbers.
pub struct Slab<T> {
    entries: Vec<Entry<T>>,
    len: usize,
    next: usize,
    free: Ghost<Seq<usize>>,
}

impl<T> Slab<T> {
    /// The free list is a chain from `next` through every vacant slot,
    /// ending past the last slot, and `len` counts the occupied ones.
    pub closed spec fn wf(&self) -> bool {
        let e = self.entries@;
        let f = self.free@;
        &&& e.len() <= usize::MAX
        &&& self.next == (if f.len() > 0 { f[0] } else { e.len() as usize })
        &&& forall|j: int| 0 <= j < f.len() ==> #[trigger] f[j] < e.len()
        &&& forall|j: int| 0 <= j < f.len() ==> e[f[j] as int] == Entry::<T>::Vacant(
            if j + 1 < f.len() { f[j + 1] } else { e.len() as usize },
        )
        &&& forall|i: int| 0 <= i < e.len() && e[i] is Vacant ==> f.contains(i as usize)
        &&& forall|a: int, b: int| 0 <= a < b < f.len() ==> f[a] != f[b]
        &&& self.len == occupied(e)
    }

    /// The values by slot number.
    pub closed spec fn view(&self) -> Map<int, T> {
        Map::new(
            |i: int| 0 <= i < self.entries@.len() && self.entries@[i] is Occupied,
            |i: int| self.entries@[i]->Occupied_0,
        )
    }

    /// The slot the next insertion takes.
    pub closed spec fn next_free(&self) -> usize {
        self.next
    }

    /// The number of slots in use or freed so far.
    pub closed spec fn slots(&self) -> nat {
        self.entries@.len()
    }

    /// The number of values.
    pub closed spec fn count(&self) -> nat {
        self.len as nat
    }

    /// Facts every well-formed slab has.
    pub proof fn lemma_wf(&self)
        requires
            self.wf(),
        ensures
            self.next_free() <= self.slots(),
            !self.view().dom().contains(self.next_free() as int),
            forall|i: int| #[trigger] self.view().dom().contains(i) ==> 0 <= i < self.slots(),
            self.count() <= self.slots(),
    {
        let f = self.free@;
        lemma_occupied_bound(self.entries@);
        if f.len() > 0 {
            assert(self.entries@[f[0] as int] is Vacant);
            assert(self.next == f[0]);
        }
        assert(!self.view().dom().contains(self.next_free() as int));
    }

    /// Creates an empty slab.
    pub fn new() -> (r: Self)
        ensures
            r.wf(),
            r.view() == Map::<int, T>::empty(),
            r.next_free() == 0,
            r.count() == 0,
            r.slots() == 0,
    {
        let r = Slab { entries: Vec::new(), len: 0, next: 0, free: Ghost(Seq::empty()) };
        assert(r.view() =~= Map::<int, T>::empty());
        r
    }

    /// Inserts a value, returning its slot: the head of the free list, or a
    /// new slot at the end.
    pub fn insert(&mut self, value: T) -> (key: usize)
        requires
            old(self).wf(),
        ensures
            final(self).wf(),
            key == old(self).next_free(),
            !old(self).view().dom().contains(key as int),
            final(self).view() == old(self).view().insert(key as int, value),
            final(self).count() == old(self).count() + 1,
            final(self).slots() == (if key == old(self).slots() { old(self).slots() + 1 } else { old(self).slots() }),
            old(self).next_free() == old(self).slots() ==> final(self).next_free() == final(self).slots(),
    {
        proof {
            self.lemma_wf();
        }
        let key = self.next;
        let ghost f = self.free@;
        let ghost e = self.entries@;
        if key == self.entries.len() {
            self.entries.push(Entry::Occupied(value));
            self.next = self.entries.len();
            proof {
                assert(self.entries@.drop_last() =~= e);
                lemma_occupied_bound(self.entries@);
                assert(f.len() == 0);
                let e2 = self.entries@;
                assert forall|i: int| 0 <= i < e2.len() && e2[i] is Vacant implies self.free@.contains(i as usize) by {
                    assert(e2[i] == e[i]);
                }
            }
        } else {
            let next_free = match &self.entries[key] {
                Entry::Vacant(n) => *n,
                Entry::Occupied(_) => {
                    proof {
                        assert(e[f[0] as int] is Vacant);
                    }
                    key
                },
            };
            self.entries.set(key, Entry::Occupied(value));
            self.next = next_free;
            proof {
                lemma_occupied_update(e, key as int, Entry::Occupied(value));
                lemma_occupied_bound(self.entries@);
                self.free@ = f.drop_first();
                let e2 = self.entries@;
                let f2 = self.free@;
                assert forall|j: int| 0 <= j < f2.len() implies e2[f2[j] as int] == Entry::<T>::Vacant(
                    if j + 1 < f2.len() { f2[j + 1] } else { e2.len() as usize },
                ) by {
                    assert(f2[j] == f[j + 1]);
                    assert(f[j + 1] != f[0]);
                }
                assert forall|i: int| 0 <= i < e2.len() && e2[i] is Vacant implies f2.contains(i as usize) by {
                    assert(i != key);
                    assert(f.contains(i as usize));
                    let k = choose|k: int| 0 <= k < f.len() && f[k] == i as usize;
                    assert(k != 0);
                    assert(f2[k - 1] == i as usize);
                }
                assert forall|a: int, b: int| 0 <= a < b < f2.len() implies f2[a] != f2[b] by {
                    assert(f2[a] == f[a + 1] && f2[b] == f[b + 1]);
                }
                assert forall|j: int| 0 <= j < f2.len() implies #[trigger] f2[j] < e2.len() by {
                    assert(f2[j] == f[j + 1]);
                }
            }
        }
        self.len = self.len + 1;
        proof {
            assert(self.view() =~= old(self).view().insert(key as int, value));
        }
        key
    }

    /// The value at a slot, if it holds one.
    pub fn get(&self, index: usize) -> (r: Option<&T>)
        requires
            self.wf(),
        ensures
            match r {
                Some(v) => self.view().dom().contains(index as int) && *v == self.view()[index as int],
                None => !self.view().dom().contains(index as int),
            },
    {
        if index >= self.entries.len() {
            return None;
        }
        match &self.entries[index] {
            Entry::Occupied(v) => Some(v),
            Entry::Vacant(_) => None,
        }
    }

    /// The occupied slots with their values, by increasing slot number.
    pub fn items(&self) -> (r: Vec<(usize, &T)>)
        requires
            self.wf(),
        ensures
            forall|k: int| 0 <= k < r@.len() ==> self.view().dom().contains(#[trigger] r@[k].0 as int)
                && *r@[k].1 == self.view()[r@[k].0 as int],
            forall|a: int, b: int| 0 <= a < b < r@.len() ==> r@[a].0 < r@[b].0,
            forall|i: int| #[trigger] self.view().dom().contains(i) ==> listed(r@, i),
    {
        let mut r: Vec<(usize, &T)> = Vec::new();
        let mut i: usize = 0;
        while i < self.entries.len()
            invariant
                i <= self.entries@.len(),
                forall|k: int| 0 <= k < r@.len() ==> #[trigger] r@[k].0 < i && self.view().dom().contains(r@[k].0 as int)
                    && *r@[k].1 == self.view()[r@[k].0 as int],
                forall|a: int, b: int| 0 <= a < b < r@.len() ==> r@[a].0 < r@[b].0,
                forall|j: int| 0 <= j < i && #[trigger] self.view().dom().contains(j) ==> listed(r@, j),
            decreases self.entries@.len() - i,
        {
            let ghost before = r@;
            match &self.entries[i] {
                Entry::Occupied(v) => {
                    r.push((i, v));
                    proof {
                        assert(r@[before.len() as int].0 == i);
                        assert forall|j: int| 0 <= j < i + 1 && #[trigger] self.view().dom().contains(j) implies listed(r@, j) by {
                            if j < i {
                                let k = choose|k: int| 0 <= k < before.len() && before[k].0 == j;
                                assert(r@[k].0 == j);
                            } else {
                                assert(r@[before.len() as int].0 == j);
                            }
                        }
                    }
                },
                Entry::Vacant(_) => {
                    proof {
                        assert(!self.view().dom().contains(i as int));
                    }
                },
            }
            i = i + 1;
        }
        r
    }

    /// Replaces the value at an occupied slot, returning the old value.
    pub fn replace(&mut self, index: usize, value: T) -> (r: Option<T>)
        requires
            old(self).wf(),
        ensures
            final(self).wf(),
            final(self).next_free() == old(self).next_free(),
            final(self).count() == old(self).count(),
            final(self).slots() == old(self).slots(),
            match r {
                Some(v) => old(self).view().dom().contains(index as int) && v == old(self).view()[index as int]
                    && final(self).view() == old(self).view().insert(index as int, value),
                None => !old(self).view().dom().contains(index as int) && final(self).view() == old(self).view(),
            },
    {
        if index >= self.entries.len() {
            return None;
        }
        let occupied = match &self.entries[index] {
            Entry::Occupied(_) => true,
            Entry::Vacant(_) => false,
        };
        if !occupied {
            return None;
        }
        let ghost e = self.entries@;
        let mut prev = Entry::Occupied(value);
        std::mem::swap(&mut self.entries[index], &mut prev);
        proof {
            let e2 = self.entries@;
            assert(e2 == e.update(index as int, Entry::Occupied(value)));
            lemma_occupied_update(e, index as int, Entry::Occupied(value));
            let f = self.free@;
            assert forall|j: int| 0 <= j < f.len() implies e2[f[j] as int] == Entry::<T>::Vacant(
                if j + 1 < f.len() { f[j + 1] } else { e2.len() as usize },
            ) by {
                assert(f[j] != index);
            }
            assert(self.view() =~= old(self).view().insert(index as int, value));
        }
        match prev {
            Entry::Occupied(v) => Some(v),
            Entry::Vacant(_) => None,
        }
    }

    /// Removes the value at a slot, if it holds one, returning it; the slot
    /// becomes the head of the free list.
    pub fn try_remove(&mut self, index: usize) -> (r: Option<T>)
        requires
            old(self).wf(),
        ensures
            final(self).wf(),
            final(self).slots() == old(self).slots(),
            match r {
                Some(v) => old(self).view().dom().contains(index as int) && v == old(self).view()[index as int]
                    && final(self).view() == old(self).view().remove(index as int)
                    && final(self).next_free() == index
                    && final(self).count() + 1 == old(self).count(),
                None => !old(self).view().dom().contains(index as int) && final(self).view() == old(self).view()
                    && final(self).next_free() == old(self).next_free()
                    && final(self).count() == old(self).count(),
            },
    {
        if index >= self.entries.len() {
            return None;
        }
        let occupied = match &self.entries[index] {
            Entry::Occupied(_) => true,
            Entry::Vacant(_) => false,
        };
        if !occupied {
            return None;
        }
        let ghost e = self.entries@;
        let ghost f = self.free@;
        proof {
            lemma_occupied_update(e, index as int, Entry::<T>::Vacant(self.next));
        }
        let next_free = self.next;
        let mut prev = Entry::Vacant(next_free);
        std::mem::swap(&mut self.entries[index], &mut prev);
        self.len = self.len - 1;
        self.next = index;
        proof {
            self.free@ = seq![index].add(f);
            let e2 = self.entries@;
            let f2 = self.free@;
            assert(!f.contains(index)) by {
                if f.contains(index) {
                    let k = choose|k: int| 0 <= k < f.len() && f[k] == index;
                    assert(e[f[k] as int] is Vacant);
                }
            }
            assert forall|j: int| 0 <= j < f2.len() implies e2[f2[j] as int] == Entry::<T>::Vacant(
                if j + 1 < f2.len() { f2[j + 1] } else { e2.len() as usize },
            ) by {
                if j > 0 {
                    assert(f2[j] == f[j - 1]);
                    assert(f[j - 1] != index);
                }
            }
            assert forall|i: int| 0 <= i < e2.len() && e2[i] is Vacant implies f2.contains(i as usize) by {
                if i == index {
                    assert(f2[0] == index);
                } else {
                    assert(f.contains(i as usize));
                    let k = choose|k: int| 0 <= k < f.len() && f[k] == i as usize;
                    assert(f2[k + 1] == i as usize);
                }
            }
            assert forall|a: int, b: int| 0 <= a < b < f2.len() implies f2[a] != f2[b] by {
                if a > 0 {
                    assert(f2[a] == f[a - 1] && f2[b] == f[b - 1]);
                } else {
                    assert(f2[b] == f[b - 1]);
                }
            }
            assert forall|j: int| 0 <= j < f2.len() implies #[trigger] f2[j] < e2.len() by {
                if j > 0 {
                    assert(f2[j] == f[j - 1]);
                }
            }
            assert(self.view() =~= old(self).view().remove(index as int));
        }
        match prev {
            Entry::Occupied(v) => Some(v),
            Entry::Vacant(_) => None,
        }
    }

    /// Returns the number of values.
    pub fn len(&self) -> (r: usize)
        ensures
            r == self.count(),
    {
        self.len
    }

    /// Returns true if the slab holds no value.
    pub fn is_empty(&self) -> (r: bool)
        ensures
            r == (self.count() == 0),
    {
        self.len == 0
    }

    /// The number of slots in use or freed so far.
    pub fn slot_count(&self) -> (r: usize)
        ensures
            r == self.slots(),
    {
        self.entries.len()
    }
}

/// A slab addressed by `SlabIndex`.
pub struct ThinSlab<T>(Slab<T>);

impl<T> ThinSlab<T> {
    /// Well-formed, every slot number below `u32::MAX`.
    pub closed spec fn wf(&self) -> bool {
        &&& self.0.wf()
        &&& forall|i: int| #[trigger] self.0.view().dom().contains(i) ==> 0 <= i < u32::MAX
    }

    /// The values by slot number.
    pub closed spec fn view(&self) -> Map<int, T> {
        self.0.view()
    }

    /// The slot the next insertion takes.
    pub closed spec fn next_free(&self) -> usize {
        self.0.next_free()
    }

    /// The number of values.
    pub closed spec fn count(&self) -> nat {
        self.0.count()
    }

    /// The number of slots in use or freed so far.
    pub closed spec fn slots(&self) -> nat {
        self.0.slots()
    }

    /// The next insertion takes a freed slot or the first unused one.
    pub proof fn lemma_next_free(&self)
        requires
            self.wf(),
        ensures
            self.next_free() <= self.slots(),
            forall|i: int| #[trigger] self.view().dom().contains(i) ==> 0 <= i < self.slots(),
    {
        self.0.lemma_wf();
    }

    /// Creates an empty slab.
    pub fn new() -> (r: Self)
        ensures
            r.wf(),
            r.view() == Map::<int, T>::empty(),
            r.next_free() == 0,
            r.count() == 0,
            r.slots() == 0,
    {
        ThinSlab(Slab::new())
    }

    /// Inserts a value, returning its index; the slot must fit a
    /// `SlabIndex`.
    pub fn insert(&mut self, value: T) -> (r: SlabIndex)
        requires
            old(self).wf(),
            old(self).next_free() < u32::MAX,
        ensures
            final(self).wf(),
            r.raw() == old(self).next_free(),
            !old(self).view().dom().contains(r.raw() as int),
            final(self).view() == old(self).view().insert(r.raw() as int, value),
            final(self).count() == old(self).count() + 1,
            final(self).slots() <= old(self).slots() + 1,
            old(self).next_free() == old(self).slots() ==> final(self).next_free() == final(self).slots()
                && final(self).slots() == old(self).slots() + 1,
    {
        proof {
            self.0.lemma_wf();
        }
        let key = self.0.insert(value);
        SlabIndex::new(key)
    }

    /// The value at an index, if it holds one.
    pub fn get(&self, index: SlabIndex) -> (r: Option<&T>)
        requires
            self.wf(),
        ensures
            match r {
                Some(v) => self.view().dom().contains(index.raw() as int) && *v == self.view()[index.raw() as int],
                None => !self.view().dom().contains(index.raw() as int),
            },
    {
        self.0.get(index.get())
    }

    /// Replaces the value at an occupied index, returning the old value.
    pub fn replace(&mut self, index: SlabIndex, value: T) -> (r: Option<T>)
        requires
            old(self).wf(),
        ensures
            final(self).wf(),
            final(self).next_free() == old(self).next_free(),
            final(self).count() == old(self).count(),
            final(self).slots() == old(self).slots(),
            match r {
                Some(v) => old(self).view().dom().contains(index.raw() as int) && v == old(self).view()[index.raw() as int]
                    && final(self).view() == old(self).view().insert(index.raw() as int, value),
                None => !old(self).view().dom().contains(index.raw() as int) && final(self).view() == old(self).view(),
            },
    {
        self.0.replace(index.get(), value)
    }

    /// Removes the value at an index, if it holds one, returning it.
    pub fn try_remove(&mut self, index: SlabIndex) -> (r: Option<T>)
        requires
            old(self).wf(),
        ensures
            final(self).wf(),
            final(self).slots() == old(self).slots(),
            match r {
                Some(v) => old(self).view().dom().contains(index.raw() as int) && v == old(self).view()[index.raw() as int]
                    && final(self).view() == old(self).view().remove(index.raw() as int)
                    && final(self).next_free() == index.raw()
                    && final(self).count() + 1 == old(self).count(),
                None => !old(self).view().dom().contains(index.raw() as int) && final(self).view() == old(self).view()
                    && final(self).next_free() == old(self).next_free()
                    && final(self).count() == old(self).count(),
            },
    {
        self.0.try_remove(index.get())
    }

    /// The number of slots in use or freed so far.
    pub fn slot_count(&self) -> (r: usize)
        ensures
            r == self.slots(),
    {
        self.0.slot_count()
    }

    /// Every slot number is below `u32::MAX`.
    pub proof fn lemma_bounded(&self)
        requires
            self.wf(),
        ensures
            forall|i: int| #[trigger] self.view().dom().contains(i) ==> 0 <= i < u32::MAX,
    {
    }

    /// The occupied slots with their values, by increasing slot number.
    pub fn items(&self) -> (r: Vec<(usize, &T)>)
        requires
            self.wf(),
        ensures
            forall|k: int| 0 <= k < r@.len() ==> self.view().dom().contains(#[trigger] r@[k].0 as int)
                && *r@[k].1 == self.view()[r@[k].0 as int],
            forall|a: int, b: int| 0 <= a < b < r@.len() ==> r@[a].0 < r@[b].0,
            forall|i: int| #[trigger] self.view().dom().contains(i) ==> listed(r@, i),
            forall|k: int| 0 <= k < r@.len() ==> #[trigger] r@[k].0 < u32::MAX,
            forall|i: int| #[trigger] self.view().dom().contains(i) ==> 0 <= i < u32::MAX,
    {
        self.0.items()
    }

    /// Returns the number of values.
    pub fn len(&self) -> (r: usize)
        ensures
            r == self.count(),
    {
        self.0.len()
    }

    /// Returns true if the slab holds no value.
    pub fn is_empty(&self) -> (r: bool)
        ensures
            r == (self.count() == 0),
    {
        self.0.is_empty()
    }
}

/// A value inserted into a slab is read back from the slot it was given,
/// the other slots keep theirs, and removing it frees exactly that slot for
/// the next insertion.
pub proof fn lemma_insert_get_remove<T>(before: Map<int, T>, key: int, value: T, other: int)
    requires
        !before.dom().contains(key),
        other != key,
    ensures
        before.insert(key, value)[key] == value,
        before.insert(key, value).dom().contains(other) == before.dom().contains(other),
        before.dom().contains(other) ==> before.insert(key, value)[other] == before[other],
        before.insert(key, value).remove(key) =~= before,
{
}

} // verus!
