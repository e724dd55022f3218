//! Compact slab indices.
//!
//! A `SlabIndex` is a 32-bit slot number below `u32::MAX`; `u32::MAX` is the
//! "none" sentinel of `OptionSlabIndex`. `SortedSlabIndices` keeps indices
//! in a `thin_vec::ThinVec`.

use vstd::prelude::*;

verus! {

/// A compact 32-bit index into the slab, never `u32::MAX`.
#[derive(Debug, Clone, Copy, PartialEq, Eq, Structural, Hash)]
pub struct SlabIndex(u32);

impl SlabIndex {
    #[verifier::type_invariant]
    spec fn below_sentinel(self) -> bool {
        self.0 != u32::MAX
    }

    /// The slot number.
    pub closed spec fn raw(self) -> u32 {
        self.0
    }

    /// Creates an index; the slot number must be below `u32::MAX`.
    pub fn new(index: usize) -> (r: Self)
        requires
            index < u32::MAX,
        ensures
            r.raw() == index,
    {
        SlabIndex(index as u32)
    }

    /// Returns the slot number.
    pub fn get(&self) -> (r: usize)
        ensures
            r == self.raw(),
            r < u32::MAX,
    {
        proof {
            use_type_invariant(self);
        }
        self.0 as usize
    }

    /// Indices are equal exactly when their slot numbers are.
    pub proof fn lemma_raw_injective(self, other: Self)
        ensures
            (self.raw() == other.raw()) == (self == other),
    {
    }
}

/// An optional slab index, `u32::MAX` standing for none.
#[derive(Debug, Clone, Copy, PartialEq, Eq, Structural)]
pub struct OptionSlabIndex(u32);

impl OptionSlabIndex {
    /// The optional index this stands for.
    pub closed spec fn as_option(self) -> Option<SlabIndex> {
        if self.0 == u32::MAX {
            None
        } else {
            Some(SlabIndex(self.0))
        }
    }

    /// Creates a none value.
    pub fn none() -> (r: Self)
        ensures
            r.as_option() is None,
    {
        OptionSlabIndex(u32::MAX)
    }

    /// Creates a some value.
    pub fn some(index: SlabIndex) -> (r: Self)
        ensures
            r.as_option() == Some(index),
    {
        proof {
            use_type_invariant(index);
        }
        OptionSlabIndex(index.0)
    }

    /// Creates from an optional index.
    pub fn from_option(index: Option<SlabIndex>) -> (r: Self)
        ensures
            r.as_option() == index,
    {
        match index {
            Some(i) => Self::some(i),
            None => Self::none(),
        }
    }

    /// Converts to an optional index.
    pub fn to_option(self) -> (r: Option<SlabIndex>)
        ensures
            r == self.as_option(),
    {
        if self.0 == u32::MAX {
            None
        } else {
            Some(SlabIndex(self.0))
        }
    }
}

impl Default for OptionSlabIndex {
    fn default() -> (r: Self)
        ensures
            r.as_option() is None,
    {
        Self::none()
    }
}

// ---------------------------------------------------------------------------
// ThinVec
// ---------------------------------------------------------------------------

/// `thin_vec::ThinVec`, a vector whose header lives on the heap.
#[verifier::external_type_specification]
#[verifier::external_body]
#[verifier::reject_recursive_types(T)]
pub struct ExThinVec<T>(thin_vec::ThinVec<T>);

/// The slot numbers a `ThinVec` of indices holds, in order.
pub uninterp spec fn thin_indices(v: thin_vec::ThinVec<SlabIndex>) -> Seq<u32>;

/// `ThinVec::new`: an empty vector.
#[verifier::external_body]
pub(crate) fn thin_new() -> (r: thin_vec::ThinVec<SlabIndex>)
    ensures
        thin_indices(r) == Seq::<u32>::empty(),
{
    thin_vec::ThinVec::new()
}

/// `ThinVec::len`: the number of items.
#[verifier::external_body]
pub(crate) fn thin_len(v: &thin_vec::ThinVec<SlabIndex>) -> (r: usize)
    ensures
        r == thin_indices(*v).len(),
{
    v.len()
}

/// Indexing a `ThinVec` (through its slice): the item at `i`.
#[verifier::external_body]
pub(crate) fn thin_get(v: &thin_vec::ThinVec<SlabIndex>, i: usize) -> (r: SlabIndex)
    requires
        i < thin_indices(*v).len(),
    ensures
        r.raw() == thin_indices(*v)[i as int],
{
    v[i]
}

/// `ThinVec::push`: appends an item.
#[verifier::external_body]
pub(crate) fn thin_push(v: &mut thin_vec::ThinVec<SlabIndex>, x: SlabIndex)
    ensures
        thin_indices(*final(v)) == thin_indices(*old(v)).push(x.raw()),
{
    v.push(x)
}

/// `ThinVec::insert`: puts an item at `i`, shifting the rest; it panics
/// past the end.
#[verifier::external_body]
pub(crate) fn thin_insert(v: &mut thin_vec::ThinVec<SlabIndex>, i: usize, x: SlabIndex)
    requires
        i <= thin_indices(*old(v)).len(),
    ensures
        thin_indices(*final(v)) == thin_indices(*old(v)).insert(i as int, x.raw()),
{
    v.insert(i, x)
}

/// `ThinVec::remove`: takes out the item at `i`, shifting the rest; it
/// panics past the end.
#[verifier::external_body]
pub(crate) fn thin_remove(v: &mut thin_vec::ThinVec<SlabIndex>, i: usize) -> (r: SlabIndex)
    requires
        i < thin_indices(*old(v)).len(),
    ensures
        r.raw() == thin_indices(*old(v))[i as int],
        thin_indices(*final(v)) == thin_indices(*old(v)).remove(i as int),
{
    v.remove(i)
}

/// The position of the first item equal to `x`.
pub(crate) fn thin_position(v: &thin_vec::ThinVec<SlabIndex>, x: SlabIndex) -> (r: Option<usize>)
    ensures
        match r {
            Some(i) => i < thin_indices(*v).len() && thin_indices(*v)[i as int] == x.raw()
                && forall|j: int| 0 <= j < i ==> thin_indices(*v)[j] != x.raw(),
            None => !thin_indices(*v).contains(x.raw()),
        },
{
    let n = thin_len(v);
    let mut i: usize = 0;
    while i < n
        invariant
            i <= n,
            n == thin_indices(*v).len(),
            forall|j: int| 0 <= j < i ==> thin_indices(*v)[j] != x.raw(),
        decreases n - i,
    {
        let y = thin_get(v, i);
        if y.get() == x.get() {
            return Some(i);
        }
        i = i + 1;
    }
    None
}

// ---------------------------------------------------------------------------
// SortedSlabIndices
// ---------------------------------------------------------------------------

/// The slot numbers of a sequence of indices.
pub open spec fn raws(v: Seq<SlabIndex>) -> Seq<u32> {
    v.map_values(|x: SlabIndex| x.raw())
}

/// A collection of slab indices kept in a `ThinVec`, in the order the
/// index builder gives them (sorted by path).
#[derive(Debug)]
pub struct SortedSlabIndices {
    indices: thin_vec::ThinVec<SlabIndex>,
}

impl SortedSlabIndices {
    /// The slot numbers held, in order.
    pub closed spec fn items(&self) -> Seq<u32> {
        thin_indices(self.indices)
    }

    /// Creates a collection with a single index.
    pub fn with_single(index: SlabIndex) -> (r: Self)
        ensures
            r.items() == seq![index.raw()],
    {
        let mut v = thin_new();
        thin_push(&mut v, index);
        assert(Seq::<u32>::empty().push(index.raw()) =~= seq![index.raw()]);
        SortedSlabIndices { indices: v }
    }

    /// Creates a collection holding `indices` in order.
    pub fn from_indices(indices: &Vec<SlabIndex>) -> (r: Self)
        ensures
            r.items() == indices@.map_values(|x: SlabIndex| x.raw()),
    {
        let mut v = thin_new();
        let mut i: usize = 0;
        while i < indices.len()
            invariant
                i <= indices.len(),
                thin_indices(v) == indices@.subrange(0, i as int).map_values(|x: SlabIndex| x.raw()),
            decreases indices.len() - i,
        {
            thin_push(&mut v, indices[i]);
            assert(thin_indices(v) =~= indices@.subrange(0, i + 1).map_values(|x: SlabIndex| x.raw()));
            i = i + 1;
        }
        assert(indices@.subrange(0, indices.len() as int) =~= indices@);
        SortedSlabIndices { indices: v }
    }

    /// The indices held, in order.
    pub fn to_vec(&self) -> (r: Vec<SlabIndex>)
        ensures
            raws(r@) == self.items(),
    {
        let n = thin_len(&self.indices);
        let mut r: Vec<SlabIndex> = Vec::new();
        let mut i: usize = 0;
        while i < n
            invariant
                i <= n,
                n == self.items().len(),
                raws(r@) == self.items().subrange(0, i as int),
            decreases n - i,
        {
            let x = thin_get(&self.indices, i);
            let ghost before = r@;
            r.push(x);
            assert(r@ == before.push(x));
            assert(raws(before).len() == i);
            assert forall|k: int| 0 <= k < i + 1 implies #[trigger] raws(r@)[k]
                == self.items().subrange(0, i + 1)[k] by {
                assert(raws(r@)[k] == r@[k].raw());
                if k < i {
                    assert(raws(before)[k] == before[k].raw());
                    assert(raws(before)[k] == self.items().subrange(0, i as int)[k]);
                }
            }
            assert(raws(r@) =~= self.items().subrange(0, i + 1));
            i = i + 1;
        }
        assert(self.items().subrange(0, n as int) =~= self.items());
        r
    }

    /// Returns the number of indices.
    pub fn len(&self) -> (r: usize)
        ensures
            r == self.items().len(),
    {
        thin_len(&self.indices)
    }

    /// Returns true if empty.
    pub fn is_empty(&self) -> (r: bool)
        ensures
            r == (self.items().len() == 0),
    {
        thin_len(&self.indices) == 0
    }

    /// The index at position `i`.
    pub fn get(&self, i: usize) -> (r: SlabIndex)
        requires
            i < self.items().len(),
        ensures
            r.raw() == self.items()[i as int],
    {
        thin_get(&self.indices, i)
    }

    /// Appends an index; the caller keeps the path order.
    pub fn push_ordered(&mut self, index: SlabIndex)
        ensures
            final(self).items() == old(self).items().push(index.raw()),
    {
        thin_push(&mut self.indices, index)
    }

    /// Inserts an index at position `pos`.
    pub fn insert_at(&mut self, pos: usize, index: SlabIndex)
        requires
            pos <= old(self).items().len(),
        ensures
            final(self).items() == old(self).items().insert(pos as int, index.raw()),
    {
        thin_insert(&mut self.indices, pos, index)
    }

    /// Removes the first occurrence of an index, returning true if it was
    /// present.
    pub fn remove(&mut self, index: SlabIndex) -> (r: bool)
        ensures
            r == old(self).items().contains(index.raw()),
            r ==> exists|i: int| 0 <= i < old(self).items().len() && old(self).items()[i] == index.raw()
                && final(self).items() == old(self).items().remove(i)
                && forall|j: int| 0 <= j < i ==> old(self).items()[j] != index.raw(),
            !r ==> final(self).items() == old(self).items(),
    {
        match thin_position(&self.indices, index) {
            Some(pos) => {
                thin_remove(&mut self.indices, pos);
                assert(self.items() == old(self).items().remove(pos as int));
                assert(0 <= pos < old(self).items().len() && old(self).items()[pos as int] == index.raw()
                    && self.items() == old(self).items().remove(pos as int)
                    && forall|j: int| 0 <= j < pos ==> old(self).items()[j] != index.raw());
                true
            },
            None => false,
        }
    }
}

} // verus!
