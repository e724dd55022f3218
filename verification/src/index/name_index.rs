//! The name index: each file name with the indices of the nodes that carry
//! it, names kept in increasing order and each held once.

use vstd::prelude::*;
use crate::storage::index_types::{SlabIndex, SortedSlabIndices};
use crate::strings::{chars_lt, chars_eq, chars_of, lemma_seq_lt_order, seq_lt, strictly_sorted};

verus! {

/// A name with the indices of the nodes that carry it.
pub struct NameEntry {
    pub name: String,
    pub indices: SortedSlabIndices,
}

/// The model of an entry: the name and the slot numbers.
pub open spec fn entry_view(e: NameEntry) -> (Seq<char>, Seq<u32>) {
    (e.name@, e.indices.items())
}

/// The names of entries, in order.
pub open spec fn pair_names(p: Seq<(Seq<char>, Seq<u32>)>) -> Seq<Seq<char>> {
    p.map_values(|e: (Seq<char>, Seq<u32>)| e.0)
}

/// The slot numbers listed for `name`, if the name is held.
pub open spec fn ids_for(p: Seq<(Seq<char>, Seq<u32>)>, name: Seq<char>) -> Option<Seq<u32>>
    decreases p.len(),
{
    if p.len() == 0 {
        None
    } else if p[0].0 == name {
        Some(p[0].1)
    } else {
        ids_for(p.drop_first(), name)
    }
}

/// File names mapped to the indices of the nodes that carry them.
pub struct NameIndex {
    entries: Vec<NameEntry>,
}

impl NameIndex {
    /// The entries, in name order.
    pub closed spec fn pairs(&self) -> Seq<(Seq<char>, Seq<u32>)> {
        self.entries@.map_values(|e: NameEntry| entry_view(e))
    }

    /// Names are held in increasing order, each once.
    pub open spec fn wf(&self) -> bool {
        strictly_sorted(pair_names(self.pairs()))
    }

    /// An empty index.
    pub fn new() -> (r: Self)
        ensures
            r.wf(),
            r.pairs() == Seq::<(Seq<char>, Seq<u32>)>::empty(),
    {
        let r = NameIndex { entries: Vec::new() };
        assert(r.pairs() =~= Seq::<(Seq<char>, Seq<u32>)>::empty());
        r
    }

    /// The number of names.
    pub fn len(&self) -> (r: usize)
        ensures
            r == self.pairs().len(),
    {
        self.entries.len()
    }

    /// The name of entry `k`.
    pub fn name_at(&self, k: usize) -> (r: &str)
        requires
            k < self.pairs().len(),
        ensures
            r@ == self.pairs()[k as int].0,
    {
        self.entries[k].name.as_str()
    }

    /// The indices of entry `k`.
    pub fn indices_at(&self, k: usize) -> (r: &SortedSlabIndices)
        requires
            k < self.pairs().len(),
        ensures
            r.items() == self.pairs()[k as int].1,
    {
        &self.entries[k].indices
    }

    /// Where `key` is held (`Ok`), or where it would go (`Err`): every name
    /// before that position is smaller and every name from it on larger.
    fn find(&self, key: &Vec<char>) -> (r: Result<usize, usize>)
        requires
            self.wf(),
        ensures
            match r {
                Ok(i) => i < self.pairs().len() && self.pairs()[i as int].0 == key@,
                Err(i) => i <= self.pairs().len()
                    && (forall|j: int| 0 <= j < i ==> seq_lt(#[trigger] self.pairs()[j].0, key@))
                    && (forall|j: int| i <= j < self.pairs().len() ==> seq_lt(key@, #[trigger] self.pairs()[j].0)),
            },
    {
        let ghost p = self.pairs();
        let mut lo: usize = 0;
        let mut hi: usize = self.entries.len();
        while lo < hi
            invariant
                self.wf(),
                p == self.pairs(),
                lo <= hi <= p.len(),
                hi == self.entries@.len() || hi < self.entries@.len(),
                p.len() == self.entries@.len(),
                forall|j: int| 0 <= j < lo ==> seq_lt(#[trigger] p[j].0, key@),
                forall|j: int| hi <= j < p.len() ==> seq_lt(key@, #[trigger] p[j].0),
            decreases hi - lo,
        {
            let mid = lo + (hi - lo) / 2;
            let name = chars_of(self.entries[mid].name.as_str());
            assert(p[mid as int].0 == name@);
            if chars_eq(&name, key) {
                return Ok(mid);
            }
            if chars_lt(&name, key) {
                proof {
                    assert forall|j: int| 0 <= j < mid + 1 implies seq_lt(#[trigger] p[j].0, key@) by {
                        if j < mid {
                            assert(pair_names(p)[j] == p[j].0);
                            assert(pair_names(p)[mid as int] == p[mid as int].0);
                            lemma_seq_lt_order(p[j].0, p[mid as int].0, key@);
                        }
                    }
                }
                lo = mid + 1;
            } else {
                proof {
                    lemma_seq_lt_order(key@, name@, key@);
                    assert(seq_lt(key@, name@));
                    assert forall|j: int| mid <= j < p.len() implies seq_lt(key@, #[trigger] p[j].0) by {
                        if j > mid {
                            assert(pair_names(p)[j] == p[j].0);
                            assert(pair_names(p)[mid as int] == p[mid as int].0);
                            lemma_seq_lt_order(key@, p[mid as int].0, p[j].0);
                        }
                    }
                }
                hi = mid;
            }
        }
        Err(lo)
    }

    /// The indices listed for a name.
    pub fn get(&self, name: &str) -> (r: Option<&SortedSlabIndices>)
        requires
            self.wf(),
        ensures
            match ids_for(self.pairs(), name@) {
                Some(ids) => r matches Some(x) && x.items() == ids,
                None => r is None,
            },
    {
        let key = chars_of(name);
        match self.find(&key) {
            Ok(i) => {
                proof {
                    self.lemma_unique(i as int, name@);
                }
                Some(&self.entries[i].indices)
            },
            Err(i) => {
                proof {
                    lemma_absent(self.pairs(), i as int, name@);
                }
                None
            },
        }
    }

    /// Whether a name is held.
    pub fn contains_key(&self, name: &str) -> (r: bool)
        requires
            self.wf(),
        ensures
            r == ids_for(self.pairs(), name@) is Some,
    {
        self.get(name).is_some()
    }

    /// The entry holding a name is the one `ids_for` reads.
    proof fn lemma_unique(&self, i: int, name: Seq<char>)
        requires
            self.wf(),
            0 <= i < self.pairs().len(),
            self.pairs()[i].0 == name,
        ensures
            ids_for(self.pairs(), name) == Some(self.pairs()[i].1),
    {
        lemma_ids_for_at(self.pairs(), i, name);
    }

    /// Appends an index to a name's list, adding the name when new (the
    /// caller visits nodes in path order).
    pub fn add_index_ordered(&mut self, name: &str, index: SlabIndex)
        requires
            old(self).wf(),
        ensures
            final(self).wf(),
            ids_for(final(self).pairs(), name@) == Some(match ids_for(old(self).pairs(), name@) {
                Some(ids) => ids.push(index.raw()),
                None => seq![index.raw()],
            }),
            forall|other: Seq<char>| other != name@ ==> ids_for(final(self).pairs(), other) == ids_for(old(self).pairs(), other),
    {
        let key = chars_of(name);
        let ghost p0 = self.pairs();
        match self.find(&key) {
            Ok(i) => {
                proof {
                    self.lemma_unique(i as int, name@);
                }
                let mut e = NameEntry { name: String::new(), indices: SortedSlabIndices::with_single(index) };
                std::mem::swap(&mut self.entries[i], &mut e);
                e.indices.push_ordered(index);
                std::mem::swap(&mut self.entries[i], &mut e);
                proof {
                    let p1 = self.pairs();
                    assert(p1 =~= p0.update(i as int, (name@, p0[i as int].1.push(index.raw()))));
                    assert(pair_names(p1) =~= pair_names(p0));
                    self.lemma_unique(i as int, name@);
                    assert forall|other: Seq<char>| other != name@ implies ids_for(p1, other) == ids_for(p0, other) by {
                        lemma_ids_for_same(p0, p1, other);
                    }
                }
            },
            Err(i) => {
                let e = NameEntry { name: name.to_owned(), indices: SortedSlabIndices::with_single(index) };
                self.entries.insert(i, e);
                proof {
                    let p1 = self.pairs();
                    assert(p1 =~= p0.insert(i as int, (name@, seq![index.raw()])));
                    assert forall|a: int, b: int| 0 <= a < b < pair_names(p1).len() implies seq_lt(#[trigger] pair_names(p1)[a], #[trigger] pair_names(p1)[b]) by {
                        assert(pair_names(p0)[0] == p0[0].0 || p0.len() == 0);
                        if a < i && b < i {
                            assert(pair_names(p0)[a] == p0[a].0);
                            assert(pair_names(p0)[b] == p0[b].0);
                        } else if a < i && b == i {
                        } else if a < i && b > i {
                            assert(pair_names(p0)[a] == p0[a].0);
                            assert(pair_names(p0)[b - 1] == p0[b - 1].0);
                        } else if a == i {
                        } else {
                            assert(pair_names(p0)[a - 1] == p0[a - 1].0);
                            assert(pair_names(p0)[b - 1] == p0[b - 1].0);
                        }
                    }
                    assert(self.wf());
                    self.lemma_unique(i as int, name@);
                    assert forall|other: Seq<char>| other != name@ implies ids_for(p1, other) == ids_for(p0, other) by {
                        lemma_ids_for_insert(p0, i as int, (name@, seq![index.raw()]), other);
                    }
                    lemma_absent(p0, i as int, name@);
                }
            },
        }
    }

    /// Inserts an index at position `pos` of a listed name's list.
    pub fn insert_index_at(&mut self, name: &str, pos: usize, index: SlabIndex)
        requires
            old(self).wf(),
            ids_for(old(self).pairs(), name@) matches Some(ids) && pos <= ids.len(),
        ensures
            final(self).wf(),
            ids_for(final(self).pairs(), name@) == Some(ids_for(old(self).pairs(), name@)->0.insert(pos as int, index.raw())),
            forall|other: Seq<char>| other != name@ ==> ids_for(final(self).pairs(), other) == ids_for(old(self).pairs(), other),
    {
        let key = chars_of(name);
        let ghost p0 = self.pairs();
        match self.find(&key) {
            Ok(i) => {
                proof {
                    self.lemma_unique(i as int, name@);
                }
                let mut e = NameEntry { name: String::new(), indices: SortedSlabIndices::with_single(index) };
                std::mem::swap(&mut self.entries[i], &mut e);
                e.indices.insert_at(pos, index);
                std::mem::swap(&mut self.entries[i], &mut e);
                proof {
                    let p1 = self.pairs();
                    assert(p1 =~= p0.update(i as int, (name@, p0[i as int].1.insert(pos as int, index.raw()))));
                    assert(pair_names(p1) =~= pair_names(p0));
                    self.lemma_unique(i as int, name@);
                    assert forall|other: Seq<char>| other != name@ implies ids_for(p1, other) == ids_for(p0, other) by {
                        lemma_ids_for_same(p0, p1, other);
                    }
                }
            },
            Err(i) => {
                proof {
                    lemma_absent(p0, i as int, name@);
                }
            },
        }
    }

    /// Removes an index from a name's list, dropping the name when its list
    /// becomes empty; true if the index was listed.
    pub fn remove_index(&mut self, name: &str, index: SlabIndex) -> (r: bool)
        requires
            old(self).wf(),
        ensures
            final(self).wf(),
            r == (ids_for(old(self).pairs(), name@) matches Some(ids) && ids.contains(index.raw())),
            forall|other: Seq<char>| other != name@ ==> ids_for(final(self).pairs(), other) == ids_for(old(self).pairs(), other),
            match ids_for(old(self).pairs(), name@) {
                None => ids_for(final(self).pairs(), name@) is None,
                Some(ids) => match ids_for(final(self).pairs(), name@) {
                    None => removed_first(ids, index.raw()).len() == 0,
                    Some(rest) => rest == removed_first(ids, index.raw()) && rest.len() > 0,
                },
            },
    {
        let key = chars_of(name);
        let ghost p0 = self.pairs();
        match self.find(&key) {
            Err(i) => {
                proof {
                    lemma_absent(p0, i as int, name@);
                }
                false
            },
            Ok(i) => {
                proof {
                    self.lemma_unique(i as int, name@);
                }
                let mut e = NameEntry { name: String::new(), indices: SortedSlabIndices::with_single(index) };
                std::mem::swap(&mut self.entries[i], &mut e);
                let removed = e.indices.remove(index);
                let ghost rest = e.indices.items();
                proof {
                    lemma_removed_first(p0[i as int].1, index.raw());
                    if removed {
                        let k = choose|k: int| 0 <= k < p0[i as int].1.len() && p0[i as int].1[k] == index.raw()
                            && rest == p0[i as int].1.remove(k)
                            && forall|j: int| 0 <= j < k ==> p0[i as int].1[j] != index.raw();
                        lemma_removed_first_at(p0[i as int].1, index.raw(), k);
                    }
                }
                if e.indices.is_empty() {
                    self.entries.remove(i);
                    proof {
                        let p1 = self.pairs();
                        assert(p1 =~= p0.remove(i as int));
                        assert forall|a: int, b: int| 0 <= a < b < pair_names(p1).len() implies seq_lt(#[trigger] pair_names(p1)[a], #[trigger] pair_names(p1)[b]) by {
                            let a0 = if a < i { a } else { a + 1 };
                            let b0 = if b < i { b } else { b + 1 };
                            assert(pair_names(p0)[a0] == p0[a0].0);
                            assert(pair_names(p0)[b0] == p0[b0].0);
                        }
                        assert forall|other: Seq<char>| other != name@ implies ids_for(p1, other) == ids_for(p0, other) by {
                            lemma_ids_for_remove(p0, i as int, other);
                        }
                        assert forall|k: int| 0 <= k < p1.len() implies p1[k].0 != name@ by {
                            let k0 = if k < i { k } else { k + 1 };
                            assert(pair_names(p0)[k0] == p0[k0].0);
                            assert(pair_names(p0)[i as int] == p0[i as int].0);
                            lemma_seq_lt_order(name@, name@, name@);
                            if k0 < i {
                                assert(seq_lt(pair_names(p0)[k0], pair_names(p0)[i as int]));
                            } else {
                                assert(seq_lt(pair_names(p0)[i as int], pair_names(p0)[k0]));
                            }
                        }
                        lemma_ids_for_none(p1, name@);
                    }
                } else {
                    std::mem::swap(&mut self.entries[i], &mut e);
                    proof {
                        let p1 = self.pairs();
                        assert(p1 =~= p0.update(i as int, (name@, rest)));
                        assert(pair_names(p1) =~= pair_names(p0));
                        self.lemma_unique(i as int, name@);
                        assert forall|other: Seq<char>| other != name@ implies ids_for(p1, other) == ids_for(p0, other) by {
                            lemma_ids_for_same(p0, p1, other);
                        }
                    }
                }
                removed
            },
        }
    }
}

/// `s` without the first occurrence of `x` (unchanged when absent).
pub open spec fn removed_first(s: Seq<u32>, x: u32) -> Seq<u32>
    decreases s.len(),
{
    if s.len() == 0 {
        s
    } else if s[0] == x {
        s.drop_first()
    } else {
        seq![s[0]] + removed_first(s.drop_first(), x)
    }
}

/// Without `x`, removing it changes nothing.
pub proof fn lemma_removed_first(s: Seq<u32>, x: u32)
    ensures
        !s.contains(x) ==> removed_first(s, x) == s,
    decreases s.len(),
{
    if s.len() > 0 {
        lemma_removed_first(s.drop_first(), x);
        if !s.contains(x) {
            assert(!s.drop_first().contains(x)) by {
                if s.drop_first().contains(x) {
                    let j = choose|j: int| 0 <= j < s.drop_first().len() && s.drop_first()[j] == x;
                    assert(s[j + 1] == x);
                }
            }
            assert(seq![s[0]] + s.drop_first() =~= s);
        }
    }
}

/// Removing the first occurrence at `k` is removing position `k`.
pub proof fn lemma_removed_first_at(s: Seq<u32>, x: u32, k: int)
    requires
        0 <= k < s.len(),
        s[k] == x,
        forall|j: int| 0 <= j < k ==> s[j] != x,
    ensures
        removed_first(s, x) == s.remove(k),
    decreases s.len(),
{
    if k == 0 {
        assert(s.drop_first() =~= s.remove(0));
    } else {
        lemma_removed_first_at(s.drop_first(), x, k - 1);
        assert(seq![s[0]] + s.drop_first().remove(k - 1) =~= s.remove(k));
    }
}

/// In entries with names in increasing order, the entry holding a name is
/// the one `ids_for` reads.
pub proof fn lemma_ids_for_at(p: Seq<(Seq<char>, Seq<u32>)>, i: int, name: Seq<char>)
    requires
        strictly_sorted(pair_names(p)),
        0 <= i < p.len(),
        p[i].0 == name,
    ensures
        ids_for(p, name) == Some(p[i].1),
    decreases i,
{
    if i > 0 {
        assert(pair_names(p)[0] == p[0].0);
        assert(pair_names(p)[i] == p[i].0);
        assert(seq_lt(pair_names(p)[0], pair_names(p)[i]));
        lemma_seq_lt_order(name, name, name);
        lemma_sorted_tail(p);
        lemma_ids_for_at(p.drop_first(), i - 1, name);
    }
}

/// A name held nowhere reads as none.
pub proof fn lemma_ids_for_none(p: Seq<(Seq<char>, Seq<u32>)>, name: Seq<char>)
    requires
        forall|k: int| 0 <= k < p.len() ==> p[k].0 != name,
    ensures
        ids_for(p, name) is None,
    decreases p.len(),
{
    if p.len() > 0 {
        assert(p[0].0 != name);
        assert forall|k: int| 0 <= k < p.drop_first().len() implies p.drop_first()[k].0 != name by {
            assert(p.drop_first()[k] == p[k + 1]);
        }
        lemma_ids_for_none(p.drop_first(), name);
    }
}

/// A name that every name before `i` is below and every name from `i` on
/// is above is not held.
proof fn lemma_absent(p: Seq<(Seq<char>, Seq<u32>)>, i: int, name: Seq<char>)
    requires
        0 <= i <= p.len(),
        forall|j: int| 0 <= j < i ==> seq_lt(#[trigger] p[j].0, name),
        forall|j: int| i <= j < p.len() ==> seq_lt(name, #[trigger] p[j].0),
    ensures
        ids_for(p, name) is None,
{
    assert forall|k: int| 0 <= k < p.len() implies p[k].0 != name by {
        lemma_seq_lt_order(name, name, name);
        if k < i {
            assert(seq_lt(p[k].0, name));
        } else {
            assert(seq_lt(name, p[k].0));
        }
    }
    lemma_ids_for_none(p, name);
}

/// The entries after the first keep their names in order.
proof fn lemma_sorted_tail(p: Seq<(Seq<char>, Seq<u32>)>)
    requires
        strictly_sorted(pair_names(p)),
        p.len() > 0,
    ensures
        strictly_sorted(pair_names(p.drop_first())),
{
    assert forall|a: int, b: int| 0 <= a < b < pair_names(p.drop_first()).len() implies seq_lt(#[trigger] pair_names(p.drop_first())[a], #[trigger] pair_names(p.drop_first())[b]) by {
        assert(pair_names(p)[a + 1] == p[a + 1].0);
        assert(pair_names(p)[b + 1] == p[b + 1].0);
    }
}

/// Entries with the same names at the same places, changed only where the
/// name is not `other`, read the same for `other`.
proof fn lemma_ids_for_same(p0: Seq<(Seq<char>, Seq<u32>)>, p1: Seq<(Seq<char>, Seq<u32>)>, other: Seq<char>)
    requires
        strictly_sorted(pair_names(p0)),
        strictly_sorted(pair_names(p1)),
        p0.len() == p1.len(),
        forall|k: int| 0 <= k < p0.len() ==> p0[k].0 == p1[k].0,
        forall|k: int| 0 <= k < p0.len() && p0[k].0 == other ==> p0[k].1 == p1[k].1,
    ensures
        ids_for(p1, other) == ids_for(p0, other),
{
    if exists|k: int| 0 <= k < p0.len() && p0[k].0 == other {
        let k = choose|k: int| 0 <= k < p0.len() && p0[k].0 == other;
        lemma_ids_for_at(p0, k, other);
        lemma_ids_for_at(p1, k, other);
    } else {
        lemma_ids_for_none(p0, other);
        assert forall|k: int| 0 <= k < p1.len() implies p1[k].0 != other by {
            assert(p0[k].0 == p1[k].0);
        }
        lemma_ids_for_none(p1, other);
    }
}

/// Inserting an entry for another name leaves `other`'s reading alone.
proof fn lemma_ids_for_insert(p0: Seq<(Seq<char>, Seq<u32>)>, i: int, e: (Seq<char>, Seq<u32>), other: Seq<char>)
    requires
        0 <= i <= p0.len(),
        e.0 != other,
        strictly_sorted(pair_names(p0)),
        strictly_sorted(pair_names(p0.insert(i, e))),
    ensures
        ids_for(p0.insert(i, e), other) == ids_for(p0, other),
{
    let p1 = p0.insert(i, e);
    if exists|k: int| 0 <= k < p0.len() && p0[k].0 == other {
        let k = choose|k: int| 0 <= k < p0.len() && p0[k].0 == other;
        let k1 = if k < i { k } else { k + 1 };
        assert(p1[k1] == p0[k]);
        lemma_ids_for_at(p0, k, other);
        lemma_ids_for_at(p1, k1, other);
    } else {
        lemma_ids_for_none(p0, other);
        assert forall|c: int| 0 <= c < p1.len() implies p1[c].0 != other by {
            if c != i {
                let c0 = if c < i { c } else { c - 1 };
                assert(p1[c] == p0[c0]);
            }
        }
        lemma_ids_for_none(p1, other);
    }
}

/// Removing another name's entry leaves `other`'s reading alone.
proof fn lemma_ids_for_remove(p0: Seq<(Seq<char>, Seq<u32>)>, i: int, other: Seq<char>)
    requires
        0 <= i < p0.len(),
        p0[i].0 != other,
        strictly_sorted(pair_names(p0)),
    ensures
        ids_for(p0.remove(i), other) == ids_for(p0, other),
{
    let p1 = p0.remove(i);
    assert(p0 =~= p1.insert(i, p0[i]));
    assert(strictly_sorted(pair_names(p1))) by {
        assert forall|a: int, b: int| 0 <= a < b < pair_names(p1).len() implies seq_lt(#[trigger] pair_names(p1)[a], #[trigger] pair_names(p1)[b]) by {
            let a0 = if a < i { a } else { a + 1 };
            let b0 = if b < i { b } else { b + 1 };
            assert(pair_names(p0)[a0] == p0[a0].0);
            assert(pair_names(p0)[b0] == p0[b0].0);
        }
    }
    lemma_ids_for_insert(p1, i, p0[i], other);
}

} // verus!
