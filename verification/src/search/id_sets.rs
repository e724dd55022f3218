//! Sets of node ids (slot numbers) held in `BTreeSet<u32>`.

use vstd::prelude::*;
use std::collections::BTreeSet;
use vstd::std_specs::iter::IteratorSpec;

verus! {

broadcast use vstd::std_specs::btree::group_btree_axioms;

/// The members of a set, each once, in increasing order.
pub fn set_members(s: &BTreeSet<u32>) -> (r: Vec<u32>)
    ensures
        r@.to_set() == s@,
        r@.no_duplicates(),
{
    let mut out: Vec<u32> = Vec::new();
    let ghost keys = vstd::std_specs::btree::spec_btree_keys_iter(s).remaining();
    proof {
        vstd::std_specs::btree::axiom_spec_btree_keys_iter(s);
    }
    for x in it: s.iter()
        invariant
            it.seq() == keys,
            keys.unref().to_set() == s@,
            out@ == keys.take(it.index()).unref(),
    {
        out.push(*x);
        assert(out@ =~= keys.take(it.index() + 1).unref());
    }
    assert(keys.take(keys.len() as int) =~= keys);
    out
}

/// Whether `x` is in the set.
pub fn set_has(s: &BTreeSet<u32>, x: u32) -> (r: bool)
    ensures
        r == s@.contains(x),
{
    s.contains(&x)
}

/// The members of both sets.
pub fn set_intersect(a: &BTreeSet<u32>, b: &BTreeSet<u32>) -> (r: BTreeSet<u32>)
    ensures
        r@ == a@.intersect(b@),
{
    let xs = set_members(a);
    let mut out: BTreeSet<u32> = BTreeSet::new();
    let mut i: usize = 0;
    while i < xs.len()
        invariant
            i <= xs@.len(),
            xs@.to_set() == a@,
            out@ == xs@.subrange(0, i as int).to_set().intersect(b@),
        decreases xs@.len() - i,
    {
        let x = xs[i];
        if set_has(b, x) {
            out.insert(x);
        }
        assert(xs@.subrange(0, i + 1) =~= xs@.subrange(0, i as int).push(x));
        proof {
            xs@.subrange(0, i as int).lemma_push_to_set_commute(x);
        }
        assert(out@ =~= xs@.subrange(0, i + 1).to_set().intersect(b@));
        i = i + 1;
    }
    assert(xs@.subrange(0, xs@.len() as int) =~= xs@);
    out
}

/// Adds the members of `b` to `a`.
pub fn set_union_into(a: &mut BTreeSet<u32>, b: &BTreeSet<u32>)
    ensures
        final(a)@ == old(a)@.union(b@),
{
    let xs = set_members(b);
    let ghost a0 = a@;
    let mut i: usize = 0;
    while i < xs.len()
        invariant
            i <= xs@.len(),
            xs@.to_set() == b@,
            a@ == a0.union(xs@.subrange(0, i as int).to_set()),
        decreases xs@.len() - i,
    {
        let x = xs[i];
        a.insert(x);
        assert(xs@.subrange(0, i + 1) =~= xs@.subrange(0, i as int).push(x));
        proof {
            xs@.subrange(0, i as int).lemma_push_to_set_commute(x);
        }
        assert(a@ =~= a0.union(xs@.subrange(0, i + 1).to_set()));
        i = i + 1;
    }
    assert(xs@.subrange(0, xs@.len() as int) =~= xs@);
}

/// The members of `a` not in `b`.
pub fn set_difference(a: &BTreeSet<u32>, b: &BTreeSet<u32>) -> (r: BTreeSet<u32>)
    ensures
        r@ == a@.difference(b@),
{
    let xs = set_members(a);
    let mut out: BTreeSet<u32> = BTreeSet::new();
    let mut i: usize = 0;
    while i < xs.len()
        invariant
            i <= xs@.len(),
            xs@.to_set() == a@,
            out@ == xs@.subrange(0, i as int).to_set().difference(b@),
        decreases xs@.len() - i,
    {
        let x = xs[i];
        if !set_has(b, x) {
            out.insert(x);
        }
        assert(xs@.subrange(0, i + 1) =~= xs@.subrange(0, i as int).push(x));
        proof {
            xs@.subrange(0, i as int).lemma_push_to_set_commute(x);
        }
        assert(out@ =~= xs@.subrange(0, i + 1).to_set().difference(b@));
        i = i + 1;
    }
    assert(xs@.subrange(0, xs@.len() as int) =~= xs@);
    out
}

/// A copy of a set.
pub fn set_copy(a: &BTreeSet<u32>) -> (r: BTreeSet<u32>)
    ensures
        r@ == a@,
{
    let mut out: BTreeSet<u32> = BTreeSet::new();
    set_union_into(&mut out, a);
    assert(out@ =~= a@);
    out
}

} // verus!
