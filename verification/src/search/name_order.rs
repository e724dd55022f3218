//! Ordering of matches by name, ties kept in the order they were found.

use vstd::prelude::*;
use std::cmp::Ordering;
use crate::strings::{chars_eq, chars_lt, chars_of, lemma_seq_lt_order, seq_lt};

verus! {

/// The key of a match: its name and its position in the list of matches.
pub open spec fn key_view(e: (String, usize)) -> (Seq<char>, int) {
    (e.0@, e.1 as int)
}

/// The keys of a list.
pub open spec fn keys_view(v: Seq<(String, usize)>) -> Seq<(Seq<char>, int)> {
    v.map_values(|e: (String, usize)| key_view(e))
}

/// Name order, then position order.
pub open spec fn key_lt(a: (Seq<char>, int), b: (Seq<char>, int)) -> bool {
    seq_lt(a.0, b.0) || (a.0 == b.0 && a.1 < b.1)
}

/// Compares two keys by name, then by position.
pub fn compare_keys(a: &(String, usize), b: &(String, usize)) -> (r: Ordering)
    ensures
        (r == Ordering::Less) == key_lt(key_view(*a), key_view(*b)),
        (r == Ordering::Greater) == key_lt(key_view(*b), key_view(*a)),
        (r == Ordering::Equal) == (key_view(*a) == key_view(*b)),
{
    let x = chars_of(a.0.as_str());
    let y = chars_of(b.0.as_str());
    proof {
        lemma_seq_lt_order(x@, y@, x@);
        lemma_seq_lt_order(y@, x@, y@);
    }
    if chars_eq(&x, &y) {
        if a.1 < b.1 {
            Ordering::Less
        } else if a.1 > b.1 {
            Ordering::Greater
        } else {
            Ordering::Equal
        }
    } else if chars_lt(&x, &y) {
        Ordering::Less
    } else {
        Ordering::Greater
    }
}

/// `slice::sort_by` with `compare_keys`: the same keys afterwards, in
/// nondecreasing key order (the order `compare_keys` gives is total).
#[verifier::external_body]
pub(crate) fn sort_keys(v: &mut Vec<(String, usize)>)
    ensures
        keys_view(final(v)@).to_multiset() == keys_view(old(v)@).to_multiset(),
        forall|i: int, j: int| 0 <= i < j < final(v)@.len() ==> !key_lt(key_view(final(v)@[j]), key_view(final(v)@[i])),
{
    v.sort_by(|a, b| compare_keys(a, b))
}

} // verus!
