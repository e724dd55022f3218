//! Query evaluation over an index.
//!
//! Every step works on sets of node ids (slot numbers). Long walks check
//! for cancellation as they go; a no-op token is never cancelled, and
//! with it every function below computes exactly the set its contract
//! names.

use vstd::prelude::*;
use std::collections::BTreeSet;
use crate::cancel::CancellationToken;
use crate::index::data::RootIndexData;
use crate::index::node_view::hidden_name;
use crate::search::id_sets::{set_has, set_intersect};
use crate::storage::index_types::SlabIndex;
use crate::storage::node::SlabNode;
use crate::strings::{chars_of, contains_chars, contains_seq, lower_chars, lower_seq, str_views};

verus! {

broadcast use vstd::std_specs::btree::group_btree_axioms;

/// `haystack` contains `needle`, ignoring ASCII case.
pub open spec fn contains_ci(haystack: Seq<char>, needle: Seq<char>) -> bool {
    contains_seq(lower_seq(haystack), lower_seq(needle))
}

/// Whether `haystack` contains `needle`, ignoring ASCII case. (On UTF-8
/// text a byte-wise match is a match of whole characters, so this is the
/// byte-window comparison of the bytes.)
pub fn contains_ascii_case_insensitive(haystack: &str, needle: &str) -> (r: bool)
    ensures
        r == contains_ci(haystack@, needle@),
{
    let h = lower_chars(&chars_of(haystack));
    let n = lower_chars(&chars_of(needle));
    contains_chars(&h, &n)
}

/// A name matches a required term: by containment, ignoring ASCII case
/// unless matching is case sensitive.
pub open spec fn name_has_term(name: Seq<char>, term: Seq<char>, case_sensitive: bool) -> bool {
    if case_sensitive {
        contains_seq(name, term)
    } else {
        contains_ci(name, term)
    }
}

/// The ids listed in the name index under names that match `term`.
pub open spec fn term_hits(pairs: Seq<(Seq<char>, Seq<u32>)>, term: Seq<char>, case_sensitive: bool) -> Set<u32> {
    Set::new(|x: u32| exists|k: int| 0 <= k < pairs.len() && name_has_term(pairs[k].0, term, case_sensitive)
        && #[trigger] pairs[k].1.contains(x))
}

/// The ids matching every one of `terms` (at least one term).
pub open spec fn all_term_hits(pairs: Seq<(Seq<char>, Seq<u32>)>, terms: Seq<Seq<char>>, case_sensitive: bool) -> Set<u32>
    decreases terms.len(),
{
    if terms.len() <= 1 {
        term_hits(pairs, terms[0], case_sensitive)
    } else {
        all_term_hits(pairs, terms.drop_last(), case_sensitive).intersect(term_hits(pairs, terms.last(), case_sensitive))
    }
}

/// The ids listed under the names that match one term; `None` when
/// cancelled.
fn term_hit_set(data: &RootIndexData, term: &str, case_sensitive: bool, cancel: CancellationToken) -> (r: Option<BTreeSet<u32>>)
    requires
        data.wf(),
    ensures
        r matches Some(s) ==> s@ == term_hits(data.name_index.pairs(), term@, case_sensitive),
        cancel.is_noop() ==> r is Some,
{
    let ghost pairs = data.name_index.pairs();
    let mut out: BTreeSet<u32> = BTreeSet::new();
    let n = data.name_index.len();
    let term_chars = chars_of(term);
    let lower_term = lower_chars(&term_chars);
    let mut k: usize = 0;
    while k < n
        invariant
            data.wf(),
            pairs == data.name_index.pairs(),
            n == pairs.len(),
            k <= n,
            term_chars@ == term@,
            lower_term@ == lower_seq(term@),
            out@ == Set::new(|x: u32| exists|j: int| 0 <= j < k && name_has_term(pairs[j].0, term@, case_sensitive)
                && #[trigger] pairs[j].1.contains(x)),
        decreases n - k,
    {
        if cancel.is_cancelled_sparse(k).is_none() {
            return None;
        }
        let name = data.name_index.name_at(k);
        let name_chars = chars_of(name);
        let hit = if case_sensitive {
            contains_chars(&name_chars, &term_chars)
        } else {
            contains_chars(&lower_chars(&name_chars), &lower_term)
        };
        let ghost before = out@;
        if hit {
            let ids = data.name_index.indices_at(k);
            let len = ids.len();
            let mut i: usize = 0;
            while i < len
                invariant
                    len == ids.items().len(),
                    ids.items() == pairs[k as int].1,
                    i <= len,
                    out@ == before.union(ids.items().subrange(0, i as int).to_set()),
                decreases len - i,
            {
                let id = ids.get(i);
                let raw = id.get();
                out.insert(raw as u32);
                proof {
                    assert(ids.items().subrange(0, i + 1) =~= ids.items().subrange(0, i as int).push(raw as u32));
                    ids.items().subrange(0, i as int).lemma_push_to_set_commute(raw as u32);
                    assert(out@ =~= before.union(ids.items().subrange(0, i + 1).to_set()));
                }
                i = i + 1;
            }
            proof {
                assert(ids.items().subrange(0, len as int) =~= ids.items());
            }
        }
        proof {
            assert(hit == name_has_term(pairs[k as int].0, term@, case_sensitive));
            assert(out@ =~= Set::new(|x: u32| exists|j: int| 0 <= j < k + 1 && name_has_term(pairs[j].0, term@, case_sensitive)
                && #[trigger] pairs[j].1.contains(x))) by {
                assert forall|x: u32| out@.contains(x) implies exists|j: int| 0 <= j < k + 1
                    && name_has_term(pairs[j].0, term@, case_sensitive) && #[trigger] pairs[j].1.contains(x) by {
                    if !before.contains(x) {
                        assert(pairs[k as int].1.contains(x));
                    }
                }
                assert forall|x: u32| (exists|j: int| 0 <= j < k + 1 && name_has_term(pairs[j].0, term@, case_sensitive)
                    && #[trigger] pairs[j].1.contains(x)) implies out@.contains(x) by {
                    let j = choose|j: int| 0 <= j < k + 1 && name_has_term(pairs[j].0, term@, case_sensitive)
                        && #[trigger] pairs[j].1.contains(x);
                    if j < k {
                        assert(before.contains(x));
                    }
                }
            }
        }
        k = k + 1;
    }
    proof {
        assert(out@ =~= term_hits(pairs, term@, case_sensitive));
    }
    Some(out)
}

/// The ids whose names contain every required term: none when there are
/// no terms. A cancelled search yields a subset of those ids (possibly
/// none); with the no-op token, exactly those ids.
pub fn candidate_node_ids_for_terms(
    data: &RootIndexData,
    required_terms: &Vec<String>,
    case_sensitive: bool,
    cancel: CancellationToken,
) -> (r: Option<BTreeSet<u32>>)
    requires
        data.wf(),
    ensures
        r is None <==> required_terms@.len() == 0,
        r matches Some(s) ==> s@.subset_of(all_term_hits(data.name_index.pairs(), str_views(required_terms@), case_sensitive)),
        cancel.is_noop() ==> (r matches Some(s) ==> s@ == all_term_hits(data.name_index.pairs(), str_views(required_terms@), case_sensitive)),
{
    if required_terms.len() == 0 {
        return None;
    }
    let ghost pairs = data.name_index.pairs();
    let ghost terms = str_views(required_terms@);
    let mut acc: BTreeSet<u32> = BTreeSet::new();
    let mut i: usize = 0;
    while i < required_terms.len()
        invariant
            data.wf(),
            pairs == data.name_index.pairs(),
            terms == str_views(required_terms@),
            0 < required_terms@.len(),
            i <= required_terms@.len(),
            i > 0 ==> acc@ == all_term_hits(pairs, terms.subrange(0, i as int), case_sensitive),
        decreases required_terms@.len() - i,
    {
        let hits = match term_hit_set(data, required_terms[i].as_str(), case_sensitive, cancel) {
            Some(h) => h,
            None => {
                let empty: BTreeSet<u32> = BTreeSet::new();
                assert(empty@ =~= Set::<u32>::empty());
                return Some(empty);
            },
        };
        if hits.is_empty() {
            proof {
                assert(hits@.len() == 0);
                assert(hits@ =~= Set::<u32>::empty());
                lemma_hits_empty(pairs, terms, i as int, case_sensitive);
            }
            return Some(hits);
        }
        let ghost sub = terms.subrange(0, i + 1);
        proof {
            assert(sub.last() == required_terms@[i as int]@);
            assert(sub.drop_last() =~= terms.subrange(0, i as int));
        }
        if i == 0 {
            acc = hits;
        } else {
            acc = set_intersect(&acc, &hits);
        }
        i = i + 1;
    }
    assert(terms.subrange(0, required_terms@.len() as int) =~= terms);
    Some(acc)
}

/// When one term matches nothing, neither do all of them.
proof fn lemma_hits_empty(pairs: Seq<(Seq<char>, Seq<u32>)>, terms: Seq<Seq<char>>, i: int, case_sensitive: bool)
    requires
        0 <= i < terms.len(),
        term_hits(pairs, terms[i], case_sensitive) == Set::<u32>::empty(),
    ensures
        all_term_hits(pairs, terms, case_sensitive) == Set::<u32>::empty(),
    decreases terms.len(),
{
    if terms.len() > 1 {
        if i == terms.len() - 1 {
            assert(all_term_hits(pairs, terms, case_sensitive) =~= Set::<u32>::empty());
        } else {
            lemma_hits_empty(pairs, terms.drop_last(), i, case_sensitive);
            assert(all_term_hits(pairs, terms, case_sensitive) =~= Set::<u32>::empty());
        }
    }
}

/// Whether a prefilter keeps an id.
pub open spec fn kept_by(pf: Option<Set<u32>>, id: int) -> bool {
    match pf {
        None => true,
        Some(p) => p.contains(id as u32),
    }
}

/// The nodes a search visits below (and at) `id`, in preorder with
/// children in order: nodes deeper than `max_depth` or missing are skipped,
/// and unless `include_hidden`, so is every node below the search root
/// that is hidden or lies in a hidden directory; only the ids the
/// prefilter keeps are listed.
pub open spec fn visit(
    m: Map<int, SlabNode>,
    id: int,
    depth: int,
    hidden: bool,
    max_depth: int,
    include_hidden: bool,
    pf: Option<Set<u32>>,
) -> Seq<int>
    decreases max_depth - depth + 1, 0int,
{
    if depth > max_depth || !m.dom().contains(id) {
        Seq::empty()
    } else {
        let h = hidden || (depth > 0 && hidden_name(m[id]));
        if !include_hidden && h {
            Seq::empty()
        } else {
            (if kept_by(pf, id) { seq![id] } else { Seq::empty() }) + (if depth == max_depth {
                Seq::empty()
            } else {
                visit_kids(m, m[id].children_view(), depth + 1, h, max_depth, include_hidden, pf)
            })
        }
    }
}

/// The visits of a list of children, in order.
pub open spec fn visit_kids(
    m: Map<int, SlabNode>,
    kids: Seq<u32>,
    depth: int,
    hidden: bool,
    max_depth: int,
    include_hidden: bool,
    pf: Option<Set<u32>>,
) -> Seq<int>
    decreases max_depth - depth + 1, kids.len(),
{
    if kids.len() == 0 {
        Seq::empty()
    } else {
        visit_kids(m, kids.drop_last(), depth, hidden, max_depth, include_hidden, pf)
            + visit(m, kids.last() as int, depth, hidden, max_depth, include_hidden, pf)
    }
}

/// The optional set's model.
pub open spec fn opt_set(o: Option<BTreeSet<u32>>) -> Option<Set<u32>> {
    match o {
        None => None,
        Some(s) => Some(s@),
    }
}

/// Appends the visit of `id` to `out`; false when cancelled.
pub(crate) fn walk_subtree(
    data: &RootIndexData,
    id: SlabIndex,
    depth: usize,
    hidden: bool,
    max_depth: usize,
    include_hidden: bool,
    prefilter: &Option<BTreeSet<u32>>,
    out: &mut Vec<SlabIndex>,
    counter: &mut usize,
    cancel: CancellationToken,
) -> (ok: bool)
    requires
        data.wf(),
        depth <= max_depth,
    ensures
        ok ==> crate::index::file_nodes::ids_of(final(out)@) == crate::index::file_nodes::ids_of(old(out)@)
            + visit(data.nodes(), id.raw() as int, depth as int, hidden, max_depth as int, include_hidden, opt_set(*prefilter)),
        cancel.is_noop() ==> ok,
    decreases max_depth - depth,
{
    let ghost m = data.nodes();
    let ghost pf = opt_set(*prefilter);
    if cancel.is_cancelled_sparse(*counter).is_none() {
        return false;
    }
    if *counter < usize::MAX {
        *counter = *counter + 1;
    }
    let ghost start = crate::index::file_nodes::ids_of(out@);
    let node = match data.get_node(id) {
        None => {
            assert(start + Seq::<int>::empty() =~= start);
            return true;
        },
        Some(n) => n,
    };
    let h = hidden || (depth > 0 && node.is_hidden());
    if !include_hidden && h {
        assert(start + Seq::<int>::empty() =~= start);
        return true;
    }
    let keep = match prefilter {
        None => true,
        Some(p) => set_has(p, id.get() as u32),
    };
    if keep {
        out.push(id);
    }
    let ghost mid = crate::index::file_nodes::ids_of(out@);
    proof {
        assert(keep == kept_by(pf, id.raw() as int));
        assert(mid =~= start + (if kept_by(pf, id.raw() as int) { seq![id.raw() as int] } else { Seq::<int>::empty() }));
    }
    if depth == max_depth {
        assert(mid + Seq::<int>::empty() =~= mid);
        return true;
    }
    let ghost kids = node.children_view();
    let n = crate::storage::index_types::thin_len(&node.children);
    let mut i: usize = 0;
    while i < n
        invariant
            data.wf(),
            m == data.nodes(),
            pf == opt_set(*prefilter),
            depth < max_depth,
            kids == node.children_view(),
            n == kids.len(),
            i <= n,
            crate::index::file_nodes::ids_of(out@) == mid + visit_kids(m, kids.subrange(0, i as int), depth + 1, h, max_depth as int, include_hidden, pf),
        decreases n - i,
    {
        let c = crate::storage::index_types::thin_get(&node.children, i);
        let ghost sub = kids.subrange(0, i + 1);
        proof {
            assert(sub.drop_last() =~= kids.subrange(0, i as int));
            assert(sub.last() == c.raw());
        }
        if !walk_subtree(data, c, depth + 1, h, max_depth, include_hidden, prefilter, out, counter, cancel) {
            return false;
        }
        proof {
            assert(crate::index::file_nodes::ids_of(out@) =~= mid + visit_kids(m, sub, depth + 1, h, max_depth as int, include_hidden, pf));
        }
        i = i + 1;
    }
    proof {
        assert(kids.subrange(0, n as int) =~= kids);
    }
    true
}

} // verus!
