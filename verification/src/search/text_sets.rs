//! The nodes a path-like text query reaches: its first segment picks names
//! from the name index, each further segment steps to children (or to all
//! descendants after `**`).

use vstd::prelude::*;
use std::collections::BTreeSet;
use crate::cancel::CancellationToken;
use crate::index::data::RootIndexData;
use crate::index::file_nodes::subnodes_list;
use crate::query::text_match::{segment_accepts, segments_view, SpecSegment, TextQuerySegment, TextSegmentMatcher};
use crate::search::id_sets::set_members;
use crate::storage::node::SlabNode;
use crate::strings::{chars_of, lower_chars, lower_seq, string_of};

verus! {

broadcast use vstd::std_specs::btree::group_btree_axioms;

/// Whether a segment accepts a node name: a concrete segment matches the
/// name (lowered unless case sensitive), a star accepts any name.
pub open spec fn name_accepts(seg: SpecSegment, name: Seq<char>, case_sensitive: bool) -> bool {
    match seg {
        SpecSegment::Concrete { kind, value, wild } => segment_accepts(
            kind,
            value,
            wild,
            if case_sensitive { name } else { lower_seq(name) },
        ),
        _ => true,
    }
}

/// Every id listed in the name index.
pub open spec fn all_listed(pairs: Seq<(Seq<char>, Seq<u32>)>) -> Set<u32> {
    Set::new(|x: u32| exists|k: int| 0 <= k < pairs.len() && #[trigger] pairs[k].1.contains(x))
}

/// The ids listed under names the segment accepts.
pub open spec fn listed_matching(pairs: Seq<(Seq<char>, Seq<u32>)>, seg: SpecSegment, case_sensitive: bool) -> Set<u32> {
    Set::new(|x: u32| exists|k: int| 0 <= k < pairs.len() && name_accepts(seg, pairs[k].0, case_sensitive)
        && #[trigger] pairs[k].1.contains(x))
}

/// The present children of present parents whose names the segment accepts.
pub open spec fn child_step(m: Map<int, SlabNode>, parents: Set<u32>, seg: SpecSegment, case_sensitive: bool) -> Set<u32> {
    Set::new(|x: u32| exists|p: u32| #[trigger] parents.contains(p) && m.dom().contains(p as int)
        && m[p as int].children_view().contains(x) && m.dom().contains(x as int)
        && name_accepts(seg, m[x as int].name_view(), case_sensitive))
}

/// The present descendants of present parents whose names the segment
/// accepts.
pub open spec fn desc_step(m: Map<int, SlabNode>, count: nat, parents: Set<u32>, seg: SpecSegment, case_sensitive: bool) -> Set<u32> {
    Set::new(|x: u32| exists|p: u32| #[trigger] parents.contains(p) && m.dom().contains(p as int)
        && subnodes_list(m, m[p as int].children_view(), count).contains(x as int) && m.dom().contains(x as int)
        && name_accepts(seg, m[x as int].name_view(), case_sensitive))
}

/// The state after some segments: the nodes reached (none before the
/// first non-`**` segment), whether a `**` waits to be applied, and whether
/// a segment other than `**` was seen.
pub struct SegState {
    pub set: Option<Set<u32>>,
    pub pending: bool,
    pub saw_matcher: bool,
}

/// One segment applied to a state.
pub open spec fn seg_step(
    m: Map<int, SlabNode>,
    count: nat,
    pairs: Seq<(Seq<char>, Seq<u32>)>,
    case_sensitive: bool,
    st: SegState,
    seg: SpecSegment,
) -> SegState {
    match seg {
        SpecSegment::GlobStar => SegState { set: st.set, pending: true, saw_matcher: st.saw_matcher },
        _ => SegState {
            set: Some(match st.set {
                Some(s) => if st.pending {
                    desc_step(m, count, s, seg, case_sensitive)
                } else {
                    child_step(m, s, seg, case_sensitive)
                },
                None => match seg {
                    SpecSegment::Star => all_listed(pairs),
                    _ => listed_matching(pairs, seg, case_sensitive),
                },
            }),
            pending: false,
            saw_matcher: true,
        },
    }
}

/// The segments applied in order.
pub open spec fn seg_fold(
    m: Map<int, SlabNode>,
    count: nat,
    pairs: Seq<(Seq<char>, Seq<u32>)>,
    case_sensitive: bool,
    segs: Seq<SpecSegment>,
) -> SegState
    decreases segs.len(),
{
    if segs.len() == 0 {
        SegState { set: None, pending: false, saw_matcher: false }
    } else {
        seg_step(m, count, pairs, case_sensitive, seg_fold(m, count, pairs, case_sensitive, segs.drop_last()), segs.last())
    }
}

/// The nodes a segmented text query reaches: nothing for no segments; a
/// trailing `**` adds every descendant (or every listed id when nothing was
/// reached yet); only `**` segments reach every listed id.
pub open spec fn text_ids(
    m: Map<int, SlabNode>,
    count: nat,
    pairs: Seq<(Seq<char>, Seq<u32>)>,
    case_sensitive: bool,
    segs: Seq<SpecSegment>,
) -> Set<u32> {
    if segs.len() == 0 {
        Set::empty()
    } else {
        let st = seg_fold(m, count, pairs, case_sensitive, segs);
        if st.pending {
            match st.set {
                Some(s) => desc_step(m, count, s, SpecSegment::Star, case_sensitive),
                None => all_listed(pairs),
            }
        } else if st.saw_matcher {
            match st.set {
                Some(s) => s,
                None => Set::empty(),
            }
        } else {
            all_listed(pairs)
        }
    }
}

/// The segment a matcher stands for; a star without one.
pub open spec fn seg_of(m: Option<&TextSegmentMatcher>) -> SpecSegment {
    match m {
        Some(x) => SpecSegment::Concrete { kind: x.kind, value: x.value@, wild: x.has_wildcards },
        None => SpecSegment::Star,
    }
}

/// Whether a name passes a matcher (any name without one).
fn name_ok(matcher: Option<&TextSegmentMatcher>, name: &str, case_sensitive: bool) -> (r: bool)
    ensures
        r == name_accepts(seg_of(matcher), name@, case_sensitive),
{
    match matcher {
        None => true,
        Some(m) => {
            if case_sensitive {
                m.matches(name)
            } else {
                let lowered = string_of(&lower_chars(&chars_of(name)));
                m.matches(lowered.as_str())
            }
        },
    }
}

/// The ids listed under the names a matcher accepts (all ids without
/// one); `None` when cancelled.
fn listed_ids(data: &RootIndexData, matcher: Option<&TextSegmentMatcher>, case_sensitive: bool, cancel: CancellationToken) -> (r: Option<BTreeSet<u32>>)
    requires
        data.wf(),
    ensures
        r matches Some(s) ==> s@ == listed_matching(data.name_index.pairs(), seg_of(matcher), case_sensitive),
        cancel.is_noop() ==> r is Some,
{
    let ghost pairs = data.name_index.pairs();
    let ghost seg = seg_of(matcher);
    let mut out: BTreeSet<u32> = BTreeSet::new();
    let n = data.name_index.len();
    let mut k: usize = 0;
    while k < n
        invariant
            data.wf(),
            pairs == data.name_index.pairs(),
            seg == seg_of(matcher),
            n == pairs.len(),
            k <= n,
            out@ == Set::new(|x: u32| exists|j: int| 0 <= j < k && name_accepts(seg, pairs[j].0, case_sensitive)
                && #[trigger] pairs[j].1.contains(x)),
        decreases n - k,
    {
        if cancel.is_cancelled_sparse(k).is_none() {
            return None;
        }
        let hit = name_ok(matcher, data.name_index.name_at(k), case_sensitive);
        let ghost before = out@;
        if hit {
            let ids = data.name_index.indices_at(k);
            let len = ids.len();
            let mut i: usize = 0;
            while i < len
                invariant
                    len == ids.items().len(),
                    ids.items() == pairs[k as int].1,
                    i <= len,
                    out@ == before.union(ids.items().subrange(0, i as int).to_set()),
                decreases len - i,
            {
                let raw = ids.get(i).get();
                out.insert(raw as u32);
                proof {
                    assert(ids.items().subrange(0, i + 1) =~= ids.items().subrange(0, i as int).push(raw as u32));
                    ids.items().subrange(0, i as int).lemma_push_to_set_commute(raw as u32);
                    assert(out@ =~= before.union(ids.items().subrange(0, i + 1).to_set()));
                }
                i = i + 1;
            }
            proof {
                assert(ids.items().subrange(0, len as int) =~= ids.items());
            }
        }
        proof {
            assert(out@ =~= Set::new(|x: u32| exists|j: int| 0 <= j < k + 1 && name_accepts(seg, pairs[j].0, case_sensitive)
                && #[trigger] pairs[j].1.contains(x))) by {
                assert forall|x: u32| out@.contains(x) implies exists|j: int| 0 <= j < k + 1
                    && name_accepts(seg, pairs[j].0, case_sensitive) && #[trigger] pairs[j].1.contains(x) by {
                    if !before.contains(x) {
                        assert(pairs[k as int].1.contains(x));
                    }
                }
                assert forall|x: u32| (exists|j: int| 0 <= j < k + 1 && name_accepts(seg, pairs[j].0, case_sensitive)
                    && #[trigger] pairs[j].1.contains(x)) implies out@.contains(x) by {
                    let j = choose|j: int| 0 <= j < k + 1 && name_accepts(seg, pairs[j].0, case_sensitive)
                        && #[trigger] pairs[j].1.contains(x);
                    if j < k {
                        assert(before.contains(x));
                    }
                }
            }
        }
        k = k + 1;
    }
    proof {
        assert(out@ =~= listed_matching(pairs, seg, case_sensitive));
    }
    Some(out)
}

/// Every listed id; `None` when cancelled.
fn all_indexed_ids(data: &RootIndexData, cancel: CancellationToken) -> (r: Option<BTreeSet<u32>>)
    requires
        data.wf(),
    ensures
        r matches Some(s) ==> s@ == all_listed(data.name_index.pairs()),
        cancel.is_noop() ==> r is Some,
{
    let r = listed_ids(data, None, false, cancel);
    proof {
        if r is Some {
            assert(r->Some_0@ =~= all_listed(data.name_index.pairs()));
        }
    }
    r
}

/// The present children (or, with `deep`, descendants) of the present
/// parents whose names pass the matcher; `None` when cancelled.
fn step_ids(
    data: &RootIndexData,
    parents: &BTreeSet<u32>,
    matcher: Option<&TextSegmentMatcher>,
    deep: bool,
    case_sensitive: bool,
    cancel: CancellationToken,
) -> (r: Option<BTreeSet<u32>>)
    requires
        data.wf(),
    ensures
        r matches Some(s) ==> s@ == (if deep {
            desc_step(data.nodes(), data.file_nodes.count(), parents@, seg_of(matcher), case_sensitive)
        } else {
            child_step(data.nodes(), parents@, seg_of(matcher), case_sensitive)
        }),
        cancel.is_noop() ==> r is Some,
{
    let ghost m = data.nodes();
    let ghost count = data.file_nodes.count();
    let ghost seg = seg_of(matcher);
    let ps = set_members(parents);
    let mut out: BTreeSet<u32> = BTreeSet::new();
    let mut k: usize = 0;
    while k < ps.len()
        invariant
            data.wf(),
            m == data.nodes(),
            count == data.file_nodes.count(),
            seg == seg_of(matcher),
            ps@.to_set() == parents@,
            k <= ps@.len(),
            out@ == Set::new(|x: u32| exists|j: int| 0 <= j < k && #[trigger] reach(m, count, ps@[j], x, deep)
                && name_accepts(seg, m[x as int].name_view(), case_sensitive)),
        decreases ps@.len() - k,
    {
        if cancel.is_cancelled_sparse(k).is_none() {
            return None;
        }
        let p = ps[k];
        let ghost before = out@;
        match data.file_nodes.get_raw(p) {
            None => {
                proof {
                    assert(out@ =~= Set::new(|x: u32| exists|j: int| 0 <= j < k + 1 && #[trigger] reach(m, count, ps@[j], x, deep)
                        && name_accepts(seg, m[x as int].name_view(), case_sensitive))) by {
                        assert forall|x: u32| (exists|j: int| 0 <= j < k + 1 && #[trigger] reach(m, count, ps@[j], x, deep)
                            && name_accepts(seg, m[x as int].name_view(), case_sensitive)) implies out@.contains(x) by {
                            let j = choose|j: int| 0 <= j < k + 1 && #[trigger] reach(m, count, ps@[j], x, deep)
                                && name_accepts(seg, m[x as int].name_view(), case_sensitive);
                            assert(j < k);
                        }
                    }
                }
            },
            Some(node) => {
                let mut below: Vec<crate::storage::index_types::SlabIndex> = Vec::new();
                if deep {
                    data.file_nodes.push_subnodes(node, data.file_nodes.len(), &mut below);
                } else {
                    let n = crate::storage::index_types::thin_len(&node.children);
                    let mut i: usize = 0;
                    while i < n
                        invariant
                            n == node.children_view().len(),
                            i <= n,
                            below@.len() == i,
                            crate::index::file_nodes::ids_of(below@) == node.children_view().subrange(0, i as int).map_values(|c: u32| c as int),
                        decreases n - i,
                    {
                        let c = crate::storage::index_types::thin_get(&node.children, i);
                        let ghost prev = below@;
                        below.push(c);
                        proof {
                            assert forall|a: int| 0 <= a < i + 1 implies #[trigger] crate::index::file_nodes::ids_of(below@)[a]
                                == node.children_view().subrange(0, i + 1).map_values(|c: u32| c as int)[a] by {
                                if a < i {
                                    assert(below@[a] == prev[a]);
                                    assert(crate::index::file_nodes::ids_of(prev)[a] == node.children_view().subrange(0, i as int).map_values(|c: u32| c as int)[a]);
                                }
                            }
                            assert(crate::index::file_nodes::ids_of(below@) =~= node.children_view().subrange(0, i + 1).map_values(|c: u32| c as int));
                        }
                        i = i + 1;
                    }
                    proof {
                        assert(node.children_view().subrange(0, n as int) =~= node.children_view());
                    }
                }
                assert(crate::index::file_nodes::ids_of(below@) =~= Seq::<int>::empty() + crate::index::file_nodes::ids_of(below@));
                let ghost cands = crate::index::file_nodes::ids_of(below@);
                proof {
                    assert(cands == reach_list(m, count, p, deep));
                }
                let mut i: usize = 0;
                while i < below.len()
                    invariant
                        data.wf(),
                        m == data.nodes(),
                        seg == seg_of(matcher),
                        cands == crate::index::file_nodes::ids_of(below@),
                        i <= below@.len(),
                        out@ == before.union(Set::new(|x: u32| exists|a: int| 0 <= a < i && cands[a] == x as int
                            && m.dom().contains(x as int) && name_accepts(seg, m[x as int].name_view(), case_sensitive))),
                    decreases below@.len() - i,
                {
                    let c = below[i];
                    let ghost before_i = out@;
                    match data.get_node(c) {
                        Some(cn) => {
                            if name_ok(matcher, cn.name(), case_sensitive) {
                                let raw = c.get();
                                out.insert(raw as u32);
                            }
                        },
                        None => {},
                    }
                    proof {
                        assert(cands[i as int] == c.raw() as int);
                        assert(out@ =~= before.union(Set::new(|x: u32| exists|a: int| 0 <= a < i + 1 && cands[a] == x as int
                            && m.dom().contains(x as int) && name_accepts(seg, m[x as int].name_view(), case_sensitive)))) by {
                            assert forall|x: u32| #[trigger] out@.contains(x) implies before.union(Set::new(|x: u32| exists|a: int| 0 <= a < i + 1 && cands[a] == x as int
                                && m.dom().contains(x as int) && name_accepts(seg, m[x as int].name_view(), case_sensitive))).contains(x) by {
                                if !before_i.contains(x) {
                                    assert(x as int == c.raw() as int);
                                    assert(cands[i as int] == x as int);
                                }
                            }
                            assert forall|x: u32| before.union(Set::new(|x: u32| exists|a: int| 0 <= a < i + 1 && cands[a] == x as int
                                && m.dom().contains(x as int) && name_accepts(seg, m[x as int].name_view(), case_sensitive))).contains(x)
                                implies #[trigger] out@.contains(x) by {
                                if !before.contains(x) {
                                    let a = choose|a: int| 0 <= a < i + 1 && cands[a] == x as int
                                        && m.dom().contains(x as int) && name_accepts(seg, m[x as int].name_view(), case_sensitive);
                                    if a < i {
                                        assert(before_i.contains(x));
                                    } else {
                                        assert(x as int == c.raw() as int);
                                    }
                                }
                            }
                        }
                    }
                    i = i + 1;
                }
                proof {
                    assert(out@ =~= Set::new(|x: u32| exists|j: int| 0 <= j < k + 1 && #[trigger] reach(m, count, ps@[j], x, deep)
                        && name_accepts(seg, m[x as int].name_view(), case_sensitive))) by {
                        assert forall|x: u32| #[trigger] out@.contains(x) implies exists|j: int| 0 <= j < k + 1
                            && #[trigger] reach(m, count, ps@[j], x, deep) && name_accepts(seg, m[x as int].name_view(), case_sensitive) by {
                            if !before.contains(x) {
                                let a = choose|a: int| 0 <= a < below@.len() && cands[a] == x as int
                                    && m.dom().contains(x as int) && name_accepts(seg, m[x as int].name_view(), case_sensitive);
                                assert(reach_list(m, count, p, deep).contains(x as int));
                                assert(reach(m, count, ps@[k as int], x, deep));
                            }
                        }
                        assert forall|x: u32| (exists|j: int| 0 <= j < k + 1 && #[trigger] reach(m, count, ps@[j], x, deep)
                            && name_accepts(seg, m[x as int].name_view(), case_sensitive)) implies #[trigger] out@.contains(x) by {
                            let j = choose|j: int| 0 <= j < k + 1 && #[trigger] reach(m, count, ps@[j], x, deep)
                                && name_accepts(seg, m[x as int].name_view(), case_sensitive);
                            if j == k {
                                assert(reach_list(m, count, p, deep).contains(x as int));
                                let a = choose|a: int| 0 <= a < cands.len() && cands[a] == x as int;
                                assert(0 <= a < below@.len());
                            } else {
                                assert(before.contains(x));
                            }
                        }
                    }
                }
            },
        }
        k = k + 1;
    }
    proof {
        let goal = if deep {
            desc_step(m, count, parents@, seg, case_sensitive)
        } else {
            child_step(m, parents@, seg, case_sensitive)
        };
        assert(out@ =~= goal) by {
            assert forall|x: u32| #[trigger] out@.contains(x) implies goal.contains(x) by {
                let j = choose|j: int| 0 <= j < ps@.len() && #[trigger] reach(m, count, ps@[j], x, deep)
                    && name_accepts(seg, m[x as int].name_view(), case_sensitive);
                assert(parents@.contains(ps@[j]));
            }
            assert forall|x: u32| goal.contains(x) implies #[trigger] out@.contains(x) by {
                let p = choose|p: u32| #[trigger] parents@.contains(p) && m.dom().contains(p as int)
                    && (if deep {
                        subnodes_list(m, m[p as int].children_view(), count).contains(x as int)
                    } else {
                        m[p as int].children_view().contains(x)
                    }) && m.dom().contains(x as int)
                    && name_accepts(seg, m[x as int].name_view(), case_sensitive);
                assert(ps@.to_set().contains(p));
                let j = choose|j: int| 0 <= j < ps@.len() && ps@[j] == p;
                if !deep {
                    let kids = m[p as int].children_view();
                    let i = choose|i: int| 0 <= i < kids.len() && kids[i] == x;
                    assert(kids.map_values(|c: u32| c as int)[i] == x as int);
                }
                assert(reach(m, count, ps@[j], x, deep));
            }
        }
    }
    Some(out)
}

/// The ids below a present parent: its children, or with `deep` its
/// descendants.
pub open spec fn reach_list(m: Map<int, SlabNode>, count: nat, p: u32, deep: bool) -> Seq<int> {
    if !m.dom().contains(p as int) {
        Seq::empty()
    } else if deep {
        subnodes_list(m, m[p as int].children_view(), count)
    } else {
        m[p as int].children_view().map_values(|c: u32| c as int)
    }
}

/// `x` is present and lies below the present parent `p`.
pub open spec fn reach(m: Map<int, SlabNode>, count: nat, p: u32, x: u32, deep: bool) -> bool {
    m.dom().contains(p as int) && reach_list(m, count, p, deep).contains(x as int) && m.dom().contains(x as int)
}

/// The model of an optional set.
pub open spec fn opt_ids(o: Option<BTreeSet<u32>>) -> Option<Set<u32>> {
    match o {
        Some(s) => Some(s@),
        None => None,
    }
}

/// The nodes a segmented text query reaches (see `text_ids`); `None` when
/// cancelled.
pub fn execute_text_segments(
    data: &RootIndexData,
    segments: &Vec<TextQuerySegment>,
    case_sensitive: bool,
    cancel: CancellationToken,
) -> (r: Option<BTreeSet<u32>>)
    requires
        data.wf(),
    ensures
        r matches Some(s) ==> s@ == text_ids(data.nodes(), data.file_nodes.count(), data.name_index.pairs(),
            case_sensitive, segments_view(segments@)),
        cancel.is_noop() ==> r is Some,
{
    let ghost m = data.nodes();
    let ghost count = data.file_nodes.count();
    let ghost pairs = data.name_index.pairs();
    let ghost segs = segments_view(segments@);
    if segments.len() == 0 {
        let empty: BTreeSet<u32> = BTreeSet::new();
        assert(empty@ =~= Set::<u32>::empty());
        return Some(empty);
    }
    let mut set: Option<BTreeSet<u32>> = None;
    let mut pending = false;
    let mut saw_matcher = false;
    let mut i: usize = 0;
    while i < segments.len()
        invariant
            data.wf(),
            m == data.nodes(),
            count == data.file_nodes.count(),
            pairs == data.name_index.pairs(),
            segs == segments_view(segments@),
            i <= segments@.len(),
            seg_fold(m, count, pairs, case_sensitive, segs.subrange(0, i as int))
                == (SegState { set: opt_ids(set), pending, saw_matcher }),
        decreases segments@.len() - i,
    {
        let ghost sub = segs.subrange(0, i + 1);
        proof {
            assert(sub.drop_last() =~= segs.subrange(0, i as int));
            assert(sub.last() == segs[i as int]);
        }
        match &segments[i] {
            TextQuerySegment::GlobStar => {
                pending = true;
            },
            TextQuerySegment::Star => {
                let next = match &set {
                    Some(s) => step_ids(data, s, None, pending, case_sensitive, cancel),
                    None => all_indexed_ids(data, cancel),
                };
                match next {
                    None => return None,
                    Some(n) => {
                        set = Some(n);
                    },
                }
                pending = false;
                saw_matcher = true;
            },
            TextQuerySegment::Concrete(mt) => {
                let next = match &set {
                    Some(s) => step_ids(data, s, Some(mt), pending, case_sensitive, cancel),
                    None => listed_ids(data, Some(mt), case_sensitive, cancel),
                };
                match next {
                    None => return None,
                    Some(n) => {
                        set = Some(n);
                    },
                }
                pending = false;
                saw_matcher = true;
            },
        }
        i = i + 1;
    }
    assert(segs.subrange(0, segs.len() as int) =~= segs);
    if pending {
        match set {
            Some(s) => step_ids(data, &s, None, true, case_sensitive, cancel),
            None => all_indexed_ids(data, cancel),
        }
    } else if saw_matcher {
        match set {
            Some(s) => Some(s),
            None => {
                let empty: BTreeSet<u32> = BTreeSet::new();
                assert(empty@ =~= Set::<u32>::empty());
                Some(empty)
            },
        }
    } else {
        all_indexed_ids(data, cancel)
    }
}

} // verus!
