//! A search of one indexed root, in two steps around the file reads that
//! content and tag filters need: `plan_search` compiles the query and
//! collects the candidate nodes below the root; the caller reads the files
//! those filters ask about; `finish_search` selects, orders and reports
//! the matches.

use vstd::prelude::*;
use std::collections::BTreeSet;
use crate::cancel::CancellationToken;
use crate::error::Result;
use crate::index::data::RootIndexData;
use crate::index::file_nodes::{ids_of, lookup_spec};
use crate::index::node_view::NodeView;
use crate::query::expression::{dates_resolved, lower_expr, QueryExpression, QueryFilter, QueryTerm, SpecExpr};
use crate::query::highlight::expr_lights;
use crate::query::matcher::{required_terms, SearchQueryMatcher};
use crate::query::optimizer::optimized;
use crate::query::parser::{byte_len, query_clock_dependent, query_parse};
use crate::search::engine::{all_term_hits, candidate_node_ids_for_terms, opt_set, visit};
use crate::search::eval::{cand_set, evaluate_expression_set, expr_set, view_path, FilterMatches};
use crate::search::name_order::{key_lt, key_view, keys_view, sort_keys};
use crate::storage::index_types::SlabIndex;
use crate::storage::node::{NodeFileType, SlabNode};
use crate::search::id_sets::set_has;
use crate::strings::{opt_str_view, str_views, strictly_sorted};
use crate::types::{FileEntry, FileType, KindFilter, SearchResult};
use crate::watcher::walker::path_components;

verus! {

broadcast use vstd::std_specs::btree::group_btree_axioms;

/// A compiled query with the candidate nodes of a root.
pub struct SearchPlan {
    /// The compiled query.
    pub matcher: SearchQueryMatcher,
    /// The candidates, in the order the walk met them.
    pub candidates: Vec<SlabIndex>,
    /// The candidates' ids.
    pub universe: BTreeSet<u32>,
    /// Whether the root was found in the index.
    pub root_found: bool,
}

/// The prefilter the required name terms give: none without terms.
pub open spec fn term_prefilter(data: RootIndexData, terms: Set<Seq<char>>, order: Seq<Seq<char>>, case_sensitive: bool) -> Option<Set<u32>> {
    if order.len() == 0 {
        None
    } else {
        Some(all_term_hits(data.name_index.pairs(), order, case_sensitive))
    }
}

/// Compiles a query and collects the candidate nodes below `root` (at most
/// `max_depth` levels down, hidden ones only when asked, narrowed to the
/// nodes whose names hold every required term). An error when the query
/// does not compile; `None` when cancelled.
pub fn plan_search(
    root: &str,
    data: &RootIndexData,
    query: &str,
    include_hidden: bool,
    case_sensitive: bool,
    max_depth: usize,
    home: Option<&str>,
    cancel: CancellationToken,
) -> (r: Result<Option<SearchPlan>>)
    requires
        data.wf(),
        byte_len(query@) <= usize::MAX,
    ensures
        r is Err ==> query_parse(query@, opt_str_view(home)) is None || query_clock_dependent(query@),
        r matches Err(e) ==> e is QueryParse || (e is Path && home is None),
        r matches Ok(None) ==> !cancel.is_noop(),
        r matches Ok(Some(p)) ==> {
            &&& p.matcher.case_sensitive == case_sensitive
            &&& dates_resolved(p.matcher.expression)
            &&& exists|e: SpecExpr| query_parse(query@, opt_str_view(home)) == Some(e)
                && p.matcher.expression@ == optimized(if case_sensitive { e } else { lower_expr(e) })
            &&& p.universe@ == cand_set(p.candidates@)
            &&& match lookup_spec(data.nodes(), data.file_nodes.root_view(), path_components(root@)) {
                None => !p.root_found && p.candidates@.len() == 0,
                Some(rid) => p.root_found && (cancel.is_noop() ==> exists|terms: Seq<Seq<char>>|
                    terms.to_set() == required_terms(p.matcher.expression@)
                    && ids_of(p.candidates@) == visit(data.nodes(), rid, 0, false, max_depth as int, include_hidden,
                        term_prefilter(*data, required_terms(p.matcher.expression@), terms, case_sensitive))),
            }
        },
{
    let matcher = match SearchQueryMatcher::compile(query, case_sensitive, home) {
        Ok(m) => m,
        Err(e) => return Err(e),
    };
    let required = matcher.required_name_terms();
    let prefilter = candidate_node_ids_for_terms(data, &required, case_sensitive, cancel);
    if cancel.is_cancelled().is_none() {
        return Ok(None);
    }
    let root_id = match data.node_index_for_path(root) {
        None => {
            let universe: BTreeSet<u32> = BTreeSet::new();
            let candidates: Vec<SlabIndex> = Vec::new();
            assert(universe@ =~= cand_set(candidates@));
            return Ok(Some(SearchPlan { matcher, candidates, universe, root_found: false }));
        },
        Some(id) => id,
    };
    let mut candidates: Vec<SlabIndex> = Vec::new();
    let mut counter: usize = 0;
    let ok = walk_root(data, root_id, max_depth, include_hidden, &prefilter, &mut candidates, &mut counter, cancel);
    if !ok {
        return Ok(None);
    }
    proof {
        if cancel.is_noop() {
            let terms = str_views(required@);
            assert(terms.to_set() == required_terms(matcher.expression@));
            assert(opt_set(prefilter) == term_prefilter(*data, required_terms(matcher.expression@), terms, case_sensitive));
        }
    }
    let universe = ids_set(&candidates);
    Ok(Some(SearchPlan { matcher, candidates, universe, root_found: true }))
}

/// The walk from the root (depth 0, not hidden).
fn walk_root(
    data: &RootIndexData,
    root_id: SlabIndex,
    max_depth: usize,
    include_hidden: bool,
    prefilter: &Option<BTreeSet<u32>>,
    out: &mut Vec<SlabIndex>,
    counter: &mut usize,
    cancel: CancellationToken,
) -> (ok: bool)
    requires
        data.wf(),
        old(out)@.len() == 0,
    ensures
        ok ==> ids_of(final(out)@) == visit(data.nodes(), root_id.raw() as int, 0, false, max_depth as int, include_hidden, opt_set(*prefilter)),
        cancel.is_noop() ==> ok,
{
    let ok = crate::search::engine::walk_subtree(data, root_id, 0, false, max_depth, include_hidden, prefilter, out, counter, cancel);
    proof {
        assert(ids_of(old(out)@) =~= Seq::<int>::empty());
        if ok {
            assert(ids_of(out@) =~= Seq::<int>::empty() + visit(data.nodes(), root_id.raw() as int, 0, false, max_depth as int, include_hidden, opt_set(*prefilter)));
        }
    }
    ok
}

/// The ids of a list of indices.
fn ids_set(v: &Vec<SlabIndex>) -> (r: BTreeSet<u32>)
    ensures
        r@ == cand_set(v@),
{
    let mut out: BTreeSet<u32> = BTreeSet::new();
    let mut i: usize = 0;
    while i < v.len()
        invariant
            i <= v@.len(),
            out@ == cand_set(v@.subrange(0, i as int)),
        decreases v@.len() - i,
    {
        out.insert(v[i].get() as u32);
        proof {
            let sub = v@.subrange(0, i + 1);
            assert(out@ =~= cand_set(sub)) by {
                assert forall|x: u32| #[trigger] out@.contains(x) implies cand_set(sub).contains(x) by {
                    if x != v@[i as int].raw() {
                        let k = choose|k: int| 0 <= k < i && #[trigger] v@.subrange(0, i as int)[k].raw() == x;
                        assert(sub[k] == v@.subrange(0, i as int)[k]);
                    } else {
                        assert(sub[i as int].raw() == x);
                    }
                }
                assert forall|x: u32| cand_set(sub).contains(x) implies #[trigger] out@.contains(x) by {
                    let k = choose|k: int| 0 <= k < sub.len() && #[trigger] sub[k].raw() == x;
                    if k < i {
                        assert(v@.subrange(0, i as int)[k] == sub[k]);
                        assert(cand_set(v@.subrange(0, i as int)).contains(x));
                    }
                }
            }
        }
        i = i + 1;
    }
    assert(v@.subrange(0, v@.len() as int) =~= v@);
    out
}

/// The result type of a node.
pub open spec fn node_file_type(n: SlabNode) -> FileType {
    match n.metadata.state_type_size.decoded_type() {
        NodeFileType::File => FileType::File,
        NodeFileType::Dir => FileType::Directory,
        NodeFileType::Symlink => FileType::Symlink,
        NodeFileType::Unknown => FileType::Other,
    }
}

/// Whether a kind filter lets a type through.
pub open spec fn kind_accepts(k: KindFilter, t: FileType) -> bool {
    match k {
        KindFilter::All => true,
        KindFilter::File => t == FileType::File,
        KindFilter::Directory => t == FileType::Directory,
    }
}

/// The candidates, in order, that the expression selected, that are
/// present and whose type the kind filter lets through.
pub open spec fn matched_list(m: Map<int, SlabNode>, cands: Seq<SlabIndex>, matched: Set<u32>, kind: KindFilter) -> Seq<int>
    decreases cands.len(),
{
    if cands.len() == 0 {
        Seq::empty()
    } else {
        let c = cands.last().raw();
        matched_list(m, cands.drop_last(), matched, kind) + (if matched.contains(c) && m.dom().contains(c as int)
            && kind_accepts(kind, node_file_type(m[c as int])) {
            seq![c as int]
        } else {
            Seq::empty()
        })
    }
}

/// The sort keys of a list of matches: each name with its position.
pub open spec fn initial_keys(m: Map<int, SlabNode>, l: Seq<int>) -> Seq<(Seq<char>, int)> {
    Seq::new(l.len(), |k: int| (m[l[k]].name_view(), k))
}

/// The model of a result entry: path, name, type, size, modification time.
pub open spec fn entry_model(m: Map<int, SlabNode>, count: nat, id: int) -> Option<(Seq<char>, Seq<char>, FileType, Option<u64>, Option<u64>)> {
    match view_path(m, count, id) {
        None => None,
        Some(p) => Some((
            p,
            m[id].name_view(),
            node_file_type(m[id]),
            if m[id].metadata.state_type_size.decoded_type() == NodeFileType::Dir {
                None
            } else {
                Some(m[id].metadata.state_type_size.decoded_size())
            },
            if m[id].metadata.mtime == 0 { None } else { Some(m[id].metadata.mtime as u64) },
        )),
    }
}

/// The entries of a list of ids, skipping those without a path.
pub open spec fn entries_model(m: Map<int, SlabNode>, count: nat, ids: Seq<int>) -> Seq<(Seq<char>, Seq<char>, FileType, Option<u64>, Option<u64>)>
    decreases ids.len(),
{
    if ids.len() == 0 {
        Seq::empty()
    } else {
        entries_model(m, count, ids.drop_last()) + match entry_model(m, count, ids.last()) {
            Some(e) => seq![e],
            None => Seq::empty(),
        }
    }
}

/// The model of a result entry.
pub open spec fn file_entry_view(e: FileEntry) -> (Seq<char>, Seq<char>, FileType, Option<u64>, Option<u64>) {
    (e.path@, e.name@, e.file_type, e.size, e.modified_at)
}

/// The ids a sorted list of keys picks from the matches.
pub open spec fn picked(l: Seq<int>, keys: Seq<(Seq<char>, int)>) -> Seq<int> {
    keys.map_values(|k: (Seq<char>, int)| l[k.1])
}

/// Keys in nondecreasing order.
pub open spec fn keys_sorted(keys: Seq<(Seq<char>, int)>) -> bool {
    forall|i: int, j: int| 0 <= i < j < keys.len() ==> !key_lt(keys[j], keys[i])
}

/// Whether a search result holds exactly the matches of `l` sorted by name
/// (ties in match order), the first `max_results` of them (without those
/// whose path cannot be computed).
pub open spec fn reports(m: Map<int, SlabNode>, count: nat, l: Seq<int>, max_results: int, entries: Seq<FileEntry>) -> bool {
    exists|sorted: Seq<(Seq<char>, int)>| sorted.to_multiset() == initial_keys(m, l).to_multiset()
        && keys_sorted(sorted)
        && entries.map_values(|e: FileEntry| file_entry_view(e)) == entries_model(m, count, picked(l, sorted.take(
            if l.len() > max_results { max_results } else { l.len() as int },
        )))
}

/// The result type of a node's type.
fn result_type(t: NodeFileType) -> (r: FileType)
    ensures
        r == (match t {
            NodeFileType::File => FileType::File,
            NodeFileType::Dir => FileType::Directory,
            NodeFileType::Symlink => FileType::Symlink,
            NodeFileType::Unknown => FileType::Other,
        }),
{
    match t {
        NodeFileType::File => FileType::File,
        NodeFileType::Dir => FileType::Directory,
        NodeFileType::Symlink => FileType::Symlink,
        NodeFileType::Unknown => FileType::Other,
    }
}

/// The fields of a result copied from the search's inputs.
pub open spec fn result_header(
    res: SearchResult,
    query: Seq<char>,
    root: Seq<char>,
    data: RootIndexData,
    plan: SearchPlan,
    index_state: Seq<char>,
    index_scanned_files: usize,
    index_scanned_dirs: usize,
    index_started_at: Option<u64>,
    index_last_update_at: Option<u64>,
    index_finished_at: Option<u64>,
) -> bool {
    &&& res.query@ == query
    &&& res.root@ == root
    &&& res.errors == data.errors
    &&& res.index_state@ == index_state
    &&& res.index_scanned_files == index_scanned_files
    &&& res.index_scanned_dirs == index_scanned_dirs
    &&& res.index_started_at == index_started_at
    &&& res.index_last_update_at == index_last_update_at
    &&& res.index_finished_at == index_finished_at
    &&& strictly_sorted(str_views(res.highlight_terms@))
    &&& str_views(res.highlight_terms@).to_set() == expr_lights(plan.matcher.expression@)
    &&& res.count == res.entries@.len()
}

/// Selects the matches among a plan's candidates and reports them: the
/// candidates the expression selects, that are present and of a kind the
/// filter lets through, sorted by name (ties in walk order), at most
/// `max_results` of them. `None` when cancelled.
pub fn finish_search(
    root: &str,
    data: &RootIndexData,
    plan: &SearchPlan,
    fm: &FilterMatches,
    query: String,
    kind: KindFilter,
    max_results: usize,
    index_state: &str,
    index_scanned_files: usize,
    index_scanned_dirs: usize,
    index_started_at: Option<u64>,
    index_last_update_at: Option<u64>,
    index_finished_at: Option<u64>,
    cancel: CancellationToken,
) -> (r: Option<SearchResult>)
    requires
        data.wf(),
        plan.universe@ == cand_set(plan.candidates@),
    ensures
        cancel.is_noop() ==> r is Some,
        r matches Some(res) ==> {
            &&& result_header(res, query@, root@, *data, *plan, index_state@, index_scanned_files, index_scanned_dirs,
                index_started_at, index_last_update_at, index_finished_at)
            &&& !plan.root_found ==> res.entries@.len() == 0 && !res.truncated && res.scanned == 0
            &&& plan.root_found ==> {
                let l = matched_list(data.nodes(), plan.candidates@,
                    expr_set(*data, plan.matcher.case_sensitive, plan.universe@, *fm, plan.matcher.expression), kind);
                &&& res.scanned == plan.candidates@.len()
                &&& res.truncated == (l.len() > max_results)
                &&& reports(data.nodes(), data.file_nodes.count(), l, max_results as int, res.entries@)
            }
        },
{
    let highlight_terms = plan.matcher.highlight_terms();
    if !plan.root_found {
        return Some(SearchResult {
            query,
            root: root.to_owned(),
            entries: Vec::new(),
            count: 0,
            truncated: false,
            scanned: 0,
            errors: data.errors,
            index_state: index_state.to_owned(),
            index_scanned_files,
            index_scanned_dirs,
            index_started_at,
            index_last_update_at,
            index_finished_at,
            highlight_terms,
        });
    }
    let ghost m = data.nodes();
    let ghost count = data.file_nodes.count();
    let matched = match evaluate_expression_set(data, &plan.matcher, &plan.matcher.expression, &plan.candidates,
        &plan.universe, fm, cancel) {
        None => return None,
        Some(x) => x,
    };
    let scanned = plan.candidates.len();
    if cancel.is_cancelled().is_none() {
        return None;
    }
    let ghost cands = plan.candidates@;
    let mut l: Vec<SlabIndex> = Vec::new();
    let mut i: usize = 0;
    while i < plan.candidates.len()
        invariant
            data.wf(),
            m == data.nodes(),
            cands == plan.candidates@,
            i <= cands.len(),
            ids_of(l@) == matched_list(m, cands.subrange(0, i as int), matched@, kind),
            forall|k: int| 0 <= k < l@.len() ==> m.dom().contains(#[trigger] l@[k].raw() as int),
        decreases cands.len() - i,
    {
        if cancel.is_cancelled_sparse(i).is_none() {
            return None;
        }
        let c = plan.candidates[i];
        let ghost sub = cands.subrange(0, i + 1);
        proof {
            assert(sub.drop_last() =~= cands.subrange(0, i as int));
            assert(sub.last() == c);
        }
        let ghost before = l@;
        if set_has(&matched, c.get() as u32) {
            match data.get_node(c) {
                Some(node) => {
                    if kind.matches(result_type(node.file_type())) {
                        l.push(c);
                        assert(ids_of(l@) =~= ids_of(before) + seq![c.raw() as int]);
                    } else {
                        assert(ids_of(l@) =~= ids_of(before) + Seq::<int>::empty());
                    }
                },
                None => {
                    assert(ids_of(l@) =~= ids_of(before) + Seq::<int>::empty());
                },
            }
        } else {
            assert(ids_of(l@) =~= ids_of(before) + Seq::<int>::empty());
        }
        i = i + 1;
    }
    assert(cands.subrange(0, cands.len() as int) =~= cands);
    let ghost lseq = ids_of(l@);
    let mut keys: Vec<(String, usize)> = Vec::new();
    let mut k: usize = 0;
    while k < l.len()
        invariant
            data.wf(),
            m == data.nodes(),
            lseq == ids_of(l@),
            k <= l@.len(),
            keys@.len() == k,
            forall|a: int| 0 <= a < l@.len() ==> m.dom().contains(#[trigger] l@[a].raw() as int),
            keys_view(keys@) == initial_keys(m, lseq).subrange(0, k as int),
        decreases l@.len() - k,
    {
        let node = match data.get_node(l[k]) {
            Some(n) => n,
            None => {
                assert(m.dom().contains(l@[k as int].raw() as int));
                return None;
            },
        };
        let ghost before = keys@;
        keys.push((node.name().to_owned(), k));
        proof {
            assert(keys_view(keys@) =~= initial_keys(m, lseq).subrange(0, k + 1)) by {
                assert forall|a: int| 0 <= a < k + 1 implies #[trigger] keys_view(keys@)[a] == initial_keys(m, lseq).subrange(0, k + 1)[a] by {
                    if a < k {
                        assert(keys@[a] == before[a]);
                        assert(keys_view(before)[a] == initial_keys(m, lseq).subrange(0, k as int)[a]);
                    }
                }
            }
        }
        k = k + 1;
    }
    assert(initial_keys(m, lseq).subrange(0, l@.len() as int) =~= initial_keys(m, lseq));
    let ghost pre = keys_view(keys@);
    sort_keys(&mut keys);
    let ghost sorted = keys_view(keys@);
    let ghost after_sort = keys@;
    proof {
        assert forall|a: int, b: int| 0 <= a < b < sorted.len() implies !key_lt(sorted[b], sorted[a]) by {
            assert(sorted[a] == key_view(after_sort[a]));
            assert(sorted[b] == key_view(after_sort[b]));
        }
        assert(keys_sorted(sorted));
        assert(pre == initial_keys(m, lseq));
        assert(sorted.to_multiset() == pre.to_multiset());
        sorted.to_multiset_ensures();
        pre.to_multiset_ensures();
        assert forall|a: int| 0 <= a < sorted.len() implies 0 <= #[trigger] sorted[a].1 < lseq.len() by {
            assert(sorted.contains(sorted[a]));
            assert(sorted.to_multiset().count(sorted[a]) > 0);
            assert(pre.contains(sorted[a]));
            let i = choose|i: int| 0 <= i < pre.len() && pre[i] == sorted[a];
            assert(pre[i].1 == i);
        }
    }
    let truncated = keys.len() > max_results;
    if truncated {
        keys.truncate(max_results);
    }
    let ghost cut = if lseq.len() > max_results { max_results as int } else { lseq.len() as int };
    proof {
        assert(sorted.len() == lseq.len());
        assert(keys_view(keys@) =~= sorted.take(cut));
    }
    let ghost kv = keys_view(keys@);
    let mut entries: Vec<FileEntry> = Vec::new();
    let mut j: usize = 0;
    while j < keys.len()
        invariant
            data.wf(),
            m == data.nodes(),
            count == data.file_nodes.count(),
            lseq == ids_of(l@),
            kv == keys_view(keys@),
            kv == sorted.take(cut),
            0 <= cut <= sorted.len(),
            kv.len() == cut,
            lseq.len() == l@.len(),
            forall|a: int| 0 <= a < sorted.len() ==> 0 <= #[trigger] sorted[a].1 < lseq.len(),
            j <= keys@.len(),
            entries@.map_values(|e: FileEntry| file_entry_view(e)) == entries_model(m, count, picked(lseq, kv.subrange(0, j as int))),
        decreases keys@.len() - j,
    {
        if cancel.is_cancelled_sparse(j).is_none() {
            return None;
        }
        let pos = keys[j].1;
        proof {
            assert(kv[j as int] == sorted[j as int]);
            assert(kv[j as int].1 == pos as int);
        }
        let id = l[pos];
        let ghost sub = picked(lseq, kv.subrange(0, j + 1));
        proof {
            assert(sub.drop_last() =~= picked(lseq, kv.subrange(0, j as int)));
            assert(sub.last() == lseq[pos as int]);
            assert(lseq[pos as int] == id.raw() as int);
        }
        let ghost before = entries@;
        let node = match data.get_node(id) {
            Some(n) => n,
            None => {
                assert(entries_model(m, count, sub) =~= entries_model(m, count, sub.drop_last()));
                j = j + 1;
                continue;
            },
        };
        let view = NodeView::new(data.file_nodes.slab(), id);
        match view.compute_path("") {
            None => {
                assert(entries_model(m, count, sub) =~= entries_model(m, count, sub.drop_last()));
            },
            Some(path) => {
                let entry = FileEntry {
                    path,
                    name: node.name().to_owned(),
                    file_type: result_type(node.file_type()),
                    size: node.size(),
                    modified_at: node.modified_at(),
                };
                entries.push(entry);
                proof {
                    assert(entries@.map_values(|e: FileEntry| file_entry_view(e)) =~= before.map_values(|e: FileEntry| file_entry_view(e)).push(file_entry_view(entry)));
                }
            },
        }
        j = j + 1;
    }
    proof {
        assert(kv.subrange(0, kv.len() as int) =~= kv);
        assert(entries@.map_values(|e: FileEntry| file_entry_view(e)) == entries_model(m, count, picked(lseq, sorted.take(cut))));
        assert(sorted.to_multiset() == initial_keys(m, lseq).to_multiset() && keys_sorted(sorted)
            && entries@.map_values(|e: FileEntry| file_entry_view(e)) == entries_model(m, count, picked(lseq, sorted.take(cut))));
        assert(reports(m, count, lseq, max_results as int, entries@));
    }
    let n = entries.len();
    Some(SearchResult {
        query,
        root: root.to_owned(),
        entries,
        count: n,
        truncated,
        scanned,
        errors: data.errors,
        index_state: index_state.to_owned(),
        index_scanned_files,
        index_scanned_dirs,
        index_started_at,
        index_last_update_at,
        index_finished_at,
        highlight_terms,
    })
}

} // verus!
