//! The set of candidate nodes a query expression selects.
//!
//! Content and tag filters read files; the caller reads them for the
//! candidates and hands the matching ids in (`FilterMatches`).

use vstd::prelude::*;
use std::collections::BTreeSet;
use crate::cancel::CancellationToken;
use crate::index::data::{node_has_extension, node_is_dir, node_is_file, path_matches_ci, RootIndexData};
use crate::index::file_nodes::{chain_names, chain_strict, join_up, lookup_spec, path_or_root, subnodes_list};
use crate::index::node_view::NodeView;
use crate::query::context::context_of;
use crate::query::evaluate::{lemma_context_decides, term_accepts};
use crate::query::expression::{QueryExpression, QueryFilter, QueryTerm};
use crate::query::matcher::SearchQueryMatcher;
use crate::query::text_match::{query_segments, segment_query_text};
use crate::query::type_filter::{category_extension_list, category_extensions, strs_views, TypeFilterTarget};
use crate::search::id_sets::{set_copy, set_difference, set_has, set_intersect, set_members, set_union_into};
use crate::search::text_sets::{execute_text_segments, text_ids};
use crate::storage::index_types::SlabIndex;
use crate::storage::node::SlabNode;
use crate::strings::{chars_eq, chars_of, str_views};
use crate::watcher::walker::path_components;

verus! {

broadcast use vstd::std_specs::btree::group_btree_axioms;

/// The ids of the candidates that a content or tag filter matched, as the
/// caller found them by reading the files.
pub struct FilterMatches {
    /// Per content needle, the ids whose file content holds it.
    pub content: Vec<(String, BTreeSet<u32>)>,
    /// Per tag list, the ids whose file carries one of the tags.
    pub tags: Vec<(Vec<String>, BTreeSet<u32>)>,
}

/// The ids handed in for a needle (the first entry for it), none when
/// absent.
pub open spec fn content_lookup(c: Seq<(String, BTreeSet<u32>)>, needle: Seq<char>) -> Set<u32>
    decreases c.len(),
{
    if c.len() == 0 {
        Set::empty()
    } else if c[0].0@ == needle {
        c[0].1@
    } else {
        content_lookup(c.drop_first(), needle)
    }
}

/// The ids handed in for a tag list (the first entry for it), none when
/// absent.
pub open spec fn tag_lookup(t: Seq<(Vec<String>, BTreeSet<u32>)>, tags: Seq<Seq<char>>) -> Set<u32>
    decreases t.len(),
{
    if t.len() == 0 {
        Set::empty()
    } else if str_views(t[0].0@) == tags {
        t[0].1@
    } else {
        tag_lookup(t.drop_first(), tags)
    }
}

/// The first node, by slot number, whose path equals `path` ignoring ASCII
/// case.
pub open spec fn first_ci_match(m: Map<int, SlabNode>, count: nat, path: Seq<char>, s: int) -> bool {
    0 <= s && m.dom().contains(s) && path_matches_ci(m, count, s, path)
        && forall|j: int| 0 <= j < s && #[trigger] m.dom().contains(j) ==> !path_matches_ci(m, count, j, path)
}

/// The node a filter path names (see `RootIndexData::node_id_for_path`).
pub open spec fn resolve_path(data: RootIndexData, case_sensitive: bool, path: Seq<char>) -> Option<int> {
    if case_sensitive {
        lookup_spec(data.nodes(), data.file_nodes.root_view(), path_components(path))
    } else if exists|s: int| first_ci_match(data.nodes(), data.file_nodes.count(), path, s) {
        Some(choose|s: int| first_ci_match(data.nodes(), data.file_nodes.count(), path, s))
    } else {
        None
    }
}

/// The path `NodeView::compute_path` gives for a node, if any.
pub open spec fn view_path(m: Map<int, SlabNode>, count: nat, id: int) -> Option<Seq<char>> {
    match chain_strict(m, id, count) {
        Some(c) => Some(path_or_root(join_up(chain_names(m, c), false))),
        None => None,
    }
}

/// A node, seen at its path, satisfies a term.
pub open spec fn term_ok(data: RootIndexData, case_sensitive: bool, t: QueryTerm, x: u32) -> bool {
    let m = data.nodes();
    m.dom().contains(x as int) && (view_path(m, data.file_nodes.count(), x as int) matches Some(p)
        && exists|c| context_of(m[x as int], p, case_sensitive, c) && #[trigger] term_accepts(t, c))
}

/// The candidates that satisfy a term one by one.
pub open spec fn generic_set(data: RootIndexData, case_sensitive: bool, universe: Set<u32>, t: QueryTerm) -> Set<u32> {
    Set::new(|x: u32| universe.contains(x) && term_ok(data, case_sensitive, t, x))
}

/// The files with one of the extensions.
pub open spec fn ext_ids(m: Map<int, SlabNode>, exts: Seq<Seq<char>>) -> Set<u32> {
    Set::new(|x: u32| m.dom().contains(x as int) && exists|k: int| 0 <= k < exts.len() && #[trigger] node_has_extension(m[x as int], exts[k]))
}

/// The nodes of a type target.
pub open spec fn type_ids(m: Map<int, SlabNode>, t: TypeFilterTarget) -> Set<u32> {
    match t {
        TypeFilterTarget::File => Set::new(|x: u32| m.dom().contains(x as int) && node_is_file(m[x as int])),
        TypeFilterTarget::Directory => Set::new(|x: u32| m.dom().contains(x as int) && node_is_dir(m[x as int])),
        TypeFilterTarget::Extensions(cat) => ext_ids(m, category_extensions(cat)),
    }
}

/// The ids a filter can be narrowed to from the index alone, if any.
pub open spec fn prefilter_ids(m: Map<int, SlabNode>, f: QueryFilter) -> Option<Set<u32>> {
    match f {
        QueryFilter::Extension(exts) => Some(ext_ids(m, str_views(exts@))),
        QueryFilter::Type(t) => Some(type_ids(m, t)),
        QueryFilter::TypeMacro { target, .. } => Some(type_ids(m, target)),
        QueryFilter::File { .. } => Some(type_ids(m, TypeFilterTarget::File)),
        QueryFilter::Folder { .. } => Some(type_ids(m, TypeFilterTarget::Directory)),
        _ => None,
    }
}

/// The prefilter decides the filter on its own.
pub open spec fn prefilter_exact(f: QueryFilter) -> bool {
    match f {
        QueryFilter::Extension(_) => true,
        QueryFilter::Type(_) => true,
        QueryFilter::TypeMacro { argument, .. } => argument is None,
        QueryFilter::File { argument } => argument is None,
        QueryFilter::Folder { argument } => argument is None,
        _ => false,
    }
}

/// The present file children of a node.
pub open spec fn file_children(m: Map<int, SlabNode>, id: int) -> Set<u32> {
    Set::new(|x: u32| m[id].children_view().contains(x) && m.dom().contains(x as int) && node_is_file(m[x as int]))
}

/// The ids below a node (all descendants).
pub open spec fn below_ids(m: Map<int, SlabNode>, count: nat, id: int) -> Set<u32> {
    Set::new(|x: u32| subnodes_list(m, m[id].children_view(), count).contains(x as int))
}

/// The set a filter selects among the candidates.
pub open spec fn filter_set(
    data: RootIndexData,
    case_sensitive: bool,
    universe: Set<u32>,
    fm: FilterMatches,
    t: QueryTerm,
    f: QueryFilter,
) -> Set<u32> {
    let m = data.nodes();
    let count = data.file_nodes.count();
    match f {
        QueryFilter::Content { needle } => if needle@.len() == 0 {
            Set::empty()
        } else {
            content_lookup(fm.content@, needle@).intersect(universe)
        },
        QueryFilter::Tag { tags } => if tags@.len() == 0 {
            Set::empty()
        } else {
            tag_lookup(fm.tags@, str_views(tags@)).intersect(universe)
        },
        QueryFilter::Parent { path } => match resolve_path(data, case_sensitive, path@) {
            Some(pid) => if m.dom().contains(pid) {
                Set::new(|x: u32| m[pid].children_view().contains(x)).intersect(universe)
            } else {
                generic_set(data, case_sensitive, universe, t)
            },
            None => generic_set(data, case_sensitive, universe, t),
        },
        QueryFilter::InFolder { path } => match resolve_path(data, case_sensitive, path@) {
            Some(fid) => if m.dom().contains(fid) {
                below_ids(m, count, fid).intersect(universe)
            } else {
                Set::empty()
            },
            None => generic_set(data, case_sensitive, universe, t),
        },
        QueryFilter::NoSubfolders { path } => match resolve_path(data, case_sensitive, path@) {
            Some(fid) => if m.dom().contains(fid) {
                Set::new(|x: u32| x as int == fid).union(file_children(m, fid)).intersect(universe)
            } else {
                Set::empty()
            },
            None => generic_set(data, case_sensitive, universe, t),
        },
        _ => match prefilter_ids(m, f) {
            Some(p) => if prefilter_exact(f) {
                p.intersect(universe)
            } else {
                p.intersect(universe).intersect(generic_set(data, case_sensitive, universe, t))
            },
            None => generic_set(data, case_sensitive, universe, t),
        },
    }
}

/// The set a term selects among the candidates.
pub open spec fn term_set(data: RootIndexData, case_sensitive: bool, universe: Set<u32>, fm: FilterMatches, t: QueryTerm) -> Set<u32> {
    match t {
        QueryTerm::Text(v) => text_ids(data.nodes(), data.file_nodes.count(), data.name_index.pairs(), case_sensitive,
            query_segments(v@)).intersect(universe),
        QueryTerm::Filter(f) => filter_set(data, case_sensitive, universe, fm, t, f),
    }
}

/// The set an expression selects among the candidates: terms by
/// `term_set`, negation as the complement within the candidates, an
/// empty conjunction as all candidates.
pub open spec fn expr_set(data: RootIndexData, case_sensitive: bool, universe: Set<u32>, fm: FilterMatches, e: QueryExpression) -> Set<u32>
    decreases e,
{
    match e {
        QueryExpression::Term(t) => term_set(data, case_sensitive, universe, fm, t),
        QueryExpression::Not(b) => universe.difference(expr_set(data, case_sensitive, universe, fm, *b)),
        QueryExpression::And(parts) => and_set(data, case_sensitive, universe, fm, parts@),
        QueryExpression::Or(parts) => or_set(data, case_sensitive, universe, fm, parts@),
    }
}

/// The intersection of the parts' sets; all candidates for no parts.
pub open spec fn and_set(data: RootIndexData, case_sensitive: bool, universe: Set<u32>, fm: FilterMatches, s: Seq<QueryExpression>) -> Set<u32>
    decreases s,
{
    if s.len() == 0 {
        universe
    } else if s.len() == 1 {
        expr_set(data, case_sensitive, universe, fm, s[0])
    } else {
        and_set(data, case_sensitive, universe, fm, s.drop_last()).intersect(expr_set(data, case_sensitive, universe, fm, s.last()))
    }
}

/// The union of the parts' sets.
pub open spec fn or_set(data: RootIndexData, case_sensitive: bool, universe: Set<u32>, fm: FilterMatches, s: Seq<QueryExpression>) -> Set<u32>
    decreases s,
{
    if s.len() == 0 {
        Set::empty()
    } else {
        or_set(data, case_sensitive, universe, fm, s.drop_last()).union(expr_set(data, case_sensitive, universe, fm, s.last()))
    }
}

/// A term's set lies within the candidates.
proof fn lemma_term_set_within(data: RootIndexData, cs: bool, universe: Set<u32>, fm: FilterMatches, t: QueryTerm)
    ensures
        term_set(data, cs, universe, fm, t).subset_of(universe),
{
}

/// The walk below a list of children starts from each of them.
proof fn lemma_subnodes_hold_children(m: Map<int, SlabNode>, kids: Seq<u32>, fuel: nat, x: u32)
    requires
        kids.contains(x),
    ensures
        subnodes_list(m, kids, fuel).contains(x as int),
    decreases kids.len(),
{
    let c = kids.last() as int;
    let below = if fuel == 0 || !m.dom().contains(c) {
        Seq::empty()
    } else {
        subnodes_list(m, m[c].children_view(), (fuel - 1) as nat)
    };
    let rest = subnodes_list(m, kids.drop_last(), fuel);
    assert(subnodes_list(m, kids, fuel) == seq![c] + below + rest);
    if kids.last() == x {
        assert((seq![c] + below + rest)[0] == x as int);
    } else {
        let i = choose|i: int| 0 <= i < kids.len() && kids[i] == x;
        assert(i < kids.len() - 1);
        assert(kids.drop_last()[i] == x);
        lemma_subnodes_hold_children(m, kids.drop_last(), fuel, x);
        let j = choose|j: int| 0 <= j < rest.len() && rest[j] == x as int;
        assert((seq![c] + below + rest)[1 + below.len() + j] == x as int);
    }
}

/// The scope filters select by the tree, for a folder that resolves to a
/// node `f` of the index: `nosubfolders:` keeps `f` itself and its direct
/// children that are files, so no subfolder (and nothing deeper) is ever
/// selected; `parent:` keeps exactly the direct children of `f`; `in:`
/// keeps every direct child of `f` (and what lies below them). Only
/// candidates are selected.
pub proof fn law_scope_filters_follow_the_tree(
    data: RootIndexData,
    cs: bool,
    universe: Set<u32>,
    fm: FilterMatches,
    path: String,
    x: u32,
)
    requires
        resolve_path(data, cs, path@) is Some,
        data.nodes().dom().contains(resolve_path(data, cs, path@)->0),
    ensures
        ({
            let m = data.nodes();
            let f = resolve_path(data, cs, path@)->0;
            let sel = expr_set(data, cs, universe, fm, QueryExpression::Term(QueryTerm::Filter(
                QueryFilter::NoSubfolders { path })));
            &&& sel.contains(x) ==> universe.contains(x)
            &&& (sel.contains(x) && x as int != f) ==> m[f].children_view().contains(x) && m.dom().contains(x as int)
                && node_is_file(m[x as int])
            &&& (x as int != f && m.dom().contains(x as int) && node_is_dir(m[x as int])) ==> !sel.contains(x)
            &&& (x as int == f && universe.contains(x)) ==> sel.contains(x)
            &&& (universe.contains(x) && m[f].children_view().contains(x) && m.dom().contains(x as int) && node_is_file(
                m[x as int])) ==> sel.contains(x)
        }),
        ({
            let m = data.nodes();
            let f = resolve_path(data, cs, path@)->0;
            let sel = expr_set(data, cs, universe, fm, QueryExpression::Term(QueryTerm::Filter(
                QueryFilter::Parent { path })));
            sel.contains(x) <==> universe.contains(x) && m[f].children_view().contains(x)
        }),
        ({
            let m = data.nodes();
            let f = resolve_path(data, cs, path@)->0;
            let sel = expr_set(data, cs, universe, fm, QueryExpression::Term(QueryTerm::Filter(
                QueryFilter::InFolder { path })));
            &&& sel.contains(x) ==> universe.contains(x)
            &&& (universe.contains(x) && m[f].children_view().contains(x)) ==> sel.contains(x)
        }),
{
    let m = data.nodes();
    let f = resolve_path(data, cs, path@)->0;
    if m[f].children_view().contains(x) {
        lemma_subnodes_hold_children(m, m[f].children_view(), data.file_nodes.count(), x);
    }
}

/// The set equations of query evaluation: every set lies within the
/// candidates; a negation is the candidates the operand leaves out; a
/// conjunction holds the candidates in every part (all of them for no
/// parts); a disjunction those in some part (none for no parts).
pub proof fn law_expr_set_equations(data: RootIndexData, cs: bool, universe: Set<u32>, fm: FilterMatches, e: QueryExpression)
    ensures
        expr_set(data, cs, universe, fm, e).subset_of(universe),
        e matches QueryExpression::Not(b) ==> expr_set(data, cs, universe, fm, e) == universe.difference(
            expr_set(data, cs, universe, fm, *b)),
        e matches QueryExpression::And(ps) ==> forall|x: u32| #[trigger] expr_set(data, cs, universe, fm, e).contains(x)
            <==> universe.contains(x) && forall|i: int| 0 <= i < ps@.len() ==> expr_set(data, cs, universe, fm, ps@[i]).contains(x),
        e matches QueryExpression::Or(ps) ==> forall|x: u32| #[trigger] expr_set(data, cs, universe, fm, e).contains(x)
            <==> exists|i: int| 0 <= i < ps@.len() && expr_set(data, cs, universe, fm, ps@[i]).contains(x),
    decreases e,
{
    match e {
        QueryExpression::Term(t) => lemma_term_set_within(data, cs, universe, fm, t),
        QueryExpression::Not(b) => {
            assert(expr_set(data, cs, universe, fm, e) == universe.difference(expr_set(data, cs, universe, fm, *b)));
            assert forall|x: u32| expr_set(data, cs, universe, fm, e).contains(x) implies universe.contains(x) by {}
        },
        QueryExpression::And(ps) => {
            assert forall|i: int| 0 <= i < ps@.len() implies #[trigger] expr_set(data, cs, universe, fm, ps@[i]).subset_of(universe) by {
                assert(decreases_to!(e => ps@[i]));
                law_expr_set_equations(data, cs, universe, fm, ps@[i]);
            }
            lemma_and_set(data, cs, universe, fm, ps@);
            assert(expr_set(data, cs, universe, fm, e) == and_set(data, cs, universe, fm, ps@));
            assert forall|x: u32| expr_set(data, cs, universe, fm, e).contains(x) implies universe.contains(x) by {
                assert(and_set(data, cs, universe, fm, ps@).contains(x));
            }
        },
        QueryExpression::Or(ps) => {
            assert forall|i: int| 0 <= i < ps@.len() implies #[trigger] expr_set(data, cs, universe, fm, ps@[i]).subset_of(universe) by {
                assert(decreases_to!(e => ps@[i]));
                law_expr_set_equations(data, cs, universe, fm, ps@[i]);
            }
            lemma_or_set(data, cs, universe, fm, ps@);
            assert(expr_set(data, cs, universe, fm, e) == or_set(data, cs, universe, fm, ps@));
            assert forall|x: u32| expr_set(data, cs, universe, fm, e).contains(x) implies universe.contains(x) by {
                assert(or_set(data, cs, universe, fm, ps@).contains(x));
                let i = choose|i: int| 0 <= i < ps@.len() && expr_set(data, cs, universe, fm, ps@[i]).contains(x);
                assert(expr_set(data, cs, universe, fm, ps@[i]).subset_of(universe));
            }
        },
    }
}

proof fn lemma_and_set(data: RootIndexData, cs: bool, universe: Set<u32>, fm: FilterMatches, s: Seq<QueryExpression>)
    requires
        forall|i: int| 0 <= i < s.len() ==> #[trigger] expr_set(data, cs, universe, fm, s[i]).subset_of(universe),
    ensures
        forall|x: u32| #[trigger] and_set(data, cs, universe, fm, s).contains(x)
            <==> universe.contains(x) && forall|i: int| 0 <= i < s.len() ==> expr_set(data, cs, universe, fm, s[i]).contains(x),
    decreases s.len(),
{
    if s.len() > 1 {
        lemma_and_set(data, cs, universe, fm, s.drop_last());
        assert forall|x: u32| #[trigger] and_set(data, cs, universe, fm, s).contains(x)
            <==> universe.contains(x) && forall|i: int| 0 <= i < s.len() ==> expr_set(data, cs, universe, fm, s[i]).contains(x) by {
            assert(forall|i: int| 0 <= i < s.len() - 1 ==> s.drop_last()[i] == s[i]);
            if and_set(data, cs, universe, fm, s).contains(x) {
                assert(and_set(data, cs, universe, fm, s.drop_last()).contains(x));
                assert forall|i: int| 0 <= i < s.len() implies expr_set(data, cs, universe, fm, s[i]).contains(x) by {
                    if i < s.len() - 1 {
                        assert(expr_set(data, cs, universe, fm, s.drop_last()[i]).contains(x));
                    }
                }
            }
            if universe.contains(x) && forall|i: int| 0 <= i < s.len() ==> expr_set(data, cs, universe, fm, s[i]).contains(x) {
                assert forall|i: int| 0 <= i < s.drop_last().len() implies expr_set(data, cs, universe, fm, s.drop_last()[i]).contains(x) by {
                    assert(expr_set(data, cs, universe, fm, s[i]).contains(x));
                }
                assert(and_set(data, cs, universe, fm, s.drop_last()).contains(x));
                assert(expr_set(data, cs, universe, fm, s[s.len() - 1]).contains(x));
            }
        }
    } else if s.len() == 1 {
        assert(expr_set(data, cs, universe, fm, s[0]).subset_of(universe));
    }
}

proof fn lemma_or_set(data: RootIndexData, cs: bool, universe: Set<u32>, fm: FilterMatches, s: Seq<QueryExpression>)
    ensures
        forall|x: u32| #[trigger] or_set(data, cs, universe, fm, s).contains(x)
            <==> exists|i: int| 0 <= i < s.len() && expr_set(data, cs, universe, fm, s[i]).contains(x),
    decreases s.len(),
{
    if s.len() > 0 {
        lemma_or_set(data, cs, universe, fm, s.drop_last());
        assert forall|x: u32| #[trigger] or_set(data, cs, universe, fm, s).contains(x)
            <==> exists|i: int| 0 <= i < s.len() && expr_set(data, cs, universe, fm, s[i]).contains(x) by {
            if or_set(data, cs, universe, fm, s).contains(x) {
                if expr_set(data, cs, universe, fm, s.last()).contains(x) {
                    assert(expr_set(data, cs, universe, fm, s[s.len() - 1]).contains(x));
                } else {
                    assert(or_set(data, cs, universe, fm, s.drop_last()).contains(x));
                    let i = choose|i: int| 0 <= i < s.drop_last().len() && expr_set(data, cs, universe, fm, s.drop_last()[i]).contains(x);
                    assert(s.drop_last()[i] == s[i]);
                }
            }
            if exists|i: int| 0 <= i < s.len() && expr_set(data, cs, universe, fm, s[i]).contains(x) {
                let i = choose|i: int| 0 <= i < s.len() && expr_set(data, cs, universe, fm, s[i]).contains(x);
                if i < s.len() - 1 {
                    assert(s.drop_last()[i] == s[i]);
                    assert(or_set(data, cs, universe, fm, s.drop_last()).contains(x));
                }
            }
        }
    }
}

/// The ids of a list of candidates.
pub open spec fn cand_set(v: Seq<SlabIndex>) -> Set<u32> {
    Set::new(|x: u32| exists|k: int| 0 <= k < v.len() && #[trigger] v[k].raw() == x)
}

/// Two first matches are the same node.
proof fn lemma_first_ci_unique(m: Map<int, SlabNode>, count: nat, path: Seq<char>, a: int, b: int)
    requires
        first_ci_match(m, count, path, a),
        first_ci_match(m, count, path, b),
    ensures
        a == b,
{
    assert(m.dom().contains(a) && path_matches_ci(m, count, a, path));
    assert(m.dom().contains(b) && path_matches_ci(m, count, b, path));
    assert(forall|j: int| 0 <= j < b && #[trigger] m.dom().contains(j) ==> !path_matches_ci(m, count, j, path));
    assert(forall|j: int| 0 <= j < a && #[trigger] m.dom().contains(j) ==> !path_matches_ci(m, count, j, path));
}

/// The node a filter path names.
fn resolve_node(data: &RootIndexData, case_sensitive: bool, path: &str) -> (r: Option<SlabIndex>)
    requires
        data.wf(),
    ensures
        match resolve_path(*data, case_sensitive, path@) {
            Some(x) => r matches Some(s) && s.raw() == x,
            None => r is None,
        },
{
    let r = data.node_id_for_path(path, case_sensitive);
    proof {
        if !case_sensitive {
            let m = data.nodes();
            let count = data.file_nodes.count();
            match r {
                Some(s) => {
                    assert(first_ci_match(m, count, path@, s.raw() as int));
                    let c = choose|c: int| first_ci_match(m, count, path@, c);
                    lemma_first_ci_unique(m, count, path@, c, s.raw() as int);
                },
                None => {
                    if exists|c: int| first_ci_match(m, count, path@, c) {
                        let c = choose|c: int| first_ci_match(m, count, path@, c);
                        assert(m.dom().contains(c));
                    }
                },
            }
        }
    }
    r
}

/// Whether a candidate, seen at its computed path, satisfies a term.
fn matches_term_with_path(data: &RootIndexData, matcher: &SearchQueryMatcher, term: &QueryTerm, id: SlabIndex) -> (r: bool)
    requires
        data.wf(),
    ensures
        r == term_ok(*data, matcher.case_sensitive, *term, id.raw()),
{
    let node = match data.get_node(id) {
        None => return false,
        Some(n) => n,
    };
    let view = NodeView::new(data.file_nodes.slab(), id);
    let path = match view.compute_path("") {
        None => return false,
        Some(p) => p,
    };
    let r = matcher.matches_node_term(term, node, path.as_str());
    proof {
        let m = data.nodes();
        let c0 = choose|c| context_of(*node, path@, matcher.case_sensitive, c) && r == term_accepts(*term, c);
        if term_ok(*data, matcher.case_sensitive, *term, id.raw()) {
            let c1 = choose|c| context_of(m[id.raw() as int], path@, matcher.case_sensitive, c) && #[trigger] term_accepts(*term, c);
            lemma_context_decides(*node, path@, matcher.case_sensitive, c0, c1, *term);
        }
    }
    r
}

/// The candidates that satisfy a term one by one; `None` when cancelled.
fn generic_term_set(
    data: &RootIndexData,
    matcher: &SearchQueryMatcher,
    term: &QueryTerm,
    candidates: &Vec<SlabIndex>,
    universe: &BTreeSet<u32>,
    cancel: CancellationToken,
) -> (r: Option<BTreeSet<u32>>)
    requires
        data.wf(),
        universe@ == cand_set(candidates@),
    ensures
        r matches Some(s) ==> s@ == generic_set(*data, matcher.case_sensitive, universe@, *term),
        cancel.is_noop() ==> r is Some,
{
    let ghost cs = matcher.case_sensitive;
    let mut out: BTreeSet<u32> = BTreeSet::new();
    let mut i: usize = 0;
    while i < candidates.len()
        invariant
            data.wf(),
            cs == matcher.case_sensitive,
            i <= candidates@.len(),
            out@ == Set::new(|x: u32| cand_set(candidates@.subrange(0, i as int)).contains(x) && term_ok(*data, cs, *term, x)),
        decreases candidates@.len() - i,
    {
        if cancel.is_cancelled_sparse(i).is_none() {
            return None;
        }
        let c = candidates[i];
        let ghost before = out@;
        if matches_term_with_path(data, matcher, term, c) {
            out.insert(c.get() as u32);
        }
        proof {
            let sub = candidates@.subrange(0, i + 1);
            assert(out@ =~= Set::new(|x: u32| cand_set(sub).contains(x) && term_ok(*data, cs, *term, x))) by {
                assert forall|x: u32| #[trigger] out@.contains(x) implies cand_set(sub).contains(x) && term_ok(*data, cs, *term, x) by {
                    if before.contains(x) {
                        let k = choose|k: int| 0 <= k < i && #[trigger] candidates@.subrange(0, i as int)[k].raw() == x;
                        assert(sub[k] == candidates@.subrange(0, i as int)[k]);
                    } else {
                        assert(sub[i as int].raw() == x);
                    }
                }
                assert forall|x: u32| cand_set(sub).contains(x) && term_ok(*data, cs, *term, x) implies #[trigger] out@.contains(x) by {
                    let k = choose|k: int| 0 <= k < sub.len() && #[trigger] sub[k].raw() == x;
                    if k < i {
                        assert(candidates@.subrange(0, i as int)[k] == sub[k]);
                        assert(cand_set(candidates@.subrange(0, i as int)).contains(x));
                    }
                }
            }
        }
        i = i + 1;
    }
    proof {
        assert(candidates@.subrange(0, candidates@.len() as int) =~= candidates@);
        assert(out@ =~= generic_set(*data, cs, universe@, *term));
    }
    Some(out)
}

/// The ids handed in for a needle.
fn content_ids(fm: &FilterMatches, needle: &str) -> (r: BTreeSet<u32>)
    ensures
        r@ == content_lookup(fm.content@, needle@),
{
    let want = chars_of(needle);
    let mut i: usize = 0;
    assert(fm.content@.subrange(0, fm.content@.len() as int) =~= fm.content@);
    while i < fm.content.len()
        invariant
            i <= fm.content@.len(),
            want@ == needle@,
            content_lookup(fm.content@, needle@) == content_lookup(fm.content@.subrange(i as int, fm.content@.len() as int), needle@),
        decreases fm.content@.len() - i,
    {
        let ghost rest = fm.content@.subrange(i as int, fm.content@.len() as int);
        assert(rest.drop_first() =~= fm.content@.subrange(i + 1, fm.content@.len() as int));
        if chars_eq(&chars_of(fm.content[i].0.as_str()), &want) {
            return set_copy(&fm.content[i].1);
        }
        i = i + 1;
    }
    let empty: BTreeSet<u32> = BTreeSet::new();
    assert(empty@ =~= Set::<u32>::empty());
    empty
}

/// Whether two lists of strings read the same.
fn strings_eq(a: &Vec<String>, b: &Vec<String>) -> (r: bool)
    ensures
        r == (str_views(a@) == str_views(b@)),
{
    if a.len() != b.len() {
        assert(str_views(a@).len() != str_views(b@).len());
        return false;
    }
    let mut i: usize = 0;
    while i < a.len()
        invariant
            i <= a@.len(),
            a@.len() == b@.len(),
            forall|k: int| 0 <= k < i ==> a@[k]@ == b@[k]@,
        decreases a@.len() - i,
    {
        if !chars_eq(&chars_of(a[i].as_str()), &chars_of(b[i].as_str())) {
            assert(str_views(a@)[i as int] != str_views(b@)[i as int]);
            return false;
        }
        i = i + 1;
    }
    assert(str_views(a@) =~= str_views(b@));
    true
}

/// The ids handed in for a tag list.
fn tag_ids(fm: &FilterMatches, tags: &Vec<String>) -> (r: BTreeSet<u32>)
    ensures
        r@ == tag_lookup(fm.tags@, str_views(tags@)),
{
    let mut i: usize = 0;
    assert(fm.tags@.subrange(0, fm.tags@.len() as int) =~= fm.tags@);
    while i < fm.tags.len()
        invariant
            i <= fm.tags@.len(),
            tag_lookup(fm.tags@, str_views(tags@)) == tag_lookup(fm.tags@.subrange(i as int, fm.tags@.len() as int), str_views(tags@)),
        decreases fm.tags@.len() - i,
    {
        let ghost rest = fm.tags@.subrange(i as int, fm.tags@.len() as int);
        assert(rest.drop_first() =~= fm.tags@.subrange(i + 1, fm.tags@.len() as int));
        if strings_eq(&fm.tags[i].0, tags) {
            return set_copy(&fm.tags[i].1);
        }
        i = i + 1;
    }
    let empty: BTreeSet<u32> = BTreeSet::new();
    assert(empty@ =~= Set::<u32>::empty());
    empty
}

/// The files with one of the extensions.
fn collect_extension_ids(data: &RootIndexData, exts: &Vec<&str>) -> (r: BTreeSet<u32>)
    requires
        data.wf(),
    ensures
        r@ == ext_ids(data.nodes(), strs_views(exts@)),
{
    let ghost m = data.nodes();
    let ghost ev = strs_views(exts@);
    let mut out: BTreeSet<u32> = BTreeSet::new();
    let mut i: usize = 0;
    while i < exts.len()
        invariant
            data.wf(),
            m == data.nodes(),
            ev == strs_views(exts@),
            i <= exts@.len(),
            out@ == ext_ids(m, ev.subrange(0, i as int)),
        decreases exts@.len() - i,
    {
        let ids = data.indices_for_extension(exts[i]);
        let ghost before = out@;
        set_union_into(&mut out, &ids);
        proof {
            let sub = ev.subrange(0, i + 1);
            assert(sub[i as int] == exts@[i as int]@);
            assert(out@ =~= ext_ids(m, sub)) by {
                assert forall|x: u32| #[trigger] out@.contains(x) implies ext_ids(m, sub).contains(x) by {
                    if before.contains(x) {
                        let k = choose|k: int| 0 <= k < i && #[trigger] node_has_extension(m[x as int], ev.subrange(0, i as int)[k]);
                        assert(sub[k] == ev.subrange(0, i as int)[k]);
                    } else {
                        assert(node_has_extension(m[x as int], sub[i as int]));
                    }
                }
                assert forall|x: u32| ext_ids(m, sub).contains(x) implies #[trigger] out@.contains(x) by {
                    let k = choose|k: int| 0 <= k < sub.len() && #[trigger] node_has_extension(m[x as int], sub[k]);
                    if k < i {
                        assert(ev.subrange(0, i as int)[k] == sub[k]);
                        assert(before.contains(x));
                    }
                }
            }
        }
        i = i + 1;
    }
    assert(ev.subrange(0, exts@.len() as int) =~= ev);
    out
}

/// Borrowed views of strings.
fn as_strs(v: &Vec<String>) -> (r: Vec<&str>)
    ensures
        strs_views(r@) == str_views(v@),
{
    let mut out: Vec<&str> = Vec::new();
    let mut i: usize = 0;
    while i < v.len()
        invariant
            i <= v@.len(),
            out@.len() == i,
            forall|k: int| 0 <= k < i ==> #[trigger] out@[k]@ == v@[k]@,
        decreases v@.len() - i,
    {
        out.push(v[i].as_str());
        i = i + 1;
    }
    assert(strs_views(out@) =~= str_views(v@));
    out
}

/// The nodes of a type target.
fn type_target_ids(data: &RootIndexData, t: TypeFilterTarget) -> (r: BTreeSet<u32>)
    requires
        data.wf(),
    ensures
        r@ == type_ids(data.nodes(), t),
{
    match t {
        TypeFilterTarget::File => data.file_ids(),
        TypeFilterTarget::Directory => data.directory_ids(),
        TypeFilterTarget::Extensions(cat) => {
            let list = category_extension_list(cat);
            collect_extension_ids(data, &list)
        },
    }
}

/// The ids a filter narrows to from the index alone, if any.
fn prefilter_set_for_filter(data: &RootIndexData, f: &QueryFilter) -> (r: Option<BTreeSet<u32>>)
    requires
        data.wf(),
    ensures
        match prefilter_ids(data.nodes(), *f) {
            Some(p) => r matches Some(s) && s@ == p,
            None => r is None,
        },
{
    match f {
        QueryFilter::Extension(exts) => {
            let list = as_strs(exts);
            Some(collect_extension_ids(data, &list))
        },
        QueryFilter::Type(t) => Some(type_target_ids(data, *t)),
        QueryFilter::TypeMacro { target, .. } => Some(type_target_ids(data, *target)),
        QueryFilter::File { .. } => Some(type_target_ids(data, TypeFilterTarget::File)),
        QueryFilter::Folder { .. } => Some(type_target_ids(data, TypeFilterTarget::Directory)),
        _ => None,
    }
}

/// Whether the prefilter of a filter decides it on its own.
fn is_exact_prefilter_filter(f: &QueryFilter) -> (r: bool)
    ensures
        r == prefilter_exact(*f),
{
    match f {
        QueryFilter::Extension(_) => true,
        QueryFilter::Type(_) => true,
        QueryFilter::TypeMacro { argument, .. } => argument.is_none(),
        QueryFilter::File { argument } => argument.is_none(),
        QueryFilter::Folder { argument } => argument.is_none(),
        _ => false,
    }
}

/// The ids of a list that are in a set.
fn ids_in(v: &Vec<SlabIndex>, universe: &BTreeSet<u32>) -> (r: BTreeSet<u32>)
    ensures
        r@ == Set::new(|x: u32| exists|k: int| 0 <= k < v@.len() && #[trigger] v@[k].raw() == x).intersect(universe@),
{
    let mut out: BTreeSet<u32> = BTreeSet::new();
    let mut i: usize = 0;
    while i < v.len()
        invariant
            i <= v@.len(),
            out@ == Set::new(|x: u32| exists|k: int| 0 <= k < i && #[trigger] v@[k].raw() == x).intersect(universe@),
        decreases v@.len() - i,
    {
        let x = v[i].get() as u32;
        let ghost before = out@;
        if set_has(universe, x) {
            out.insert(x);
        }
        proof {
            assert(out@ =~= Set::new(|y: u32| exists|k: int| 0 <= k < i + 1 && #[trigger] v@[k].raw() == y).intersect(universe@)) by {
                assert forall|y: u32| #[trigger] out@.contains(y) implies Set::new(|y: u32| exists|k: int| 0 <= k < i + 1 && #[trigger] v@[k].raw() == y).intersect(universe@).contains(y) by {
                    if !before.contains(y) {
                        assert(v@[i as int].raw() == y);
                    }
                }
                assert forall|y: u32| Set::new(|y: u32| exists|k: int| 0 <= k < i + 1 && #[trigger] v@[k].raw() == y).intersect(universe@).contains(y)
                    implies #[trigger] out@.contains(y) by {
                    let k = choose|k: int| 0 <= k < i + 1 && #[trigger] v@[k].raw() == y;
                    if k < i {
                        assert(before.contains(y));
                    }
                }
            }
        }
        i = i + 1;
    }
    out
}

/// The child indices of a node, in order.
fn child_list(node: &SlabNode) -> (r: Vec<SlabIndex>)
    ensures
        r@.len() == node.children_view().len(),
        forall|k: int| 0 <= k < r@.len() ==> #[trigger] r@[k].raw() == node.children_view()[k],
{
    let n = crate::storage::index_types::thin_len(&node.children);
    let mut out: Vec<SlabIndex> = Vec::new();
    let mut i: usize = 0;
    while i < n
        invariant
            n == node.children_view().len(),
            i <= n,
            out@.len() == i,
            forall|k: int| 0 <= k < i ==> #[trigger] out@[k].raw() == node.children_view()[k],
        decreases n - i,
    {
        let c = crate::storage::index_types::thin_get(&node.children, i);
        out.push(c);
        i = i + 1;
    }
    out
}

/// The set a `parent:`, `infolder:` or `nosubfolders:` filter selects when
/// its path names a node; `None` when it does not apply.
fn structural_filter_set(
    data: &RootIndexData,
    matcher: &SearchQueryMatcher,
    term: &QueryTerm,
    f: &QueryFilter,
    universe: &BTreeSet<u32>,
    fm: &FilterMatches,
) -> (r: Option<BTreeSet<u32>>)
    requires
        data.wf(),
        *term == QueryTerm::Filter(*f),
    ensures
        r matches Some(s) ==> s@ == filter_set(*data, matcher.case_sensitive, universe@, *fm, *term, *f),
        r is None ==> match *f {
            QueryFilter::Parent { path } => match resolve_path(*data, matcher.case_sensitive, path@) {
                Some(pid) => !data.nodes().dom().contains(pid),
                None => true,
            },
            QueryFilter::InFolder { path } => resolve_path(*data, matcher.case_sensitive, path@) is None,
            QueryFilter::NoSubfolders { path } => resolve_path(*data, matcher.case_sensitive, path@) is None,
            _ => true,
        },
{
    let ghost m = data.nodes();
    let ghost count = data.file_nodes.count();
    match f {
        QueryFilter::Parent { path } => {
            let pid = match resolve_node(data, matcher.case_sensitive, path.as_str()) {
                None => return None,
                Some(p) => p,
            };
            let node = match data.get_node(pid) {
                None => return None,
                Some(n) => n,
            };
            let kids = child_list(node);
            let r = ids_in(&kids, universe);
            proof {
                let goal = Set::new(|x: u32| m[pid.raw() as int].children_view().contains(x)).intersect(universe@);
                assert(r@ =~= goal) by {
                    assert forall|x: u32| #[trigger] r@.contains(x) implies goal.contains(x) by {
                        let k = choose|k: int| 0 <= k < kids@.len() && #[trigger] kids@[k].raw() == x;
                        assert(node.children_view()[k] == x);
                    }
                    assert forall|x: u32| goal.contains(x) implies #[trigger] r@.contains(x) by {
                        let k = choose|k: int| 0 <= k < node.children_view().len() && node.children_view()[k] == x;
                        assert(kids@[k].raw() == x);
                    }
                }
            }
            Some(r)
        },
        QueryFilter::InFolder { path } => {
            let fid = match resolve_node(data, matcher.case_sensitive, path.as_str()) {
                None => return None,
                Some(p) => p,
            };
            let node = match data.get_node(fid) {
                None => {
                    let empty: BTreeSet<u32> = BTreeSet::new();
                    assert(empty@ =~= Set::<u32>::empty());
                    return Some(empty);
                },
                Some(n) => n,
            };
            let mut below: Vec<SlabIndex> = Vec::new();
            data.file_nodes.push_subnodes(node, data.file_nodes.len(), &mut below);
            let r = ids_in(&below, universe);
            proof {
                let list = subnodes_list(m, m[fid.raw() as int].children_view(), count);
                assert(crate::index::file_nodes::ids_of(below@) =~= list);
                let goal = below_ids(m, count, fid.raw() as int).intersect(universe@);
                assert(r@ =~= goal) by {
                    assert forall|x: u32| #[trigger] r@.contains(x) implies goal.contains(x) by {
                        let k = choose|k: int| 0 <= k < below@.len() && #[trigger] below@[k].raw() == x;
                        assert(list[k] == x as int);
                    }
                    assert forall|x: u32| goal.contains(x) implies #[trigger] r@.contains(x) by {
                        let k = choose|k: int| 0 <= k < list.len() && list[k] == x as int;
                        assert(crate::index::file_nodes::ids_of(below@)[k] == below@[k].raw() as int);
                        assert(below@[k].raw() == x);
                    }
                }
            }
            Some(r)
        },
        QueryFilter::NoSubfolders { path } => {
            let fid = match resolve_node(data, matcher.case_sensitive, path.as_str()) {
                None => return None,
                Some(p) => p,
            };
            let node = match data.get_node(fid) {
                None => {
                    let empty: BTreeSet<u32> = BTreeSet::new();
                    assert(empty@ =~= Set::<u32>::empty());
                    return Some(empty);
                },
                Some(n) => n,
            };
            let mut out: BTreeSet<u32> = BTreeSet::new();
            let fraw = fid.get() as u32;
            if set_has(universe, fraw) {
                out.insert(fraw);
            }
            let kids = child_list(node);
            let mut i: usize = 0;
            while i < kids.len()
                invariant
                    data.wf(),
                    m == data.nodes(),
                    fraw == fid.raw(),
                    *node == m[fid.raw() as int],
                    kids@.len() == node.children_view().len(),
                    forall|k: int| 0 <= k < kids@.len() ==> #[trigger] kids@[k].raw() == node.children_view()[k],
                    i <= kids@.len(),
                    out@ == Set::new(|x: u32| x == fraw).union(Set::new(|x: u32| exists|k: int| 0 <= k < i
                        && #[trigger] kids@[k].raw() == x && m.dom().contains(x as int) && node_is_file(m[x as int]))).intersect(universe@),
                decreases kids@.len() - i,
            {
                let c = kids[i];
                let ghost before = out@;
                match data.get_node(c) {
                    Some(cn) => {
                        if cn.is_file() && set_has(universe, c.get() as u32) {
                            out.insert(c.get() as u32);
                        }
                    },
                    None => {},
                }
                proof {
                    let goal = Set::new(|x: u32| x == fraw).union(Set::new(|x: u32| exists|k: int| 0 <= k < i + 1
                        && #[trigger] kids@[k].raw() == x && m.dom().contains(x as int) && node_is_file(m[x as int]))).intersect(universe@);
                    assert(out@ =~= goal) by {
                        assert forall|x: u32| #[trigger] out@.contains(x) implies goal.contains(x) by {
                            if !before.contains(x) {
                                assert(kids@[i as int].raw() == x);
                            }
                        }
                        assert forall|x: u32| goal.contains(x) implies #[trigger] out@.contains(x) by {
                            if x != fraw {
                                let k = choose|k: int| 0 <= k < i + 1 && #[trigger] kids@[k].raw() == x
                                    && m.dom().contains(x as int) && node_is_file(m[x as int]);
                                if k < i {
                                    assert(before.contains(x));
                                }
                            }
                        }
                    }
                }
                i = i + 1;
            }
            proof {
                let goal = Set::new(|x: u32| x as int == fid.raw() as int).union(file_children(m, fid.raw() as int)).intersect(universe@);
                assert(out@ =~= goal) by {
                    assert forall|x: u32| #[trigger] out@.contains(x) implies goal.contains(x) by {
                        if x != fraw {
                            let k = choose|k: int| 0 <= k < kids@.len() && #[trigger] kids@[k].raw() == x
                                && m.dom().contains(x as int) && node_is_file(m[x as int]);
                            assert(node.children_view()[k] == x);
                        }
                    }
                    assert forall|x: u32| goal.contains(x) implies #[trigger] out@.contains(x) by {
                        if x != fraw {
                            let k = choose|k: int| 0 <= k < node.children_view().len() && node.children_view()[k] == x;
                            assert(kids@[k].raw() == x);
                        }
                    }
                }
            }
            Some(out)
        },
        _ => None,
    }
}

/// The set a term selects among the candidates (see `term_set`); `None`
/// when cancelled.
pub fn evaluate_term_set(
    data: &RootIndexData,
    matcher: &SearchQueryMatcher,
    term: &QueryTerm,
    candidates: &Vec<SlabIndex>,
    universe: &BTreeSet<u32>,
    fm: &FilterMatches,
    cancel: CancellationToken,
) -> (r: Option<BTreeSet<u32>>)
    requires
        data.wf(),
        universe@ == cand_set(candidates@),
    ensures
        r matches Some(s) ==> s@ == term_set(*data, matcher.case_sensitive, universe@, *fm, *term),
        cancel.is_noop() ==> r is Some,
{
    let cs = matcher.case_sensitive;
    match term {
        QueryTerm::Text(value) => {
            let segments = segment_query_text(value.as_str());
            let matched = match execute_text_segments(data, &segments, cs, cancel) {
                None => return None,
                Some(x) => x,
            };
            Some(set_intersect(&matched, universe))
        },
        QueryTerm::Filter(f) => {
            match f {
                QueryFilter::Content { needle } => {
                    if cancel.is_cancelled().is_none() {
                        return None;
                    }
                    if chars_of(needle.as_str()).len() == 0 {
                        let empty: BTreeSet<u32> = BTreeSet::new();
                        assert(empty@ =~= Set::<u32>::empty());
                        return Some(empty);
                    }
                    let found = content_ids(fm, needle.as_str());
                    return Some(set_intersect(&found, universe));
                },
                QueryFilter::Tag { tags } => {
                    if cancel.is_cancelled().is_none() {
                        return None;
                    }
                    if tags.len() == 0 {
                        let empty: BTreeSet<u32> = BTreeSet::new();
                        assert(empty@ =~= Set::<u32>::empty());
                        return Some(empty);
                    }
                    let found = tag_ids(fm, tags);
                    return Some(set_intersect(&found, universe));
                },
                _ => {},
            }
            match structural_filter_set(data, matcher, term, f, universe, fm) {
                Some(s) => return Some(s),
                None => {},
            }
            match prefilter_set_for_filter(data, f) {
                Some(p) => {
                    let narrowed = set_intersect(&p, universe);
                    if is_exact_prefilter_filter(f) {
                        return Some(narrowed);
                    }
                    let generic = match generic_term_set(data, matcher, term, candidates, universe, cancel) {
                        None => return None,
                        Some(g) => g,
                    };
                    proof {
                        assert(generic@.subset_of(universe@));
                        assert(narrowed@.intersect(generic@) =~= p@.intersect(universe@).intersect(generic@));
                    }
                    Some(set_intersect(&narrowed, &generic))
                },
                None => generic_term_set(data, matcher, term, candidates, universe, cancel),
            }
        },
    }
}

/// The set an expression selects among the candidates (see `expr_set`);
/// `None` when cancelled.
pub fn evaluate_expression_set(
    data: &RootIndexData,
    matcher: &SearchQueryMatcher,
    expr: &QueryExpression,
    candidates: &Vec<SlabIndex>,
    universe: &BTreeSet<u32>,
    fm: &FilterMatches,
    cancel: CancellationToken,
) -> (r: Option<BTreeSet<u32>>)
    requires
        data.wf(),
        universe@ == cand_set(candidates@),
    ensures
        r matches Some(s) ==> s@ == expr_set(*data, matcher.case_sensitive, universe@, *fm, *expr),
        cancel.is_noop() ==> r is Some,
    decreases expr,
{
    if cancel.is_cancelled().is_none() {
        return None;
    }
    match expr {
        QueryExpression::Term(t) => evaluate_term_set(data, matcher, t, candidates, universe, fm, cancel),
        QueryExpression::Not(inner) => {
            let inner_set = match evaluate_expression_set(data, matcher, inner, candidates, universe, fm, cancel) {
                None => return None,
                Some(x) => x,
            };
            Some(set_difference(universe, &inner_set))
        },
        QueryExpression::And(parts) => {
            proof {
                assert(decreases_to!(*expr => *parts));
            }
            evaluate_and(data, matcher, parts, candidates, universe, fm, cancel)
        },
        QueryExpression::Or(parts) => {
            proof {
                assert(decreases_to!(*expr => *parts));
            }
            evaluate_or(data, matcher, parts, candidates, universe, fm, cancel)
        },
    }
}

/// The intersection of the parts' sets; all candidates for no parts. Once
/// the intersection is empty the remaining parts are not evaluated.
fn evaluate_and(
    data: &RootIndexData,
    matcher: &SearchQueryMatcher,
    parts: &Vec<QueryExpression>,
    candidates: &Vec<SlabIndex>,
    universe: &BTreeSet<u32>,
    fm: &FilterMatches,
    cancel: CancellationToken,
) -> (r: Option<BTreeSet<u32>>)
    requires
        data.wf(),
        universe@ == cand_set(candidates@),
    ensures
        r matches Some(s) ==> s@ == and_set(*data, matcher.case_sensitive, universe@, *fm, parts@),
        cancel.is_noop() ==> r is Some,
    decreases parts,
{
    let ghost cs = matcher.case_sensitive;
    if parts.len() == 0 {
        return Some(set_copy(universe));
    }
    proof {
        assert(decreases_to!(*parts => parts@[0]));
    }
    let mut set = match evaluate_expression_set(data, matcher, &parts[0], candidates, universe, fm, cancel) {
        None => return None,
        Some(x) => x,
    };
    proof {
        assert(parts@.subrange(0, 1) =~= seq![parts@[0]]);
    }
    let mut i: usize = 1;
    let mut done = false;
    while i < parts.len() && !done
        invariant
            data.wf(),
            universe@ == cand_set(candidates@),
            cs == matcher.case_sensitive,
            1 <= i <= parts@.len(),
            !done ==> set@ == and_set(*data, cs, universe@, *fm, parts@.subrange(0, i as int)),
            done ==> set@ == and_set(*data, cs, universe@, *fm, parts@),
        decreases parts@.len() - i,
    {
        if cancel.is_cancelled().is_none() {
            return None;
        }
        proof {
            assert(decreases_to!(*parts => parts@[i as int]));
        }
        let other = match evaluate_expression_set(data, matcher, &parts[i], candidates, universe, fm, cancel) {
            None => return None,
            Some(x) => x,
        };
        proof {
            let sub = parts@.subrange(0, i + 1);
            assert(sub.drop_last() =~= parts@.subrange(0, i as int));
            assert(sub.last() == parts@[i as int]);
        }
        set = set_intersect(&set, &other);
        if set.is_empty() {
            proof {
                assert(set@.len() == 0);
                lemma_and_empty(*data, cs, universe@, *fm, parts@, i as int + 1);
            }
            done = true;
        }
        i = i + 1;
    }
    proof {
        if !done {
            assert(parts@.subrange(0, parts@.len() as int) =~= parts@);
        }
    }
    Some(set)
}

/// Once a prefix of the parts intersects to nothing, so do all the parts.
proof fn lemma_and_empty(data: RootIndexData, cs: bool, universe: Set<u32>, fm: FilterMatches, s: Seq<QueryExpression>, n: int)
    requires
        1 <= n <= s.len(),
        and_set(data, cs, universe, fm, s.subrange(0, n)).len() == 0,
        and_set(data, cs, universe, fm, s.subrange(0, n)).finite(),
    ensures
        and_set(data, cs, universe, fm, s) == Set::<u32>::empty(),
    decreases s.len() - n,
{
    let a = and_set(data, cs, universe, fm, s.subrange(0, n));
    assert(a =~= Set::<u32>::empty()) by {
        if exists|x: u32| a.contains(x) {
            let x = choose|x: u32| a.contains(x);
            a.lemma_len0_is_empty();
        }
    }
    if n == s.len() {
        assert(s.subrange(0, n) =~= s);
    } else {
        let next = s.subrange(0, n + 1);
        assert(next.drop_last() =~= s.subrange(0, n));
        assert(and_set(data, cs, universe, fm, next) =~= Set::<u32>::empty());
        lemma_and_empty(data, cs, universe, fm, s, n + 1);
    }
}

/// The union of the parts' sets.
fn evaluate_or(
    data: &RootIndexData,
    matcher: &SearchQueryMatcher,
    parts: &Vec<QueryExpression>,
    candidates: &Vec<SlabIndex>,
    universe: &BTreeSet<u32>,
    fm: &FilterMatches,
    cancel: CancellationToken,
) -> (r: Option<BTreeSet<u32>>)
    requires
        data.wf(),
        universe@ == cand_set(candidates@),
    ensures
        r matches Some(s) ==> s@ == or_set(*data, matcher.case_sensitive, universe@, *fm, parts@),
        cancel.is_noop() ==> r is Some,
    decreases parts,
{
    let ghost cs = matcher.case_sensitive;
    let mut set: BTreeSet<u32> = BTreeSet::new();
    let mut i: usize = 0;
    assert(set@ =~= or_set(*data, cs, universe@, *fm, parts@.subrange(0, 0)));
    while i < parts.len()
        invariant
            data.wf(),
            universe@ == cand_set(candidates@),
            cs == matcher.case_sensitive,
            i <= parts@.len(),
            set@ == or_set(*data, cs, universe@, *fm, parts@.subrange(0, i as int)),
        decreases parts@.len() - i,
    {
        if cancel.is_cancelled().is_none() {
            return None;
        }
        proof {
            assert(decreases_to!(*parts => parts@[i as int]));
        }
        let other = match evaluate_expression_set(data, matcher, &parts[i], candidates, universe, fm, cancel) {
            None => return None,
            Some(x) => x,
        };
        proof {
            let sub = parts@.subrange(0, i + 1);
            assert(sub.drop_last() =~= parts@.subrange(0, i as int));
            assert(sub.last() == parts@[i as int]);
        }
        set_union_into(&mut set, &other);
        i = i + 1;
    }
    assert(parts@.subrange(0, parts@.len() as int) =~= parts@);
    Some(set)
}

} // verus!
