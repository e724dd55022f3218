//! The work a search hands to the caller between planning and finishing:
//! which file contents and which Finder tags must be read, and for which
//! candidate files.

use vstd::prelude::*;

use crate::index::data::{node_is_file, path_of, RootIndexData};
use crate::query::expression::{QueryExpression, QueryFilter, QueryTerm};
use crate::search::run::SearchPlan;
use crate::storage::index_types::SlabIndex;
use crate::strings::str_views;
use crate::workspace::state::copy_strings;

verus! {

/// Candidate sets above this size look tags up through Spotlight rather
/// than reading each file's metadata.
pub const TAG_FILTER_MDFIND_THRESHOLD: usize = 10000;

/// The content needles of an expression, in the order met.
pub open spec fn needles_in(e: QueryExpression) -> Seq<Seq<char>>
    decreases e,
{
    match e {
        QueryExpression::Term(QueryTerm::Filter(QueryFilter::Content { needle })) => seq![needle@],
        QueryExpression::Term(_) => Seq::empty(),
        QueryExpression::Not(b) => needles_in(*b),
        QueryExpression::And(parts) => needles_in_all(parts@),
        QueryExpression::Or(parts) => needles_in_all(parts@),
    }
}

/// The content needles of a list of expressions, in order.
pub open spec fn needles_in_all(s: Seq<QueryExpression>) -> Seq<Seq<char>>
    decreases s,
{
    if s.len() == 0 {
        Seq::empty()
    } else {
        needles_in_all(s.drop_last()) + needles_in(s.last())
    }
}

/// The tag lists of an expression, in the order met.
pub open spec fn tag_lists_in(e: QueryExpression) -> Seq<Seq<Seq<char>>>
    decreases e,
{
    match e {
        QueryExpression::Term(QueryTerm::Filter(QueryFilter::Tag { tags })) => seq![str_views(tags@)],
        QueryExpression::Term(_) => Seq::empty(),
        QueryExpression::Not(b) => tag_lists_in(*b),
        QueryExpression::And(parts) => tag_lists_in_all(parts@),
        QueryExpression::Or(parts) => tag_lists_in_all(parts@),
    }
}

/// The tag lists of a list of expressions, in order.
pub open spec fn tag_lists_in_all(s: Seq<QueryExpression>) -> Seq<Seq<Seq<char>>>
    decreases s,
{
    if s.len() == 0 {
        Seq::empty()
    } else {
        tag_lists_in_all(s.drop_last()) + tag_lists_in(s.last())
    }
}

/// The views of a list of string lists.
pub open spec fn lists_view(v: Seq<Vec<String>>) -> Seq<Seq<Seq<char>>> {
    v.map_values(|l: Vec<String>| str_views(l@))
}

/// Appends the content needles and tag lists of an expression.
fn collect_filters(e: &QueryExpression, needles: &mut Vec<String>, tags: &mut Vec<Vec<String>>)
    ensures
        str_views(final(needles)@) == str_views(old(needles)@) + needles_in(*e),
        lists_view(final(tags)@) == lists_view(old(tags)@) + tag_lists_in(*e),
    decreases e,
{
    match e {
        QueryExpression::Term(QueryTerm::Filter(QueryFilter::Content { needle })) => {
            let ghost before = needles@;
            needles.push(needle.clone());
            assert(str_views(needles@) =~= str_views(before) + seq![needle@]);
            assert(lists_view(tags@) =~= lists_view(tags@) + Seq::<Seq<Seq<char>>>::empty());
        },
        QueryExpression::Term(QueryTerm::Filter(QueryFilter::Tag { tags: list })) => {
            let ghost before = tags@;
            tags.push(copy_strings(list));
            assert(lists_view(tags@) =~= lists_view(before) + seq![str_views(list@)]);
            assert(str_views(needles@) =~= str_views(needles@) + Seq::<Seq<char>>::empty());
        },
        QueryExpression::Term(_) => {
            assert(str_views(needles@) =~= str_views(needles@) + Seq::<Seq<char>>::empty());
            assert(lists_view(tags@) =~= lists_view(tags@) + Seq::<Seq<Seq<char>>>::empty());
        },
        QueryExpression::Not(inner) => {
            collect_filters(inner, needles, tags);
        },
        QueryExpression::And(parts) => {
            proof {
                assert(decreases_to!(*e => *parts));
            }
            collect_filters_all(parts, needles, tags);
        },
        QueryExpression::Or(parts) => {
            proof {
                assert(decreases_to!(*e => *parts));
            }
            collect_filters_all(parts, needles, tags);
        },
    }
}

/// Appends the content needles and tag lists of a list of expressions.
fn collect_filters_all(parts: &Vec<QueryExpression>, needles: &mut Vec<String>, tags: &mut Vec<Vec<String>>)
    ensures
        str_views(final(needles)@) == str_views(old(needles)@) + needles_in_all(parts@),
        lists_view(final(tags)@) == lists_view(old(tags)@) + tag_lists_in_all(parts@),
    decreases parts,
{
    let ghost n0 = str_views(needles@);
    let ghost t0 = lists_view(tags@);
    let mut i: usize = 0;
    assert(parts@.subrange(0, 0) =~= Seq::<QueryExpression>::empty());
    assert(n0 + Seq::<Seq<char>>::empty() =~= n0);
    assert(t0 + Seq::<Seq<Seq<char>>>::empty() =~= t0);
    while i < parts.len()
        invariant
            i <= parts@.len(),
            str_views(needles@) == n0 + needles_in_all(parts@.subrange(0, i as int)),
            lists_view(tags@) == t0 + tag_lists_in_all(parts@.subrange(0, i as int)),
        decreases parts@.len() - i,
    {
        proof {
            assert(decreases_to!(*parts => parts@[i as int]));
        }
        let ghost nb = str_views(needles@);
        let ghost tb = lists_view(tags@);
        collect_filters(&parts[i], needles, tags);
        proof {
            let sub = parts@.subrange(0, i + 1);
            assert(sub.drop_last() =~= parts@.subrange(0, i as int));
            assert(sub.last() == parts@[i as int]);
            assert(str_views(needles@) =~= n0 + needles_in_all(sub));
            assert(lists_view(tags@) =~= t0 + tag_lists_in_all(sub));
        }
        i = i + 1;
    }
    assert(parts@.subrange(0, i as int) =~= parts@);
}

/// A candidate whose file must be read, with its full path.
pub struct FileCheck {
    pub id: SlabIndex,
    pub path: String,
}

/// The candidates of `cands` whose node is present, is a file (when
/// `files_only`), and has a path, with those paths.
pub open spec fn checked_files(data: RootIndexData, cands: Seq<SlabIndex>, files_only: bool) -> Seq<(u32, Seq<char>)>
    decreases cands.len(),
{
    if cands.len() == 0 {
        Seq::empty()
    } else {
        let rest = checked_files(data, cands.drop_last(), files_only);
        let id = cands.last().raw() as int;
        let m = data.nodes();
        if m.dom().contains(id) && (!files_only || node_is_file(m[id])) && path_of(m, data.file_nodes.count(), id) is Some {
            rest.push((cands.last().raw(), path_of(m, data.file_nodes.count(), id)->0))
        } else {
            rest
        }
    }
}

/// The views of file checks.
pub open spec fn checks_view(v: Seq<FileCheck>) -> Seq<(u32, Seq<char>)> {
    v.map_values(|c: FileCheck| (c.id.raw(), c.path@))
}

/// The candidates to read, with their paths (see `checked_files`).
fn files_to_check(data: &RootIndexData, cands: &Vec<SlabIndex>, files_only: bool) -> (r: Vec<FileCheck>)
    requires
        data.wf(),
    ensures
        checks_view(r@) == checked_files(*data, cands@, files_only),
{
    let mut out: Vec<FileCheck> = Vec::new();
    let mut i: usize = 0;
    assert(cands@.subrange(0, 0) =~= Seq::<SlabIndex>::empty());
    while i < cands.len()
        invariant
            data.wf(),
            i <= cands@.len(),
            checks_view(out@) == checked_files(*data, cands@.subrange(0, i as int), files_only),
        decreases cands@.len() - i,
    {
        let id = cands[i];
        let ghost before = checks_view(out@);
        proof {
            let sub = cands@.subrange(0, i + 1);
            assert(sub.drop_last() =~= cands@.subrange(0, i as int));
            assert(sub.last() == id);
        }
        let wanted = match data.get_node(id) {
            None => false,
            Some(node) => !files_only || node.is_file(),
        };
        if wanted {
            if let Some(path) = data.node_path(id) {
                out.push(FileCheck { id, path });
                assert(checks_view(out@) =~= before.push((id.raw(), path@)));
            }
        }
        i = i + 1;
    }
    assert(cands@.subrange(0, i as int) =~= cands@);
    out
}

/// What the caller must look up for a planned search: the content needles
/// and tag lists of the query, the candidate files whose contents are read
/// (files with a path), and those whose tags are read (any node with a
/// path).
pub struct ExternalWork {
    pub needles: Vec<String>,
    pub tag_lists: Vec<Vec<String>>,
    pub content_files: Vec<FileCheck>,
    pub tag_files: Vec<FileCheck>,
}

/// The lookups a planned search needs before it can be finished.
pub fn external_work(data: &RootIndexData, plan: &SearchPlan) -> (r: ExternalWork)
    requires
        data.wf(),
    ensures
        str_views(r.needles@) == needles_in(plan.matcher.expression),
        lists_view(r.tag_lists@) == tag_lists_in(plan.matcher.expression),
        checks_view(r.content_files@) == (if r.needles@.len() == 0 {
            Seq::empty()
        } else {
            checked_files(*data, plan.candidates@, true)
        }),
        checks_view(r.tag_files@) == (if r.tag_lists@.len() == 0 {
            Seq::empty()
        } else {
            checked_files(*data, plan.candidates@, false)
        }),
{
    let mut needles: Vec<String> = Vec::new();
    let mut tag_lists: Vec<Vec<String>> = Vec::new();
    collect_filters(&plan.matcher.expression, &mut needles, &mut tag_lists);
    assert(str_views(needles@) =~= needles_in(plan.matcher.expression));
    assert(lists_view(tag_lists@) =~= tag_lists_in(plan.matcher.expression));
    let content_files = if needles.len() == 0 {
        Vec::new()
    } else {
        files_to_check(data, &plan.candidates, true)
    };
    let tag_files = if tag_lists.len() == 0 {
        Vec::new()
    } else {
        files_to_check(data, &plan.candidates, false)
    };
    proof {
        if needles@.len() == 0 {
            assert(checks_view(content_files@) =~= Seq::<(u32, Seq<char>)>::empty());
        }
        if tag_lists@.len() == 0 {
            assert(checks_view(tag_files@) =~= Seq::<(u32, Seq<char>)>::empty());
        }
    }
    ExternalWork { needles, tag_lists, content_files, tag_files }
}

/// Whether tags are looked up through Spotlight: only for more candidates
/// than `TAG_FILTER_MDFIND_THRESHOLD`.
pub fn use_spotlight_for_tags(candidate_count: usize) -> (r: bool)
    ensures
        r == (candidate_count > TAG_FILTER_MDFIND_THRESHOLD),
{
    candidate_count > TAG_FILTER_MDFIND_THRESHOLD
}

} // verus!
