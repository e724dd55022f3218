//! Evaluation of query terms against an entry.

use vstd::prelude::*;
use crate::query::context::context_of;
use crate::storage::node::SlabNode;
use crate::query::context::NodeQueryContext;
use crate::query::date_filter::date_kind_accepts;
use crate::query::expression::{QueryFilter, QueryTerm};
use crate::query::path::{descendant, direct_child, is_descendant_path, is_direct_child_path};
use crate::query::size::size_satisfies;
use crate::query::text_match::{text_match, text_matches};
use crate::query::type_filter::{category_extensions, category_has_extension, TypeFilterTarget};
use crate::storage::node::NodeFileType;
use crate::strings::{chars_eq, chars_of, opt_string_view, str_views};

verus! {

/// Whether a text matches an entry's name, path and path segments.
pub open spec fn text_matches_ctx(value: Seq<char>, c: NodeQueryContext) -> bool {
    text_match(value, c.name@, c.path@, str_views(c.path_segments@))
}

/// Whether an entry is of a type target: a file, a directory, or a file
/// with an extension of the category.
pub open spec fn type_target_matches(t: TypeFilterTarget, c: NodeQueryContext) -> bool {
    match t {
        TypeFilterTarget::File => c.file_type == NodeFileType::File,
        TypeFilterTarget::Directory => c.file_type == NodeFileType::Dir,
        TypeFilterTarget::Extensions(cat) => c.file_type == NodeFileType::File && match opt_string_view(c.extension) {
            Some(e) => category_extensions(cat).contains(e),
            None => false,
        },
    }
}

/// An optional text argument: absent matches everything.
pub open spec fn argument_matches(a: Option<String>, c: NodeQueryContext) -> bool {
    match a {
        None => true,
        Some(v) => text_matches_ctx(v@, c),
    }
}

/// Whether a filter accepts an entry. Content and tag filters are decided
/// elsewhere (they read files) and accept nothing here; a date filter needs
/// the date to be known.
pub open spec fn filter_accepts(f: QueryFilter, c: NodeQueryContext) -> bool {
    match f {
        QueryFilter::Extension(exts) => c.file_type == NodeFileType::File && match opt_string_view(c.extension) {
            Some(e) => str_views(exts@).contains(e),
            None => false,
        },
        QueryFilter::Type(t) => type_target_matches(t, c),
        QueryFilter::TypeMacro { target, argument } => type_target_matches(target, c) && argument_matches(argument, c),
        QueryFilter::File { argument } => c.file_type == NodeFileType::File && argument_matches(argument, c),
        QueryFilter::Folder { argument } => c.file_type == NodeFileType::Dir && argument_matches(argument, c),
        QueryFilter::Parent { path } => direct_child(c.comparable_path@, path@),
        QueryFilter::InFolder { path } => descendant(c.comparable_path@, path@),
        QueryFilter::NoSubfolders { path } => c.comparable_path@ == path@
            || (c.file_type == NodeFileType::File && direct_child(c.comparable_path@, path@)),
        QueryFilter::Size(p) => c.file_type == NodeFileType::File && match c.size {
            Some(s) => size_satisfies(p, s),
            None => false,
        },
        QueryFilter::Content { .. } => false,
        QueryFilter::Tag { .. } => false,
        QueryFilter::DateModified(p) => match c.modified_at {
            Some(t) => date_kind_accepts(p.kind, t as i64),
            None => false,
        },
        QueryFilter::DateCreated(p) => match c.created_at {
            Some(t) => date_kind_accepts(p.kind, t as i64),
            None => false,
        },
    }
}

/// Whether a term accepts an entry.
pub open spec fn term_accepts(t: QueryTerm, c: NodeQueryContext) -> bool {
    match t {
        QueryTerm::Text(v) => text_matches_ctx(v@, c),
        QueryTerm::Filter(f) => filter_accepts(f, c),
    }
}

/// A text term is decided by text matching against the entry's name, path
/// and path segments, a filter by the filter alone; content and tag
/// filters accept nothing here (the search engine decides them).
pub proof fn law_term_evaluation(t: QueryTerm, c: NodeQueryContext)
    ensures
        t matches QueryTerm::Text(v) ==> term_accepts(t, c) == text_match(v@, c.name@, c.path@, str_views(c.path_segments@)),
        t matches QueryTerm::Filter(f) ==> term_accepts(t, c) == filter_accepts(f, c),
        t matches QueryTerm::Filter(f) ==> (f is Content || f is Tag ==> !term_accepts(t, c)),
{
}

/// Two contexts of the same node at the same path decide every term alike.
pub proof fn lemma_context_decides(node: SlabNode, path: Seq<char>, case_sensitive: bool, c1: NodeQueryContext, c2: NodeQueryContext, t: QueryTerm)
    requires
        context_of(node, path, case_sensitive, c1),
        context_of(node, path, case_sensitive, c2),
    ensures
        term_accepts(t, c1) == term_accepts(t, c2),
{
}

fn text_matches_node(value: &str, context: &NodeQueryContext) -> (r: bool)
    ensures
        r == text_matches_ctx(value@, *context),
{
    text_matches(value, context.name(), context.path(), context.path_segments())
}

fn argument_matches_node(argument: &Option<String>, context: &NodeQueryContext) -> (r: bool)
    ensures
        r == argument_matches(*argument, *context),
{
    match argument {
        None => true,
        Some(v) => text_matches_node(v.as_str(), context),
    }
}

fn matches_node_type_filter_target(target: &TypeFilterTarget, context: &NodeQueryContext) -> (r: bool)
    ensures
        r == type_target_matches(*target, *context),
{
    match target {
        TypeFilterTarget::File => context.is_file(),
        TypeFilterTarget::Directory => context.is_dir(),
        TypeFilterTarget::Extensions(cat) => {
            if !context.is_file() {
                return false;
            }
            match context.extension() {
                None => false,
                Some(e) => {
                    let ev = chars_of(e);
                    category_has_extension(*cat, &ev)
                },
            }
        },
    }
}

fn any_equal(list: &Vec<String>, value: &str) -> (r: bool)
    ensures
        r == str_views(list@).contains(value@),
{
    let v = chars_of(value);
    let mut i: usize = 0;
    while i < list.len()
        invariant
            i <= list@.len(),
            v@ == value@,
            forall|k: int| 0 <= k < i ==> list@[k]@ != value@,
        decreases list@.len() - i,
    {
        let w = chars_of(list[i].as_str());
        if chars_eq(&w, &v) {
            assert(str_views(list@)[i as int] == value@);
            return true;
        }
        i = i + 1;
    }
    proof {
        if str_views(list@).contains(value@) {
            let k = choose|k: int| 0 <= k < str_views(list@).len() && str_views(list@)[k] == value@;
            assert(list@[k]@ == value@);
        }
    }
    false
}

fn evaluate_node_query_filter(filter: &QueryFilter, context: &NodeQueryContext) -> (r: bool)
    ensures
        r == filter_accepts(*filter, *context),
{
    match filter {
        QueryFilter::Extension(extensions) => {
            if !context.is_file() {
                return false;
            }
            match context.extension() {
                None => false,
                Some(e) => any_equal(extensions, e),
            }
        },
        QueryFilter::Type(target) => matches_node_type_filter_target(target, context),
        QueryFilter::TypeMacro { target, argument } => {
            if !matches_node_type_filter_target(target, context) {
                return false;
            }
            argument_matches_node(argument, context)
        },
        QueryFilter::File { argument } => {
            if !context.is_file() {
                return false;
            }
            argument_matches_node(argument, context)
        },
        QueryFilter::Folder { argument } => {
            if !context.is_dir() {
                return false;
            }
            argument_matches_node(argument, context)
        },
        QueryFilter::Parent { path } => is_direct_child_path(context.comparable_path(), path.as_str()),
        QueryFilter::InFolder { path } => is_descendant_path(context.comparable_path(), path.as_str()),
        QueryFilter::NoSubfolders { path } => {
            let c = chars_of(context.comparable_path());
            let p = chars_of(path.as_str());
            chars_eq(&c, &p) || (context.is_file() && is_direct_child_path(context.comparable_path(), path.as_str()))
        },
        QueryFilter::Size(predicate) => {
            if !context.is_file() {
                return false;
            }
            match context.size() {
                None => false,
                Some(size) => predicate.matches(size),
            }
        },
        QueryFilter::Content { .. } => false,
        QueryFilter::Tag { .. } => false,
        QueryFilter::DateModified(predicate) => match context.modified_at() {
            None => false,
            Some(t) => predicate.matches(t as i64),
        },
        QueryFilter::DateCreated(predicate) => match context.created_at() {
            None => false,
            Some(t) => predicate.matches(t as i64),
        },
    }
}

/// Evaluates a query term against an entry's context.
pub fn evaluate_node_query_term(term: &QueryTerm, context: &NodeQueryContext) -> (r: bool)
    ensures
        r == term_accepts(*term, *context),
{
    match term {
        QueryTerm::Text(value) => text_matches_node(value.as_str(), context),
        QueryTerm::Filter(filter) => evaluate_node_query_filter(filter, context),
    }
}

} // verus!
