//! Query expression types and their mathematical model.
//!
//! A `QueryExpression` is viewed as a `SpecExpr`: strings become character
//! sequences, child vectors become sequences, and a date filter is viewed
//! by the text it was read from (its timestamps depend on the clock).

use vstd::prelude::*;
use crate::query::date_filter::{predicate_resolved, valid_date, CivilDate, DatePredicate, DateQuery};
use crate::query::size::SizePredicate;
use crate::query::type_filter::TypeFilterTarget;
use crate::strings::{lower_char, lower_seq, lower_string, str_views};

verus! {

/// A parsed query expression (AST node).
#[derive(Debug)]
pub enum QueryExpression {
    Term(QueryTerm),
    Not(Box<QueryExpression>),
    And(Vec<QueryExpression>),
    Or(Vec<QueryExpression>),
}

/// A single query term (leaf node in the AST).
#[derive(Debug)]
pub enum QueryTerm {
    Text(String),
    Filter(QueryFilter),
}

/// A query filter (typed constraint).
#[derive(Debug)]
pub enum QueryFilter {
    Extension(Vec<String>),
    Type(TypeFilterTarget),
    TypeMacro { target: TypeFilterTarget, argument: Option<String> },
    File { argument: Option<String> },
    Folder { argument: Option<String> },
    Parent { path: String },
    InFolder { path: String },
    NoSubfolders { path: String },
    Size(SizePredicate),
    /// Content search filter; the needle to search file contents for.
    Content { needle: String },
    /// Finder tag filter: files carrying any of the tags.
    Tag { tags: Vec<String> },
    /// Date modified filter (`dm:` / `datemodified:`).
    DateModified(DatePredicate),
    /// Date created filter (`dc:` / `datecreated:`).
    DateCreated(DatePredicate),
}

/// The model of a filter.
pub enum SpecFilter {
    Extension(Seq<Seq<char>>),
    Type(TypeFilterTarget),
    TypeMacro { target: TypeFilterTarget, argument: Option<Seq<char>> },
    File { argument: Option<Seq<char>> },
    Folder { argument: Option<Seq<char>> },
    Parent { path: Seq<char> },
    InFolder { path: Seq<char> },
    NoSubfolders { path: Seq<char> },
    Size(SizePredicate),
    Content { needle: Seq<char> },
    Tag { tags: Seq<Seq<char>> },
    DateModified(DateQuery),
    DateCreated(DateQuery),
}

/// The model of a term.
pub enum SpecTerm {
    Text(Seq<char>),
    Filter(SpecFilter),
}

/// The model of an expression.
pub enum SpecExpr {
    Term(SpecTerm),
    Not(Box<SpecExpr>),
    And(Seq<SpecExpr>),
    Or(Seq<SpecExpr>),
}

/// The model of an optional string.
pub open spec fn opt_view(o: Option<String>) -> Option<Seq<char>> {
    match o {
        Some(s) => Some(s@),
        None => None,
    }
}

/// The model of a filter.
pub open spec fn filter_view(f: QueryFilter) -> SpecFilter {
    match f {
        QueryFilter::Extension(v) => SpecFilter::Extension(str_views(v@)),
        QueryFilter::Type(t) => SpecFilter::Type(t),
        QueryFilter::TypeMacro { target, argument } => SpecFilter::TypeMacro { target, argument: opt_view(argument) },
        QueryFilter::File { argument } => SpecFilter::File { argument: opt_view(argument) },
        QueryFilter::Folder { argument } => SpecFilter::Folder { argument: opt_view(argument) },
        QueryFilter::Parent { path } => SpecFilter::Parent { path: path@ },
        QueryFilter::InFolder { path } => SpecFilter::InFolder { path: path@ },
        QueryFilter::NoSubfolders { path } => SpecFilter::NoSubfolders { path: path@ },
        QueryFilter::Size(p) => SpecFilter::Size(p),
        QueryFilter::Content { needle } => SpecFilter::Content { needle: needle@ },
        QueryFilter::Tag { tags } => SpecFilter::Tag { tags: str_views(tags@) },
        QueryFilter::DateModified(p) => SpecFilter::DateModified(p.query),
        QueryFilter::DateCreated(p) => SpecFilter::DateCreated(p.query),
    }
}

/// The model of a term.
pub open spec fn term_view(t: QueryTerm) -> SpecTerm {
    match t {
        QueryTerm::Text(s) => SpecTerm::Text(s@),
        QueryTerm::Filter(f) => SpecTerm::Filter(filter_view(f)),
    }
}

/// The model of an expression.
pub open spec fn expr_view(e: QueryExpression) -> SpecExpr
    decreases e,
{
    match e {
        QueryExpression::Term(t) => SpecExpr::Term(term_view(t)),
        QueryExpression::Not(b) => SpecExpr::Not(Box::new(expr_view(*b))),
        QueryExpression::And(v) => SpecExpr::And(exprs_view(v@)),
        QueryExpression::Or(v) => SpecExpr::Or(exprs_view(v@)),
    }
}

/// The models of a sequence of expressions.
pub open spec fn exprs_view(s: Seq<QueryExpression>) -> Seq<SpecExpr>
    decreases s,
{
    if s.len() == 0 {
        Seq::empty()
    } else {
        exprs_view(s.drop_last()).push(expr_view(s.last()))
    }
}

impl View for QueryExpression {
    type V = SpecExpr;

    open spec fn view(&self) -> SpecExpr {
        expr_view(*self)
    }
}

/// `exprs_view` maps each element.
pub proof fn lemma_exprs_view(s: Seq<QueryExpression>)
    ensures
        exprs_view(s).len() == s.len(),
        forall|i: int| 0 <= i < s.len() ==> #[trigger] exprs_view(s)[i] == expr_view(s[i]),
    decreases s.len(),
{
    if s.len() > 0 {
        lemma_exprs_view(s.drop_last());
    }
}

/// Whether an expression model holds at least one term.
pub open spec fn has_terms(e: SpecExpr) -> bool
    decreases e,
{
    match e {
        SpecExpr::Term(_) => true,
        SpecExpr::Not(b) => has_terms(*b),
        SpecExpr::And(v) => any_has_terms(v),
        SpecExpr::Or(v) => any_has_terms(v),
    }
}

/// Whether some expression of a sequence holds a term.
pub open spec fn any_has_terms(s: Seq<SpecExpr>) -> bool
    decreases s,
{
    if s.len() == 0 {
        false
    } else {
        any_has_terms(s.drop_last()) || has_terms(s.last())
    }
}

/// The model of `lowercase_query_filter`: the ASCII lowercase of every
/// free-text argument; extensions, types, sizes and dates unchanged.
pub open spec fn lower_filter(f: SpecFilter) -> SpecFilter {
    match f {
        SpecFilter::TypeMacro { target, argument } => SpecFilter::TypeMacro {
            target,
            argument: match argument {
                Some(a) => Some(lower_seq(a)),
                None => None,
            },
        },
        SpecFilter::File { argument } => SpecFilter::File {
            argument: match argument {
                Some(a) => Some(lower_seq(a)),
                None => None,
            },
        },
        SpecFilter::Folder { argument } => SpecFilter::Folder {
            argument: match argument {
                Some(a) => Some(lower_seq(a)),
                None => None,
            },
        },
        SpecFilter::Parent { path } => SpecFilter::Parent { path: lower_seq(path) },
        SpecFilter::InFolder { path } => SpecFilter::InFolder { path: lower_seq(path) },
        SpecFilter::NoSubfolders { path } => SpecFilter::NoSubfolders { path: lower_seq(path) },
        SpecFilter::Content { needle } => SpecFilter::Content { needle: lower_seq(needle) },
        SpecFilter::Tag { tags } => SpecFilter::Tag { tags: tags.map_values(|t: Seq<char>| lower_seq(t)) },
        other => other,
    }
}

/// The model of `lowercase_query_expression`.
pub open spec fn lower_expr(e: SpecExpr) -> SpecExpr
    decreases e,
{
    match e {
        SpecExpr::Term(SpecTerm::Text(s)) => SpecExpr::Term(SpecTerm::Text(lower_seq(s))),
        SpecExpr::Term(SpecTerm::Filter(f)) => SpecExpr::Term(SpecTerm::Filter(lower_filter(f))),
        SpecExpr::Not(b) => SpecExpr::Not(Box::new(lower_expr(*b))),
        SpecExpr::And(v) => SpecExpr::And(lower_exprs(v)),
        SpecExpr::Or(v) => SpecExpr::Or(lower_exprs(v)),
    }
}

/// `lower_expr` of each element.
pub open spec fn lower_exprs(s: Seq<SpecExpr>) -> Seq<SpecExpr>
    decreases s,
{
    if s.len() == 0 {
        Seq::empty()
    } else {
        lower_exprs(s.drop_last()).push(lower_expr(s.last()))
    }
}

proof fn lemma_lower_seq_idempotent(s: Seq<char>)
    ensures
        lower_seq(lower_seq(s)) == lower_seq(s),
{
    assert forall|i: int| 0 <= i < s.len() implies #[trigger] lower_char(lower_char(s[i])) == lower_char(s[i]) by {
        let c = s[i];
        if 'A' <= c && c <= 'Z' {
            assert(65 <= c as u32 <= 90);
            assert(lower_char(c) as u32 == c as u32 + 32);
        }
    }
    assert(lower_seq(lower_seq(s)) =~= lower_seq(s));
}

proof fn lemma_lower_filter_idempotent(f: SpecFilter)
    ensures
        lower_filter(lower_filter(f)) == lower_filter(f),
{
    match f {
        SpecFilter::TypeMacro { target, argument: Some(a) } => lemma_lower_seq_idempotent(a),
        SpecFilter::File { argument: Some(a) } => lemma_lower_seq_idempotent(a),
        SpecFilter::Folder { argument: Some(a) } => lemma_lower_seq_idempotent(a),
        SpecFilter::Parent { path } => lemma_lower_seq_idempotent(path),
        SpecFilter::InFolder { path } => lemma_lower_seq_idempotent(path),
        SpecFilter::NoSubfolders { path } => lemma_lower_seq_idempotent(path),
        SpecFilter::Content { needle } => lemma_lower_seq_idempotent(needle),
        SpecFilter::Tag { tags } => {
            let once = tags.map_values(|t: Seq<char>| lower_seq(t));
            assert forall|i: int| 0 <= i < tags.len() implies #[trigger] lower_seq(lower_seq(tags[i])) == lower_seq(tags[i]) by {
                lemma_lower_seq_idempotent(tags[i]);
            }
            assert(once.map_values(|t: Seq<char>| lower_seq(t)) =~= once);
        },
        _ => {},
    }
}

/// Lowercasing a query a second time changes nothing.
pub proof fn law_lowercase_is_idempotent(e: SpecExpr)
    ensures
        lower_expr(lower_expr(e)) == lower_expr(e),
    decreases e,
{
    match e {
        SpecExpr::Term(SpecTerm::Text(s)) => lemma_lower_seq_idempotent(s),
        SpecExpr::Term(SpecTerm::Filter(f)) => lemma_lower_filter_idempotent(f),
        SpecExpr::Not(b) => law_lowercase_is_idempotent(*b),
        SpecExpr::And(v) => lemma_lower_exprs_idempotent(v),
        SpecExpr::Or(v) => lemma_lower_exprs_idempotent(v),
    }
}

proof fn lemma_lower_exprs_idempotent(s: Seq<SpecExpr>)
    ensures
        lower_exprs(lower_exprs(s)) == lower_exprs(s),
    decreases s,
{
    if s.len() > 0 {
        lemma_lower_exprs_idempotent(s.drop_last());
        law_lowercase_is_idempotent(s.last());
        let once = lower_exprs(s);
        assert(once.drop_last() =~= lower_exprs(s.drop_last()));
        assert(once.last() == lower_expr(s.last()));
    }
}

/// Checks if an expression contains at least one concrete term.
pub fn query_expression_has_terms(expression: &QueryExpression) -> (r: bool)
    ensures
        r == has_terms(expression@),
    decreases expression,
{
    match expression {
        QueryExpression::Term(_) => true,
        QueryExpression::Not(inner) => query_expression_has_terms(inner),
        QueryExpression::And(parts) => {
            proof {
                assert(decreases_to!(*expression => *parts));
            }
            any_part_has_terms(parts)
        },
        QueryExpression::Or(parts) => {
            proof {
                assert(decreases_to!(*expression => *parts));
            }
            any_part_has_terms(parts)
        },
    }
}

fn any_part_has_terms(parts: &Vec<QueryExpression>) -> (r: bool)
    ensures
        r == any_has_terms(exprs_view(parts@)),
    decreases parts,
{
    let mut i: usize = 0;
    let mut found = false;
    proof {
        lemma_exprs_view(parts@);
    }
    while i < parts.len()
        invariant
            i <= parts.len(),
            exprs_view(parts@).len() == parts@.len(),
            forall|k: int| 0 <= k < parts@.len() ==> #[trigger] exprs_view(parts@)[k] == expr_view(parts@[k]),
            found == any_has_terms(exprs_view(parts@).subrange(0, i as int)),
        decreases parts.len() - i,
    {
        proof {
            assert(decreases_to!(*parts => parts@[i as int]));
        }
        let h = query_expression_has_terms(&parts[i]);
        proof {
            let s = exprs_view(parts@).subrange(0, i + 1);
            assert(s.drop_last() =~= exprs_view(parts@).subrange(0, i as int));
        }
        found = found || h;
        i = i + 1;
    }
    assert(exprs_view(parts@).subrange(0, parts.len() as int) =~= exprs_view(parts@));
    found
}

/// A copy of a string vector.
pub fn copy_strings(v: &Vec<String>) -> (r: Vec<String>)
    ensures
        str_views(r@) == str_views(v@),
{
    let mut r: Vec<String> = Vec::new();
    let mut i: usize = 0;
    while i < v.len()
        invariant
            i <= v.len(),
            r@.len() == i,
            str_views(r@) == str_views(v@.subrange(0, i as int)),
        decreases v.len() - i,
    {
        let s = v[i].clone();
        let ghost old_r = r@;
        r.push(s);
        proof {
            assert forall|k: int| 0 <= k < i + 1 implies #[trigger] str_views(r@)[k] == str_views(v@.subrange(0, i + 1))[k] by {
                if k < i {
                    assert(str_views(old_r)[k] == str_views(v@.subrange(0, i as int))[k]);
                }
            }
            assert(str_views(r@) =~= str_views(v@.subrange(0, i + 1)));
        }
        i = i + 1;
    }
    assert(v@.subrange(0, v.len() as int) =~= v@);
    r
}

fn lower_opt(o: &Option<String>) -> (r: Option<String>)
    ensures
        opt_view(r) == match opt_view(*o) {
            Some(a) => Some(lower_seq(a)),
            None => None,
        },
{
    match o {
        Some(s) => Some(lower_string(s.as_str())),
        None => None,
    }
}

fn lower_strings(v: &Vec<String>) -> (r: Vec<String>)
    ensures
        str_views(r@) == str_views(v@).map_values(|t: Seq<char>| lower_seq(t)),
{
    let mut r: Vec<String> = Vec::new();
    let mut i: usize = 0;
    while i < v.len()
        invariant
            i <= v.len(),
            r@.len() == i,
            str_views(r@) == str_views(v@.subrange(0, i as int)).map_values(|t: Seq<char>| lower_seq(t)),
        decreases v.len() - i,
    {
        let s = lower_string(v[i].as_str());
        let ghost old_r = r@;
        r.push(s);
        proof {
            assert forall|k: int| 0 <= k < i + 1 implies #[trigger] str_views(r@)[k] == str_views(v@.subrange(0, i + 1)).map_values(|t: Seq<char>| lower_seq(t))[k] by {
                if k < i {
                    assert(str_views(old_r)[k] == str_views(v@.subrange(0, i as int)).map_values(|t: Seq<char>| lower_seq(t))[k]);
                }
            }
            assert(str_views(r@) =~= str_views(v@.subrange(0, i + 1)).map_values(|t: Seq<char>| lower_seq(t)));
        }
        i = i + 1;
    }
    assert(v@.subrange(0, v.len() as int) =~= v@);
    r
}

/// The lowercase copy of a filter.
fn lowercase_query_filter(filter: &QueryFilter) -> (r: QueryFilter)
    ensures
        filter_view(r) == lower_filter(filter_view(*filter)),
        term_dates_resolved(QueryTerm::Filter(*filter)) ==> term_dates_resolved(QueryTerm::Filter(r)),
        term_dates(QueryTerm::Filter(r)) == term_dates(QueryTerm::Filter(*filter)),
{
    match filter {
        QueryFilter::Extension(v) => QueryFilter::Extension(copy_strings(v)),
        QueryFilter::Type(t) => QueryFilter::Type(*t),
        QueryFilter::TypeMacro { target, argument } => QueryFilter::TypeMacro { target: *target, argument: lower_opt(argument) },
        QueryFilter::File { argument } => QueryFilter::File { argument: lower_opt(argument) },
        QueryFilter::Folder { argument } => QueryFilter::Folder { argument: lower_opt(argument) },
        QueryFilter::Parent { path } => QueryFilter::Parent { path: lower_string(path.as_str()) },
        QueryFilter::InFolder { path } => QueryFilter::InFolder { path: lower_string(path.as_str()) },
        QueryFilter::NoSubfolders { path } => QueryFilter::NoSubfolders { path: lower_string(path.as_str()) },
        QueryFilter::Size(p) => QueryFilter::Size(*p),
        QueryFilter::Content { needle } => QueryFilter::Content { needle: lower_string(needle.as_str()) },
        QueryFilter::Tag { tags } => QueryFilter::Tag { tags: lower_strings(tags) },
        QueryFilter::DateModified(p) => QueryFilter::DateModified(*p),
        QueryFilter::DateCreated(p) => QueryFilter::DateCreated(*p),
    }
}

/// The lowercase copy of an expression.
fn lowercase_expression_ref(expression: &QueryExpression) -> (r: QueryExpression)
    ensures
        r@ == lower_expr(expression@),
        dates_resolved(*expression) ==> dates_resolved(r),
        expr_dates(r) == expr_dates(*expression),
    decreases expression,
{
    match expression {
        QueryExpression::Term(QueryTerm::Text(value)) => QueryExpression::Term(QueryTerm::Text(lower_string(value.as_str()))),
        QueryExpression::Term(QueryTerm::Filter(filter)) => QueryExpression::Term(QueryTerm::Filter(lowercase_query_filter(filter))),
        QueryExpression::Not(inner) => QueryExpression::Not(Box::new(lowercase_expression_ref(inner))),
        QueryExpression::And(parts) => {
            proof {
                assert(decreases_to!(*expression => *parts));
            }
            QueryExpression::And(lowercase_parts(parts))
        },
        QueryExpression::Or(parts) => {
            proof {
                assert(decreases_to!(*expression => *parts));
            }
            QueryExpression::Or(lowercase_parts(parts))
        },
    }
}

fn lowercase_parts(parts: &Vec<QueryExpression>) -> (r: Vec<QueryExpression>)
    ensures
        exprs_view(r@) == lower_exprs(exprs_view(parts@)),
        all_dates_resolved(parts@) ==> all_dates_resolved(r@),
        seq_dates(r@) == seq_dates(parts@),
    decreases parts,
{
    let mut r: Vec<QueryExpression> = Vec::new();
    let mut i: usize = 0;
    proof {
        lemma_exprs_view(parts@);
        lemma_all_dates_resolved(parts@);
    }
    while i < parts.len()
        invariant
            i <= parts.len(),
            exprs_view(parts@).len() == parts@.len(),
            forall|k: int| 0 <= k < parts@.len() ==> #[trigger] exprs_view(parts@)[k] == expr_view(parts@[k]),
            exprs_view(r@) == lower_exprs(exprs_view(parts@).subrange(0, i as int)),
            r@.len() == i,
            all_dates_resolved(parts@) <==> forall|k: int| 0 <= k < parts@.len() ==> #[trigger] dates_resolved(parts@[k]),
            all_dates_resolved(parts@) ==> forall|k: int| 0 <= k < i ==> #[trigger] dates_resolved(r@[k]),
            seq_dates(r@) == seq_dates(parts@.subrange(0, i as int)),
        decreases parts.len() - i,
    {
        proof {
            assert(decreases_to!(*parts => parts@[i as int]));
        }
        let x = lowercase_expression_ref(&parts[i]);
        let ghost old_r = r@;
        r.push(x);
        proof {
            assert(r@.drop_last() =~= old_r);
            let s = exprs_view(parts@).subrange(0, i + 1);
            assert(s.drop_last() =~= exprs_view(parts@).subrange(0, i as int));
            assert(parts@.subrange(0, i + 1).drop_last() =~= parts@.subrange(0, i as int));
        }
        i = i + 1;
    }
    assert(exprs_view(parts@).subrange(0, parts.len() as int) =~= exprs_view(parts@));
    assert(parts@.subrange(0, parts.len() as int) =~= parts@);
    proof {
        lemma_all_dates_resolved(r@);
    }
    r
}

/// Converts the entire expression tree to lowercase for case-insensitive
/// matching.
pub fn lowercase_query_expression(expression: QueryExpression) -> (r: QueryExpression)
    ensures
        r@ == lower_expr(expression@),
        dates_resolved(expression) ==> dates_resolved(r),
        expr_dates(r) == expr_dates(expression),
{
    lowercase_expression_ref(&expression)
}


fn copy_opt(o: &Option<String>) -> (r: Option<String>)
    ensures
        opt_view(r) == opt_view(*o),
{
    match o {
        Some(s) => Some(s.clone()),
        None => None,
    }
}

/// A copy of a filter.
pub fn copy_filter(filter: &QueryFilter) -> (r: QueryFilter)
    ensures
        filter_view(r) == filter_view(*filter),
        term_dates_resolved(QueryTerm::Filter(*filter)) ==> term_dates_resolved(QueryTerm::Filter(r)),
        term_dates(QueryTerm::Filter(r)) == term_dates(QueryTerm::Filter(*filter)),
{
    match filter {
        QueryFilter::Extension(v) => QueryFilter::Extension(copy_strings(v)),
        QueryFilter::Type(t) => QueryFilter::Type(*t),
        QueryFilter::TypeMacro { target, argument } => QueryFilter::TypeMacro { target: *target, argument: copy_opt(argument) },
        QueryFilter::File { argument } => QueryFilter::File { argument: copy_opt(argument) },
        QueryFilter::Folder { argument } => QueryFilter::Folder { argument: copy_opt(argument) },
        QueryFilter::Parent { path } => QueryFilter::Parent { path: path.clone() },
        QueryFilter::InFolder { path } => QueryFilter::InFolder { path: path.clone() },
        QueryFilter::NoSubfolders { path } => QueryFilter::NoSubfolders { path: path.clone() },
        QueryFilter::Size(p) => QueryFilter::Size(*p),
        QueryFilter::Content { needle } => QueryFilter::Content { needle: needle.clone() },
        QueryFilter::Tag { tags } => QueryFilter::Tag { tags: copy_strings(tags) },
        QueryFilter::DateModified(p) => QueryFilter::DateModified(*p),
        QueryFilter::DateCreated(p) => QueryFilter::DateCreated(*p),
    }
}

/// A copy of a term.
pub fn copy_term(term: &QueryTerm) -> (r: QueryTerm)
    ensures
        term_view(r) == term_view(*term),
        term_dates_resolved(*term) ==> term_dates_resolved(r),
        term_dates(r) == term_dates(*term),
{
    match term {
        QueryTerm::Text(s) => QueryTerm::Text(s.clone()),
        QueryTerm::Filter(f) => QueryTerm::Filter(copy_filter(f)),
    }
}

/// A date predicate carries the timestamps its query text resolves to:
/// for some valid `today`, the local bounds of the days its text names
/// (`predicate_resolved`).
pub open spec fn date_resolved(p: DatePredicate) -> bool {
    exists|today: CivilDate| valid_date(today) && predicate_resolved(p.query, today, p)
}

/// Every date filter of a term is resolved.
pub open spec fn term_dates_resolved(t: QueryTerm) -> bool {
    match t {
        QueryTerm::Filter(QueryFilter::DateModified(p)) => date_resolved(p),
        QueryTerm::Filter(QueryFilter::DateCreated(p)) => date_resolved(p),
        _ => true,
    }
}

/// Every date filter in an expression carries the timestamps its text
/// resolves to.
pub open spec fn dates_resolved(e: QueryExpression) -> bool
    decreases e,
{
    match e {
        QueryExpression::Term(t) => term_dates_resolved(t),
        QueryExpression::Not(b) => dates_resolved(*b),
        QueryExpression::And(v) => all_dates_resolved(v@),
        QueryExpression::Or(v) => all_dates_resolved(v@),
    }
}

/// `dates_resolved` of every expression of a sequence.
pub open spec fn all_dates_resolved(s: Seq<QueryExpression>) -> bool
    decreases s,
{
    if s.len() == 0 {
        true
    } else {
        all_dates_resolved(s.drop_last()) && dates_resolved(s.last())
    }
}

/// The date filters of a term: `(true, p)` for a modification date filter,
/// `(false, p)` for a creation date filter.
pub open spec fn term_dates(t: QueryTerm) -> Set<(bool, DatePredicate)> {
    match t {
        QueryTerm::Filter(QueryFilter::DateModified(p)) => set![(true, p)],
        QueryTerm::Filter(QueryFilter::DateCreated(p)) => set![(false, p)],
        _ => Set::empty(),
    }
}

/// The date filters of an expression, with their predicates.
pub open spec fn expr_dates(e: QueryExpression) -> Set<(bool, DatePredicate)>
    decreases e,
{
    match e {
        QueryExpression::Term(t) => term_dates(t),
        QueryExpression::Not(b) => expr_dates(*b),
        QueryExpression::And(v) => seq_dates(v@),
        QueryExpression::Or(v) => seq_dates(v@),
    }
}

/// The date filters of a sequence of expressions.
pub open spec fn seq_dates(s: Seq<QueryExpression>) -> Set<(bool, DatePredicate)>
    decreases s,
{
    if s.len() == 0 {
        Set::empty()
    } else {
        seq_dates(s.drop_last()).union(expr_dates(s.last()))
    }
}

/// A date filter of a sequence is one of some element.
pub proof fn lemma_seq_dates(s: Seq<QueryExpression>)
    ensures
        forall|x: (bool, DatePredicate)| #[trigger] seq_dates(s).contains(x) <==> exists|i: int| 0 <= i < s.len()
            && expr_dates(s[i]).contains(x),
    decreases s.len(),
{
    if s.len() > 0 {
        lemma_seq_dates(s.drop_last());
        assert forall|x: (bool, DatePredicate)| #[trigger] seq_dates(s).contains(x) <==> exists|i: int| 0 <= i < s.len()
            && expr_dates(s[i]).contains(x) by {
            if seq_dates(s).contains(x) {
                if expr_dates(s.last()).contains(x) {
                    assert(expr_dates(s[s.len() - 1]).contains(x));
                } else {
                    assert(seq_dates(s.drop_last()).contains(x));
                    let i = choose|i: int| 0 <= i < s.drop_last().len() && expr_dates(s.drop_last()[i]).contains(x);
                    assert(s.drop_last()[i] == s[i]);
                }
            }
            if exists|i: int| 0 <= i < s.len() && expr_dates(s[i]).contains(x) {
                let i = choose|i: int| 0 <= i < s.len() && expr_dates(s[i]).contains(x);
                if i < s.len() - 1 {
                    assert(s.drop_last()[i] == s[i]);
                    assert(seq_dates(s.drop_last()).contains(x));
                }
            }
        }
    }
}

/// The date filters of a concatenation.
pub proof fn lemma_seq_dates_add(a: Seq<QueryExpression>, b: Seq<QueryExpression>)
    ensures
        seq_dates(a + b) == seq_dates(a).union(seq_dates(b)),
{
    lemma_seq_dates(a);
    lemma_seq_dates(b);
    lemma_seq_dates(a + b);
    assert forall|x: (bool, DatePredicate)| seq_dates(a + b).contains(x) <==> seq_dates(a).union(seq_dates(b)).contains(x) by {
        if seq_dates(a + b).contains(x) {
            let i = choose|i: int| 0 <= i < (a + b).len() && expr_dates((a + b)[i]).contains(x);
            if i < a.len() {
                assert(expr_dates(a[i]).contains(x));
                assert(seq_dates(a).contains(x));
            } else {
                assert(expr_dates(b[i - a.len()]).contains(x));
                assert(seq_dates(b).contains(x));
            }
        }
        if seq_dates(a).contains(x) {
            let i = choose|i: int| 0 <= i < a.len() && expr_dates(a[i]).contains(x);
            assert((a + b)[i] == a[i]);
            assert(seq_dates(a + b).contains(x));
        }
        if seq_dates(b).contains(x) {
            let i = choose|i: int| 0 <= i < b.len() && expr_dates(b[i]).contains(x);
            assert((a + b)[i + a.len()] == b[i]);
            assert(seq_dates(a + b).contains(x));
        }
    }
    assert(seq_dates(a + b) =~= seq_dates(a).union(seq_dates(b)));
}

/// Sequences with the same elements, counted as sets, have the same date
/// filters.
pub proof fn lemma_seq_dates_same_elements(a: Seq<QueryExpression>, b: Seq<QueryExpression>)
    requires
        forall|i: int| 0 <= i < a.len() ==> b.contains(#[trigger] a[i]),
        forall|i: int| 0 <= i < b.len() ==> a.contains(#[trigger] b[i]),
    ensures
        seq_dates(a) == seq_dates(b),
{
    lemma_seq_dates(a);
    lemma_seq_dates(b);
    assert forall|x: (bool, DatePredicate)| seq_dates(a).contains(x) <==> seq_dates(b).contains(x) by {
        if seq_dates(a).contains(x) {
            let i = choose|i: int| 0 <= i < a.len() && expr_dates(a[i]).contains(x);
            assert(b.contains(a[i]));
            let j = choose|j: int| 0 <= j < b.len() && b[j] == a[i];
            assert(seq_dates(b).contains(x));
        }
        if seq_dates(b).contains(x) {
            let i = choose|i: int| 0 <= i < b.len() && expr_dates(b[i]).contains(x);
            assert(a.contains(b[i]));
            let j = choose|j: int| 0 <= j < a.len() && a[j] == b[i];
            assert(seq_dates(a).contains(x));
        }
    }
    assert(seq_dates(a) =~= seq_dates(b));
}

/// `all_dates_resolved` holds element by element.
pub proof fn lemma_all_dates_resolved(s: Seq<QueryExpression>)
    ensures
        all_dates_resolved(s) <==> forall|i: int| 0 <= i < s.len() ==> #[trigger] dates_resolved(s[i]),
    decreases s.len(),
{
    if s.len() > 0 {
        lemma_all_dates_resolved(s.drop_last());
        assert forall|i: int| 0 <= i < s.len() - 1 implies s.drop_last()[i] == s[i] by {}
        if all_dates_resolved(s) {
            assert forall|i: int| 0 <= i < s.len() implies #[trigger] dates_resolved(s[i]) by {
                if i < s.len() - 1 {
                    assert(dates_resolved(s.drop_last()[i]));
                }
            }
        } else if dates_resolved(s.last()) {
            let j = choose|j: int| 0 <= j < s.len() - 1 && !#[trigger] dates_resolved(s.drop_last()[j]);
            assert(!dates_resolved(s[j]));
        }
    }
}

/// The models of two concatenated sequences.
pub proof fn lemma_exprs_view_add(a: Seq<QueryExpression>, b: Seq<QueryExpression>)
    ensures
        exprs_view(a + b) == exprs_view(a) + exprs_view(b),
{
    lemma_exprs_view(a);
    lemma_exprs_view(b);
    lemma_exprs_view(a + b);
    assert(exprs_view(a + b) =~= exprs_view(a) + exprs_view(b));
}

} // verus!
