//! Compiled query matchers.

use vstd::prelude::*;
use crate::error::{FilesystemError, Result};
use crate::query::context::{context_of, NodeQueryContext};
use crate::query::evaluate::{evaluate_node_query_term, term_accepts};
use crate::query::expression::{
    dates_resolved, exprs_view, has_terms, lemma_exprs_view, lower_expr, lowercase_query_expression, QueryExpression,
    QueryTerm, SpecExpr, SpecTerm,
};
use crate::query::highlight::{derive_highlight_terms, expr_lights};
use crate::query::optimizer::{optimize_expression, optimized};
use crate::query::parser::{
    and_err, and_loop, byte_len, has_clock_dependent_word, near_message, query_clock_dependent, query_parse, tokenize,
    tokenize_failure, QueryParser,
};
use crate::query::text_match::{is_name_prefilter_term, name_prefilter_term};
use crate::storage::node::SlabNode;
use crate::strings::{
    chars_eq, chars_of, opt_str_view, sorted_insert, str_views, strictly_sorted, strings_of,
    vec_views,
};

verus! {

/// The names every match must contain, for prefiltering: the prefilter
/// terms of a conjunction's parts together, those common to all parts of a
/// disjunction, none under a negation or from a filter.
pub open spec fn required_terms(e: SpecExpr) -> Set<Seq<char>>
    decreases e,
{
    match e {
        SpecExpr::Term(SpecTerm::Text(v)) => if name_prefilter_term(v) {
            set![v]
        } else {
            Set::empty()
        },
        SpecExpr::Term(SpecTerm::Filter(_)) => Set::empty(),
        SpecExpr::Not(_) => Set::empty(),
        SpecExpr::And(ps) => required_all(ps),
        SpecExpr::Or(ps) => required_common(ps),
    }
}

/// The union of the parts' required terms.
pub open spec fn required_all(s: Seq<SpecExpr>) -> Set<Seq<char>>
    decreases s,
{
    if s.len() == 0 {
        Set::empty()
    } else {
        required_all(s.drop_last()).union(required_terms(s.last()))
    }
}

/// The intersection of the parts' required terms; none for no parts.
pub open spec fn required_common(s: Seq<SpecExpr>) -> Set<Seq<char>>
    decreases s,
{
    if s.len() == 0 {
        Set::empty()
    } else if s.len() == 1 {
        required_terms(s[0])
    } else {
        required_common(s.drop_last()).intersect(required_terms(s.last()))
    }
}

/// Adds every item of `other` to the sorted list `acc`.
fn sorted_union(acc: &mut Vec<Vec<char>>, other: &Vec<Vec<char>>)
    requires
        strictly_sorted(vec_views(old(acc)@)),
    ensures
        strictly_sorted(vec_views(final(acc)@)),
        vec_views(final(acc)@).to_set() == vec_views(old(acc)@).to_set().union(vec_views(other@).to_set()),
{
    let ghost start = vec_views(acc@).to_set();
    let mut i: usize = 0;
    assert(vec_views(other@.subrange(0, 0)).to_set() =~= Set::<Seq<char>>::empty());
    assert(start.union(Set::<Seq<char>>::empty()) =~= start);
    while i < other.len()
        invariant
            i <= other@.len(),
            strictly_sorted(vec_views(acc@)),
            vec_views(acc@).to_set() == start.union(vec_views(other@.subrange(0, i as int)).to_set()),
        decreases other@.len() - i,
    {
        let x = other[i].clone();
        sorted_insert(acc, x);
        proof {
            let a = vec_views(other@.subrange(0, i as int));
            let b = vec_views(other@.subrange(0, i + 1));
            assert(b =~= a.push(other@[i as int]@));
            assert(b.to_set() =~= a.to_set().insert(other@[i as int]@)) by {
                assert forall|y: Seq<char>| b.contains(y) <==> a.contains(y) || y == other@[i as int]@ by {
                    if b.contains(y) {
                        let k = choose|k: int| 0 <= k < b.len() && b[k] == y;
                        if k < a.len() {
                            assert(a[k] == y);
                        }
                    }
                    if a.contains(y) {
                        let k = choose|k: int| 0 <= k < a.len() && a[k] == y;
                        assert(b[k] == y);
                    }
                    if y == other@[i as int]@ {
                        assert(b[i as int] == y);
                    }
                }
            }
            assert(vec_views(acc@).to_set() =~= start.union(b.to_set()));
        }
        i = i + 1;
    }
    assert(other@.subrange(0, other@.len() as int) =~= other@);
}

/// Whether a list holds `x`.
fn list_contains(list: &Vec<Vec<char>>, x: &Vec<char>) -> (r: bool)
    ensures
        r == vec_views(list@).contains(x@),
{
    let mut i: usize = 0;
    while i < list.len()
        invariant
            i <= list@.len(),
            forall|k: int| 0 <= k < i ==> list@[k]@ != x@,
        decreases list@.len() - i,
    {
        if chars_eq(&list[i], x) {
            assert(vec_views(list@)[i as int] == x@);
            return true;
        }
        i = i + 1;
    }
    proof {
        if vec_views(list@).contains(x@) {
            let k = choose|k: int| 0 <= k < vec_views(list@).len() && vec_views(list@)[k] == x@;
            assert(list@[k]@ == x@);
        }
    }
    false
}

/// The items of the sorted list `a` that `b` holds, in order.
fn sorted_intersect(a: &Vec<Vec<char>>, b: &Vec<Vec<char>>) -> (r: Vec<Vec<char>>)
    requires
        strictly_sorted(vec_views(a@)),
    ensures
        strictly_sorted(vec_views(r@)),
        vec_views(r@).to_set() == vec_views(a@).to_set().intersect(vec_views(b@).to_set()),
{
    let mut r: Vec<Vec<char>> = Vec::new();
    let mut i: usize = 0;
    let ghost keep = |y: Seq<char>| vec_views(b@).contains(y);
    while i < a.len()
        invariant
            i <= a@.len(),
            strictly_sorted(vec_views(a@)),
            forall|k: int| 0 <= k < r@.len() ==> exists|j: int| 0 <= j < i && #[trigger] r@[k]@ == a@[j]@,
            forall|k: int, l: int| 0 <= k < r@.len() && 0 <= l < a@.len() && r@[k]@ == a@[l]@ ==> l < i,
            strictly_sorted(vec_views(r@)),
            forall|k: int| 0 <= k < r@.len() ==> vec_views(b@).contains(#[trigger] r@[k]@),
            forall|j: int| 0 <= j < i && vec_views(b@).contains(a@[j]@) ==> exists|k: int| 0 <= k < r@.len() && #[trigger] r@[k]@ == a@[j]@,
        decreases a@.len() - i,
    {
        if list_contains(b, &a[i]) {
            let ghost old_r = r@;
            let x = a[i].clone();
            r.push(x);
            proof {
                assert(r@[old_r.len() as int]@ == a@[i as int]@);
                assert forall|k: int, l: int| 0 <= k < r@.len() && 0 <= l < a@.len() && r@[k]@ == a@[l]@ implies l < i + 1 by {
                    if k < old_r.len() {
                        assert(r@[k] == old_r[k]);
                    } else {
                        if l > i {
                            assert(crate::strings::seq_lt(vec_views(a@)[i as int], vec_views(a@)[l]));
                            crate::strings::lemma_seq_lt_order(a@[i as int]@, a@[i as int]@, a@[i as int]@);
                        }
                    }
                }
                assert forall|p: int, q: int| 0 <= p < q < vec_views(r@).len() implies crate::strings::seq_lt(#[trigger] vec_views(r@)[p], #[trigger] vec_views(r@)[q]) by {
                    if q < old_r.len() {
                        assert(vec_views(r@)[p] == vec_views(old_r)[p]);
                        assert(vec_views(r@)[q] == vec_views(old_r)[q]);
                    } else {
                        assert(r@[p] == old_r[p]);
                        let j = choose|j: int| 0 <= j < i && r@[p]@ == a@[j]@;
                        assert(crate::strings::seq_lt(vec_views(a@)[j], vec_views(a@)[i as int]));
                    }
                }
                assert forall|k: int| 0 <= k < r@.len() implies exists|j: int| 0 <= j < i + 1 && #[trigger] r@[k]@ == a@[j]@ by {
                    if k < old_r.len() {
                        assert(r@[k] == old_r[k]);
                    }
                }
                assert forall|j: int| 0 <= j < i + 1 && vec_views(b@).contains(a@[j]@) implies exists|k: int| 0 <= k < r@.len() && #[trigger] r@[k]@ == a@[j]@ by {
                    if j < i {
                        let k = choose|k: int| 0 <= k < old_r.len() && old_r[k]@ == a@[j]@;
                        assert(r@[k] == old_r[k]);
                    }
                }
                assert forall|k: int| 0 <= k < r@.len() implies vec_views(b@).contains(#[trigger] r@[k]@) by {
                    if k < old_r.len() {
                        assert(r@[k] == old_r[k]);
                    }
                }
            }
        }
        i = i + 1;
    }
    proof {
        assert forall|y: Seq<char>| vec_views(r@).to_set().contains(y) <==> vec_views(a@).to_set().intersect(vec_views(b@).to_set()).contains(y) by {
            if vec_views(r@).contains(y) {
                let k = choose|k: int| 0 <= k < vec_views(r@).len() && vec_views(r@)[k] == y;
                assert(r@[k]@ == y);
                let j = choose|j: int| 0 <= j < i && r@[k]@ == a@[j]@;
                assert(vec_views(a@)[j] == y);
            }
            if vec_views(a@).contains(y) && vec_views(b@).contains(y) {
                let j = choose|j: int| 0 <= j < vec_views(a@).len() && vec_views(a@)[j] == y;
                assert(a@[j]@ == y);
                let k = choose|k: int| 0 <= k < r@.len() && r@[k]@ == a@[j]@;
                assert(vec_views(r@)[k] == y);
            }
        }
        assert(vec_views(r@).to_set() =~= vec_views(a@).to_set().intersect(vec_views(b@).to_set()));
    }
    r
}

/// The required names of an expression, sorted.
fn required_name_terms_from_expression(expression: &QueryExpression) -> (r: Vec<Vec<char>>)
    ensures
        strictly_sorted(vec_views(r@)),
        vec_views(r@).to_set() == required_terms(expression@),
    decreases expression,
{
    match expression {
        QueryExpression::Term(QueryTerm::Text(value)) => {
            if is_name_prefilter_term(value.as_str()) {
                let v = chars_of(value.as_str());
                let r = vec![v];
                assert(vec_views(r@) =~= seq![value@]);
                assert(vec_views(r@).to_set() =~= set![value@]) by {
                    assert(vec_views(r@)[0] == value@);
                }
                r
            } else {
                let r: Vec<Vec<char>> = Vec::new();
                assert(vec_views(r@).to_set() =~= Set::<Seq<char>>::empty());
                r
            }
        },
        QueryExpression::Term(QueryTerm::Filter(_)) | QueryExpression::Not(_) => {
            let r: Vec<Vec<char>> = Vec::new();
            assert(vec_views(r@).to_set() =~= Set::<Seq<char>>::empty());
            r
        },
        QueryExpression::And(parts) => {
            proof {
                assert(decreases_to!(*expression => *parts));
            }
            required_all_parts(parts)
        },
        QueryExpression::Or(parts) => {
            proof {
                assert(decreases_to!(*expression => *parts));
            }
            required_common_parts(parts)
        },
    }
}

fn required_all_parts(parts: &Vec<QueryExpression>) -> (r: Vec<Vec<char>>)
    ensures
        strictly_sorted(vec_views(r@)),
        vec_views(r@).to_set() == required_all(exprs_view(parts@)),
    decreases parts,
{
    proof {
        lemma_exprs_view(parts@);
    }
    let mut acc: Vec<Vec<char>> = Vec::new();
    let mut i: usize = 0;
    assert(vec_views(acc@).to_set() =~= Set::<Seq<char>>::empty());
    assert(exprs_view(parts@).subrange(0, 0) =~= Seq::<SpecExpr>::empty());
    while i < parts.len()
        invariant
            i <= parts@.len(),
            exprs_view(parts@).len() == parts@.len(),
            forall|k: int| 0 <= k < parts@.len() ==> #[trigger] exprs_view(parts@)[k] == parts@[k]@,
            strictly_sorted(vec_views(acc@)),
            vec_views(acc@).to_set() == required_all(exprs_view(parts@).subrange(0, i as int)),
        decreases parts@.len() - i,
    {
        proof {
            assert(decreases_to!(*parts => parts@[i as int]));
        }
        let part = required_name_terms_from_expression(&parts[i]);
        sorted_union(&mut acc, &part);
        proof {
            let s = exprs_view(parts@).subrange(0, i + 1);
            assert(s.drop_last() =~= exprs_view(parts@).subrange(0, i as int));
        }
        i = i + 1;
    }
    assert(exprs_view(parts@).subrange(0, parts@.len() as int) =~= exprs_view(parts@));
    acc
}

fn required_common_parts(parts: &Vec<QueryExpression>) -> (r: Vec<Vec<char>>)
    ensures
        strictly_sorted(vec_views(r@)),
        vec_views(r@).to_set() == required_common(exprs_view(parts@)),
    decreases parts,
{
    proof {
        lemma_exprs_view(parts@);
    }
    if parts.len() == 0 {
        let r: Vec<Vec<char>> = Vec::new();
        assert(vec_views(r@).to_set() =~= Set::<Seq<char>>::empty());
        return r;
    }
    proof {
        assert(decreases_to!(*parts => parts@[0]));
    }
    let mut acc = required_name_terms_from_expression(&parts[0]);
    let mut i: usize = 1;
    proof {
        let s = exprs_view(parts@).subrange(0, 1);
        assert(s.len() == 1 && s[0] == parts@[0]@);
    }
    while i < parts.len()
        invariant
            1 <= i <= parts@.len(),
            exprs_view(parts@).len() == parts@.len(),
            forall|k: int| 0 <= k < parts@.len() ==> #[trigger] exprs_view(parts@)[k] == parts@[k]@,
            strictly_sorted(vec_views(acc@)),
            vec_views(acc@).to_set() == required_common(exprs_view(parts@).subrange(0, i as int)),
        decreases parts@.len() - i,
    {
        proof {
            assert(decreases_to!(*parts => parts@[i as int]));
        }
        let other = required_name_terms_from_expression(&parts[i]);
        acc = sorted_intersect(&acc, &other);
        proof {
            let s = exprs_view(parts@).subrange(0, i + 1);
            assert(s.drop_last() =~= exprs_view(parts@).subrange(0, i as int));
        }
        i = i + 1;
    }
    assert(exprs_view(parts@).subrange(0, parts@.len() as int) =~= exprs_view(parts@));
    acc
}

/// A compiled query matcher.
#[derive(Debug)]
pub struct SearchQueryMatcher {
    pub expression: QueryExpression,
    pub case_sensitive: bool,
}

impl SearchQueryMatcher {
    /// Compiles a query: parse it, lowercase it (ASCII) unless matching is
    /// case sensitive, then optimize it. A leading `~` in scope filters
    /// expands against `home`.
    pub fn compile(raw_query: &str, case_sensitive: bool, home: Option<&str>) -> (r: Result<Self>)
        requires
            byte_len(raw_query@) <= usize::MAX,
        ensures
            match r {
                Ok(m) => m.case_sensitive == case_sensitive && exists|e: SpecExpr|
                    query_parse(raw_query@, opt_str_view(home)) == Some(e)
                    && m.expression@ == optimized(if case_sensitive { e } else { lower_expr(e) }),
                Err(_) => query_parse(raw_query@, opt_str_view(home)) is None || query_clock_dependent(raw_query@),
            },
            r matches Ok(m) ==> dates_resolved(m.expression),
            r matches Err(e) ==> e is QueryParse || (e is Path && home is None),
            tokenize(raw_query@) is None ==> (r matches Err(FilesystemError::QueryParse(m))
                && tokenize_failure(raw_query@) >= 0
                && m@ == near_message("missing closing quote"@, tokenize_failure(raw_query@) as nat)),
            (tokenize(raw_query@) matches Some(t) && t.len() > 0 && !has_clock_dependent_word(t)
                && and_loop(t, 0, None, opt_str_view(home), Seq::empty()) matches Some((e, j))) ==> {
                let t = tokenize(raw_query@)->0;
                let (e, j) = and_loop(t, 0, None, opt_str_view(home), Seq::empty())->0;
                &&& j < t.len() ==> (r matches Err(FilesystemError::QueryParse(m))
                    && m@ == near_message("unexpected token"@, t[j].position as nat))
                &&& (j >= t.len() && !has_terms(e)) ==> (r matches Err(FilesystemError::QueryParse(m))
                    && m@ == "query must contain at least one term"@)
            },
            (tokenize(raw_query@) matches Some(t) && t.len() > 0 && !has_clock_dependent_word(t)
                && and_loop(t, 0, None, opt_str_view(home), Seq::empty()) is None
                && and_err(t, 0, None, opt_str_view(home), Seq::empty()) is Some) ==> (r matches Err(FilesystemError::QueryParse(m))
                && m@ == and_err(tokenize(raw_query@)->0, 0, None, opt_str_view(home), Seq::empty())->0),
    {
        let parsed = match QueryParser::parse(raw_query, home) {
            Ok(p) => p,
            Err(e) => {
                return Err(e);
            },
        };
        let ghost e = parsed@;
        let lowercased = if case_sensitive {
            parsed
        } else {
            lowercase_query_expression(parsed)
        };
        let ghost chosen = if case_sensitive { e } else { lower_expr(e) };
        assert(lowercased@ == chosen);
        let expression = optimize_expression(lowercased);
        assert(query_parse(raw_query@, opt_str_view(home)) == Some(e) && expression@ == optimized(chosen));
        Ok(SearchQueryMatcher { expression, case_sensitive })
    }

    /// The names every match must contain, sorted.
    pub fn required_name_terms(&self) -> (r: Vec<String>)
        ensures
            strictly_sorted(str_views(r@)),
            str_views(r@).to_set() == required_terms(self.expression@),
    {
        let v = required_name_terms_from_expression(&self.expression);
        strings_of(&v)
    }

    /// Returns the compiled expression.
    pub fn expression(&self) -> (r: &QueryExpression)
        ensures
            r == &self.expression,
    {
        &self.expression
    }

    /// Returns whether the matcher is case sensitive.
    pub fn case_sensitive(&self) -> (r: bool)
        ensures
            r == self.case_sensitive,
    {
        self.case_sensitive
    }

    /// The terms results should highlight, sorted.
    pub fn highlight_terms(&self) -> (r: Vec<String>)
        ensures
            strictly_sorted(str_views(r@)),
            str_views(r@).to_set() == expr_lights(self.expression@),
    {
        derive_highlight_terms(&self.expression)
    }

    /// Matches a term against a node at `path`.
    pub fn matches_node_term(&self, term: &QueryTerm, node: &SlabNode, path: &str) -> (r: bool)
        ensures
            exists|c: NodeQueryContext| context_of(*node, path@, self.case_sensitive, c) && r == term_accepts(*term, c),
    {
        let context = NodeQueryContext::new(node, path.to_owned(), self.case_sensitive);
        evaluate_node_query_term(term, &context)
    }
}

} // verus!
