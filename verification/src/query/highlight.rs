//! Highlight terms of search results.
//!
//! The terms of a query that results should highlight: text terms and
//! filter arguments, split at wildcards into literal chunks, lowercased,
//! sorted and without duplicates.

use vstd::prelude::*;
use crate::query::type_filter::TypeFilterTarget;
use crate::query::expression::{
    exprs_view, lemma_exprs_view, QueryExpression, QueryFilter, QueryTerm, SpecExpr, SpecFilter,
    SpecTerm,
};
use crate::strings::{
    chars_of, contains_char, nonempty, sorted_insert, str_views, strictly_sorted, strings_of, trim,
    trim_chars, vec_views,
};

verus! {

/// The Unicode lowercase of a text, as `str::to_lowercase` gives it.
pub uninterp spec fn unicode_lower(s: Seq<char>) -> Seq<char>;

/// The last component of a path, as `std::path::Path::file_name` gives it.
pub uninterp spec fn path_file_name(p: Seq<char>) -> Option<Seq<char>>;

/// `str::to_lowercase`: the full Unicode lowercase mapping.
#[verifier::external_body]
fn lowercase_unicode(s: &str) -> (r: String)
    ensures
        r@ == unicode_lower(s@),
{
    s.to_lowercase()
}

/// `std::path::Path::file_name` of a path, as text: the last normal
/// component, none for a root, an empty path or one ending in `..`.
#[verifier::external_body]
pub(crate) fn file_name_of(path: &str) -> (r: Option<String>)
    ensures
        match r {
            Some(x) => path_file_name(path@) == Some(x@),
            None => path_file_name(path@) is None,
        },
{
    std::path::Path::new(path).file_name().and_then(|n| n.to_str()).map(|n| n.to_string())
}

/// The pieces of `s` between `*` and `?` characters, after `cur`.
pub open spec fn split_wild_acc(s: Seq<char>, cur: Seq<char>) -> Seq<Seq<char>>
    decreases s.len(),
{
    if s.len() == 0 {
        seq![cur]
    } else if s[0] == '*' || s[0] == '?' {
        seq![cur] + split_wild_acc(s.drop_first(), Seq::empty())
    } else {
        split_wild_acc(s.drop_first(), cur.push(s[0]))
    }
}

/// The literal chunks of a value: the trimmed pieces between wildcards
/// that are not empty; a value without wildcards is its own chunk.
pub open spec fn literal_chunks_spec(value: Seq<char>) -> Seq<Seq<char>> {
    let t = trim(value);
    if t.len() == 0 {
        Seq::empty()
    } else {
        let chunks = nonempty(split_wild_acc(t, Seq::empty()).map_values(|c: Seq<char>| trim(c)));
        if chunks.len() == 0 && !t.contains('*') && !t.contains('?') {
            seq![t]
        } else {
            chunks
        }
    }
}

/// The highlight term of a candidate, if its lowercase is not empty.
pub open spec fn light(x: Seq<char>) -> Set<Seq<char>> {
    if unicode_lower(x).len() > 0 {
        set![unicode_lower(x)]
    } else {
        Set::empty()
    }
}

/// The highlight terms of candidates.
pub open spec fn lights(xs: Seq<Seq<char>>) -> Set<Seq<char>>
    decreases xs.len(),
{
    if xs.len() == 0 {
        Set::empty()
    } else {
        lights(xs.drop_last()).union(light(xs.last()))
    }
}

/// The highlight terms of a text argument.
pub open spec fn text_lights(s: Seq<char>) -> Set<Seq<char>> {
    if trim(s).len() == 0 {
        Set::empty()
    } else {
        lights(literal_chunks_spec(trim(s)))
    }
}

/// The highlight terms of a filter: extensions and tags as they are; the
/// arguments of type macros, `file:`, `folder:` and `content:` as text; the
/// last component of a scope filter's folder.
pub open spec fn filter_lights(f: SpecFilter) -> Set<Seq<char>> {
    match f {
        SpecFilter::Extension(exts) => lights(exts),
        SpecFilter::TypeMacro { argument: Some(a), .. } => text_lights(a),
        SpecFilter::File { argument: Some(a) } => text_lights(a),
        SpecFilter::Folder { argument: Some(a) } => text_lights(a),
        SpecFilter::Parent { path } => scope_lights(path),
        SpecFilter::InFolder { path } => scope_lights(path),
        SpecFilter::NoSubfolders { path } => scope_lights(path),
        SpecFilter::Content { needle } => text_lights(needle),
        SpecFilter::Tag { tags } => lights(tags),
        _ => Set::empty(),
    }
}

/// The highlight terms of a scope filter's folder.
pub open spec fn scope_lights(path: Seq<char>) -> Set<Seq<char>> {
    match path_file_name(path) {
        Some(n) => text_lights(n),
        None => Set::empty(),
    }
}

/// The highlight terms of a term.
pub open spec fn term_lights(t: SpecTerm) -> Set<Seq<char>> {
    match t {
        SpecTerm::Text(s) => text_lights(s),
        SpecTerm::Filter(f) => filter_lights(f),
    }
}

/// The highlight terms of an expression, negated parts included.
pub open spec fn expr_lights(e: SpecExpr) -> Set<Seq<char>>
    decreases e,
{
    match e {
        SpecExpr::Term(t) => term_lights(t),
        SpecExpr::Not(b) => expr_lights(*b),
        SpecExpr::And(ps) => exprs_lights(ps),
        SpecExpr::Or(ps) => exprs_lights(ps),
    }
}

/// The highlight terms of a sequence of expressions.
pub open spec fn exprs_lights(s: Seq<SpecExpr>) -> Set<Seq<char>>
    decreases s,
{
    if s.len() == 0 {
        Set::empty()
    } else {
        exprs_lights(s.drop_last()).union(expr_lights(s.last()))
    }
}

/// A highlight term: non-empty, and the Unicode lowercase of some text.
pub open spec fn is_light(t: Seq<char>) -> bool {
    t.len() > 0 && exists|x: Seq<char>| unicode_lower(x) == t
}

proof fn lemma_lights(xs: Seq<Seq<char>>)
    ensures
        forall|t: Seq<char>| #[trigger] lights(xs).contains(t) ==> is_light(t),
    decreases xs.len(),
{
    if xs.len() > 0 {
        lemma_lights(xs.drop_last());
        assert forall|t: Seq<char>| #[trigger] lights(xs).contains(t) implies is_light(t) by {
            if light(xs.last()).contains(t) {
                assert(unicode_lower(xs.last()) == t);
            } else {
                assert(lights(xs.drop_last()).contains(t));
            }
        }
    }
}

proof fn lemma_term_lights(t: SpecTerm)
    ensures
        forall|x: Seq<char>| #[trigger] term_lights(t).contains(x) ==> is_light(x),
{
    match t {
        SpecTerm::Text(s) => {
            lemma_lights(literal_chunks_spec(trim(s)));
        },
        SpecTerm::Filter(f) => {
            match f {
                SpecFilter::Extension(exts) => lemma_lights(exts),
                SpecFilter::TypeMacro { argument: Some(a), .. } => lemma_lights(literal_chunks_spec(trim(a))),
                SpecFilter::File { argument: Some(a) } => lemma_lights(literal_chunks_spec(trim(a))),
                SpecFilter::Folder { argument: Some(a) } => lemma_lights(literal_chunks_spec(trim(a))),
                SpecFilter::Parent { path } => {
                    if let Some(n) = path_file_name(path) {
                        lemma_lights(literal_chunks_spec(trim(n)));
                    }
                },
                SpecFilter::InFolder { path } => {
                    if let Some(n) = path_file_name(path) {
                        lemma_lights(literal_chunks_spec(trim(n)));
                    }
                },
                SpecFilter::NoSubfolders { path } => {
                    if let Some(n) = path_file_name(path) {
                        lemma_lights(literal_chunks_spec(trim(n)));
                    }
                },
                SpecFilter::Content { needle } => lemma_lights(literal_chunks_spec(trim(needle))),
                SpecFilter::Tag { tags } => lemma_lights(tags),
                _ => {},
            }
        },
    }
}

/// A filter with a text argument highlights what that argument highlights
/// as a plain text term: `file:a`, `folder:a`, a type macro such as
/// `audio:a`, and `content:a` each highlight exactly the terms of `a`.
pub proof fn law_filter_argument_highlights_as_text(a: Seq<char>, target: TypeFilterTarget)
    ensures
        expr_lights(SpecExpr::Term(SpecTerm::Filter(SpecFilter::File { argument: Some(a) }))) == expr_lights(
            SpecExpr::Term(SpecTerm::Text(a))),
        expr_lights(SpecExpr::Term(SpecTerm::Filter(SpecFilter::Folder { argument: Some(a) }))) == expr_lights(
            SpecExpr::Term(SpecTerm::Text(a))),
        expr_lights(SpecExpr::Term(SpecTerm::Filter(SpecFilter::TypeMacro { target, argument: Some(a) })))
            == expr_lights(SpecExpr::Term(SpecTerm::Text(a))),
        expr_lights(SpecExpr::Term(SpecTerm::Filter(SpecFilter::Content { needle: a }))) == expr_lights(
            SpecExpr::Term(SpecTerm::Text(a))),
{
}

/// A scope filter highlights what the last component of its folder
/// highlights as a plain text term, and nothing when the folder has no
/// last component: `parent:/a/b`, `in:/a/b` and `nosubfolders:/a/b` each
/// highlight the terms of `b`.
pub proof fn law_scope_filters_highlight_folder_name(path: Seq<char>)
    ensures
        path_file_name(path) matches Some(n) ==> {
            &&& expr_lights(SpecExpr::Term(SpecTerm::Filter(SpecFilter::Parent { path }))) == expr_lights(
                SpecExpr::Term(SpecTerm::Text(n)))
            &&& expr_lights(SpecExpr::Term(SpecTerm::Filter(SpecFilter::InFolder { path }))) == expr_lights(
                SpecExpr::Term(SpecTerm::Text(n)))
            &&& expr_lights(SpecExpr::Term(SpecTerm::Filter(SpecFilter::NoSubfolders { path }))) == expr_lights(
                SpecExpr::Term(SpecTerm::Text(n)))
        },
        path_file_name(path) is None ==> {
            &&& expr_lights(SpecExpr::Term(SpecTerm::Filter(SpecFilter::Parent { path }))) == Set::<Seq<char>>::empty()
            &&& expr_lights(SpecExpr::Term(SpecTerm::Filter(SpecFilter::InFolder { path }))) == Set::<Seq<char>>::empty()
            &&& expr_lights(SpecExpr::Term(SpecTerm::Filter(SpecFilter::NoSubfolders { path }))) == Set::<
                Seq<char>,
            >::empty()
        },
{
}

/// The highlight terms of a sequence of expressions are those of its parts.
pub proof fn law_highlight_parts(ps: Seq<SpecExpr>)
    ensures
        expr_lights(SpecExpr::And(ps)) == expr_lights(SpecExpr::Or(ps)),
        forall|t: Seq<char>| #[trigger] exprs_lights(ps).contains(t) <==> exists|i: int| 0 <= i < ps.len()
            && expr_lights(ps[i]).contains(t),
    decreases ps.len(),
{
    if ps.len() > 0 {
        law_highlight_parts(ps.drop_last());
        assert forall|t: Seq<char>| #[trigger] exprs_lights(ps).contains(t) <==> exists|i: int| 0 <= i < ps.len()
            && expr_lights(ps[i]).contains(t) by {
            if exprs_lights(ps).contains(t) {
                if expr_lights(ps.last()).contains(t) {
                    assert(expr_lights(ps[ps.len() - 1]).contains(t));
                } else {
                    assert(exprs_lights(ps.drop_last()).contains(t));
                    let i = choose|i: int| 0 <= i < ps.drop_last().len() && expr_lights(ps.drop_last()[i]).contains(t);
                    assert(ps.drop_last()[i] == ps[i]);
                }
            }
            if exists|i: int| 0 <= i < ps.len() && expr_lights(ps[i]).contains(t) {
                let i = choose|i: int| 0 <= i < ps.len() && expr_lights(ps[i]).contains(t);
                if i < ps.len() - 1 {
                    assert(ps.drop_last()[i] == ps[i]);
                    assert(exprs_lights(ps.drop_last()).contains(t));
                }
            }
        }
    }
}

/// The highlight terms of a query: each is a non-empty Unicode lowercase
/// text; a negation highlights what its operand does; type, size and date
/// filters and argument-less `type:`, `file:` and `folder:` highlight
/// nothing.
pub proof fn law_highlight_terms(e: SpecExpr)
    ensures
        forall|t: Seq<char>| #[trigger] expr_lights(e).contains(t) ==> is_light(t),
        expr_lights(SpecExpr::Not(Box::new(e))) == expr_lights(e),
        forall|f: SpecFilter| (f is Type || f is Size || f is DateModified || f is DateCreated
            || f matches SpecFilter::TypeMacro { argument: None, .. } || f matches SpecFilter::File { argument: None }
            || f matches SpecFilter::Folder { argument: None }) ==> #[trigger] filter_lights(f) == Set::<Seq<char>>::empty(),
    decreases e,
{
    match e {
        SpecExpr::Term(t) => {
            lemma_term_lights(t);
        },
        SpecExpr::Not(b) => {
            law_highlight_terms(*b);
        },
        SpecExpr::And(ps) => {
            law_highlight_parts(ps);
            assert forall|t: Seq<char>| #[trigger] expr_lights(e).contains(t) implies is_light(t) by {
                assert(exprs_lights(ps).contains(t));
                let i = choose|i: int| 0 <= i < ps.len() && expr_lights(ps[i]).contains(t);
                assert(decreases_to!(e => ps[i]));
                law_highlight_terms(ps[i]);
            }
        },
        SpecExpr::Or(ps) => {
            law_highlight_parts(ps);
            assert forall|t: Seq<char>| #[trigger] expr_lights(e).contains(t) implies is_light(t) by {
                assert(exprs_lights(ps).contains(t));
                let i = choose|i: int| 0 <= i < ps.len() && expr_lights(ps[i]).contains(t);
                assert(decreases_to!(e => ps[i]));
                law_highlight_terms(ps[i]);
            }
        },
    }
}

/// Splits at `*` and `?`.
fn split_wild(v: &Vec<char>) -> (r: Vec<Vec<char>>)
    ensures
        vec_views(r@) == split_wild_acc(v@, Seq::empty()),
{
    let mut r: Vec<Vec<char>> = Vec::new();
    let mut cur: Vec<char> = Vec::new();
    let mut i: usize = 0;
    assert(v@.subrange(0, v.len() as int) =~= v@);
    assert(vec_views(r@) =~= Seq::<Seq<char>>::empty());
    while i < v.len()
        invariant
            i <= v.len(),
            vec_views(r@) + split_wild_acc(v@.subrange(i as int, v.len() as int), cur@) == split_wild_acc(v@, Seq::empty()),
        decreases v.len() - i,
    {
        let ghost rest = v@.subrange(i as int, v.len() as int);
        assert(rest.drop_first() =~= v@.subrange(i + 1, v.len() as int));
        if v[i] == '*' || v[i] == '?' {
            let ghost old_r = vec_views(r@);
            let done = cur;
            r.push(done);
            proof {
                assert(vec_views(r@) =~= old_r + seq![done@]);
                assert(old_r + (seq![done@] + split_wild_acc(rest.drop_first(), Seq::empty()))
                    =~= (old_r + seq![done@]) + split_wild_acc(rest.drop_first(), Seq::empty()));
            }
            cur = Vec::new();
            assert(cur@ =~= Seq::<char>::empty());
        } else {
            cur.push(v[i]);
        }
        i = i + 1;
    }
    let ghost old_r = vec_views(r@);
    let last = cur;
    r.push(last);
    proof {
        assert(v@.subrange(v.len() as int, v.len() as int) =~= Seq::<char>::empty());
        assert(vec_views(r@) =~= old_r + seq![last@]);
    }
    r
}

/// Splits a value on wildcards into literal chunks.
fn literal_chunks(value: &Vec<char>) -> (r: Vec<Vec<char>>)
    ensures
        vec_views(r@) == literal_chunks_spec(value@),
{
    let t = trim_chars(value);
    if t.len() == 0 {
        assert(vec_views(Seq::<Vec<char>>::empty()) =~= Seq::<Seq<char>>::empty());
        return Vec::new();
    }
    let pieces = split_wild(&t);
    let mut chunks: Vec<Vec<char>> = Vec::new();
    let mut i: usize = 0;
    let ghost trimmed = split_wild_acc(t@, Seq::empty()).map_values(|c: Seq<char>| trim(c));
    assert(vec_views(chunks@) =~= nonempty(trimmed.subrange(0, 0)));
    while i < pieces.len()
        invariant
            i <= pieces.len(),
            vec_views(pieces@) == split_wild_acc(t@, Seq::empty()),
            trimmed == split_wild_acc(t@, Seq::empty()).map_values(|c: Seq<char>| trim(c)),
            vec_views(chunks@) == nonempty(trimmed.subrange(0, i as int)),
        decreases pieces.len() - i,
    {
        let c = trim_chars(&pieces[i]);
        assert(trimmed[i as int] == c@);
        assert(trimmed.subrange(0, i + 1).drop_last() =~= trimmed.subrange(0, i as int));
        if c.len() > 0 {
            let ghost old = vec_views(chunks@);
            chunks.push(c);
            assert(vec_views(chunks@) =~= old.push(c@));
        }
        i = i + 1;
    }
    assert(trimmed.subrange(0, pieces.len() as int) =~= trimmed);
    if chunks.len() == 0 && !contains_char(&t, '*') && !contains_char(&t, '?') {
        let r = vec![t];
        assert(vec_views(r@) =~= seq![r@[0]@]);
        r
    } else {
        chunks
    }
}

/// The highlight term collector: a strictly sorted list of terms.
struct HighlightCollector {
    terms: Vec<Vec<char>>,
}

impl HighlightCollector {
    spec fn wf(&self) -> bool {
        strictly_sorted(vec_views(self.terms@))
    }

    spec fn set(&self) -> Set<Seq<char>> {
        vec_views(self.terms@).to_set()
    }

    /// Adds the lowercase of a candidate, unless it is empty or present.
    fn push(&mut self, candidate: &str)
        requires
            old(self).wf(),
        ensures
            final(self).wf(),
            final(self).set() == old(self).set().union(light(candidate@)),
    {
        let lowered = lowercase_unicode(candidate);
        let x = chars_of(lowered.as_str());
        if x.len() == 0 {
            assert(light(candidate@) =~= Set::<Seq<char>>::empty());
            assert(self.set().union(light(candidate@)) =~= self.set());
            return;
        }
        sorted_insert(&mut self.terms, x);
        assert(self.set() =~= old(self).set().union(light(candidate@)));
    }

    /// Adds the highlight terms of several candidates.
    fn push_all(&mut self, items: &Vec<String>)
        requires
            old(self).wf(),
        ensures
            final(self).wf(),
            final(self).set() == old(self).set().union(lights(str_views(items@))),
    {
        let mut i: usize = 0;
        let ghost start = self.set();
        assert(lights(str_views(items@).subrange(0, 0)) =~= Set::<Seq<char>>::empty());
        assert(start.union(Set::<Seq<char>>::empty()) =~= start);
        while i < items.len()
            invariant
                i <= items@.len(),
                self.wf(),
                self.set() == start.union(lights(str_views(items@).subrange(0, i as int))),
            decreases items@.len() - i,
        {
            self.push(items[i].as_str());
            proof {
                let s = str_views(items@).subrange(0, i + 1);
                assert(s.drop_last() =~= str_views(items@).subrange(0, i as int));
                assert(s.last() == items@[i as int]@);
                assert(start.union(lights(s.drop_last())).union(light(s.last())) =~= start.union(lights(s)));
            }
            i = i + 1;
        }
        assert(str_views(items@).subrange(0, items@.len() as int) =~= str_views(items@));
    }

    /// Adds the highlight terms of a text argument.
    fn collect_text(&mut self, value: &str)
        requires
            old(self).wf(),
        ensures
            final(self).wf(),
            final(self).set() == old(self).set().union(text_lights(value@)),
    {
        let v = chars_of(value);
        let t = trim_chars(&v);
        if t.len() == 0 {
            assert(self.set().union(text_lights(value@)) =~= self.set());
            return;
        }
        let chunks = literal_chunks(&t);
        let strings = strings_of(&chunks);
        self.push_all(&strings);
    }

    /// Adds the highlight terms of a filter.
    fn collect_filter(&mut self, filter: &QueryFilter)
        requires
            old(self).wf(),
        ensures
            final(self).wf(),
            final(self).set() == old(self).set().union(filter_lights(crate::query::expression::filter_view(*filter))),
    {
        match filter {
            QueryFilter::Extension(exts) => self.push_all(exts),
            QueryFilter::TypeMacro { argument: Some(arg), .. } => self.collect_text(arg.as_str()),
            QueryFilter::File { argument: Some(arg) } => self.collect_text(arg.as_str()),
            QueryFilter::Folder { argument: Some(arg) } => self.collect_text(arg.as_str()),
            QueryFilter::Parent { path } => self.collect_scope(path.as_str()),
            QueryFilter::InFolder { path } => self.collect_scope(path.as_str()),
            QueryFilter::NoSubfolders { path } => self.collect_scope(path.as_str()),
            QueryFilter::Content { needle } => self.collect_text(needle.as_str()),
            QueryFilter::Tag { tags } => self.push_all(tags),
            _ => {
                assert(self.set().union(Set::<Seq<char>>::empty()) =~= self.set());
            },
        }
    }

    /// Adds the last component of a scope filter's folder.
    fn collect_scope(&mut self, path: &str)
        requires
            old(self).wf(),
        ensures
            final(self).wf(),
            final(self).set() == old(self).set().union(scope_lights(path@)),
    {
        match file_name_of(path) {
            Some(name) => self.collect_text(name.as_str()),
            None => {
                assert(self.set().union(Set::<Seq<char>>::empty()) =~= self.set());
            },
        }
    }

    /// Adds the highlight terms of an expression.
    fn collect_expr(&mut self, expr: &QueryExpression)
        requires
            old(self).wf(),
        ensures
            final(self).wf(),
            final(self).set() == old(self).set().union(expr_lights(expr@)),
        decreases expr,
    {
        match expr {
            QueryExpression::Term(QueryTerm::Text(text)) => self.collect_text(text.as_str()),
            QueryExpression::Term(QueryTerm::Filter(filter)) => self.collect_filter(filter),
            QueryExpression::Not(inner) => self.collect_expr(inner),
            QueryExpression::And(parts) => {
                proof {
                    assert(decreases_to!(*expr => *parts));
                }
                self.collect_parts(parts)
            },
            QueryExpression::Or(parts) => {
                proof {
                    assert(decreases_to!(*expr => *parts));
                }
                self.collect_parts(parts)
            },
        }
    }

    fn collect_parts(&mut self, parts: &Vec<QueryExpression>)
        requires
            old(self).wf(),
        ensures
            final(self).wf(),
            final(self).set() == old(self).set().union(exprs_lights(exprs_view(parts@))),
        decreases parts,
    {
        let ghost start = self.set();
        let mut i: usize = 0;
        proof {
            lemma_exprs_view(parts@);
            assert(exprs_view(parts@).subrange(0, 0) =~= Seq::<SpecExpr>::empty());
            assert(start.union(Set::<Seq<char>>::empty()) =~= start);
        }
        while i < parts.len()
            invariant
                i <= parts@.len(),
                self.wf(),
                exprs_view(parts@).len() == parts@.len(),
                forall|k: int| 0 <= k < parts@.len() ==> #[trigger] exprs_view(parts@)[k] == parts@[k]@,
                self.set() == start.union(exprs_lights(exprs_view(parts@).subrange(0, i as int))),
            decreases parts@.len() - i,
        {
            proof {
                assert(decreases_to!(*parts => parts@[i as int]));
            }
            self.collect_expr(&parts[i]);
            proof {
                let s = exprs_view(parts@).subrange(0, i + 1);
                assert(s.drop_last() =~= exprs_view(parts@).subrange(0, i as int));
                assert(s.last() == parts@[i as int]@);
                assert(start.union(exprs_lights(s.drop_last())).union(expr_lights(s.last())) =~= start.union(exprs_lights(s)));
            }
            i = i + 1;
        }
        assert(exprs_view(parts@).subrange(0, parts@.len() as int) =~= exprs_view(parts@));
    }
}

/// Derives highlight terms from a query expression: the lowercase literal
/// chunks of its text terms and arguments, its extensions and tags, and the
/// folder names of its scope filters, sorted and without duplicates.
pub fn derive_highlight_terms(expr: &QueryExpression) -> (r: Vec<String>)
    ensures
        strictly_sorted(str_views(r@)),
        str_views(r@).to_set() == expr_lights(expr@),
{
    let mut collector = HighlightCollector { terms: Vec::new() };
    assert(vec_views(collector.terms@) =~= Seq::<Seq<char>>::empty());
    assert(collector.set() =~= Set::<Seq<char>>::empty());
    collector.collect_expr(expr);
    assert(Set::<Seq<char>>::empty().union(expr_lights(expr@)) =~= expr_lights(expr@));
    strings_of(&collector.terms)
}

} // verus!
