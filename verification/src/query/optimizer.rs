//! Query optimization: deterministic rewrites that make evaluation cheaper.
//!
//! - nested conjunctions and disjunctions are flattened;
//! - single-item conjunctions and disjunctions are unwrapped;
//! - the parts of a conjunction are ordered by evaluation cost, stably:
//!   scope filters first, then plain terms, other filters, tag filters last.
//!
//! A new tree is returned; the input is not changed.

use vstd::prelude::*;
use crate::query::expression::{
    all_dates_resolved, copy_term, dates_resolved, expr_dates, exprs_view, lemma_all_dates_resolved,
    lemma_seq_dates_add, lemma_seq_dates_same_elements, seq_dates, lemma_exprs_view, lemma_exprs_view_add, QueryExpression, QueryFilter,
    QueryTerm, SpecExpr, SpecFilter, SpecTerm,
};

verus! {

/// The evaluation cost class of an expression (lower runs first): 0 for
/// scope filters (`infolder:`, `parent:`), 1 for everything that is not a
/// filter, 2 for other filters, 3 for tag filters.
pub open spec fn priority(e: SpecExpr) -> nat {
    match e {
        SpecExpr::Term(SpecTerm::Filter(f)) => match f {
            SpecFilter::InFolder { .. } => 0,
            SpecFilter::Parent { .. } => 0,
            SpecFilter::Tag { .. } => 3,
            _ => 2,
        },
        _ => 1,
    }
}

/// The parts of cost class `p`, in order.
pub open spec fn with_priority(s: Seq<SpecExpr>, p: nat) -> Seq<SpecExpr> {
    s.filter(has_priority(p))
}

/// The test for cost class `p`.
pub open spec fn has_priority(p: nat) -> spec_fn(SpecExpr) -> bool {
    |e: SpecExpr| priority(e) == p
}

/// The stable ordering of parts by cost class.
pub open spec fn by_priority(s: Seq<SpecExpr>) -> Seq<SpecExpr> {
    with_priority(s, 0) + with_priority(s, 1) + with_priority(s, 2) + with_priority(s, 3)
}

/// The parts an optimized conjunct contributes: its parts when it is a
/// conjunction, else itself.
pub open spec fn and_items(e: SpecExpr) -> Seq<SpecExpr> {
    match e {
        SpecExpr::And(n) => n,
        _ => seq![e],
    }
}

/// The parts an optimized disjunct contributes.
pub open spec fn or_items(e: SpecExpr) -> Seq<SpecExpr> {
    match e {
        SpecExpr::Or(n) => n,
        _ => seq![e],
    }
}

/// The optimized form of an expression.
pub open spec fn optimized(e: SpecExpr) -> SpecExpr
    decreases e,
{
    match e {
        SpecExpr::And(parts) => and_node(flat_and(parts)),
        SpecExpr::Or(parts) => or_node(flat_or(parts)),
        SpecExpr::Not(b) => SpecExpr::Not(Box::new(optimized(*b))),
        SpecExpr::Term(t) => SpecExpr::Term(t),
    }
}

/// The optimized conjuncts, flattened.
pub open spec fn flat_and(s: Seq<SpecExpr>) -> Seq<SpecExpr>
    decreases s,
{
    if s.len() == 0 {
        Seq::empty()
    } else {
        flat_and(s.drop_last()) + and_items(optimized(s.last()))
    }
}

/// The optimized disjuncts, flattened.
pub open spec fn flat_or(s: Seq<SpecExpr>) -> Seq<SpecExpr>
    decreases s,
{
    if s.len() == 0 {
        Seq::empty()
    } else {
        flat_or(s.drop_last()) + or_items(optimized(s.last()))
    }
}

/// A conjunction of flattened parts: empty, unwrapped, or reordered.
pub open spec fn and_node(f: Seq<SpecExpr>) -> SpecExpr {
    if f.len() == 0 {
        SpecExpr::And(Seq::empty())
    } else if f.len() == 1 {
        f[0]
    } else {
        SpecExpr::And(by_priority(f))
    }
}

/// A disjunction of flattened parts: empty, unwrapped, or kept in order.
pub open spec fn or_node(f: Seq<SpecExpr>) -> SpecExpr {
    if f.len() == 0 {
        SpecExpr::Or(Seq::empty())
    } else if f.len() == 1 {
        f[0]
    } else {
        SpecExpr::Or(f)
    }
}

/// One more part adds itself to its own class only.
pub proof fn lemma_with_priority_step(s: Seq<SpecExpr>, p: nat)
    requires
        s.len() > 0,
    ensures
        with_priority(s, p) == (if priority(s.last()) == p {
            with_priority(s.drop_last(), p).push(s.last())
        } else {
            with_priority(s.drop_last(), p)
        }),
{
    reveal_with_fuel(Seq::filter, 1);
}

/// Whether an expression model holds when each term is judged by `t`:
/// a negation flips, a conjunction needs every part (an empty one holds),
/// a disjunction needs some part (an empty one does not).
pub open spec fn holds(e: SpecExpr, t: spec_fn(SpecTerm) -> bool) -> bool
    decreases e,
{
    match e {
        SpecExpr::Term(x) => t(x),
        SpecExpr::Not(b) => !holds(*b, t),
        SpecExpr::And(v) => all_hold(v, t),
        SpecExpr::Or(v) => any_holds(v, t),
    }
}

/// Every expression of the sequence holds.
pub open spec fn all_hold(s: Seq<SpecExpr>, t: spec_fn(SpecTerm) -> bool) -> bool
    decreases s,
{
    if s.len() == 0 {
        true
    } else {
        all_hold(s.drop_last(), t) && holds(s.last(), t)
    }
}

/// Some expression of the sequence holds.
pub open spec fn any_holds(s: Seq<SpecExpr>, t: spec_fn(SpecTerm) -> bool) -> bool
    decreases s,
{
    if s.len() == 0 {
        false
    } else {
        any_holds(s.drop_last(), t) || holds(s.last(), t)
    }
}

proof fn lemma_all_hold(s: Seq<SpecExpr>, t: spec_fn(SpecTerm) -> bool)
    ensures
        all_hold(s, t) <==> forall|i: int| 0 <= i < s.len() ==> #[trigger] holds(s[i], t),
    decreases s.len(),
{
    if s.len() > 0 {
        lemma_all_hold(s.drop_last(), t);
        assert forall|i: int| 0 <= i < s.len() - 1 implies s.drop_last()[i] == s[i] by {}
        if all_hold(s, t) {
            assert forall|i: int| 0 <= i < s.len() implies #[trigger] holds(s[i], t) by {
                if i < s.len() - 1 {
                    assert(holds(s.drop_last()[i], t));
                }
            }
        } else if holds(s.last(), t) {
            let j = choose|j: int| 0 <= j < s.len() - 1 && !#[trigger] holds(s.drop_last()[j], t);
            assert(!holds(s[j], t));
        }
    }
}

proof fn lemma_any_holds(s: Seq<SpecExpr>, t: spec_fn(SpecTerm) -> bool)
    ensures
        any_holds(s, t) <==> exists|i: int| 0 <= i < s.len() && #[trigger] holds(s[i], t),
    decreases s.len(),
{
    if s.len() > 0 {
        lemma_any_holds(s.drop_last(), t);
        assert forall|i: int| 0 <= i < s.len() - 1 implies s.drop_last()[i] == s[i] by {}
        if any_holds(s, t) {
            if holds(s.last(), t) {
                assert(holds(s[s.len() - 1], t));
            } else {
                let j = choose|j: int| 0 <= j < s.len() - 1 && #[trigger] holds(s.drop_last()[j], t);
                assert(holds(s[j], t));
            }
        } else {
            assert forall|i: int| 0 <= i < s.len() implies !#[trigger] holds(s[i], t) by {
                if i < s.len() - 1 {
                    assert(!holds(s.drop_last()[i], t));
                }
            }
        }
    }
}

proof fn lemma_all_hold_concat(a: Seq<SpecExpr>, b: Seq<SpecExpr>, t: spec_fn(SpecTerm) -> bool)
    ensures
        all_hold(a + b, t) == (all_hold(a, t) && all_hold(b, t)),
{
    lemma_all_hold(a, t);
    lemma_all_hold(b, t);
    lemma_all_hold(a + b, t);
    if all_hold(a, t) && all_hold(b, t) {
        assert forall|i: int| 0 <= i < (a + b).len() implies #[trigger] holds((a + b)[i], t) by {
            if i < a.len() {
                assert(holds(a[i], t));
            } else {
                assert(holds(b[i - a.len()], t));
            }
        }
    }
    if all_hold(a + b, t) {
        assert forall|i: int| 0 <= i < a.len() implies #[trigger] holds(a[i], t) by {
            assert(holds((a + b)[i], t));
        }
        assert forall|i: int| 0 <= i < b.len() implies #[trigger] holds(b[i], t) by {
            assert(holds((a + b)[i + a.len()], t));
        }
    }
}

proof fn lemma_any_holds_concat(a: Seq<SpecExpr>, b: Seq<SpecExpr>, t: spec_fn(SpecTerm) -> bool)
    ensures
        any_holds(a + b, t) == (any_holds(a, t) || any_holds(b, t)),
{
    lemma_any_holds(a, t);
    lemma_any_holds(b, t);
    lemma_any_holds(a + b, t);
    if any_holds(a + b, t) {
        let i = choose|i: int| 0 <= i < (a + b).len() && #[trigger] holds((a + b)[i], t);
        if i < a.len() {
            assert(holds(a[i], t));
        } else {
            assert(holds(b[i - a.len()], t));
        }
    }
    if any_holds(a, t) {
        let i = choose|i: int| 0 <= i < a.len() && #[trigger] holds(a[i], t);
        assert(holds((a + b)[i], t));
    }
    if any_holds(b, t) {
        let i = choose|i: int| 0 <= i < b.len() && #[trigger] holds(b[i], t);
        assert(holds((a + b)[i + a.len()], t));
    }
}

proof fn lemma_singleton(x: SpecExpr, t: spec_fn(SpecTerm) -> bool)
    ensures
        all_hold(seq![x], t) == holds(x, t),
        any_holds(seq![x], t) == holds(x, t),
{
    let s = seq![x];
    assert(s.drop_last() =~= Seq::<SpecExpr>::empty());
    assert(s.len() == 1 && s.last() == x);
    assert(all_hold(s.drop_last(), t));
    assert(!any_holds(s.drop_last(), t));
}

proof fn lemma_flat_and(s: Seq<SpecExpr>, t: spec_fn(SpecTerm) -> bool)
    requires
        forall|i: int| 0 <= i < s.len() ==> #[trigger] holds(optimized(s[i]), t) == holds(s[i], t),
    ensures
        all_hold(flat_and(s), t) == all_hold(s, t),
    decreases s.len(),
{
    if s.len() > 0 {
        lemma_flat_and(s.drop_last(), t);
        let x = optimized(s.last());
        assert(holds(optimized(s[s.len() - 1]), t) == holds(s[s.len() - 1], t));
        lemma_all_hold_concat(flat_and(s.drop_last()), and_items(x), t);
        if !(x is And) {
            lemma_singleton(x, t);
        }
    }
}

proof fn lemma_flat_or(s: Seq<SpecExpr>, t: spec_fn(SpecTerm) -> bool)
    requires
        forall|i: int| 0 <= i < s.len() ==> #[trigger] holds(optimized(s[i]), t) == holds(s[i], t),
    ensures
        any_holds(flat_or(s), t) == any_holds(s, t),
    decreases s.len(),
{
    if s.len() > 0 {
        lemma_flat_or(s.drop_last(), t);
        let x = optimized(s.last());
        assert(holds(optimized(s[s.len() - 1]), t) == holds(s[s.len() - 1], t));
        lemma_any_holds_concat(flat_or(s.drop_last()), or_items(x), t);
        if !(x is Or) {
            lemma_singleton(x, t);
        }
    }
}

/// Ordering by cost class keeps exactly the same parts.
proof fn lemma_by_priority_all_hold(f: Seq<SpecExpr>, t: spec_fn(SpecTerm) -> bool)
    ensures
        all_hold(by_priority(f), t) == all_hold(f, t),
{
    let w0 = with_priority(f, 0);
    let w1 = with_priority(f, 1);
    let w2 = with_priority(f, 2);
    let w3 = with_priority(f, 3);
    lemma_all_hold_concat(w0, w1, t);
    lemma_all_hold_concat(w0 + w1, w2, t);
    lemma_all_hold_concat(w0 + w1 + w2, w3, t);
    lemma_all_hold(f, t);
    lemma_all_hold(w0, t);
    lemma_all_hold(w1, t);
    lemma_all_hold(w2, t);
    lemma_all_hold(w3, t);
    if all_hold(f, t) {
        assert forall|p: nat, k: int| 0 <= k < with_priority(f, p).len() implies holds(#[trigger] with_priority(f, p)[k], t) by {
            let x = with_priority(f, p)[k];
            assert(with_priority(f, p).contains(x));
            f.lemma_filter_contains_rev(has_priority(p), x);
            let j = choose|j: int| 0 <= j < f.len() && f[j] == x;
            assert(holds(f[j], t));
        }
        assert(all_hold(w0, t) && all_hold(w1, t) && all_hold(w2, t) && all_hold(w3, t)) by {
            assert forall|k: int| 0 <= k < w0.len() implies #[trigger] holds(w0[k], t) by { assert(0 <= k < with_priority(f, 0).len()); }
            assert forall|k: int| 0 <= k < w1.len() implies #[trigger] holds(w1[k], t) by { assert(0 <= k < with_priority(f, 1).len()); }
            assert forall|k: int| 0 <= k < w2.len() implies #[trigger] holds(w2[k], t) by { assert(0 <= k < with_priority(f, 2).len()); }
            assert forall|k: int| 0 <= k < w3.len() implies #[trigger] holds(w3[k], t) by { assert(0 <= k < with_priority(f, 3).len()); }
        }
    }
    if all_hold(w0, t) && all_hold(w1, t) && all_hold(w2, t) && all_hold(w3, t) {
        assert forall|i: int| 0 <= i < f.len() implies #[trigger] holds(f[i], t) by {
            let p = priority(f[i]);
            let w = with_priority(f, p);
            f.lemma_filter_contains(has_priority(p), i);
            assert(w.contains(f[i]));
            let k = choose|k: int| 0 <= k < w.len() && w[k] == f[i];
            if p == 0 {
                assert(holds(w0[k], t));
            } else if p == 1 {
                assert(holds(w1[k], t));
            } else if p == 2 {
                assert(holds(w2[k], t));
            } else {
                assert(holds(w3[k], t));
            }
        }
    }
}

/// Optimization keeps the meaning of a query: whatever each term is judged
/// to be, the optimized expression holds exactly when the input does.
pub proof fn law_optimize_preserves_meaning(e: SpecExpr, t: spec_fn(SpecTerm) -> bool)
    ensures
        holds(optimized(e), t) == holds(e, t),
    decreases e,
{
    match e {
        SpecExpr::Term(x) => {
            assert(optimized(e) == SpecExpr::Term(x));
        },
        SpecExpr::Not(b) => {
            law_optimize_preserves_meaning(*b, t);
        },
        SpecExpr::And(parts) => {
            assert forall|i: int| 0 <= i < parts.len() implies #[trigger] holds(optimized(parts[i]), t) == holds(parts[i], t) by {
                assert(decreases_to!(e => parts[i]));
                law_optimize_preserves_meaning(parts[i], t);
            }
            lemma_flat_and(parts, t);
            let f = flat_and(parts);
            assert(optimized(e) == and_node(f));
            assert(all_hold(f, t) == holds(e, t));
            if f.len() == 0 {
                assert(all_hold(Seq::<SpecExpr>::empty(), t));
                assert(holds(and_node(f), t) == all_hold(f, t));
            } else if f.len() == 1 {
                lemma_all_hold(f, t);
                assert(holds(and_node(f), t) == all_hold(f, t));
            } else {
                lemma_by_priority_all_hold(f, t);
                assert(holds(and_node(f), t) == all_hold(f, t));
            }
        },
        SpecExpr::Or(parts) => {
            assert forall|i: int| 0 <= i < parts.len() implies #[trigger] holds(optimized(parts[i]), t) == holds(parts[i], t) by {
                assert(decreases_to!(e => parts[i]));
                law_optimize_preserves_meaning(parts[i], t);
            }
            lemma_flat_or(parts, t);
            let f = flat_or(parts);
            assert(optimized(e) == or_node(f));
            assert(any_holds(f, t) == holds(e, t));
            if f.len() == 0 {
                assert(!any_holds(Seq::<SpecExpr>::empty(), t));
                assert(holds(or_node(f), t) == any_holds(f, t));
            } else if f.len() == 1 {
                lemma_any_holds(f, t);
                assert(holds(or_node(f), t) == any_holds(f, t));
            } else {
                assert(holds(or_node(f), t) == any_holds(f, t));
            }
        },
    }
}

/// The shape optimization produces: no conjunction directly inside a
/// conjunction nor disjunction inside a disjunction, no conjunction or
/// disjunction of exactly one part, and the parts of each conjunction in
/// cost-class order.
pub open spec fn well_shaped(e: SpecExpr) -> bool
    decreases e,
{
    match e {
        SpecExpr::Term(_) => true,
        SpecExpr::Not(b) => well_shaped(*b),
        SpecExpr::And(v) => v.len() != 1 && (forall|i: int| 0 <= i < v.len() ==> !(#[trigger] v[i] is And))
            && (forall|i: int, j: int| 0 <= i < j < v.len() ==> priority(#[trigger] v[i]) <= priority(#[trigger] v[j]))
            && (forall|i: int| 0 <= i < v.len() ==> well_shaped(#[trigger] v[i])),
        SpecExpr::Or(v) => v.len() != 1 && (forall|i: int| 0 <= i < v.len() ==> !(#[trigger] v[i] is Or))
            && (forall|i: int| 0 <= i < v.len() ==> well_shaped(#[trigger] v[i])),
    }
}

proof fn lemma_priority_classes_len(s: Seq<SpecExpr>)
    ensures
        with_priority(s, 0).len() + with_priority(s, 1).len() + with_priority(s, 2).len() + with_priority(s, 3).len() == s.len(),
    decreases s.len(),
{
    reveal_with_fuel(Seq::filter, 1);
    if s.len() > 0 {
        lemma_priority_classes_len(s.drop_last());
        lemma_with_priority_step(s, 0);
        lemma_with_priority_step(s, 1);
        lemma_with_priority_step(s, 2);
        lemma_with_priority_step(s, 3);
    }
}

proof fn lemma_flat_and_parts(s: Seq<SpecExpr>)
    requires
        forall|i: int| 0 <= i < s.len() ==> well_shaped(#[trigger] optimized(s[i])),
    ensures
        forall|k: int| 0 <= k < flat_and(s).len() ==> !(#[trigger] flat_and(s)[k] is And) && well_shaped(flat_and(s)[k]),
    decreases s.len(),
{
    if s.len() > 0 {
        lemma_flat_and_parts(s.drop_last());
        let a = flat_and(s.drop_last());
        let x = optimized(s.last());
        assert(well_shaped(optimized(s[s.len() - 1])));
        let b = and_items(x);
        assert(flat_and(s) == a + b);
        assert forall|k: int| 0 <= k < flat_and(s).len() implies !(#[trigger] flat_and(s)[k] is And) && well_shaped(flat_and(s)[k]) by {
            if k < a.len() {
                assert(flat_and(s)[k] == a[k]);
            } else {
                assert(flat_and(s)[k] == b[k - a.len()]);
            }
        }
    }
}

proof fn lemma_flat_or_parts(s: Seq<SpecExpr>)
    requires
        forall|i: int| 0 <= i < s.len() ==> well_shaped(#[trigger] optimized(s[i])),
    ensures
        forall|k: int| 0 <= k < flat_or(s).len() ==> !(#[trigger] flat_or(s)[k] is Or) && well_shaped(flat_or(s)[k]),
    decreases s.len(),
{
    if s.len() > 0 {
        lemma_flat_or_parts(s.drop_last());
        let a = flat_or(s.drop_last());
        let x = optimized(s.last());
        assert(well_shaped(optimized(s[s.len() - 1])));
        let b = or_items(x);
        assert(flat_or(s) == a + b);
        assert forall|k: int| 0 <= k < flat_or(s).len() implies !(#[trigger] flat_or(s)[k] is Or) && well_shaped(flat_or(s)[k]) by {
            if k < a.len() {
                assert(flat_or(s)[k] == a[k]);
            } else {
                assert(flat_or(s)[k] == b[k - a.len()]);
            }
        }
    }
}

proof fn lemma_by_priority_shape(f: Seq<SpecExpr>)
    requires
        forall|k: int| 0 <= k < f.len() ==> !(#[trigger] f[k] is And) && well_shaped(f[k]),
    ensures
        well_shaped(SpecExpr::And(by_priority(f))) || f.len() == 1,
{
    let w0 = with_priority(f, 0);
    let w1 = with_priority(f, 1);
    let w2 = with_priority(f, 2);
    let w3 = with_priority(f, 3);
    let v = by_priority(f);
    lemma_priority_classes_len(f);
    assert(v.len() == f.len());
    assert forall|p: nat, k: int| 0 <= k < with_priority(f, p).len() implies
        priority(#[trigger] with_priority(f, p)[k]) == p && !(with_priority(f, p)[k] is And) && well_shaped(with_priority(f, p)[k]) by {
        f.lemma_filter_pred(has_priority(p), k);
        let x = with_priority(f, p)[k];
        assert(with_priority(f, p).contains(x));
        f.lemma_filter_contains_rev(has_priority(p), x);
        let j = choose|j: int| 0 <= j < f.len() && f[j] == x;
        assert(!(f[j] is And) && well_shaped(f[j]));
    }
    assert forall|i: int| 0 <= i < v.len() implies {
        &&& !(#[trigger] v[i] is And)
        &&& well_shaped(v[i])
        &&& priority(v[i]) == (if i < w0.len() { 0nat } else if i < w0.len() + w1.len() { 1nat }
            else if i < w0.len() + w1.len() + w2.len() { 2nat } else { 3nat })
    } by {
        if i < w0.len() {
            assert(v[i] == w0[i]);
            assert(0 <= i < with_priority(f, 0).len());
        } else if i < w0.len() + w1.len() {
            assert(v[i] == w1[i - w0.len()]);
            assert(0 <= i - w0.len() < with_priority(f, 1).len());
        } else if i < w0.len() + w1.len() + w2.len() {
            assert(v[i] == w2[i - w0.len() - w1.len()]);
            assert(0 <= i - w0.len() - w1.len() < with_priority(f, 2).len());
        } else {
            assert(v[i] == w3[i - w0.len() - w1.len() - w2.len()]);
            assert(0 <= i - w0.len() - w1.len() - w2.len() < with_priority(f, 3).len());
        }
    }
}

/// Optimization gives the normal shape: no nested conjunction or
/// disjunction of its own kind, none of a single part, and conjunction
/// parts in cost-class order.
pub proof fn law_optimized_is_well_shaped(e: SpecExpr)
    ensures
        well_shaped(optimized(e)),
    decreases e,
{
    match e {
        SpecExpr::Term(x) => {
            assert(optimized(e) == SpecExpr::Term(x));
        },
        SpecExpr::Not(b) => {
            law_optimized_is_well_shaped(*b);
        },
        SpecExpr::And(parts) => {
            assert forall|i: int| 0 <= i < parts.len() implies well_shaped(#[trigger] optimized(parts[i])) by {
                assert(decreases_to!(e => parts[i]));
                law_optimized_is_well_shaped(parts[i]);
            }
            lemma_flat_and_parts(parts);
            let f = flat_and(parts);
            assert(optimized(e) == and_node(f));
            if f.len() > 1 {
                lemma_by_priority_shape(f);
            }
        },
        SpecExpr::Or(parts) => {
            assert forall|i: int| 0 <= i < parts.len() implies well_shaped(#[trigger] optimized(parts[i])) by {
                assert(decreases_to!(e => parts[i]));
                law_optimized_is_well_shaped(parts[i]);
            }
            lemma_flat_or_parts(parts);
            let f = flat_or(parts);
            assert(optimized(e) == or_node(f));
        },
    }
}

/// The cost class of an expression.
fn priority_of(e: &QueryExpression) -> (r: u8)
    ensures
        r as nat == priority(e@),
{
    match e {
        QueryExpression::Term(QueryTerm::Filter(f)) => match f {
            QueryFilter::InFolder { .. } => 0,
            QueryFilter::Parent { .. } => 0,
            QueryFilter::Tag { .. } => 3,
            _ => 2,
        },
        _ => 1,
    }
}

/// Reorders parts by cost class, keeping the order within a class.
fn reorder_by_priority(parts: Vec<QueryExpression>) -> (r: Vec<QueryExpression>)
    ensures
        exprs_view(r@) == by_priority(exprs_view(parts@)),
        all_dates_resolved(parts@) ==> all_dates_resolved(r@),
        seq_dates(r@) == seq_dates(parts@),
{
    proof {
        lemma_all_dates_resolved(parts@);
    }
    let ghost orig = parts@;
    let mut rest = parts;
    let mut b0: Vec<QueryExpression> = Vec::new();
    let mut b1: Vec<QueryExpression> = Vec::new();
    let mut b2: Vec<QueryExpression> = Vec::new();
    let mut b3: Vec<QueryExpression> = Vec::new();
    let ghost mut i: int = 0;
    proof {
        lemma_exprs_view(orig);
        assert(exprs_view(orig).subrange(0, 0) =~= Seq::<SpecExpr>::empty());
        assert(exprs_view(b0@) =~= Seq::<SpecExpr>::empty());
        assert(exprs_view(b1@) =~= Seq::<SpecExpr>::empty());
        assert(exprs_view(b2@) =~= Seq::<SpecExpr>::empty());
        assert(exprs_view(b3@) =~= Seq::<SpecExpr>::empty());
        assert(orig.subrange(0, orig.len() as int) =~= orig);
    }
    while rest.len() > 0
        invariant
            0 <= i <= orig.len(),
            rest@ == orig.subrange(i, orig.len() as int),
            exprs_view(orig).len() == orig.len(),
            forall|k: int| 0 <= k < orig.len() ==> #[trigger] exprs_view(orig)[k] == orig[k]@,
            exprs_view(b0@) == with_priority(exprs_view(orig).subrange(0, i), 0),
            exprs_view(b1@) == with_priority(exprs_view(orig).subrange(0, i), 1),
            exprs_view(b2@) == with_priority(exprs_view(orig).subrange(0, i), 2),
            exprs_view(b3@) == with_priority(exprs_view(orig).subrange(0, i), 3),
            all_dates_resolved(orig) ==> forall|k: int| 0 <= k < orig.len() ==> #[trigger] dates_resolved(orig[k]),
            all_dates_resolved(orig) ==> forall|k: int| 0 <= k < b0@.len() ==> #[trigger] dates_resolved(b0@[k]),
            all_dates_resolved(orig) ==> forall|k: int| 0 <= k < b1@.len() ==> #[trigger] dates_resolved(b1@[k]),
            all_dates_resolved(orig) ==> forall|k: int| 0 <= k < b2@.len() ==> #[trigger] dates_resolved(b2@[k]),
            all_dates_resolved(orig) ==> forall|k: int| 0 <= k < b3@.len() ==> #[trigger] dates_resolved(b3@[k]),
            forall|k: int| 0 <= k < b0@.len() ==> orig.contains(#[trigger] b0@[k]),
            forall|k: int| 0 <= k < b1@.len() ==> orig.contains(#[trigger] b1@[k]),
            forall|k: int| 0 <= k < b2@.len() ==> orig.contains(#[trigger] b2@[k]),
            forall|k: int| 0 <= k < b3@.len() ==> orig.contains(#[trigger] b3@[k]),
            forall|k: int| 0 <= k < i ==> b0@.contains(#[trigger] orig[k]) || b1@.contains(orig[k])
                || b2@.contains(orig[k]) || b3@.contains(orig[k]),
        decreases rest.len(),
    {
        let x = rest.remove(0);
        assert(x == orig[i]);
        let p = priority_of(&x);
        let ghost s = exprs_view(orig).subrange(0, i + 1);
        proof {
            assert(s.drop_last() =~= exprs_view(orig).subrange(0, i));
            assert(s.last() == x@);
            lemma_with_priority_step(s, 0);
            lemma_with_priority_step(s, 1);
            lemma_with_priority_step(s, 2);
            lemma_with_priority_step(s, 3);
        }
        if p == 0 {
            let ghost old_b = b0@;
            b0.push(x);
            proof {
                assert(b0@.drop_last() =~= old_b);
            }
        } else if p == 1 {
            let ghost old_b = b1@;
            b1.push(x);
            proof {
                assert(b1@.drop_last() =~= old_b);
            }
        } else if p == 2 {
            let ghost old_b = b2@;
            b2.push(x);
            proof {
                assert(b2@.drop_last() =~= old_b);
            }
        } else {
            let ghost old_b = b3@;
            b3.push(x);
            proof {
                assert(b3@.drop_last() =~= old_b);
            }
        }
        proof {
            i = i + 1;
            assert(rest@ =~= orig.subrange(i, orig.len() as int));
        }
    }
    proof {
        assert(exprs_view(orig).subrange(0, i) =~= exprs_view(orig));
        lemma_exprs_view_add(b0@, b1@);
        lemma_exprs_view_add(b0@ + b1@, b2@);
        lemma_exprs_view_add(b0@ + b1@ + b2@, b3@);
    }
    let ghost g0 = b0@;
    let ghost g1 = b1@;
    let ghost g2 = b2@;
    let ghost g3 = b3@;
    let mut r = b0;
    r.append(&mut b1);
    r.append(&mut b2);
    r.append(&mut b3);
    proof {
        assert(r@ =~= g0 + g1 + g2 + g3);
        if all_dates_resolved(orig) {
            assert forall|k: int| 0 <= k < r@.len() implies #[trigger] dates_resolved(r@[k]) by {
                if k < g0.len() {
                    assert(dates_resolved(g0[k]));
                } else if k < g0.len() + g1.len() {
                    assert(dates_resolved(g1[k - g0.len()]));
                } else if k < g0.len() + g1.len() + g2.len() {
                    assert(dates_resolved(g2[k - g0.len() - g1.len()]));
                } else {
                    assert(dates_resolved(g3[k - g0.len() - g1.len() - g2.len()]));
                }
            }
        }
        lemma_all_dates_resolved(r@);
        assert forall|k: int| 0 <= k < r@.len() implies orig.contains(#[trigger] r@[k]) by {
            if k < g0.len() {
                assert(r@[k] == g0[k]);
            } else if k < g0.len() + g1.len() {
                assert(r@[k] == g1[k - g0.len()]);
            } else if k < g0.len() + g1.len() + g2.len() {
                assert(r@[k] == g2[k - g0.len() - g1.len()]);
            } else {
                assert(r@[k] == g3[k - g0.len() - g1.len() - g2.len()]);
            }
        }
        assert forall|k: int| 0 <= k < orig.len() implies r@.contains(#[trigger] orig[k]) by {
            let x = orig[k];
            if g0.contains(x) {
                let j = choose|j: int| 0 <= j < g0.len() && g0[j] == x;
                assert(r@[j] == x);
            } else if g1.contains(x) {
                let j = choose|j: int| 0 <= j < g1.len() && g1[j] == x;
                assert(r@[g0.len() + j] == x);
            } else if g2.contains(x) {
                let j = choose|j: int| 0 <= j < g2.len() && g2[j] == x;
                assert(r@[g0.len() + g1.len() + j] == x);
            } else {
                assert(g3.contains(x));
                let j = choose|j: int| 0 <= j < g3.len() && g3[j] == x;
                assert(r@[g0.len() + g1.len() + g2.len() + j] == x);
            }
        }
        lemma_seq_dates_same_elements(r@, orig);
    }
    r
}

/// Optimizes the parts of a conjunction.
fn optimize_and(parts: &Vec<QueryExpression>) -> (r: QueryExpression)
    ensures
        r@ == and_node(flat_and(exprs_view(parts@))),
        all_dates_resolved(parts@) ==> dates_resolved(r),
        expr_dates(r) == seq_dates(parts@),
    decreases parts,
{
    let mut flattened: Vec<QueryExpression> = Vec::new();
    let mut i: usize = 0;
    proof {
        lemma_exprs_view(parts@);
        lemma_all_dates_resolved(parts@);
        assert(exprs_view(parts@).subrange(0, 0) =~= Seq::<SpecExpr>::empty());
        assert(exprs_view(flattened@) =~= Seq::<SpecExpr>::empty());
    }
    while i < parts.len()
        invariant
            i <= parts.len(),
            exprs_view(parts@).len() == parts@.len(),
            forall|k: int| 0 <= k < parts@.len() ==> #[trigger] exprs_view(parts@)[k] == parts@[k]@,
            exprs_view(flattened@) == flat_and(exprs_view(parts@).subrange(0, i as int)),
            seq_dates(flattened@) == seq_dates(parts@.subrange(0, i as int)),
            all_dates_resolved(parts@) ==> forall|k: int| 0 <= k < parts@.len() ==> #[trigger] dates_resolved(parts@[k]),
            all_dates_resolved(parts@) ==> forall|k: int| 0 <= k < flattened@.len() ==> #[trigger] dates_resolved(flattened@[k]),
        decreases parts.len() - i,
    {
        proof {
            assert(decreases_to!(*parts => parts@[i as int]));
        }
        let o = optimize_expression_ref(&parts[i]);
        let ghost s = exprs_view(parts@).subrange(0, i + 1);
        proof {
            assert(s.drop_last() =~= exprs_view(parts@).subrange(0, i as int));
            assert(s.last() == parts@[i as int]@);
        }
        let ghost old_f = flattened@;
        match o {
            QueryExpression::And(mut nested) => {
                let ghost n = nested@;
                proof {
                    lemma_all_dates_resolved(n);
                }
                flattened.append(&mut nested);
                proof {
                    lemma_exprs_view_add(old_f, n);
                    assert(flattened@ =~= old_f + n);
                    lemma_seq_dates_add(old_f, n);
                    assert(parts@.subrange(0, i + 1).drop_last() =~= parts@.subrange(0, i as int));
                    if all_dates_resolved(parts@) {
                        assert(dates_resolved(parts@[i as int]));
                        assert forall|k: int| 0 <= k < flattened@.len() implies #[trigger] dates_resolved(flattened@[k]) by {
                            if k >= old_f.len() {
                                assert(dates_resolved(n[k - old_f.len()]));
                            }
                        }
                    }
                }
            },
            other => {
                flattened.push(other);
                proof {
                    assert(flattened@.drop_last() =~= old_f);
                    assert(parts@.subrange(0, i + 1).drop_last() =~= parts@.subrange(0, i as int));
                    if all_dates_resolved(parts@) {
                        assert(dates_resolved(parts@[i as int]));
                        assert forall|k: int| 0 <= k < flattened@.len() implies #[trigger] dates_resolved(flattened@[k]) by {
                            if k < old_f.len() {
                                assert(dates_resolved(old_f[k]));
                            }
                        }
                    }
                    assert(seq![other@] =~= and_items(other@));
                }
            },
        }
        i = i + 1;
    }
    proof {
        assert(exprs_view(parts@).subrange(0, parts.len() as int) =~= exprs_view(parts@));
        lemma_exprs_view(flattened@);
        lemma_all_dates_resolved(flattened@);
        assert(all_dates_resolved(Seq::<QueryExpression>::empty()));
        assert(parts@.subrange(0, parts.len() as int) =~= parts@);
        if flattened.len() == 1 {
            assert(flattened@.drop_last() =~= Seq::<QueryExpression>::empty());
            assert(seq_dates(Seq::<QueryExpression>::empty()) =~= Set::empty());
            assert(seq_dates(flattened@) =~= expr_dates(flattened@[0]));
        }
    }
    if flattened.len() == 0 {
        QueryExpression::And(flattened)
    } else if flattened.len() == 1 {
        flattened.remove(0)
    } else {
        QueryExpression::And(reorder_by_priority(flattened))
    }
}

/// Optimizes the parts of a disjunction.
fn optimize_or(parts: &Vec<QueryExpression>) -> (r: QueryExpression)
    ensures
        r@ == or_node(flat_or(exprs_view(parts@))),
        all_dates_resolved(parts@) ==> dates_resolved(r),
        expr_dates(r) == seq_dates(parts@),
    decreases parts,
{
    let mut flattened: Vec<QueryExpression> = Vec::new();
    let mut i: usize = 0;
    proof {
        lemma_exprs_view(parts@);
        lemma_all_dates_resolved(parts@);
        assert(exprs_view(parts@).subrange(0, 0) =~= Seq::<SpecExpr>::empty());
        assert(exprs_view(flattened@) =~= Seq::<SpecExpr>::empty());
    }
    while i < parts.len()
        invariant
            i <= parts.len(),
            exprs_view(parts@).len() == parts@.len(),
            forall|k: int| 0 <= k < parts@.len() ==> #[trigger] exprs_view(parts@)[k] == parts@[k]@,
            exprs_view(flattened@) == flat_or(exprs_view(parts@).subrange(0, i as int)),
            seq_dates(flattened@) == seq_dates(parts@.subrange(0, i as int)),
            all_dates_resolved(parts@) ==> forall|k: int| 0 <= k < parts@.len() ==> #[trigger] dates_resolved(parts@[k]),
            all_dates_resolved(parts@) ==> forall|k: int| 0 <= k < flattened@.len() ==> #[trigger] dates_resolved(flattened@[k]),
        decreases parts.len() - i,
    {
        proof {
            assert(decreases_to!(*parts => parts@[i as int]));
        }
        let o = optimize_expression_ref(&parts[i]);
        let ghost s = exprs_view(parts@).subrange(0, i + 1);
        proof {
            assert(s.drop_last() =~= exprs_view(parts@).subrange(0, i as int));
            assert(s.last() == parts@[i as int]@);
        }
        let ghost old_f = flattened@;
        match o {
            QueryExpression::Or(mut nested) => {
                let ghost n = nested@;
                proof {
                    lemma_all_dates_resolved(n);
                }
                flattened.append(&mut nested);
                proof {
                    lemma_exprs_view_add(old_f, n);
                    assert(flattened@ =~= old_f + n);
                    lemma_seq_dates_add(old_f, n);
                    assert(parts@.subrange(0, i + 1).drop_last() =~= parts@.subrange(0, i as int));
                    if all_dates_resolved(parts@) {
                        assert(dates_resolved(parts@[i as int]));
                        assert forall|k: int| 0 <= k < flattened@.len() implies #[trigger] dates_resolved(flattened@[k]) by {
                            if k >= old_f.len() {
                                assert(dates_resolved(n[k - old_f.len()]));
                            }
                        }
                    }
                }
            },
            other => {
                flattened.push(other);
                proof {
                    assert(flattened@.drop_last() =~= old_f);
                    assert(parts@.subrange(0, i + 1).drop_last() =~= parts@.subrange(0, i as int));
                    if all_dates_resolved(parts@) {
                        assert(dates_resolved(parts@[i as int]));
                        assert forall|k: int| 0 <= k < flattened@.len() implies #[trigger] dates_resolved(flattened@[k]) by {
                            if k < old_f.len() {
                                assert(dates_resolved(old_f[k]));
                            }
                        }
                    }
                    assert(seq![other@] =~= or_items(other@));
                }
            },
        }
        i = i + 1;
    }
    proof {
        assert(exprs_view(parts@).subrange(0, parts.len() as int) =~= exprs_view(parts@));
        lemma_exprs_view(flattened@);
        lemma_all_dates_resolved(flattened@);
        assert(all_dates_resolved(Seq::<QueryExpression>::empty()));
        assert(parts@.subrange(0, parts.len() as int) =~= parts@);
        if flattened.len() == 1 {
            assert(flattened@.drop_last() =~= Seq::<QueryExpression>::empty());
            assert(seq_dates(Seq::<QueryExpression>::empty()) =~= Set::empty());
            assert(seq_dates(flattened@) =~= expr_dates(flattened@[0]));
        }
    }
    if flattened.len() == 0 {
        QueryExpression::Or(flattened)
    } else if flattened.len() == 1 {
        flattened.remove(0)
    } else {
        QueryExpression::Or(flattened)
    }
}

/// The optimized copy of an expression.
fn optimize_expression_ref(expr: &QueryExpression) -> (r: QueryExpression)
    ensures
        r@ == optimized(expr@),
        dates_resolved(*expr) ==> dates_resolved(r),
        expr_dates(r) == expr_dates(*expr),
    decreases expr,
{
    match expr {
        QueryExpression::And(parts) => {
            proof {
                assert(decreases_to!(*expr => *parts));
            }
            optimize_and(parts)
        },
        QueryExpression::Or(parts) => {
            proof {
                assert(decreases_to!(*expr => *parts));
            }
            optimize_or(parts)
        },
        QueryExpression::Not(inner) => QueryExpression::Not(Box::new(optimize_expression_ref(inner))),
        QueryExpression::Term(t) => QueryExpression::Term(copy_term(t)),
    }
}

/// Optimizes a query expression for efficient evaluation (see `optimized`).
pub fn optimize_expression(expr: QueryExpression) -> (r: QueryExpression)
    ensures
        r@ == optimized(expr@),
        dates_resolved(expr) ==> dates_resolved(r),
        expr_dates(r) == expr_dates(expr),
{
    optimize_expression_ref(&expr)
}

} // verus!
