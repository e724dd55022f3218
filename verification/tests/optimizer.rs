use filesystem::query::expression::{QueryExpression, QueryFilter, QueryTerm};
use filesystem::query::optimizer::optimize_expression;

fn text(s: &str) -> QueryExpression {
    QueryExpression::Term(QueryTerm::Text(s.to_string()))
}

fn ext(e: &str) -> QueryExpression {
    QueryExpression::Term(QueryTerm::Filter(QueryFilter::Extension(vec![e.to_string()])))
}

fn infolder(p: &str) -> QueryExpression {
    QueryExpression::Term(QueryTerm::Filter(QueryFilter::InFolder { path: p.to_string() }))
}

fn tag(t: &str) -> QueryExpression {
    QueryExpression::Term(QueryTerm::Filter(QueryFilter::Tag { tags: vec![t.to_string()] }))
}

fn content(c: &str) -> QueryExpression {
    QueryExpression::Term(QueryTerm::Filter(QueryFilter::Content { needle: c.to_string() }))
}

#[test]
fn flatten_nested_and() {
    let expr = QueryExpression::And(vec![text("a"), QueryExpression::And(vec![text("b"), text("c")])]);
    match optimize_expression(expr) {
        QueryExpression::And(parts) => assert_eq!(parts.len(), 3),
        _ => panic!("Expected And"),
    }
}

#[test]
fn flatten_nested_or() {
    let expr = QueryExpression::Or(vec![text("a"), QueryExpression::Or(vec![text("b"), text("c")])]);
    match optimize_expression(expr) {
        QueryExpression::Or(parts) => assert_eq!(parts.len(), 3),
        _ => panic!("Expected Or"),
    }
}

#[test]
fn unwrap_single_item_and() {
    let expr = QueryExpression::And(vec![text("alone")]);
    match optimize_expression(expr) {
        QueryExpression::Term(QueryTerm::Text(s)) => assert_eq!(s, "alone"),
        _ => panic!("Expected single term"),
    }
}

#[test]
fn unwrap_single_item_or() {
    let expr = QueryExpression::Or(vec![text("alone")]);
    match optimize_expression(expr) {
        QueryExpression::Term(QueryTerm::Text(s)) => assert_eq!(s, "alone"),
        _ => panic!("Expected single term"),
    }
}

#[test]
fn reorder_scope_filters_first() {
    let expr = QueryExpression::And(vec![ext("txt"), infolder("/foo")]);
    match optimize_expression(expr) {
        QueryExpression::And(parts) => {
            assert_eq!(parts.len(), 2);
            assert!(matches!(&parts[0], QueryExpression::Term(QueryTerm::Filter(QueryFilter::InFolder { .. }))));
            assert!(matches!(&parts[1], QueryExpression::Term(QueryTerm::Filter(QueryFilter::Extension(_)))));
        }
        _ => panic!("Expected And"),
    }
}

#[test]
fn reorder_tag_filters_last() {
    let expr = QueryExpression::And(vec![tag("red"), ext("txt")]);
    match optimize_expression(expr) {
        QueryExpression::And(parts) => {
            assert_eq!(parts.len(), 2);
            assert!(matches!(&parts[1], QueryExpression::Term(QueryTerm::Filter(QueryFilter::Tag { .. }))));
        }
        _ => panic!("Expected And"),
    }
}

#[test]
fn reorder_content_before_tag() {
    let expr = QueryExpression::And(vec![tag("red"), content("foo")]);
    match optimize_expression(expr) {
        QueryExpression::And(parts) => {
            assert_eq!(parts.len(), 2);
            assert!(matches!(&parts[0], QueryExpression::Term(QueryTerm::Filter(QueryFilter::Content { .. }))));
            assert!(matches!(&parts[1], QueryExpression::Term(QueryTerm::Filter(QueryFilter::Tag { .. }))));
        }
        _ => panic!("Expected And"),
    }
}

#[test]
fn reorder_text_between_scope_and_filters() {
    let expr = QueryExpression::And(vec![ext("txt"), text("report"), infolder("/foo")]);
    match optimize_expression(expr) {
        QueryExpression::And(parts) => {
            assert_eq!(parts.len(), 3);
            assert!(matches!(&parts[0], QueryExpression::Term(QueryTerm::Filter(QueryFilter::InFolder { .. }))));
            assert!(matches!(&parts[1], QueryExpression::Term(QueryTerm::Text(_))));
            assert!(matches!(&parts[2], QueryExpression::Term(QueryTerm::Filter(QueryFilter::Extension(_)))));
        }
        _ => panic!("Expected And"),
    }
}

#[test]
fn optimize_deeply_nested() {
    let expr = QueryExpression::And(vec![
        QueryExpression::And(vec![text("a"), text("b")]),
        QueryExpression::And(vec![text("c"), text("d")]),
    ]);
    match optimize_expression(expr) {
        QueryExpression::And(parts) => assert_eq!(parts.len(), 4),
        _ => panic!("Expected And"),
    }
}

#[test]
fn optimize_not_expression() {
    let inner = QueryExpression::And(vec![text("a"), QueryExpression::And(vec![text("b"), text("c")])]);
    let expr = QueryExpression::Not(Box::new(inner));
    match optimize_expression(expr) {
        QueryExpression::Not(inner) => match *inner {
            QueryExpression::And(parts) => assert_eq!(parts.len(), 3),
            _ => panic!("Expected And inside Not"),
        },
        _ => panic!("Expected Not"),
    }
}

#[test]
fn stable_order_within_same_priority() {
    let expr = QueryExpression::And(vec![text("first"), text("second"), ext("rs"), text("third")]);
    match optimize_expression(expr) {
        QueryExpression::And(parts) => {
            let names: Vec<String> = parts
                .iter()
                .filter_map(|p| match p {
                    QueryExpression::Term(QueryTerm::Text(s)) => Some(s.clone()),
                    _ => None,
                })
                .collect();
            assert_eq!(names, vec!["first", "second", "third"]);
            assert!(matches!(&parts[3], QueryExpression::Term(QueryTerm::Filter(QueryFilter::Extension(_)))));
        }
        _ => panic!("Expected And"),
    }
}

#[test]
fn empty_and_stays_empty() {
    match optimize_expression(QueryExpression::And(vec![])) {
        QueryExpression::And(parts) => assert!(parts.is_empty()),
        _ => panic!("Expected And"),
    }
}

fn term_key(t: &QueryTerm) -> String {
    match t {
        QueryTerm::Text(s) => s.clone(),
        QueryTerm::Filter(QueryFilter::InFolder { path }) => format!("in:{path}"),
        QueryTerm::Filter(QueryFilter::Tag { tags }) => format!("tag:{}", tags[0]),
        QueryTerm::Filter(QueryFilter::Extension(v)) => format!("ext:{}", v[0]),
        QueryTerm::Filter(QueryFilter::Content { needle }) => format!("content:{needle}"),
        _ => String::new(),
    }
}

fn holds(e: &QueryExpression, truth: &[String]) -> bool {
    match e {
        QueryExpression::Term(t) => truth.contains(&term_key(t)),
        QueryExpression::Not(b) => !holds(b, truth),
        QueryExpression::And(v) => v.iter().all(|p| holds(p, truth)),
        QueryExpression::Or(v) => v.iter().any(|p| holds(p, truth)),
    }
}

fn mixed_query() -> QueryExpression {
    QueryExpression::And(vec![
        tag("red"),
        QueryExpression::Or(vec![
            text("a"),
            QueryExpression::Or(vec![text("b"), QueryExpression::And(vec![ext("rs")])]),
            QueryExpression::Or(vec![]),
        ]),
        QueryExpression::Not(Box::new(QueryExpression::And(vec![content("x"), infolder("/tmp")]))),
        QueryExpression::And(vec![text("c"), QueryExpression::And(vec![])]),
    ])
}

#[test]
fn optimization_keeps_meaning_for_every_assignment() {
    let keys = ["tag:red", "a", "b", "ext:rs", "content:x", "in:/tmp", "c"];
    let optimized = optimize_expression(mixed_query());
    let unoptimized = mixed_query();
    for mask in 0u32..(1 << keys.len()) {
        let truth: Vec<String> = keys
            .iter()
            .enumerate()
            .filter(|(i, _)| mask & (1 << i) != 0)
            .map(|(_, k)| k.to_string())
            .collect();
        assert_eq!(holds(&unoptimized, &truth), holds(&optimized, &truth), "mask {mask}");
    }
}
