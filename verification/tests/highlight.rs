use filesystem::query::date_filter::DatePredicate;
use filesystem::query::expression::{QueryExpression, QueryFilter, QueryTerm};
use filesystem::query::highlight::derive_highlight_terms;
use filesystem::query::type_filter::TypeFilterTarget;

fn text(s: &str) -> QueryExpression {
    QueryExpression::Term(QueryTerm::Text(s.to_string()))
}

fn ext(exts: &[&str]) -> QueryExpression {
    QueryExpression::Term(QueryTerm::Filter(QueryFilter::Extension(
        exts.iter().map(|s| s.to_string()).collect(),
    )))
}

fn tag(tags: &[&str]) -> QueryExpression {
    QueryExpression::Term(QueryTerm::Filter(QueryFilter::Tag {
        tags: tags.iter().map(|s| s.to_string()).collect(),
    }))
}

fn content(needle: &str) -> QueryExpression {
    QueryExpression::Term(QueryTerm::Filter(QueryFilter::Content {
        needle: needle.to_string(),
    }))
}

fn infolder(path: &str) -> QueryExpression {
    QueryExpression::Term(QueryTerm::Filter(QueryFilter::InFolder {
        path: path.to_string(),
    }))
}

#[test]
fn empty_query_returns_empty() {
    let expr = QueryExpression::And(vec![]);
    let terms = derive_highlight_terms(&expr);
    assert!(terms.is_empty());
}

#[test]
fn single_word() {
    let terms = derive_highlight_terms(&text("report"));
    assert_eq!(terms, vec!["report"]);
}

#[test]
fn single_word_uppercase_lowercased() {
    let terms = derive_highlight_terms(&text("REPORT"));
    assert_eq!(terms, vec!["report"]);
}

#[test]
fn multiple_words_sorted() {
    let expr = QueryExpression::And(vec![text("foo"), text("bar"), text("baz")]);
    let terms = derive_highlight_terms(&expr);
    assert_eq!(terms, vec!["bar", "baz", "foo"]);
}

#[test]
fn duplicate_words_deduplicated() {
    let expr = QueryExpression::And(vec![text("test"), text("TEST"), text("Test")]);
    let terms = derive_highlight_terms(&expr);
    assert_eq!(terms, vec!["test"]);
}

#[test]
fn wildcard_star_splits() {
    let terms = derive_highlight_terms(&text("*test*"));
    assert_eq!(terms, vec!["test"]);
}

#[test]
fn wildcard_question_splits() {
    let terms = derive_highlight_terms(&text("file?.txt"));
    assert_eq!(terms, vec![".txt", "file"]);
}

#[test]
fn wildcard_multiple_segments() {
    let terms = derive_highlight_terms(&text("*hello*world*"));
    assert_eq!(terms, vec!["hello", "world"]);
}

#[test]
fn wildcard_only_returns_empty() {
    let terms = derive_highlight_terms(&text("*"));
    assert!(terms.is_empty());
}

#[test]
fn wildcard_extension_pattern() {
    let terms = derive_highlight_terms(&text("*.txt"));
    assert_eq!(terms, vec![".txt"]);
}

#[test]
fn extension_filter() {
    let terms = derive_highlight_terms(&ext(&["pdf", "docx"]));
    assert_eq!(terms, vec!["docx", "pdf"]);
}

#[test]
fn tag_filter() {
    let terms = derive_highlight_terms(&tag(&["Red", "Important"]));
    assert_eq!(terms, vec!["important", "red"]);
}

#[test]
fn content_filter() {
    let terms = derive_highlight_terms(&content("search term"));
    assert_eq!(terms, vec!["search term"]);
}

#[test]
fn infolder_extracts_filename() {
    let terms = derive_highlight_terms(&infolder("/Users/foo/Documents"));
    assert_eq!(terms, vec!["documents"]);
}

#[test]
fn type_filter_no_highlights() {
    let expr = QueryExpression::Term(QueryTerm::Filter(QueryFilter::Type(TypeFilterTarget::File)));
    let terms = derive_highlight_terms(&expr);
    assert!(terms.is_empty());
}

#[test]
fn and_expression() {
    let expr = QueryExpression::And(vec![text("foo"), text("bar")]);
    let terms = derive_highlight_terms(&expr);
    assert_eq!(terms, vec!["bar", "foo"]);
}

#[test]
fn or_expression() {
    let expr = QueryExpression::Or(vec![text("foo"), text("bar")]);
    let terms = derive_highlight_terms(&expr);
    assert_eq!(terms, vec!["bar", "foo"]);
}

#[test]
fn not_expression_still_collects() {
    let expr = QueryExpression::Not(Box::new(text("excluded")));
    let terms = derive_highlight_terms(&expr);
    assert_eq!(terms, vec!["excluded"]);
}

#[test]
fn nested_expressions() {
    let expr = QueryExpression::And(vec![
        text("outer"),
        QueryExpression::Or(vec![text("inner1"), text("inner2")]),
    ]);
    let terms = derive_highlight_terms(&expr);
    assert_eq!(terms, vec!["inner1", "inner2", "outer"]);
}

#[test]
fn text_and_filter_combined() {
    let expr = QueryExpression::And(vec![text("report"), ext(&["pdf"])]);
    let terms = derive_highlight_terms(&expr);
    assert_eq!(terms, vec!["pdf", "report"]);
}

#[test]
fn wildcard_and_filter_combined() {
    let expr = QueryExpression::And(vec![text("*test*.txt"), ext(&["rs"])]);
    let terms = derive_highlight_terms(&expr);
    assert_eq!(terms, vec![".txt", "rs", "test"]);
}

#[test]
fn unicode_text() {
    let terms = derive_highlight_terms(&text("你好世界"));
    assert_eq!(terms, vec!["你好世界"]);
}

#[test]
fn emoji_text() {
    let terms = derive_highlight_terms(&text("test🔥file"));
    assert_eq!(terms, vec!["test🔥file"]);
}

#[test]
fn date_filter_has_no_highlights() {
    let predicate = DatePredicate::parse("2024-01-15").expect("parse");
    let expr = QueryExpression::And(vec![
        text("notes"),
        QueryExpression::Term(QueryTerm::Filter(QueryFilter::DateModified(predicate))),
    ]);
    assert_eq!(derive_highlight_terms(&expr), vec!["notes"]);
}
