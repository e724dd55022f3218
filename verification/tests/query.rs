use filesystem::error::FilesystemError;
use filesystem::query::context::NodeQueryContext;
use filesystem::query::evaluate::evaluate_node_query_term;
use filesystem::query::expression::{query_expression_has_terms, QueryExpression, QueryFilter, QueryTerm};
use filesystem::query::matcher::SearchQueryMatcher;
use filesystem::query::parser::{tokenize_query_input, QueryParser};
use filesystem::query::path::{
    extension_of_name, is_descendant_path, is_direct_child_path, normalize_path_for_compare, split_path_segments,
};
use filesystem::query::size::{SizeComparisonOp, SizePredicate, SizePredicateKind};
use filesystem::query::text_match::{
    is_name_prefilter_term, segment_query_text, text_matches, wildcard_matches, TextQuerySegment,
};
use filesystem::query::type_filter::{lookup_type_filter_target, ExtensionCategory, TypeFilterTarget};
use filesystem::storage::node::{NodeFileType, SlabNode, SlabNodeMetadata};
use filesystem::types::{FileType, KindFilter};

fn text(s: &str) -> QueryExpression {
    QueryExpression::Term(QueryTerm::Text(s.to_string()))
}

fn is_parse_error<T>(r: &Result<T, FilesystemError>) -> bool {
    matches!(r, Err(FilesystemError::QueryParse(_)))
}

#[test]
fn parser_single_word_is_text_term() {
    let expr = QueryParser::parse("report", None).expect("parse");
    assert!(matches!(expr, QueryExpression::Term(QueryTerm::Text(ref s)) if s == "report"));
}

#[test]
fn parser_words_are_conjunction() {
    match QueryParser::parse("foo bar", None).expect("parse") {
        QueryExpression::And(parts) => {
            assert_eq!(parts.len(), 2);
            assert!(matches!(&parts[0], QueryExpression::Term(QueryTerm::Text(s)) if s == "foo"));
            assert!(matches!(&parts[1], QueryExpression::Term(QueryTerm::Text(s)) if s == "bar"));
        }
        _ => panic!("Expected And"),
    }
}

#[test]
fn parser_pipe_is_disjunction() {
    match QueryParser::parse("foo | bar", None).expect("parse") {
        QueryExpression::Or(parts) => assert_eq!(parts.len(), 2),
        _ => panic!("Expected Or"),
    }
    match QueryParser::parse("foo OR bar", None).expect("parse") {
        QueryExpression::Or(parts) => assert_eq!(parts.len(), 2),
        _ => panic!("Expected Or"),
    }
}

#[test]
fn parser_negation_and_groups() {
    match QueryParser::parse("!foo", None).expect("parse") {
        QueryExpression::Not(inner) => assert!(matches!(*inner, QueryExpression::Term(QueryTerm::Text(ref s)) if s == "foo")),
        _ => panic!("Expected Not"),
    }
    match QueryParser::parse("(a | b) c", None).expect("parse") {
        QueryExpression::And(parts) => {
            assert_eq!(parts.len(), 2);
            assert!(matches!(&parts[0], QueryExpression::Or(_)));
        }
        _ => panic!("Expected And"),
    }
}

#[test]
fn parser_filters() {
    match QueryParser::parse("ext:pdf;docx", None).expect("parse") {
        QueryExpression::Term(QueryTerm::Filter(QueryFilter::Extension(exts))) => {
            assert_eq!(exts, vec!["pdf".to_string(), "docx".to_string()]);
        }
        other => panic!("unexpected {other:?}"),
    }
    assert!(matches!(
        QueryParser::parse("size:>1kb", None).expect("parse"),
        QueryExpression::Term(QueryTerm::Filter(QueryFilter::Size(_)))
    ));
    assert!(matches!(
        QueryParser::parse("type:picture", None).expect("parse"),
        QueryExpression::Term(QueryTerm::Filter(QueryFilter::Type(TypeFilterTarget::Extensions(ExtensionCategory::Picture))))
    ));
    assert!(matches!(
        QueryParser::parse("content:hello", None).expect("parse"),
        QueryExpression::Term(QueryTerm::Filter(QueryFilter::Content { ref needle })) if needle == "hello"
    ));
}

#[test]
fn parser_rejects_unbalanced_and_empty() {
    assert!(is_parse_error(&QueryParser::parse("(foo", None)));
    assert!(is_parse_error(&QueryParser::parse("foo)", None)));
    assert!(is_parse_error(&QueryParser::parse("\"open", None)));
    assert!(is_parse_error(&QueryParser::parse("size:", None)));
    assert!(matches!(QueryParser::parse("", None), Ok(QueryExpression::And(ref v)) if v.is_empty()));
}

#[test]
fn tokenizer_positions_are_byte_offsets() {
    let tokens = tokenize_query_input("ab  cd").expect("tokens");
    assert_eq!(tokens.len(), 2);
    assert_eq!(tokens[0].position, 0);
    assert_eq!(tokens[1].position, 4);
}

#[test]
fn expression_has_terms() {
    assert!(!query_expression_has_terms(&QueryExpression::And(vec![])));
    assert!(query_expression_has_terms(&QueryExpression::Or(vec![QueryExpression::And(vec![]), text("x")])));
}

#[test]
fn size_predicate_forms() {
    let p = SizePredicate::parse(">1kb").expect("parse");
    assert_eq!(p.kind, SizePredicateKind::Comparison { op: SizeComparisonOp::Gt, value: 1024 });
    assert!(p.matches(1025));
    assert!(!p.matches(1024));

    let p = SizePredicate::parse("1.5k").expect("parse");
    assert_eq!(p.kind, SizePredicateKind::Comparison { op: SizeComparisonOp::Eq, value: 1536 });

    let p = SizePredicate::parse("10..20").expect("parse");
    assert_eq!(p.kind, SizePredicateKind::Range { min: Some(10), max: Some(20) });
    assert!(p.matches(15));
    assert!(!p.matches(21));

    let p = SizePredicate::parse("empty").expect("parse");
    assert_eq!(p.kind, SizePredicateKind::Range { min: Some(0), max: Some(0) });

    assert!(is_parse_error(&SizePredicate::parse("")));
    assert!(is_parse_error(&SizePredicate::parse(">huge")));
    assert!(is_parse_error(&SizePredicate::parse("20..10")));
    assert!(is_parse_error(&SizePredicate::parse("12parsecs")));
}

#[test]
fn wildcard_matching() {
    assert!(wildcard_matches("*.txt", "notes.txt"));
    assert!(wildcard_matches("file?.rs", "file1.rs"));
    assert!(!wildcard_matches("file?.rs", "file12.rs"));
    assert!(wildcard_matches("*", ""));
    assert!(wildcard_matches("abc", "abc"));
    assert!(!wildcard_matches("abc", "abd"));
}

#[test]
fn text_matching_by_name_and_path() {
    let segs = split_path_segments("/home/user/notes.txt");
    assert!(text_matches("notes", "notes.txt", "/home/user/notes.txt", &segs));
    assert!(text_matches("*.txt", "notes.txt", "/home/user/notes.txt", &segs));
    assert!(!text_matches("report", "notes.txt", "/home/user/notes.txt", &segs));
    assert!(text_matches("user/notes", "notes.txt", "/home/user/notes.txt", &segs));
}

#[test]
fn segments_of_path_query() {
    let segs = segment_query_text("a/**/b");
    assert_eq!(segs.len(), 3);
    assert!(matches!(segs[1], TextQuerySegment::GlobStar));
    assert!(is_name_prefilter_term("report"));
    assert!(!is_name_prefilter_term("a/b"));
}

#[test]
fn path_helpers() {
    assert_eq!(normalize_path_for_compare("/a/b/"), "/a/b");
    assert_eq!(split_path_segments("/a/b"), vec!["a".to_string(), "b".to_string()]);
    assert!(is_direct_child_path("/a/b", "/a"));
    assert!(!is_direct_child_path("/a/b/c", "/a"));
    assert!(is_descendant_path("/a/b/c", "/a"));
    assert!(!is_descendant_path("/ab", "/a"));
    assert!(is_descendant_path("/a", "/"));
    assert!(is_descendant_path("C:/x/y", "C:/"));
    assert!(!is_descendant_path("/a", "/a"));
    assert!(!is_descendant_path("/", "/"));
    assert_eq!(extension_of_name("archive.tar.gz"), Some("gz".to_string()));
    assert_eq!(extension_of_name("README"), None);
}

#[test]
fn type_filter_lookup() {
    assert_eq!(lookup_type_filter_target("file"), Some(TypeFilterTarget::File));
    assert_eq!(lookup_type_filter_target("folder"), Some(TypeFilterTarget::Directory));
    assert_eq!(lookup_type_filter_target("nonsense"), None);
}

#[test]
fn file_type_and_kind_filter() {
    assert_eq!(FileType::File.as_str(), "file");
    assert_eq!(FileType::Directory.as_str(), "directory");
    assert!(KindFilter::All.matches(FileType::File));
    assert!(KindFilter::Directory.matches(FileType::Directory));
    assert!(!KindFilter::File.matches(FileType::Directory));
}

#[test]
fn matcher_compile_and_evaluate() {
    let matcher = SearchQueryMatcher::compile("Report ext:PDF", false, None).expect("compile");
    assert!(!matcher.case_sensitive());
    assert_eq!(matcher.highlight_terms(), vec!["pdf".to_string(), "report".to_string()]);
    assert_eq!(matcher.required_name_terms(), vec!["report".to_string()]);

    let node = SlabNode::new(None, "report.pdf", SlabNodeMetadata::from_parts(NodeFileType::File, 10, None, None));
    let ctx = NodeQueryContext::new(&node, "/docs/report.pdf".to_string(), false);
    assert!(evaluate_node_query_term(&QueryTerm::Text("report".to_string()), &ctx));
    assert!(evaluate_node_query_term(
        &QueryTerm::Filter(QueryFilter::Extension(vec!["pdf".to_string()])),
        &ctx
    ));
    assert!(!evaluate_node_query_term(&QueryTerm::Filter(QueryFilter::Type(TypeFilterTarget::Directory)), &ctx));
    assert!(matcher.matches_node_term(&QueryTerm::Text("report".to_string()), &node, "/docs/report.pdf"));
}

#[test]
fn matcher_rejects_bad_query() {
    assert!(SearchQueryMatcher::compile("(", false, None).is_err());
}

#[test]
fn unclosed_quote_message_names_its_byte() {
    match tokenize_query_input("foo \"bar") {
        Err(FilesystemError::QueryParse(m)) => assert_eq!(m, "missing closing quote near byte 4"),
        _ => panic!("expected a parse error"),
    }
    match tokenize_query_input("é \"x") {
        Err(FilesystemError::QueryParse(m)) => assert_eq!(m, "missing closing quote near byte 3"),
        _ => panic!("expected a parse error"),
    }
}

#[test]
fn blank_scope_path_message() {
    match filesystem::query::path::normalize_scope_filter_path("   ", "parent", None) {
        Err(FilesystemError::QueryParse(m)) => assert_eq!(m, "parent: requires a folder path"),
        _ => panic!("expected a parse error"),
    }
}

#[test]
fn normalized_paths_are_stable() {
    for raw in ["/a/b/", "C:\\dir\\", "", "///", "C:/", "rel\\x//", "/"] {
        let once = normalize_path_for_compare(raw);
        assert!(!once.is_empty());
        assert!(!once.contains('\\'));
        assert_eq!(normalize_path_for_compare(&once), once);
    }
}

#[test]
fn text_match_never_falls_back_to_name() {
    let segs = vec!["a".to_string(), "b".to_string()];
    assert!(!filesystem::query::text_match::text_matches("a//b", "a//b", "a//b", &segs));
    assert!(filesystem::query::text_match::text_matches("", "x", "y", &segs));
    assert!(filesystem::query::text_match::text_matches("a/b", "zzz", "zzz", &segs));
}

#[test]
fn parse_error_messages() {
    let message = |q: &str| match QueryParser::parse(q, None) {
        Err(FilesystemError::QueryParse(m)) => m,
        _ => panic!("expected a parse error for {q}"),
    };
    assert_eq!(message("foo)"), "unexpected token near byte 3");
    assert_eq!(message("()"), "query must contain at least one term");
    assert_eq!(message("foo \"bar"), "missing closing quote near byte 4");
    assert_eq!(message("(foo"), "missing closing ')' near byte 1");
    assert_eq!(message("| foo"), "expected query term near byte 0");
    assert_eq!(message("ext:"), "ext: requires at least one extension");
}

#[test]
fn wildcard_follows_glob_meaning() {
    assert!(wildcard_matches("a*b?c", "axxbyc"));
    assert!(wildcard_matches("*.rs", "main.rs"));
    assert!(wildcard_matches("*a*", "banana"));
    assert!(!wildcard_matches("a?c", "ac"));
    assert!(wildcard_matches("**", ""));
    assert!(!wildcard_matches("*", "*x"));
}

#[test]
fn lowercasing_twice_changes_nothing() {
    let build = || QueryParser::parse("Foo ext:RS parent:/Users/ME tag:Red content:\"AbC\"", None).unwrap();
    let once = filesystem::query::expression::lowercase_query_expression(build());
    let twice = filesystem::query::expression::lowercase_query_expression(
        filesystem::query::expression::lowercase_query_expression(build()),
    );
    assert_eq!(format!("{once:?}"), format!("{twice:?}"));
}

#[test]
fn size_predicates_read_as_written() {
    let p = |s: &str| SizePredicate::parse(s).unwrap();
    for x in [0u64, 1023, 1024, 1025, 4096] {
        assert_eq!(p("1kb").matches(x), x == 1024);
        assert_eq!(p("!=1kb").matches(x), !p("1kb").matches(x));
        assert_eq!(p("<1kb").matches(x), x < 1024);
        assert_eq!(p("<=1kb").matches(x), x <= 1024);
        assert_eq!(p(">1kb").matches(x), x > 1024);
        assert_eq!(p(">=1kb").matches(x), x >= 1024);
        assert_eq!(p("1kb..4kb").matches(x), (1024..=4096).contains(&x));
        assert_eq!(p("1kb..").matches(x), x >= 1024);
    }
}

#[test]
fn date_equal_and_not_equal_are_complements() {
    let eq = filesystem::query::date_filter::DatePredicate::parse("=2024-06-15").unwrap();
    let ne = filesystem::query::date_filter::DatePredicate::parse("!=2024-06-15").unwrap();
    let exact = filesystem::query::date_filter::DatePredicate::parse("2024-06-15").unwrap();
    for t in [0i64, 1_718_400_000, 1_718_450_000, 1_718_500_000, 1_800_000_000] {
        assert_eq!(ne.matches(t), !eq.matches(t));
        assert_eq!(exact.matches(t), eq.matches(t));
    }
    assert!(filesystem::query::date_filter::DatePredicate::parse("2024-12-31..2024-01-01").is_err());
}
