use filesystem::cancel::CancellationToken;
use filesystem::watcher::file_tags::{
    output_lines,
    parse_tags, spotlight_tag_query, strip_tag_suffix, tag_has_spotlight_forbidden_chars, tags_match_any,
};
use filesystem::watcher::walker::{coalesce_event_paths, has_selected_ancestor, path_depth, path_in_scope, path_is_ignored};
use plist::{to_writer_binary, Value};

fn plist_bytes(values: &[Value]) -> Vec<u8> {
    let mut data = Vec::new();
    to_writer_binary(&mut data, &Value::Array(values.to_vec())).expect("serialize tags");
    data
}

fn paths(v: &[&str]) -> Vec<String> {
    v.iter().map(|s| s.to_string()).collect()
}

#[test]
fn noop_token_is_never_cancelled() {
    let token = CancellationToken::noop();
    assert!(token.is_cancelled().is_some());
}

#[test]
fn default_is_noop() {
    let token = CancellationToken::default();
    assert!(token.is_cancelled().is_some());
}

#[test]
fn token_cancelled_when_version_moves_on() {
    static ACTIVE: std::sync::atomic::AtomicU64 = std::sync::atomic::AtomicU64::new(7);
    let current = CancellationToken::new(&ACTIVE, 7);
    assert!(current.is_cancelled().is_some());
    let stale = CancellationToken::new(&ACTIVE, 6);
    assert!(stale.is_cancelled().is_none());
    assert!(stale.is_cancelled_sparse(1).is_some());
    assert!(stale.is_cancelled_sparse(0).is_none());
}

#[test]
fn strip_tag_suffix_basic() {
    assert_eq!(strip_tag_suffix("Important", false), "Important");
    assert_eq!(strip_tag_suffix("Important\n0", false), "Important");
    assert_eq!(strip_tag_suffix("Archive\n1", false), "Archive");
}

#[test]
fn strip_tag_suffix_case_insensitive() {
    assert_eq!(strip_tag_suffix("Important\n0", true), "important");
    assert_eq!(strip_tag_suffix("ARCHIVE", true), "archive");
}

#[test]
fn strip_tag_suffix_empty() {
    assert_eq!(strip_tag_suffix("", false), "");
    assert_eq!(strip_tag_suffix("", true), "");
}

#[test]
fn strip_tag_suffix_unicode() {
    assert_eq!(strip_tag_suffix("项目\n0", false), "项目");
    assert_eq!(strip_tag_suffix("Important\n0", false), "Important");
}

#[test]
fn tag_forbidden_chars_safe() {
    assert_eq!(tag_has_spotlight_forbidden_chars("Project"), None);
    assert_eq!(tag_has_spotlight_forbidden_chars("Project-Alpha"), None);
    assert_eq!(tag_has_spotlight_forbidden_chars("Project_Beta"), None);
    assert_eq!(tag_has_spotlight_forbidden_chars("项目"), None);
}

#[test]
fn tag_forbidden_chars_detected() {
    assert_eq!(tag_has_spotlight_forbidden_chars("Project'Alpha"), Some('\''));
    assert_eq!(tag_has_spotlight_forbidden_chars("Project\\Beta"), Some('\\'));
    assert_eq!(tag_has_spotlight_forbidden_chars("Project*"), Some('*'));
}

#[test]
fn tag_forbidden_chars_first_occurrence() {
    assert_eq!(tag_has_spotlight_forbidden_chars("A'B*C\\D"), Some('\''));
}

#[test]
fn parse_tags_valid_plist() {
    let bytes = plist_bytes(&[Value::String("Important\n0".into()), Value::String("Archive".into())]);
    let tags = parse_tags(&bytes, false);
    assert_eq!(tags, vec!["Important".to_string(), "Archive".to_string()]);
}

#[test]
fn parse_tags_invalid_plist() {
    let bytes = b"not a plist";
    assert!(parse_tags(bytes, false).is_empty());
}

#[test]
fn parse_tags_case_insensitive() {
    let bytes = plist_bytes(&[Value::String("Important\n0".into())]);
    let tags = parse_tags(&bytes, true);
    assert_eq!(tags, vec!["important".to_string()]);
}

#[test]
fn parse_tags_ignores_non_strings() {
    let bytes = plist_bytes(&[
        Value::String("Project\n0".into()),
        Value::Integer(42.into()),
        Value::Boolean(true),
    ]);
    let tags = parse_tags(&bytes, false);
    assert_eq!(tags, vec!["Project".to_string()]);
}

#[test]
fn tags_match_any_respects_case_mode() {
    let file_tags = vec!["important".to_string(), "archive".to_string()];
    assert!(tags_match_any(&file_tags, &vec!["IMPORTANT".to_string()], true));
    assert!(!tags_match_any(&file_tags, &vec!["IMPORTANT".to_string()], false));
    assert!(tags_match_any(&file_tags, &vec!["other".to_string(), "archive".to_string()], false));
    assert!(!tags_match_any(&file_tags, &vec![], false));
}

#[test]
fn search_tags_mdfind_empty() {
    let result = spotlight_tag_query(&vec![], false);
    assert!(result.is_ok());
    assert!(result.unwrap().is_none());
}

#[test]
fn search_tags_mdfind_rejects_forbidden() {
    let result = spotlight_tag_query(&vec!["Project'Alpha".to_string()], false);
    assert!(result.is_err());
    assert_eq!(result.unwrap_err(), '\'');
}

#[test]
fn spotlight_query_joins_clauses() {
    let q = spotlight_tag_query(&vec!["Red".to_string(), "Work".to_string()], true).unwrap().unwrap();
    assert_eq!(q, "kMDItemUserTags == '*Red*'c || kMDItemUserTags == '*Work*'c");
    let q = spotlight_tag_query(&vec!["Red".to_string()], false).unwrap().unwrap();
    assert_eq!(q, "kMDItemUserTags == '*Red*'");
}

#[test]
fn coalesce_empty_input() {
    let result = coalesce_event_paths(vec![]);
    assert!(result.is_empty());
}

#[test]
fn coalesce_single_path() {
    let result = coalesce_event_paths(paths(&["/a/b/c"]));
    assert_eq!(result, paths(&["/a/b/c"]));
}

#[test]
fn coalesce_removes_children_of_ancestor() {
    let result = coalesce_event_paths(paths(&["/a/b/c", "/a/b", "/a/b/d"]));
    assert_eq!(result, paths(&["/a/b"]));
}

#[test]
fn coalesce_keeps_siblings() {
    let result = coalesce_event_paths(paths(&["/a/b", "/a/c", "/x/y"]));
    assert_eq!(result.len(), 3);
    assert!(result.contains(&"/a/b".to_string()));
    assert!(result.contains(&"/a/c".to_string()));
    assert!(result.contains(&"/x/y".to_string()));
}

#[test]
fn coalesce_deduplicates_identical_paths() {
    let result = coalesce_event_paths(paths(&["/a/b", "/a/b", "/a/b"]));
    assert_eq!(result, paths(&["/a/b"]));
}

#[test]
fn coalesce_child_before_ancestor_still_works() {
    let result = coalesce_event_paths(paths(&["/a/b/c/d", "/a/b/c/e", "/a/b"]));
    assert_eq!(result, paths(&["/a/b"]));
}

#[test]
fn coalesce_similar_prefixes_not_confused() {
    let result = coalesce_event_paths(paths(&["/foo/bar", "/foo/barista"]));
    assert_eq!(result.len(), 2);
    assert!(result.contains(&"/foo/bar".to_string()));
    assert!(result.contains(&"/foo/barista".to_string()));
}

#[test]
fn coalesce_deep_nesting() {
    let result = coalesce_event_paths(paths(&["/a", "/a/b", "/a/b/c", "/a/b/c/d", "/a/b/c/d/e"]));
    assert_eq!(result, paths(&["/a"]));
}

#[test]
fn coalesce_multiple_independent_subtrees() {
    let result = coalesce_event_paths(paths(&[
        "/home/user/project1/src/main.rs",
        "/home/user/project1",
        "/home/user/project2/docs/readme.md",
        "/home/user/project2",
        "/tmp/cache",
    ]));
    assert_eq!(result.len(), 3);
    assert!(result.contains(&"/home/user/project1".to_string()));
    assert!(result.contains(&"/home/user/project2".to_string()));
    assert!(result.contains(&"/tmp/cache".to_string()));
}

#[test]
fn has_selected_ancestor_empty_set() {
    let selected: Vec<String> = vec![];
    assert!(!has_selected_ancestor("/a/b/c", &selected));
}

#[test]
fn has_selected_ancestor_exact_match() {
    let selected = paths(&["/a/b/c"]);
    assert!(has_selected_ancestor("/a/b/c", &selected));
}

#[test]
fn has_selected_ancestor_parent_match() {
    let selected = paths(&["/a/b"]);
    assert!(has_selected_ancestor("/a/b/c", &selected));
    assert!(has_selected_ancestor("/a/b/c/d/e", &selected));
}

#[test]
fn has_selected_ancestor_no_match() {
    let selected = paths(&["/x/y"]);
    assert!(!has_selected_ancestor("/a/b/c", &selected));
}

#[test]
fn path_depth_basic() {
    assert_eq!(path_depth("/"), 1);
    assert_eq!(path_depth("/a"), 2);
    assert_eq!(path_depth("/a/b"), 3);
    assert_eq!(path_depth("/a/b/c"), 4);
}

#[test]
fn path_scope_and_ignore_rules() {
    assert!(path_in_scope("/a", true, "/a/b/c"));
    assert!(path_in_scope("/a", true, "/a"));
    assert!(!path_in_scope("/a", true, "/ab"));
    assert!(path_in_scope("/a/f.txt", false, "/a/f.txt"));
    assert!(!path_in_scope("/a/f.txt", false, "/a/f.txt/x"));
    let ignored = paths(&["/a/node_modules"]);
    assert!(path_is_ignored(&ignored, "/a/node_modules/x"));
    assert!(!path_is_ignored(&ignored, "/a/src"));
}

#[test]
fn coalesce_orders_by_depth_then_path() {
    let result = coalesce_event_paths(paths(&["/x/y", "/a/b/c", "/a/b", "/b", "/a/c"]));
    assert_eq!(result, paths(&["/b", "/a/b", "/a/c", "/x/y"]));
    let result = coalesce_event_paths(paths(&["/foo/barista", "/foo/bar"]));
    assert_eq!(result, paths(&["/foo/bar", "/foo/barista"]));
}

#[test]
fn output_lines_split_like_str_lines() {
    assert_eq!(output_lines("a\nb\r\n\nc"), vec!["a", "b", "", "c"]);
    assert_eq!(output_lines("/x/y\n"), vec!["/x/y"]);
    assert_eq!(output_lines(""), Vec::<String>::new());
    assert_eq!(output_lines("\n"), vec![""]);
    assert_eq!(output_lines("a\r"), vec!["a\r"]);
}
