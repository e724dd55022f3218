use filesystem::index::construct::Node;
use filesystem::index::data::RootIndexData;
use filesystem::query::content::ContentMatcher;
use filesystem::storage::node::{NodeFileType, SlabNodeMetadata, StateTypeSize};
use filesystem::watcher::events::{
    apply_path_change, process_fsevent_batch, FsEvent, FsEventFlags, FsEventScanType,
    WatcherEvent,
};

fn event(path: &str, bits: u32, id: u64) -> FsEvent {
    let flags = FsEventFlags::from_bits(bits);
    FsEvent {
        path: path.to_string(),
        flags,
        event_id: id,
        scan_type: FsEventScanType::classify(flags),
    }
}

#[test]
fn classify_flags() {
    let f = |b| FsEventScanType::classify(FsEventFlags::from_bits(b));
    assert_eq!(f(FsEventFlags::HISTORY_DONE), FsEventScanType::Nop);
    assert_eq!(f(FsEventFlags::EVENT_IDS_WRAPPED | FsEventFlags::MUST_SCAN_SUBDIRS), FsEventScanType::Nop);
    assert_eq!(f(FsEventFlags::ROOT_CHANGED), FsEventScanType::ReScan);
    assert_eq!(f(FsEventFlags::MUST_SCAN_SUBDIRS | FsEventFlags::ITEM_IS_DIR), FsEventScanType::ReScan);
    assert_eq!(f(FsEventFlags::ITEM_IS_DIR | FsEventFlags::ITEM_CREATED), FsEventScanType::Folder);
    assert_eq!(f(FsEventFlags::ITEM_IS_FILE | FsEventFlags::ITEM_MODIFIED), FsEventScanType::SingleNode);
    assert_eq!(f(0), FsEventScanType::SingleNode);
}

#[test]
fn batch_collects_changed_paths_and_max_id() {
    let events = vec![
        event("/r/a", FsEventFlags::ITEM_IS_FILE, 5),
        event("/r", FsEventFlags::HISTORY_DONE, 9),
        event("/r/b", FsEventFlags::ITEM_IS_DIR, 7),
    ];
    let plan = process_fsevent_batch("/r", &events);
    assert_eq!(plan.max_event_id, 9);
    assert_eq!(plan.messages.len(), 2);
    assert!(matches!(plan.messages[0], WatcherEvent::HistoryDone));
    match &plan.messages[1] {
        WatcherEvent::PathsChanged(p) => assert_eq!(p, &vec!["/r/a".to_string(), "/r/b".to_string()]),
        _ => panic!("expected paths"),
    }
}

#[test]
fn batch_on_root_asks_rescan() {
    let events = vec![event("/r/", FsEventFlags::ITEM_IS_DIR, 3), event("/r/x", 0, 4)];
    let plan = process_fsevent_batch("/r", &events);
    assert_eq!(plan.messages.len(), 1);
    assert!(matches!(plan.messages[0], WatcherEvent::RescanRequired));
    assert_eq!(plan.max_event_id, 4);
}

#[test]
fn empty_batch_sends_nothing() {
    let plan = process_fsevent_batch("/r", &vec![]);
    assert_eq!(plan.max_event_id, 0);
    assert!(plan.messages.is_empty());
}

fn meta(is_dir: bool) -> SlabNodeMetadata {
    let t = if is_dir { NodeFileType::Dir } else { NodeFileType::File };
    SlabNodeMetadata { state_type_size: StateTypeSize::some(t, 1), ctime: 0, mtime: 0 }
}

fn data() -> RootIndexData {
    let root = Node {
        children: vec![Node { children: vec![], name: "a.txt".into(), metadata: Some(meta(false)) }],
        name: "/".into(),
        metadata: Some(meta(true)),
    };
    RootIndexData::from_tree(&root)
}

#[test]
fn path_change_adds_and_removes() {
    let mut d = data();
    apply_path_change("/", true, &[], &mut d, "/b.txt", Some(meta(false)));
    assert!(d.node_index_for_path("/b.txt").is_some());
    apply_path_change("/", true, &[], &mut d, "/a.txt", None);
    assert!(d.node_index_for_path("/a.txt").is_none());
    assert_eq!(d.len(), 2);
}

#[test]
fn path_change_on_ignored_path_removes_it() {
    let mut d = data();
    apply_path_change("/", true, &["/a.txt".to_string()], &mut d, "/a.txt", Some(meta(false)));
    assert!(d.node_index_for_path("/a.txt").is_none());
}

#[test]
fn path_change_outside_scope_or_on_root_does_nothing() {
    let mut d = data();
    apply_path_change("/", false, &[], &mut d, "/a.txt", None);
    assert!(d.node_index_for_path("/a.txt").is_some());
    apply_path_change("/", true, &[], &mut d, "/", None);
    assert_eq!(d.len(), 2);
}

// ---- content matching ----

fn matches_in_chunks(data: &[u8], needle: &[u8], ci: bool, chunk: usize) -> bool {
    let mut m = ContentMatcher::new(needle, ci);
    let mut found = false;
    for piece in data.chunks(chunk.max(1)) {
        if m.feed(piece) {
            found = true;
            break;
        }
    }
    found
}

#[test]
fn content_empty_needle_never_matches() {
    assert!(!matches_in_chunks(b"hello world", b"", false, 4));
}

#[test]
fn content_single_byte() {
    assert!(matches_in_chunks(b"hello world", b"o", false, 3));
    assert!(!matches_in_chunks(b"hello world", b"z", false, 3));
    assert!(matches_in_chunks(b"HELLO", b"e", true, 2));
    assert!(matches_in_chunks(b"hello", b"E", true, 2));
}

#[test]
fn content_multi_byte_across_chunks() {
    assert!(matches_in_chunks(b"abcdefgh", b"cdef", false, 3));
    assert!(matches_in_chunks(b"abcdefgh", b"defg", false, 4));
    assert!(!matches_in_chunks(b"abcdefgh", b"defx", false, 4));
    assert!(matches_in_chunks(b"ABCDEFGH", b"cdef", true, 2));
    assert!(!matches_in_chunks(b"ABCDEFGH", b"cdef", false, 2));
}

#[test]
fn content_needle_longer_than_chunk() {
    let data = b"xxxxxxxxxxneedle-in-hayxxxx";
    assert!(matches_in_chunks(data, b"needle-in-hay", false, 2));
    assert!(matches_in_chunks(data, b"needle-in-hay", false, 1));
}

#[test]
fn content_utf8_and_binary() {
    assert!(matches_in_chunks("caf\u{e9} cr\u{e8}me".as_bytes(), "cr\u{e8}me".as_bytes(), false, 3));
    assert!(matches_in_chunks(&[0, 1, 2, 0, 3, 4], &[0, 3], false, 4));
}

#[test]
fn content_empty_data() {
    let mut m = ContentMatcher::new(b"ab", false);
    assert!(!m.feed(b""));
    assert!(!m.is_found());
}
