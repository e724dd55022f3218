use filesystem::index::name_index::NameIndex;
use filesystem::index::construct::{construct_slab_and_name_index, Node};
use filesystem::index::data::RootIndexData;
use filesystem::index::file_nodes::{add_child_at, FileNodes};
use filesystem::index::node_view::NodeView;
use filesystem::index::restore::{restore_index, store_names, store_nodes, StoredNode};
use filesystem::index::persistence::{
    cache_is_stale_at, cache_key_fingerprint, compress_snapshot, decompress_snapshot, fnv1a_update,
    snapshot_accepted, RootIndexKey, FNV_OFFSET_BASIS, INDEX_CACHE_VERSION,
};
use filesystem::storage::index_types::SlabIndex;
use filesystem::storage::node::{NodeFileType, SlabNode, SlabNodeMetadata, StateTypeSize};
use filesystem::storage::slab::ThinSlab;

fn make_metadata(is_dir: bool) -> SlabNodeMetadata {
    let file_type = if is_dir { NodeFileType::Dir } else { NodeFileType::File };
    SlabNodeMetadata {
        state_type_size: StateTypeSize::some(file_type, 100),
        ctime: 0,
        mtime: 0,
    }
}

fn leaf(name: &str, is_dir: bool) -> Node {
    Node {
        children: vec![],
        name: name.into(),
        metadata: Some(make_metadata(is_dir)),
    }
}

fn dir(name: &str, children: Vec<Node>) -> Node {
    Node {
        children,
        name: name.into(),
        metadata: Some(make_metadata(true)),
    }
}

// ---- construct ----

#[test]
fn construct_single_node() {
    let root = leaf("root", true);
    let (root_index, slab, name_index) = construct_slab_and_name_index(&root);

    assert_eq!(slab.len(), 1);
    assert_eq!(name_index.len(), 1);
    assert!(name_index.contains_key("root"));

    let node = slab.get(root_index).unwrap();
    assert_eq!(node.name(), "root");
    assert!(node.children.is_empty());
}

#[test]
fn construct_with_children() {
    let root = dir("root", vec![leaf("alpha.txt", false), leaf("beta.txt", false)]);
    let (root_index, slab, name_index) = construct_slab_and_name_index(&root);

    assert_eq!(slab.len(), 3);
    assert_eq!(name_index.len(), 3);

    let root_node = slab.get(root_index).unwrap();
    assert_eq!(root_node.children.len(), 2);

    let child1 = slab.get(root_node.children[0]).unwrap();
    let child2 = slab.get(root_node.children[1]).unwrap();
    assert_eq!(child1.name(), "alpha.txt");
    assert_eq!(child2.name(), "beta.txt");

    assert_eq!(child1.parent(), Some(root_index));
    assert_eq!(child2.parent(), Some(root_index));
}

#[test]
fn construct_nested_tree() {
    let root = dir("/", vec![dir("dir", vec![dir("subdir", vec![leaf("file.txt", false)])])]);
    let (root_index, slab, name_index) = construct_slab_and_name_index(&root);

    assert_eq!(slab.len(), 4);
    assert!(name_index.contains_key("/"));
    assert!(name_index.contains_key("dir"));
    assert!(name_index.contains_key("subdir"));
    assert!(name_index.contains_key("file.txt"));

    let root_node = slab.get(root_index).unwrap();
    assert_eq!(root_node.name(), "/");
    assert_eq!(root_node.children.len(), 1);

    let dir_node = slab.get(root_node.children[0]).unwrap();
    assert_eq!(dir_node.name(), "dir");
    assert_eq!(dir_node.parent(), Some(root_index));
}

#[test]
fn duplicate_names_in_name_index() {
    let root = dir(
        "root",
        vec![dir("a", vec![leaf("file.txt", false)]), dir("b", vec![leaf("file.txt", false)])],
    );
    let (_root_index, slab, name_index) = construct_slab_and_name_index(&root);

    assert_eq!(slab.len(), 5);
    let file_indices = name_index.get("file.txt").unwrap();
    assert_eq!(file_indices.len(), 2);
}

#[test]
fn construct_places_nodes_in_preorder() {
    let root = dir("/", vec![dir("a", vec![leaf("x", false)]), leaf("b", false)]);
    let (root_index, slab, _names) = construct_slab_and_name_index(&root);
    assert_eq!(root_index.get(), 0);
    assert_eq!(slab.get(SlabIndex::new(1)).unwrap().name(), "a");
    assert_eq!(slab.get(SlabIndex::new(2)).unwrap().name(), "x");
    assert_eq!(slab.get(SlabIndex::new(3)).unwrap().name(), "b");
}

// ---- node view ----

fn make_node(name: &str, parent: Option<SlabIndex>) -> SlabNode {
    let metadata = SlabNodeMetadata {
        state_type_size: StateTypeSize::some(NodeFileType::File, 100),
        ctime: 0,
        mtime: 1700000000,
    };
    SlabNode::new(parent, name, metadata)
}

fn make_dir_node(name: &str, parent: Option<SlabIndex>) -> SlabNode {
    let metadata = SlabNodeMetadata {
        state_type_size: StateTypeSize::some(NodeFileType::Dir, 0),
        ctime: 0,
        mtime: 1700000000,
    };
    SlabNode::new(parent, name, metadata)
}

#[test]
fn test_compute_path_single_node() {
    let mut slab = ThinSlab::new();
    let slash_idx = slab.insert(make_dir_node("/", None));
    let root_idx = slab.insert(make_dir_node("root", Some(slash_idx)));
    add_child_at(&mut slab, slash_idx, root_idx);

    let view = NodeView::new(&slab, root_idx);
    let path = view.compute_path("ignored");
    assert_eq!(path, Some("/root".to_string()));
}

#[test]
fn test_compute_path_nested() {
    let mut slab = ThinSlab::new();
    let slash_idx = slab.insert(make_dir_node("/", None));
    let src_idx = slab.insert(make_dir_node("src", Some(slash_idx)));
    let lib_idx = slab.insert(make_dir_node("lib", Some(src_idx)));
    let file_idx = slab.insert(make_node("mod.rs", Some(lib_idx)));

    add_child_at(&mut slab, slash_idx, src_idx);
    add_child_at(&mut slab, src_idx, lib_idx);
    add_child_at(&mut slab, lib_idx, file_idx);

    let view = NodeView::new(&slab, file_idx);
    let path = view.compute_path("ignored");
    assert_eq!(path, Some("/src/lib/mod.rs".to_string()));
}

#[test]
fn test_compute_depth() {
    let mut slab = ThinSlab::new();
    let root_idx = slab.insert(make_dir_node("a", None));
    let b_idx = slab.insert(make_dir_node("b", Some(root_idx)));
    let c_idx = slab.insert(make_node("c.txt", Some(b_idx)));

    assert_eq!(NodeView::new(&slab, root_idx).compute_depth(), Some(0));
    assert_eq!(NodeView::new(&slab, b_idx).compute_depth(), Some(1));
    assert_eq!(NodeView::new(&slab, c_idx).compute_depth(), Some(2));
}

#[test]
fn test_is_hidden_recursive() {
    let mut slab = ThinSlab::new();
    let visible_dir = slab.insert(make_dir_node("visible", None));
    let hidden_dir = slab.insert(make_dir_node(".hidden", Some(visible_dir)));
    let file_in_hidden = slab.insert(make_node("file.txt", Some(hidden_dir)));

    assert_eq!(NodeView::new(&slab, visible_dir).is_hidden_recursive(), Some(false));
    assert_eq!(NodeView::new(&slab, hidden_dir).is_hidden_recursive(), Some(true));
    assert_eq!(NodeView::new(&slab, file_in_hidden).is_hidden_recursive(), Some(true));
}

// ---- file nodes ----

fn make_test_node(parent: Option<SlabIndex>, name: &str, is_dir: bool) -> SlabNode {
    let file_type = if is_dir { NodeFileType::Dir } else { NodeFileType::File };
    SlabNode::new(
        parent,
        name,
        SlabNodeMetadata {
            state_type_size: StateTypeSize::some(file_type, 0),
            ctime: 0,
            mtime: 0,
        },
    )
}

#[test]
fn test_file_nodes_basic() {
    let mut slab = ThinSlab::new();
    let root_idx = slab.insert(make_test_node(None, "", true));
    let src_idx = slab.insert(make_test_node(Some(root_idx), "src", true));
    add_child_at(&mut slab, root_idx, src_idx);
    let main_idx = slab.insert(make_test_node(Some(src_idx), "main.rs", false));
    add_child_at(&mut slab, src_idx, main_idx);

    let file_nodes = FileNodes::new(slab, root_idx);

    assert!(file_nodes.has_root());
    assert_eq!(file_nodes.root(), Some(root_idx));
    assert_eq!(file_nodes.len(), 3);

    let path = file_nodes.node_path(main_idx);
    assert!(path.is_some());
    let path_str = path.unwrap();
    assert!(path_str.contains("main.rs"));
    assert_eq!(path_str, "/src/main.rs");
}

#[test]
fn test_file_nodes_empty() {
    let file_nodes = FileNodes::empty();
    assert!(!file_nodes.has_root());
    assert!(file_nodes.is_empty());
    assert_eq!(file_nodes.node_index_for_path("/test/file.txt"), None);
}

#[test]
fn test_all_subnodes() {
    let mut slab = ThinSlab::new();
    let root_idx = slab.insert(make_test_node(None, "", true));
    let child1_idx = slab.insert(make_test_node(Some(root_idx), "a", true));
    let child2_idx = slab.insert(make_test_node(Some(root_idx), "b", false));
    let grandchild_idx = slab.insert(make_test_node(Some(child1_idx), "c", false));

    add_child_at(&mut slab, root_idx, child1_idx);
    add_child_at(&mut slab, root_idx, child2_idx);
    add_child_at(&mut slab, child1_idx, grandchild_idx);

    let file_nodes = FileNodes::new(slab, root_idx);

    let subnodes = file_nodes.all_subnodes(root_idx);
    assert_eq!(subnodes.len(), 3);
    assert!(subnodes.contains(&child1_idx));
    assert!(subnodes.contains(&child2_idx));
    assert!(subnodes.contains(&grandchild_idx));
}

#[test]
fn add_child_at_missing_parent_is_false() {
    let mut slab: ThinSlab<SlabNode> = ThinSlab::new();
    let a = slab.insert(make_test_node(None, "a", true));
    assert!(!add_child_at(&mut slab, SlabIndex::new(7), a));
    assert!(add_child_at(&mut slab, a, SlabIndex::new(7)));
    assert!(add_child_at(&mut slab, a, SlabIndex::new(7)));
    assert_eq!(slab.get(a).unwrap().children.len(), 1);
}

// ---- index data: removing and upserting entries ----

fn sample_data() -> RootIndexData {
    let root = dir(
        "/",
        vec![
            dir("docs", vec![leaf("a.txt", false), leaf("b.txt", false)]),
            leaf("notes.txt", false),
        ],
    );
    RootIndexData::from_tree(&root)
}

#[test]
fn remove_entry_drops_subtree() {
    let mut data = sample_data();
    assert_eq!(data.len(), 5);
    data.remove_entry("/docs");
    assert_eq!(data.len(), 2);
    assert!(data.node_index_for_path("/docs").is_none());
    assert!(data.node_index_for_path("/docs/a.txt").is_none());
    assert!(data.indices_for_name("a.txt").is_none());
    assert!(data.indices_for_name("docs").is_none());
    let root = data.node_index_for_path("/").unwrap();
    assert_eq!(data.get_node(root).unwrap().children.len(), 1);
    assert!(data.node_index_for_path("/notes.txt").is_some());
}

#[test]
fn remove_entry_missing_path_changes_nothing() {
    let mut data = sample_data();
    data.remove_entry("/nope");
    assert_eq!(data.len(), 5);
}

#[test]
fn upsert_entry_adds_node_under_parent() {
    let mut data = sample_data();
    assert!(data.upsert_entry("/docs/c.txt", make_metadata(false)));
    assert_eq!(data.len(), 6);
    let id = data.node_index_for_path("/docs/c.txt").unwrap();
    assert_eq!(data.node_path(id), Some("/docs/c.txt".to_string()));
    let listed = data.indices_for_name("c.txt").unwrap();
    assert_eq!(listed.len(), 1);
    let docs = data.node_index_for_path("/docs").unwrap();
    assert_eq!(data.get_node(docs).unwrap().children.len(), 3);
}

#[test]
fn upsert_entry_replaces_existing() {
    let mut data = sample_data();
    assert!(data.upsert_entry("/docs", make_metadata(true)));
    assert_eq!(data.len(), 3);
    assert!(data.node_index_for_path("/docs/a.txt").is_none());
    let docs = data.node_index_for_path("/docs").unwrap();
    assert!(data.get_node(docs).unwrap().children.is_empty());
    assert_eq!(data.indices_for_name("docs").unwrap().len(), 1);
}

#[test]
fn upsert_entry_keeps_name_list_in_path_order() {
    let root = dir("/", vec![dir("b", vec![]), dir("d", vec![leaf("same", false)])]);
    let mut data = RootIndexData::from_tree(&root);
    assert!(data.upsert_entry("/b/same", make_metadata(false)));
    let listed = data.indices_for_name("same").unwrap().to_vec();
    assert_eq!(listed.len(), 2);
    assert_eq!(data.node_path(listed[0]), Some("/b/same".to_string()));
    assert_eq!(data.node_path(listed[1]), Some("/d/same".to_string()));
}

#[test]
fn from_walk_empty_directory() {
    let data = RootIndexData::from_tree(&dir("/tmp/walk", vec![]));
    assert!(!data.is_empty());
}

#[test]
fn from_walk_with_files() {
    let root = dir("/tmp/walk", vec![leaf("a.txt", false), leaf("b.txt", false)]);
    let data = RootIndexData::from_tree(&root);
    assert!(data.name_index.contains_key("a.txt"));
    assert!(data.name_index.contains_key("b.txt"));
}

#[test]
fn node_path_reconstruction() {
    let root = dir("/tmp/walk", vec![dir("subdir", vec![leaf("file.txt", false)])]);
    let data = RootIndexData::from_tree(&root);
    let file_indices = data.indices_for_name("file.txt").unwrap();
    assert_eq!(file_indices.len(), 1);
    let file_id = file_indices.get(0);
    let path = data.node_path(file_id).unwrap();
    assert!(path.ends_with("subdir/file.txt"));
}

#[test]
fn duplicate_filenames() {
    let root = dir(
        "/tmp/walk",
        vec![dir("a", vec![leaf("same.txt", false)]), dir("b", vec![leaf("same.txt", false)])],
    );
    let data = RootIndexData::from_tree(&root);
    let indices = data.indices_for_name("same.txt").unwrap();
    assert_eq!(indices.len(), 2);
}

// ---- persistence ----

#[test]
fn test_cache_key_fingerprint() {
    let key = RootIndexKey::new("/Users/test".to_string(), vec![]);
    let fp = cache_key_fingerprint(&key);
    assert!(!fp.is_empty());
    assert_eq!(fp.len(), 16);

    let key2 = RootIndexKey::new("/Users/test".to_string(), vec![]);
    assert_eq!(cache_key_fingerprint(&key), cache_key_fingerprint(&key2));

    let key3 = RootIndexKey::new("/Users/other".to_string(), vec![]);
    assert_ne!(cache_key_fingerprint(&key), cache_key_fingerprint(&key3));
}

#[test]
fn test_root_index_key_deduplication() {
    let key = RootIndexKey::new(
        "/test".to_string(),
        vec!["/a".to_string(), "/b".to_string(), "/a".to_string()],
    );
    assert_eq!(key.ignored_roots.len(), 2);
}

#[test]
fn root_index_key_sorts_by_components() {
    let key = RootIndexKey::new(
        "/r".to_string(),
        vec!["/a/b".to_string(), "/a.b".to_string(), "/a/b/".to_string(), "/a".to_string()],
    );
    assert_eq!(key.ignored_roots, vec!["/a".to_string(), "/a/b".to_string(), "/a.b".to_string()]);
}

#[test]
fn fnv1a_known_values() {
    let mut h = FNV_OFFSET_BASIS;
    fnv1a_update(&mut h, b"");
    assert_eq!(h, 0xcbf29ce484222325);
    fnv1a_update(&mut h, b"a");
    assert_eq!(h, 0xaf63dc4c8601ec8c);
}

#[test]
fn fingerprint_is_lowercase_hex_of_hash() {
    let key = RootIndexKey::new("".to_string(), vec![]);
    let mut h = FNV_OFFSET_BASIS;
    fnv1a_update(&mut h, &[0xff]);
    assert_eq!(cache_key_fingerprint(&key), format!("{h:016x}"));
}

#[test]
fn cache_staleness_rules() {
    assert!(!cache_is_stale_at(1000, 900, Some(800)));
    assert!(cache_is_stale_at(1000, 900, Some(950)));
    assert!(cache_is_stale_at(1000, 900, None));
    assert!(cache_is_stale_at(10_000, 900, Some(100)));
    assert!(!cache_is_stale_at(4500, 900, Some(100)));
    assert!(cache_is_stale_at(4501, 900, Some(100)));
    assert!(!cache_is_stale_at(100, 900, Some(100)));
}

#[test]
fn name_listing_then_removal_restores_list() {
    let mut names = NameIndex::new();
    names.add_index_ordered("a", SlabIndex::new(1));
    names.add_index_ordered("a", SlabIndex::new(4));
    assert!(names.remove_index("a", SlabIndex::new(4)));
    assert_eq!(names.get("a").unwrap().to_vec(), vec![SlabIndex::new(1)]);
    names.add_index_ordered("b", SlabIndex::new(2));
    assert!(names.remove_index("b", SlabIndex::new(2)));
    assert!(!names.contains_key("b"));
    assert!(!names.remove_index("b", SlabIndex::new(2)));
}

#[test]
fn snapshot_compression_round_trip() {
    let raw: Vec<u8> = (0..5000u32).map(|i| (i % 251) as u8).collect();
    let packed = compress_snapshot(&raw).unwrap();
    assert_ne!(packed, raw);
    assert_eq!(decompress_snapshot(&packed), Some(raw));
    assert_eq!(decompress_snapshot(b"not a zstd frame"), None);
}

#[test]
fn snapshot_accepted_checks_header_and_age() {
    let key = RootIndexKey::new("/data".to_string(), vec!["/data/skip".to_string()]);
    let ignored = vec!["/data/skip".to_string()];
    let v = INDEX_CACHE_VERSION;
    assert!(snapshot_accepted(v, "/data", &ignored, true, 1000, &key, true, 1100, Some(900)));
    assert!(!snapshot_accepted(v + 1, "/data", &ignored, true, 1000, &key, true, 1100, Some(900)));
    assert!(!snapshot_accepted(v, "/other", &ignored, true, 1000, &key, true, 1100, Some(900)));
    assert!(!snapshot_accepted(v, "/data", &vec![], true, 1000, &key, true, 1100, Some(900)));
    assert!(!snapshot_accepted(v, "/data", &ignored, false, 1000, &key, true, 1100, Some(900)));
    assert!(!snapshot_accepted(v, "/data", &ignored, true, 1000, &key, true, 1000 + 3601, Some(900)));
    assert!(!snapshot_accepted(v, "/data", &ignored, true, 1000, &key, true, 1100, Some(1001)));
    assert!(!snapshot_accepted(v, "/data", &ignored, true, 1000, &key, true, 1100, None));
}

#[test]
fn root_index_key_ignores_input_order() {
    let a = RootIndexKey::new("/r".to_string(), vec!["/b".to_string(), "/a/c".to_string(), "/a".to_string()]);
    let b = RootIndexKey::new("/r".to_string(), vec!["/a".to_string(), "/b".to_string(), "/a/c".to_string(), "/b".to_string()]);
    assert_eq!(a.ignored_roots, b.ignored_roots);
    assert_eq!(cache_key_fingerprint(&a), cache_key_fingerprint(&b));
}

#[test]
fn cache_path_joins_fingerprint_file_name() {
    let key = RootIndexKey::new("/Users/test".to_string(), vec![]);
    let fp = cache_key_fingerprint(&key);
    assert_eq!(key.cache_path("/tmp/cache"), format!("/tmp/cache/fs-index-{fp}.bin.zst"));
    assert_eq!(key.cache_path("/tmp/cache/"), format!("/tmp/cache/fs-index-{fp}.bin.zst"));
}

#[test]
fn restores_records_into_their_slots() {
    let nodes = vec![
        StoredNode { slot: 0, name: String::new(), parent: None, children: vec![1, 1, 3], metadata: make_metadata(true) },
        StoredNode { slot: 1, name: "old".into(), parent: Some(0), children: vec![], metadata: make_metadata(false) },
        StoredNode { slot: 3, name: "b".into(), parent: Some(0), children: vec![], metadata: make_metadata(false) },
        StoredNode { slot: 1, name: "a".into(), parent: Some(0), children: vec![], metadata: make_metadata(false) },
    ];
    let names = vec![
        ("a".to_string(), vec![1]),
        ("b".to_string(), vec![3]),
        ("a".to_string(), vec![4]),
        ("c".to_string(), vec![]),
    ];
    let data = restore_index(4, Some(0), nodes, names, 7);
    assert_eq!(data.errors, 7);
    assert_eq!(data.file_nodes.root(), Some(SlabIndex::new(0)));
    assert_eq!(data.file_nodes.len(), 3);
    let root = data.file_nodes.get(SlabIndex::new(0)).unwrap();
    assert_eq!(root.children.len(), 2);
    assert_eq!(root.children[0], SlabIndex::new(1));
    assert_eq!(root.children[1], SlabIndex::new(3));
    assert_eq!(data.file_nodes.get(SlabIndex::new(1)).unwrap().name(), "a");
    assert_eq!(data.file_nodes.get(SlabIndex::new(1)).unwrap().parent(), Some(SlabIndex::new(0)));
    assert!(data.file_nodes.get(SlabIndex::new(2)).is_none());
    assert_eq!(data.file_nodes.get(SlabIndex::new(3)).unwrap().name(), "b");
    assert_eq!(
        data.name_index.get("a").unwrap().to_vec(),
        vec![SlabIndex::new(1), SlabIndex::new(4)]
    );
    assert_eq!(data.name_index.get("b").unwrap().to_vec(), vec![SlabIndex::new(3)]);
    assert!(data.name_index.get("c").is_none());
}

#[test]
fn restore_without_root_is_empty() {
    let nodes = vec![StoredNode { slot: 0, name: "x".into(), parent: None, children: vec![], metadata: make_metadata(true) }];
    let data = restore_index(1, None, nodes, vec![], 0);
    assert!(data.file_nodes.root().is_none());
    assert!(data.file_nodes.is_empty());
}

#[test]
fn store_then_restore_gives_nodes_back() {
    let mut slab = ThinSlab::new();
    let root = slab.insert(make_dir_node("/", None));
    let gone = slab.insert(make_node("gone.txt", Some(root)));
    let dir = slab.insert(make_dir_node("src", Some(root)));
    let file = slab.insert(make_node("lib.rs", Some(dir)));
    add_child_at(&mut slab, root, dir);
    add_child_at(&mut slab, dir, file);
    slab.try_remove(gone);
    let tree = FileNodes::new(slab, root);
    let mut names = NameIndex::new();
    names.add_index_ordered("src", dir);
    names.add_index_ordered("lib.rs", file);

    let nodes = store_nodes(&tree);
    assert_eq!(nodes.len(), 3);
    assert_eq!(nodes[0].slot, 0);
    assert_eq!(nodes[1].slot, 2);
    assert_eq!(nodes[2].slot, 3);
    assert_eq!(nodes[1].name, "src");
    assert_eq!(nodes[1].parent, Some(0));
    assert_eq!(nodes[0].children, vec![2]);
    let entries = store_names(&names);
    assert_eq!(entries, vec![("lib.rs".to_string(), vec![3]), ("src".to_string(), vec![2])]);

    let data = restore_index(tree.slot_count() as u32, Some(0), nodes, entries, 0);
    assert_eq!(data.file_nodes.len(), 3);
    assert!(data.file_nodes.get(gone).is_none());
    assert_eq!(data.file_nodes.get(dir).unwrap().name(), "src");
    assert_eq!(data.file_nodes.get(file).unwrap().parent(), Some(dir));
    assert_eq!(data.file_nodes.get(root).unwrap().children.len(), 1);
    assert_eq!(data.file_nodes.get(root).unwrap().children[0], dir);
    assert_eq!(data.file_nodes.node_path(file), Some("/src/lib.rs".to_string()));
    assert_eq!(data.name_index.get("lib.rs").unwrap().to_vec(), vec![file]);
    assert_eq!(data.name_index.get("src").unwrap().to_vec(), vec![dir]);
}
