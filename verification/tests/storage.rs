use filesystem::storage::index_types::{OptionSlabIndex, SlabIndex, SortedSlabIndices};
use filesystem::storage::namepool::NamePool;
use filesystem::storage::node::{NameAndParent, NodeFileType, SlabNode, SlabNodeMetadata, StateTypeSize};
use filesystem::storage::slab::{Slab, ThinSlab};

#[test]
fn slab_index_types() {
    let idx = SlabIndex::new(100);
    assert_eq!(idx.get(), 100);

    let opt_none = OptionSlabIndex::none();
    assert_eq!(opt_none.to_option(), None);

    let opt_some = OptionSlabIndex::some(idx);
    assert_eq!(opt_some.to_option(), Some(idx));

    let opt_from = OptionSlabIndex::from_option(Some(idx));
    assert_eq!(opt_from.to_option(), Some(idx));

    let opt_from_none = OptionSlabIndex::from_option(None);
    assert_eq!(opt_from_none.to_option(), None);
}

#[test]
fn option_slab_index_default_is_none() {
    assert_eq!(OptionSlabIndex::default().to_option(), None);
}

#[test]
fn sorted_slab_indices_with_single() {
    let idx = SlabIndex::new(42);
    let indices = SortedSlabIndices::with_single(idx);
    assert!(!indices.is_empty());
    let collected: Vec<SlabIndex> = indices.to_vec();
    assert_eq!(collected, vec![idx]);
}

#[test]
fn sorted_slab_indices_from_iter() {
    let idx1 = SlabIndex::new(1);
    let idx2 = SlabIndex::new(2);
    let idx3 = SlabIndex::new(3);

    let indices = SortedSlabIndices::from_indices(&vec![idx1, idx2, idx3]);
    assert!(!indices.is_empty());
    let collected: Vec<SlabIndex> = indices.to_vec();
    assert_eq!(collected, vec![idx1, idx2, idx3]);
}

#[test]
fn sorted_slab_indices_memory_efficiency() {
    assert_eq!(std::mem::size_of::<SortedSlabIndices>(), 8);
    assert_eq!(std::mem::size_of::<Vec<SlabIndex>>(), 24);
}

#[test]
fn sorted_slab_indices_remove() {
    let idx1 = SlabIndex::new(10);
    let idx2 = SlabIndex::new(20);

    let mut indices = SortedSlabIndices::from_indices(&vec![idx1, idx2]);

    assert!(indices.remove(idx1));
    assert!(!indices.remove(idx1));
    assert!(indices.remove(idx2));
    assert!(indices.is_empty());
}

#[test]
fn sorted_slab_indices_insert_at_and_get() {
    let mut indices = SortedSlabIndices::from_indices(&vec![SlabIndex::new(1), SlabIndex::new(3)]);
    indices.insert_at(1, SlabIndex::new(2));
    indices.push_ordered(SlabIndex::new(4));
    assert_eq!(indices.len(), 4);
    assert_eq!(indices.get(1), SlabIndex::new(2));
    assert_eq!(indices.get(3), SlabIndex::new(4));
}

#[test]
fn thin_slab_basic_operations() {
    let mut slab = ThinSlab::<i32>::new();
    assert!(slab.is_empty());

    let idx = slab.insert(42);
    assert_eq!(slab.get(idx), Some(&42));
    assert_eq!(slab.len(), 1);

    let removed = slab.try_remove(idx);
    assert_eq!(removed, Some(42));
    assert!(slab.is_empty());
}

#[test]
fn test_intern_basic() {
    let mut pool = NamePool::new();
    let s = pool.intern("hello");
    assert_eq!(s, "hello");
}

#[test]
fn test_intern_deduplication() {
    let mut pool = NamePool::new();
    let s1 = pool.intern("hello");
    let s2 = pool.intern("hello");
    assert_eq!(s1, s2);
    assert_eq!(pool.len(), 1);
}

#[test]
fn test_intern_multiple() {
    let mut pool = NamePool::new();
    let s1 = pool.intern("foo");
    let s2 = pool.intern("bar");
    let s3 = pool.intern("baz");
    assert_eq!(s1, "foo");
    assert_eq!(s2, "bar");
    assert_eq!(s3, "baz");
}

#[test]
fn test_intern_empty_string() {
    let mut pool = NamePool::new();
    let s = pool.intern("");
    assert_eq!(s, "");
}

#[test]
fn test_intern_unicode() {
    let mut pool = NamePool::new();
    let s = pool.intern("こんにちは");
    assert_eq!(s, "こんにちは");
}

#[test]
fn test_many_duplicates() {
    let mut pool = NamePool::new();
    for _ in 0..100 {
        let s = pool.intern("duplicate");
        assert_eq!(s, "duplicate");
    }
    assert_eq!(pool.len(), 1);
}

#[test]
fn namepool_contains_after_intern() {
    let mut pool = NamePool::new();
    assert!(!pool.contains("a"));
    pool.intern("a");
    assert!(pool.contains("a"));
    assert!(!pool.contains("b"));
}

#[test]
fn state_type_size_encoding() {
    let sts = StateTypeSize::some(NodeFileType::File, 12345);
    assert_eq!(sts.file_type(), NodeFileType::File);
    assert_eq!(sts.raw_size(), 12345);
    assert!(sts.is_file());
    assert!(!sts.is_dir());

    let sts = StateTypeSize::some(NodeFileType::Dir, 4096);
    assert_eq!(sts.file_type(), NodeFileType::Dir);
    assert_eq!(sts.raw_size(), 4096);
    assert!(sts.is_dir());
    assert!(!sts.is_file());
}

#[test]
fn state_type_size_max_size() {
    let max = StateTypeSize::MAX_SIZE;
    let sts = StateTypeSize::some(NodeFileType::File, max);
    assert_eq!(sts.raw_size(), max);

    let sts = StateTypeSize::some(NodeFileType::File, max + 1000);
    assert_eq!(sts.raw_size(), max);
}

#[test]
fn state_type_size_symlink_and_unknown() {
    assert_eq!(StateTypeSize::some(NodeFileType::Symlink, 7).file_type(), NodeFileType::Symlink);
    assert_eq!(StateTypeSize::some(NodeFileType::Unknown, 7).file_type(), NodeFileType::Unknown);
    assert_eq!(StateTypeSize::max_size(), StateTypeSize::MAX_SIZE);
}

#[test]
fn slab_node_metadata_from_directory() {
    let metadata = SlabNodeMetadata {
        state_type_size: StateTypeSize::some(NodeFileType::Dir, 4096),
        ctime: 1700000000,
        mtime: 1700000001,
    };

    assert!(metadata.is_dir());
    assert!(!metadata.is_file());
    assert_eq!(metadata.file_type(), NodeFileType::Dir);
    assert_eq!(metadata.ctime, 1700000000);
    assert_eq!(metadata.mtime, 1700000001);
}

#[test]
fn slab_node_metadata_from_parts_truncates_times() {
    let metadata = SlabNodeMetadata::from_parts(NodeFileType::File, 10, Some(0x1_0000_0005), None);
    assert_eq!(metadata.ctime, 5);
    assert_eq!(metadata.mtime, 0);
    assert!(metadata.is_file());
}

#[test]
fn name_and_parent_basic() {
    let name: &'static str = "test.txt";
    let parent_idx = SlabIndex::new(42);

    let nap = NameAndParent::new(name, OptionSlabIndex::some(parent_idx));
    assert_eq!(nap.name(), "test.txt");
    assert_eq!(nap.parent(), Some(parent_idx));

    assert_eq!(&*nap, "test.txt");
}

#[test]
fn name_and_parent_no_parent() {
    let name: &'static str = "root";
    let nap = NameAndParent::new(name, OptionSlabIndex::none());
    assert_eq!(nap.parent(), None);
}

#[test]
fn slab_node_basic() {
    let name: &'static str = "file.rs";
    let metadata = SlabNodeMetadata {
        state_type_size: StateTypeSize::some(NodeFileType::File, 1024),
        ctime: 1700000000,
        mtime: 1700000001,
    };

    let node = SlabNode::new(None, name, metadata);
    assert_eq!(node.name(), "file.rs");
    assert_eq!(node.parent(), None);
    assert!(node.is_file());
    assert!(!node.is_dir());
    assert!(node.children.is_empty());
    assert_eq!(node.extension().as_deref(), Some("rs"));
    assert_eq!(node.size(), Some(1024));
}

#[test]
fn slab_node_with_children() {
    let name: &'static str = "src";
    let metadata = SlabNodeMetadata {
        state_type_size: StateTypeSize::some(NodeFileType::Dir, 4096),
        ctime: 0,
        mtime: 0,
    };

    let mut node = SlabNode::new(None, name, metadata);
    let child1 = SlabIndex::new(1);
    let child2 = SlabIndex::new(2);

    node.add_child(child1);
    node.add_child(child2);
    assert_eq!(node.children.len(), 2);

    node.add_child(child1);
    assert_eq!(node.children.len(), 2);

    assert!(node.remove_child(child1));
    assert_eq!(node.children.len(), 1);

    assert!(!node.remove_child(child1));
}

#[test]
fn slab_node_hidden_and_times() {
    let metadata = SlabNodeMetadata::from_parts(NodeFileType::Dir, 0, Some(11), Some(12));
    let node = SlabNode::new(Some(SlabIndex::new(3)), ".git", metadata);
    assert!(node.is_hidden());
    assert_eq!(node.size(), None);
    assert_eq!(node.created_at(), Some(11));
    assert_eq!(node.modified_at(), Some(12));
    assert_eq!(node.extension().as_deref(), None);
    assert_eq!(node.parent(), Some(SlabIndex::new(3)));
}

#[test]
fn slab_basic_operations() {
    let mut slab = Slab::<i32>::new();
    assert!(slab.is_empty());
    assert_eq!(slab.len(), 0);

    let idx0 = slab.insert(10);
    let idx1 = slab.insert(20);
    let idx2 = slab.insert(30);

    assert_eq!(slab.len(), 3);
    assert_eq!(slab.get(idx0), Some(&10));
    assert_eq!(slab.get(idx1), Some(&20));
    assert_eq!(slab.get(idx2), Some(&30));

    let removed = slab.try_remove(idx1);
    assert_eq!(removed, Some(20));
    assert_eq!(slab.len(), 2);
    assert_eq!(slab.get(idx1), None);

    let idx3 = slab.insert(40);
    assert_eq!(idx3, idx1);
    assert_eq!(slab.get(idx3), Some(&40));
}

#[test]
fn slab_index_access() {
    let mut slab = Slab::<&str>::new();
    let idx = slab.insert("hello");

    assert_eq!(slab.get(idx), Some(&"hello"));
    slab.replace(idx, "world");
    assert_eq!(slab.get(idx), Some(&"world"));
}

#[test]
fn slab_iteration() {
    let mut slab = Slab::<i32>::new();
    slab.insert(1);
    slab.insert(2);
    slab.insert(3);

    let items: Vec<(usize, &i32)> = slab.items();
    assert_eq!(items.len(), 3);
    assert_eq!(items[0], (0, &1));
    assert_eq!(items[1], (1, &2));
    assert_eq!(items[2], (2, &3));
}

#[test]
fn slab_grows_automatically() {
    let mut slab = Slab::<i32>::new();
    for i in 0..2000 {
        slab.insert(i);
    }

    assert_eq!(slab.len(), 2000);
    for i in 0..2000 {
        assert_eq!(slab.get(i), Some(&(i as i32)));
    }
}

#[test]
fn slab_free_list_is_last_in_first_out() {
    let mut slab = Slab::<i32>::new();
    let a = slab.insert(1);
    let b = slab.insert(2);
    let c = slab.insert(3);
    slab.try_remove(a);
    slab.try_remove(c);
    assert_eq!(slab.insert(4), c);
    assert_eq!(slab.insert(5), a);
    assert_eq!(slab.insert(6), 3);
    assert_eq!(slab.get(b), Some(&2));
    assert_eq!(slab.slot_count(), 4);
    assert_eq!(slab.try_remove(10), None);
}

#[test]
fn slab_node_extension_is_lowercase() {
    let metadata = SlabNodeMetadata::from_parts(NodeFileType::File, 1, None, None);
    assert_eq!(SlabNode::new(None, "Photo.JPG", metadata).extension().as_deref(), Some("jpg"));
    assert_eq!(SlabNode::new(None, "a.tar.gz", metadata).extension().as_deref(), Some("gz"));
    assert_eq!(SlabNode::new(None, "README", metadata).extension(), None);
    assert_eq!(SlabNode::new(None, "file.", metadata).extension(), None);
    assert_eq!(SlabNode::new(None, ".bashrc", metadata).extension(), None);
}
