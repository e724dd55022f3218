//! The data of one indexed root: its node tree and its name index.

use vstd::prelude::*;
use std::collections::BTreeSet;
use crate::index::file_nodes::{
    chain_names, chain_up, child_added, child_dropped, ids_of, join_up, parent_of, path_or_root, subnodes_list, FileNodes,
    lookup_spec,
};
use crate::index::construct::{construct_slab_and_name_index, extended, named, placed, preorder, tree_size, Node};
use crate::index::name_index::{ids_for, removed_first, NameIndex};
use crate::storage::index_types::{SlabIndex, SortedSlabIndices};
use crate::storage::node::{name_suffix, NodeFileType, SlabNode, SlabNodeMetadata};
use crate::query::highlight::{file_name_of, path_file_name};
use crate::query::path::{path_parent, spec_path_parent};
use crate::storage::slab::listed;
use crate::strings::{chars_eq, chars_lt, chars_of, lemma_seq_lt_order, lower_chars, lower_seq, seq_lt};
use crate::watcher::walker::path_components;

verus! {

broadcast use vstd::std_specs::btree::group_btree_axioms;

/// A node is a regular file.
pub open spec fn node_is_file(n: SlabNode) -> bool {
    n.metadata.state_type_size.decoded_type() == NodeFileType::File
}

/// A node is a directory.
pub open spec fn node_is_dir(n: SlabNode) -> bool {
    n.metadata.state_type_size.decoded_type() == NodeFileType::Dir
}

/// A node is a file whose extension, ignoring ASCII case, is `ext`.
pub open spec fn node_has_extension(n: SlabNode, ext: Seq<char>) -> bool {
    node_is_file(n) && (name_suffix(n.name_view()) matches Some(e) && lower_seq(e) == lower_seq(ext))
}

/// The path `node_path` gives for a node, if any.
pub open spec fn path_of(m: Map<int, SlabNode>, count: nat, id: int) -> Option<Seq<char>> {
    match chain_up(m, id, count) {
        Some(c) => if c.len() > 0 {
            Some(path_or_root(join_up(chain_names(m, c), true)))
        } else {
            None
        },
        None => None,
    }
}

/// A name's list with index `r` dropped: its first occurrence goes, and a
/// list left empty goes with it.
pub open spec fn drop_listed(ids: Option<Seq<u32>>, r: int) -> Option<Seq<u32>> {
    match ids {
        None => None,
        Some(s) => {
            let t = removed_first(s, r as u32);
            if t.len() == 0 {
                None
            } else {
                Some(t)
            }
        },
    }
}

/// A name's list with `x` appended (a new list when the name is unlisted).
pub open spec fn appended(ids: Option<Seq<u32>>, x: u32) -> Seq<u32> {
    match ids {
        Some(s) => s.push(x),
        None => seq![x],
    }
}

/// Removing an index just appended to a name's list (see
/// `NameIndex::add_index_ordered`) gives the list back as it was, when the
/// index was not listed before (lists in the index are never empty); a name
/// listed only for it is dropped again.
pub proof fn law_listing_then_dropping(before: Option<Seq<u32>>, x: u32)
    requires
        before matches Some(ids) ==> ids.len() > 0 && !ids.contains(x),
    ensures
        drop_listed(Some(appended(before, x)), x as int) == before,
{
    match before {
        None => {
            assert(seq![x].drop_first() =~= Seq::<u32>::empty());
            assert(seq![x][0] == x);
            assert(removed_first(seq![x], x).len() == 0);
            assert((x as int) as u32 == x);
            assert(drop_listed(Some(seq![x]), x as int) is None);
            assert(appended(before, x) == seq![x]);
        },
        Some(ids) => {
            lemma_removed_first_pushed(ids, x);
            assert((x as int) as u32 == x);
            assert(appended(before, x) == ids.push(x));
        },
    }
}

proof fn lemma_removed_first_pushed(ids: Seq<u32>, x: u32)
    requires
        !ids.contains(x),
    ensures
        removed_first(ids.push(x), x) == ids,
    decreases ids.len(),
{
    if ids.len() == 0 {
        assert(ids.push(x).drop_first() =~= ids);
    } else {
        assert(ids.push(x).drop_first() =~= ids.drop_first().push(x));
        assert(!ids.drop_first().contains(x)) by {
            if ids.drop_first().contains(x) {
                let j = choose|j: int| 0 <= j < ids.drop_first().len() && ids.drop_first()[j] == x;
                assert(ids[j + 1] == x);
            }
        }
        lemma_removed_first_pushed(ids.drop_first(), x);
        assert(ids[0] != x);
        assert(seq![ids[0]] + ids.drop_first() =~= ids);
    }
}

/// The list of `name` after the nodes of `list` are removed in order, each
/// one only while still there (in `m` and not in `gone`).
pub open spec fn ids_after_removals(
    ids: Option<Seq<u32>>,
    name: Seq<char>,
    m: Map<int, SlabNode>,
    gone: Set<int>,
    list: Seq<int>,
) -> Option<Seq<u32>>
    decreases list.len(),
{
    if list.len() == 0 {
        ids
    } else {
        let r = list[0];
        let next = if m.dom().contains(r) && !gone.contains(r) && m[r].name_view() == name {
            drop_listed(ids, r)
        } else {
            ids
        };
        ids_after_removals(next, name, m, gone.insert(r), list.drop_first())
    }
}

/// The order in which removing node `id` removes nodes: those below it, as
/// `all_subnodes` lists them, then itself.
pub open spec fn removal_order(m: Map<int, SlabNode>, id: int, fuel: nat) -> Seq<int> {
    subnodes_list(m, m[id].children_view(), fuel) + seq![id]
}

/// `(new_nodes, new_pairs)` is `(old_nodes, old_pairs)` after removing node
/// `id` and every node below it: they leave the tree and the name index, and
/// `id` leaves its parent's children. Nothing changes when `id` is absent.
pub open spec fn removed_subtree(
    old_nodes: Map<int, SlabNode>,
    old_pairs: Seq<(Seq<char>, Seq<u32>)>,
    new_nodes: Map<int, SlabNode>,
    new_pairs: Seq<(Seq<char>, Seq<u32>)>,
    id: int,
    fuel: nat,
) -> bool {
    if !old_nodes.dom().contains(id) {
        new_nodes == old_nodes && new_pairs == old_pairs
    } else {
        let list = removal_order(old_nodes, id, fuel);
        let p = parent_of(old_nodes[id]);
        &&& forall|k: int| #[trigger] new_nodes.dom().contains(k) <==> old_nodes.dom().contains(k) && !list.contains(k)
        &&& forall|k: int| #[trigger] new_nodes.dom().contains(k) && p != Some(k) ==> new_nodes[k] == old_nodes[k]
        &&& (p matches Some(q) ==> (new_nodes.dom().contains(q) ==> child_dropped(old_nodes[q], new_nodes[q], id as u32)))
        &&& forall|name: Seq<char>| #[trigger] ids_for(new_pairs, name) == ids_after_removals(
            ids_for(old_pairs, name),
            name,
            old_nodes,
            Set::empty(),
            list,
        )
    }
}

/// The paths of listed nodes, by `path_of`.
pub open spec fn listed_paths(m: Map<int, SlabNode>, count: nat, ids: Seq<u32>) -> Seq<Option<Seq<char>>> {
    ids.map_values(|x: u32| path_of(m, count, x as int))
}

/// Every listed path is known and they increase strictly.
pub open spec fn paths_sorted(paths: Seq<Option<Seq<char>>>) -> bool {
    &&& forall|i: int| 0 <= i < paths.len() ==> (#[trigger] paths[i]) is Some
    &&& forall|i: int, j: int| 0 <= i < j < paths.len() ==> seq_lt(#[trigger] paths[i]->0, #[trigger] paths[j]->0)
}

/// The list of a name after listing `index` under it (see
/// `RootIndexData::add_index_sorted`), with `m` and `count` the tree the
/// paths are read from and `r` what the listing returned.
pub open spec fn sorted_listing(
    before: Option<Seq<u32>>,
    after: Option<Seq<u32>>,
    m: Map<int, SlabNode>,
    count: nat,
    index: u32,
    r: bool,
) -> bool {
    match path_of(m, count, index as int) {
        None => r && after == before,
        Some(target) => match before {
            None => r && after == Some(seq![index]),
            Some(ids) => {
                let paths = listed_paths(m, count, ids);
                &&& (forall|i: int| 0 <= i < paths.len() ==> (#[trigger] paths[i]) is Some) ==> r
                &&& !r ==> after == before
                &&& r ==> (after == before || exists|pos: int| 0 <= pos <= ids.len() && after == Some(ids.insert(pos, index)))
                &&& paths_sorted(paths) ==> (
                    if paths.contains(Some(target)) {
                        after == before
                    } else {
                        exists|pos: int| 0 <= pos <= ids.len()
                            && (forall|j: int| 0 <= j < pos ==> seq_lt(#[trigger] paths[j]->0, target))
                            && (forall|j: int| pos <= j < ids.len() ==> seq_lt(target, #[trigger] paths[j]->0))
                            && after == Some(ids.insert(pos, index))
                    }
                )
            },
        },
    }
}

/// `(new_nodes, new_pairs)` is `(mid_nodes, mid_pairs)` with an entry for
/// `path` added in slot `slot`: a childless node named by the path's last
/// component, under the node of the path's parent, listed under its name.
/// Nothing is added for a path without a parent or a last component.
pub open spec fn entry_added(
    mid_nodes: Map<int, SlabNode>,
    mid_pairs: Seq<(Seq<char>, Seq<u32>)>,
    new_nodes: Map<int, SlabNode>,
    new_pairs: Seq<(Seq<char>, Seq<u32>)>,
    new_count: nat,
    root: Option<SlabIndex>,
    path: Seq<char>,
    metadata: SlabNodeMetadata,
    slot: int,
    r: bool,
) -> bool {
    match (spec_path_parent(path), path_file_name(path)) {
        (Some(pp), Some(name)) => {
            let pid = lookup_spec(mid_nodes, root, path_components(pp));
            &&& 0 <= slot < u32::MAX
            &&& !mid_nodes.dom().contains(slot)
            &&& new_nodes.dom() == mid_nodes.dom().insert(slot)
            &&& new_nodes[slot].name_view() == name
            &&& parent_of(new_nodes[slot]) == pid
            &&& new_nodes[slot].metadata == metadata
            &&& new_nodes[slot].children_view() == (if pid == Some(slot) {
                seq![slot as u32]
            } else {
                Seq::<u32>::empty()
            })
            &&& forall|k: int| #[trigger] mid_nodes.dom().contains(k) && pid != Some(k) ==> new_nodes[k] == mid_nodes[k]
            &&& (pid matches Some(q) ==> (mid_nodes.dom().contains(q) ==> child_added(mid_nodes[q], new_nodes[q], slot as u32)))
            &&& forall|other: Seq<char>| other != name ==> #[trigger] ids_for(new_pairs, other) == ids_for(mid_pairs, other)
            &&& sorted_listing(ids_for(mid_pairs, name), ids_for(new_pairs, name), new_nodes, new_count, slot as u32, r)
        },
        _ => new_nodes == mid_nodes && new_pairs == mid_pairs && r,
    }
}

/// The data of an indexed root.
pub struct RootIndexData {
    /// The node tree.
    pub file_nodes: FileNodes,
    /// File names to the nodes that carry them.
    pub name_index: NameIndex,
    /// Errors met while indexing.
    pub errors: usize,
}

/// `after` is `before` with the node of `path`, and everything below it,
/// removed (see `RootIndexData::remove_entry`).
pub open spec fn entry_removed(before: RootIndexData, after: RootIndexData, path: Seq<char>) -> bool {
    &&& after.file_nodes.root_view() == before.file_nodes.root_view()
    &&& after.file_nodes.slots() == before.file_nodes.slots()
    &&& after.errors == before.errors
    &&& match lookup_spec(before.nodes(), before.file_nodes.root_view(), path_components(path)) {
        None => after.nodes() == before.nodes() && after.name_index.pairs() == before.name_index.pairs(),
        Some(x) => removed_subtree(
            before.nodes(),
            before.name_index.pairs(),
            after.nodes(),
            after.name_index.pairs(),
            x,
            before.file_nodes.count(),
        ),
    }
}

/// `after` is `before` with the entry of `path` inserted or replaced (see
/// `RootIndexData::upsert_entry`, which returned `r`).
pub open spec fn entry_upserted(
    before: RootIndexData,
    after: RootIndexData,
    path: Seq<char>,
    metadata: SlabNodeMetadata,
    r: bool,
) -> bool {
    &&& after.file_nodes.root_view() == before.file_nodes.root_view()
    &&& after.errors == before.errors
    &&& exists|mid: RootIndexData, slot: int|
        entry_removed(before, mid, path) && entry_added(
            mid.nodes(),
            mid.name_index.pairs(),
            after.nodes(),
            after.name_index.pairs(),
            after.file_nodes.count(),
            before.file_nodes.root_view(),
            path,
            metadata,
            slot,
            r,
        )
}

impl RootIndexData {
    /// The nodes by slot number.
    pub open spec fn nodes(&self) -> Map<int, SlabNode> {
        self.file_nodes.nodes()
    }

    /// Both parts are well formed.
    pub open spec fn wf(&self) -> bool {
        self.file_nodes.wf() && self.name_index.wf()
    }

    /// Empty data.
    pub fn new() -> (r: Self)
        ensures
            r.wf(),
            r.nodes() == Map::<int, SlabNode>::empty(),
            r.file_nodes.root_view() is None,
            r.name_index.pairs().len() == 0,
            r.errors == 0,
    {
        RootIndexData { file_nodes: FileNodes::empty(), name_index: NameIndex::new(), errors: 0 }
    }

    /// Index data built from a walked tree: the tree laid out in preorder
    /// from slot 0, its root as the root, every name indexed.
    pub fn from_tree(root: &Node) -> (r: Self)
        requires
            tree_size(*root) < u32::MAX,
        ensures
            r.wf(),
            r.file_nodes.root_view() matches Some(x) && x.raw() == 0,
            r.file_nodes.count() == tree_size(*root),
            forall|i: int| #[trigger] r.nodes().dom().contains(i) <==> 0 <= i < tree_size(*root),
            placed(r.nodes(), *root, 0, None),
            forall|name: Seq<char>| #[trigger] ids_for(r.name_index.pairs(), name) == extended(None, named(preorder(*root, 0), name)),
            r.errors == 0,
    {
        let (root_index, slab, name_index) = construct_slab_and_name_index(root);
        let file_nodes = FileNodes::new(slab, root_index);
        RootIndexData { file_nodes, name_index, errors: 0 }
    }

    /// The node at an index, if present.
    pub fn get_node(&self, id: SlabIndex) -> (r: Option<&SlabNode>)
        requires
            self.wf(),
        ensures
            match r {
                Some(n) => self.nodes().dom().contains(id.raw() as int) && *n == self.nodes()[id.raw() as int],
                None => !self.nodes().dom().contains(id.raw() as int),
            },
    {
        self.file_nodes.get(id)
    }

    /// The number of indexed entries.
    pub fn len(&self) -> (r: usize)
        ensures
            r == self.file_nodes.count(),
    {
        self.file_nodes.len()
    }

    /// Whether no entry is indexed.
    pub fn is_empty(&self) -> (r: bool)
        ensures
            r == (self.file_nodes.count() == 0),
    {
        self.file_nodes.is_empty()
    }

    /// The full path of a node (see `FileNodes::node_path`).
    pub fn node_path(&self, id: SlabIndex) -> (r: Option<String>)
        requires
            self.wf(),
        ensures
            match path_of(self.nodes(), self.file_nodes.count(), id.raw() as int) {
                Some(t) => r matches Some(s) && s@ == t,
                None => r is None,
            },
    {
        self.file_nodes.node_path(id)
    }

    /// Lists node `index` under `name`, placed among the name's nodes by a
    /// binary search over their paths (the list is kept in path order). A
    /// node without a path is not listed; a node whose path is already listed
    /// is not listed twice. False when a listed node met by the search has no
    /// path, in which case nothing is listed.
    pub fn add_index_sorted(&mut self, name: &str, index: SlabIndex) -> (r: bool)
        requires
            old(self).wf(),
        ensures
            final(self).wf(),
            final(self).file_nodes == old(self).file_nodes,
            final(self).errors == old(self).errors,
            forall|other: Seq<char>| other != name@ ==> ids_for(final(self).name_index.pairs(), other) == ids_for(old(self).name_index.pairs(), other),
            sorted_listing(
                ids_for(old(self).name_index.pairs(), name@),
                ids_for(final(self).name_index.pairs(), name@),
                old(self).nodes(),
                old(self).file_nodes.count(),
                index.raw(),
                r,
            ),
    {
        let ghost m = self.nodes();
        let ghost count = self.file_nodes.count();
        let target = match self.file_nodes.node_path(index) {
            None => return true,
            Some(t) => chars_of(t.as_str()),
        };
        let mut lo: usize = 0;
        match self.name_index.get(name) {
            None => {
                self.name_index.add_index_ordered(name, index);
                return true;
            },
            Some(list) => {
                let ghost ids = list.items();
                let ghost paths = listed_paths(m, count, ids);
                let mut hi: usize = list.len();
                let mut resolved = true;
                let mut found = false;
                let ghost mut bad: int = 0;
                while lo < hi && resolved && !found
                    invariant
                        self.wf(),
                        m == self.nodes(),
                        count == self.file_nodes.count(),
                        ids == list.items(),
                        paths == listed_paths(m, count, ids),
                        lo <= hi <= ids.len(),
                        !resolved ==> 0 <= bad < paths.len() && paths[bad] is None,
                        found ==> paths.contains(Some(target@)),
                        paths_sorted(paths) ==> (forall|j: int| 0 <= j < lo ==> seq_lt(#[trigger] paths[j]->0, target@)),
                        paths_sorted(paths) ==> (forall|j: int| hi <= j < ids.len() ==> seq_lt(target@, #[trigger] paths[j]->0)),
                    decreases hi - lo, (if resolved && !found { 1int } else { 0int }),
                {
                    let mid = lo + (hi - lo) / 2;
                    let probe = list.get(mid);
                    match self.file_nodes.node_path(probe) {
                        None => {
                            proof {
                                bad = mid as int;
                            }
                            resolved = false;
                        },
                        Some(p) => {
                            let path = chars_of(p.as_str());
                            assert(paths[mid as int] == Some(path@));
                            if chars_lt(&path, &target) {
                                proof {
                                    if paths_sorted(paths) {
                                        assert forall|j: int| 0 <= j < mid + 1 implies seq_lt(#[trigger] paths[j]->0, target@) by {
                                            if lo <= j < mid {
                                                assert(seq_lt(paths[j]->0, paths[mid as int]->0));
                                                lemma_seq_lt_order(paths[j]->0, path@, target@);
                                            }
                                        }
                                    }
                                }
                                lo = mid + 1;
                            } else if chars_lt(&target, &path) {
                                proof {
                                    if paths_sorted(paths) {
                                        assert forall|j: int| mid <= j < ids.len() implies seq_lt(target@, #[trigger] paths[j]->0) by {
                                            if mid < j < hi {
                                                assert(seq_lt(paths[mid as int]->0, paths[j]->0));
                                                lemma_seq_lt_order(target@, path@, paths[j]->0);
                                            }
                                        }
                                    }
                                }
                                hi = mid;
                            } else {
                                proof {
                                    lemma_seq_lt_order(path@, target@, path@);
                                    assert(paths[mid as int] == Some(target@));
                                }
                                found = true;
                            }
                        },
                    }
                }
                if !resolved {
                    assert(paths[bad] is None);
                    return false;
                }
                if found {
                    return true;
                }
                proof {
                    if paths_sorted(paths) {
                        assert forall|j: int| 0 <= j < paths.len() implies paths[j] != Some(target@) by {
                            if j < lo {
                                lemma_seq_lt_order(paths[j]->0, target@, target@);
                            } else {
                                lemma_seq_lt_order(target@, paths[j]->0, target@);
                            }
                        }
                    }
                }
            },
        }
        self.name_index.insert_index_at(name, lo, index);
        true
    }

    /// Removes the node of a path with every node below it; nothing changes
    /// when the path has no node.
    pub fn remove_entry(&mut self, path: &str)
        requires
            old(self).wf(),
        ensures
            final(self).wf(),
            entry_removed(*old(self), *final(self), path@),
    {
        if let Some(id) = self.node_index_for_path(path) {
            self.remove_node(id);
        }
    }

    /// Inserts or replaces the entry of a path with the given metadata: the
    /// path's node, if any, goes with everything below it; then a childless
    /// node for the path is added under the node of its parent path and listed
    /// under its name (see `add_index_sorted`, whose result this returns).
    pub fn upsert_entry(&mut self, path: &str, metadata: SlabNodeMetadata) -> (r: bool)
        requires
            old(self).wf(),
            old(self).file_nodes.slots() < u32::MAX,
        ensures
            final(self).wf(),
            final(self).file_nodes.slots() <= old(self).file_nodes.slots() + 1,
            entry_upserted(*old(self), *final(self), path@, metadata, r),
    {
        self.remove_entry(path);
        let ghost mid = *self;
        let ghost mid_nodes = self.nodes();
        let ghost mid_pairs = self.name_index.pairs();
        let parent_path = match path_parent(path) {
            None => {
                assert(entry_added(mid_nodes, mid_pairs, self.nodes(), self.name_index.pairs(), self.file_nodes.count(),
                    old(self).file_nodes.root_view(), path@, metadata, 0, true));
                return true;
            },
            Some(p) => p,
        };
        let parent_id = self.node_index_for_path(parent_path.as_str());
        let name = match file_name_of(path) {
            None => {
                assert(entry_added(mid_nodes, mid_pairs, self.nodes(), self.name_index.pairs(), self.file_nodes.count(),
                    old(self).file_nodes.root_view(), path@, metadata, 0, true));
                return true;
            },
            Some(n) => n,
        };
        let node = SlabNode::new(parent_id, name.as_str(), metadata);
        proof {
            self.file_nodes.lemma_next_free();
        }
        let id = self.file_nodes.insert_node(node);
        let ghost after_insert = self.nodes();
        if let Some(p) = parent_id {
            self.file_nodes.attach_child(p, id);
        }
        proof {
            assert(self.nodes().dom() =~= mid_nodes.dom().insert(id.raw() as int));
        }
        let r = self.add_index_sorted(name.as_str(), id);
        proof {
            let slot = id.raw() as int;
            let nn = self.nodes();
            let pid = lookup_spec(mid_nodes, old(self).file_nodes.root_view(), path_components(parent_path@));
            assert(parent_path@ == spec_path_parent(path@)->0);
            assert(name@ == path_file_name(path@)->0);
            assert(!mid_nodes.dom().contains(slot));
            assert(parent_of(nn[slot]) == pid);
            assert(nn[slot].name_view() == name@);
            assert(nn[slot].metadata == metadata);
            if pid == Some(slot) {
                assert(nn[slot].children_view() =~= seq![slot as u32]);
            } else {
                assert(nn[slot].children_view() =~= Seq::<u32>::empty());
            }
            assert(entry_added(mid_nodes, mid_pairs, self.nodes(), self.name_index.pairs(), self.file_nodes.count(),
                old(self).file_nodes.root_view(), path@, metadata, id.raw() as int, r));
        }
        r
    }

    /// Removes a node with every node below it, from the tree and from the
    /// name index, and detaches it from its parent.
    pub fn remove_node(&mut self, id: SlabIndex)
        requires
            old(self).wf(),
        ensures
            final(self).wf(),
            final(self).file_nodes.root_view() == old(self).file_nodes.root_view(),
            final(self).file_nodes.slots() == old(self).file_nodes.slots(),
            final(self).errors == old(self).errors,
            removed_subtree(
                old(self).nodes(),
                old(self).name_index.pairs(),
                final(self).nodes(),
                final(self).name_index.pairs(),
                id.raw() as int,
                old(self).file_nodes.count(),
            ),
    {
        let ghost m0 = self.nodes();
        let ghost p0 = self.name_index.pairs();
        let parent = match self.file_nodes.get(id) {
            None => return,
            Some(n) => n.parent(),
        };
        let mut order = self.file_nodes.all_subnodes(id);
        order.push(id);
        let ghost list = ids_of(order@);
        proof {
            assert(list =~= removal_order(m0, id.raw() as int, self.file_nodes.count()));
        }
        if let Some(p) = parent {
            self.file_nodes.detach_child(p, id);
        }
        let ghost m1 = self.nodes();
        assert(m1.dom() =~= m0.dom());
        assert forall|name: Seq<char>| #[trigger] ids_after_removals(ids_for(p0, name), name, m0, Set::empty(), list)
            == ids_after_removals(ids_for(self.name_index.pairs(), name), name, m0, list.subrange(0, 0).to_set(), list.subrange(0, list.len() as int)) by {
            assert(list.subrange(0, 0).to_set() =~= Set::<int>::empty());
            assert(list.subrange(0, list.len() as int) =~= list);
        }
        let mut k: usize = 0;
        while k < order.len()
            invariant
                self.wf(),
                self.file_nodes.root_view() == old(self).file_nodes.root_view(),
                self.file_nodes.slots() == old(self).file_nodes.slots(),
                self.errors == old(self).errors,
                list == ids_of(order@),
                k <= order@.len(),
                m1.dom() == m0.dom(),
                forall|x: int| #[trigger] m1.dom().contains(x) && m1[x].name_view() != m0[x].name_view() ==> false,
                forall|x: int| #[trigger] self.nodes().dom().contains(x) <==> m1.dom().contains(x) && !list.subrange(0, k as int).contains(x),
                forall|x: int| #[trigger] self.nodes().dom().contains(x) ==> self.nodes()[x] == m1[x],
                forall|name: Seq<char>| #[trigger] ids_after_removals(ids_for(p0, name), name, m0, Set::empty(), list)
                    == ids_after_removals(ids_for(self.name_index.pairs(), name), name, m0, list.subrange(0, k as int).to_set(), list.subrange(k as int, list.len() as int)),
            decreases order@.len() - k,
        {
            let r = order[k];
            let ghost cur = self.nodes();
            let ghost pairs = self.name_index.pairs();
            let ghost gone = list.subrange(0, k as int).to_set();
            let ghost rest = list.subrange(k as int, list.len() as int);
            proof {
                assert(rest[0] == r.raw() as int);
                assert(rest.drop_first() =~= list.subrange(k + 1, list.len() as int));
                assert(list.subrange(0, k + 1).to_set() =~= gone.insert(r.raw() as int)) by {
                    assert(list.subrange(0, k + 1) =~= list.subrange(0, k as int).push(r.raw() as int));
                    list.subrange(0, k as int).lemma_push_to_set_commute(r.raw() as int);
                }
                assert(list.subrange(0, k as int).contains(r.raw() as int) == gone.contains(r.raw() as int));
            }
            match self.file_nodes.take(r) {
                Some(node) => {
                    proof {
                        assert(m1[r.raw() as int].name_view() == m0[r.raw() as int].name_view());
                    }
                    self.name_index.remove_index(node.name(), r);
                },
                None => {},
            }
            proof {
                let before = list.subrange(0, k as int);
                let after = list.subrange(0, k + 1);
                assert(after =~= before.push(r.raw() as int));
                assert forall|x: int| #[trigger] self.nodes().dom().contains(x) <==> m1.dom().contains(x) && !after.contains(x) by {
                    if before.contains(x) {
                        let j = choose|j: int| 0 <= j < before.len() && before[j] == x;
                        assert(after[j] == x);
                    }
                    if x == r.raw() as int {
                        assert(after[k as int] == x);
                    }
                    if after.contains(x) && x != r.raw() as int {
                        let j = choose|j: int| 0 <= j < after.len() && after[j] == x;
                        assert(before[j] == x);
                    }
                }
            }
            k = k + 1;
        }
        proof {
            assert(list.subrange(k as int, list.len() as int).len() == 0);
            assert(list.subrange(0, k as int) =~= list);
            let p = parent_of(m0[id.raw() as int]);
            assert forall|x: int| #[trigger] self.nodes().dom().contains(x) && p != Some(x) implies self.nodes()[x] == m0[x] by {
                assert(self.nodes()[x] == m1[x]);
            }
        }
    }

    /// The node of an absolute path (see `FileNodes::node_index_for_path`).
    pub fn node_index_for_path(&self, path: &str) -> (r: Option<SlabIndex>)
        requires
            self.wf(),
        ensures
            match lookup_spec(self.nodes(), self.file_nodes.root_view(), path_components(path@)) {
                Some(x) => r matches Some(s) && s.raw() == x,
                None => r is None,
            },
    {
        self.file_nodes.node_index_for_path(path)
    }

    /// The node of a path: by tree lookup when case matters; otherwise the
    /// first node, by slot number, whose full path equals `path` ignoring
    /// ASCII case.
    pub fn node_id_for_path(&self, path: &str, case_sensitive: bool) -> (r: Option<SlabIndex>)
        requires
            self.wf(),
        ensures
            case_sensitive ==> match lookup_spec(self.nodes(), self.file_nodes.root_view(), path_components(path@)) {
                Some(x) => r matches Some(s) && s.raw() == x,
                None => r is None,
            },
            !case_sensitive ==> match r {
                Some(s) => self.nodes().dom().contains(s.raw() as int)
                    && path_matches_ci(self.nodes(), self.file_nodes.count(), s.raw() as int, path@)
                    && forall|j: int| 0 <= j < s.raw() && #[trigger] self.nodes().dom().contains(j)
                        ==> !path_matches_ci(self.nodes(), self.file_nodes.count(), j, path@),
                None => forall|j: int| #[trigger] self.nodes().dom().contains(j)
                    ==> !path_matches_ci(self.nodes(), self.file_nodes.count(), j, path@),
            },
    {
        if case_sensitive {
            return self.node_index_for_path(path);
        }
        let ghost m = self.nodes();
        let ghost count = self.file_nodes.count();
        let want = lower_chars(&chars_of(path));
        let items = self.file_nodes.slab().items();
        let mut k: usize = 0;
        while k < items.len()
            invariant
                self.wf(),
                !case_sensitive,
                m == self.nodes(),
                count == self.file_nodes.count(),
                want@ == lower_seq(path@),
                k <= items@.len(),
                forall|a: int| 0 <= a < items@.len() ==> m.dom().contains(#[trigger] items@[a].0 as int)
                    && *items@[a].1 == m[items@[a].0 as int],
                forall|a: int, b: int| 0 <= a < b < items@.len() ==> items@[a].0 < items@[b].0,
                forall|i: int| #[trigger] m.dom().contains(i) ==> listed(items@, i),
                forall|a: int| 0 <= a < items@.len() ==> #[trigger] items@[a].0 < u32::MAX,
                forall|a: int| 0 <= a < k ==> !path_matches_ci(m, count, #[trigger] items@[a].0 as int, path@),
            decreases items@.len() - k,
        {
            let (slot, _node) = items[k];
            let id = SlabIndex::new(slot);
            match self.file_nodes.node_path(id) {
                Some(p) => {
                    let got = lower_chars(&chars_of(p.as_str()));
                    if chars_eq(&got, &want) {
                        proof {
                            assert forall|j: int| 0 <= j < slot && #[trigger] m.dom().contains(j)
                                implies !path_matches_ci(m, count, j, path@) by {
                                assert(listed(items@, j));
                                let a = choose|a: int| 0 <= a < items@.len() && items@[a].0 == j;
                                if a >= k {
                                    if a > k {
                                        assert(items@[k as int].0 < items@[a].0);
                                    }
                                }
                            }
                        }
                        return Some(id);
                    }
                },
                None => {},
            }
            k = k + 1;
        }
        proof {
            assert forall|j: int| #[trigger] m.dom().contains(j) implies !path_matches_ci(m, count, j, path@) by {
                assert(listed(items@, j));
                let a = choose|a: int| 0 <= a < items@.len() && items@[a].0 == j;
            }
        }
        None
    }

    /// The regular files.
    pub fn file_ids(&self) -> (r: BTreeSet<u32>)
        requires
            self.wf(),
        ensures
            r@ == Set::new(|x: u32| self.nodes().dom().contains(x as int) && node_is_file(self.nodes()[x as int])),
    {
        self.ids_where(0, &Vec::new())
    }

    /// The directories.
    pub fn directory_ids(&self) -> (r: BTreeSet<u32>)
        requires
            self.wf(),
        ensures
            r@ == Set::new(|x: u32| self.nodes().dom().contains(x as int) && node_is_dir(self.nodes()[x as int])),
    {
        self.ids_where(1, &Vec::new())
    }

    /// The files with an extension, ignoring ASCII case.
    pub fn indices_for_extension(&self, extension: &str) -> (r: BTreeSet<u32>)
        requires
            self.wf(),
        ensures
            r@ == Set::new(|x: u32| self.nodes().dom().contains(x as int) && node_has_extension(self.nodes()[x as int], extension@)),
    {
        let ext = chars_of(extension);
        self.ids_where(2, &ext)
    }

    /// The nodes that are files (`sel` 0), directories (1), or files with
    /// extension `ext` (2).
    fn ids_where(&self, sel: u8, ext: &Vec<char>) -> (r: BTreeSet<u32>)
        requires
            self.wf(),
            sel <= 2,
        ensures
            r@ == Set::new(|x: u32| self.nodes().dom().contains(x as int) && selects(sel, ext@, self.nodes()[x as int])),
    {
        let ghost m = self.nodes();
        let want = lower_chars(ext);
        let items = self.file_nodes.slab().items();
        let mut out: BTreeSet<u32> = BTreeSet::new();
        let mut k: usize = 0;
        while k < items.len()
            invariant
                self.wf(),
                m == self.nodes(),
                want@ == lower_seq(ext@),
                k <= items@.len(),
                forall|a: int| 0 <= a < items@.len() ==> m.dom().contains(#[trigger] items@[a].0 as int)
                    && *items@[a].1 == m[items@[a].0 as int],
                forall|i: int| #[trigger] m.dom().contains(i) ==> listed(items@, i),
                forall|a: int| 0 <= a < items@.len() ==> #[trigger] items@[a].0 < u32::MAX,
                out@ == Set::new(|x: u32| exists|a: int| 0 <= a < k && items@[a].0 == x as usize
                    && selects(sel, ext@, m[x as int])),
            decreases items@.len() - k,
        {
            let (slot, node) = items[k];
            let hit = if sel == 0 {
                node.is_file()
            } else if sel == 1 {
                node.is_dir()
            } else {
                node.is_file() && match node.extension() {
                    Some(e) => chars_eq(&chars_of(e.as_str()), &want),
                    None => false,
                }
            };
            let ghost before = out@;
            if hit {
                out.insert(slot as u32);
            }
            proof {
                assert(hit == selects(sel, ext@, m[slot as int]));
                assert(out@ =~= Set::new(|x: u32| exists|a: int| 0 <= a < k + 1 && items@[a].0 == x as usize
                    && selects(sel, ext@, m[x as int]))) by {
                    assert forall|x: u32| out@.contains(x) implies exists|a: int| 0 <= a < k + 1 && items@[a].0 == x as usize
                        && selects(sel, ext@, m[x as int]) by {
                        if x == slot as u32 && hit {
                            assert(items@[k as int].0 == x as usize);
                        } else {
                            assert(before.contains(x));
                        }
                    }
                    assert forall|x: u32| (exists|a: int| 0 <= a < k + 1 && items@[a].0 == x as usize
                        && selects(sel, ext@, m[x as int])) implies out@.contains(x) by {
                        let a = choose|a: int| 0 <= a < k + 1 && items@[a].0 == x as usize && selects(sel, ext@, m[x as int]);
                        if a < k {
                            assert(before.contains(x));
                        } else {
                            assert(x == slot as u32);
                        }
                    }
                }
            }
            k = k + 1;
        }
        proof {
            assert(out@ =~= Set::new(|x: u32| m.dom().contains(x as int) && selects(sel, ext@, m[x as int]))) by {
                assert forall|x: u32| #[trigger] out@.contains(x) implies m.dom().contains(x as int) && selects(sel, ext@, m[x as int]) by {
                    let a = choose|a: int| 0 <= a < k && items@[a].0 == x as usize && selects(sel, ext@, m[x as int]);
                    assert(m.dom().contains(items@[a].0 as int));
                }
                assert forall|x: u32| m.dom().contains(x as int) && selects(sel, ext@, m[x as int]) implies #[trigger] out@.contains(x) by {
                    assert(listed(items@, x as int));
                    let a = choose|a: int| 0 <= a < items@.len() && items@[a].0 == x as int;
                    assert(items@[a].0 == x as usize);
                }
            }
        }
        out
    }

    /// The indices of the nodes named `name`, if any.
    pub fn indices_for_name(&self, name: &str) -> (r: Option<&SortedSlabIndices>)
        requires
            self.wf(),
        ensures
            match ids_for(self.name_index.pairs(), name@) {
                Some(ids) => r matches Some(x) && x.items() == ids,
                None => r is None,
            },
    {
        self.name_index.get(name)
    }
}

/// The node `id` has a path equal to `path` ignoring ASCII case.
pub open spec fn path_matches_ci(m: Map<int, SlabNode>, count: nat, id: int, path: Seq<char>) -> bool {
    path_of(m, count, id) matches Some(p) && lower_seq(p) == lower_seq(path)
}

/// The selection `sel` of `ids_where` holds of a node.
pub open spec fn selects(sel: u8, ext: Seq<char>, n: SlabNode) -> bool {
    if sel == 0 {
        node_is_file(n)
    } else if sel == 1 {
        node_is_dir(n)
    } else {
        node_has_extension(n, ext)
    }
}

} // verus!
