//! The node tree of an index: a slab of nodes and the index of its root.
//!
//! Walks up the tree follow parent links and walks down follow child lists.
//! A well-built tree has no cycles, so no walk meets more nodes than the
//! slab holds; each walk is bounded by that count (its "fuel") and the
//! specifications below describe the walks with that bound.

use vstd::prelude::*;
use crate::storage::index_types::{OptionSlabIndex, SlabIndex, thin_get, thin_len};
use crate::index::name_index::{lemma_removed_first, lemma_removed_first_at, removed_first};
use crate::storage::node::{SlabNode, SlabNodeMetadata};
use crate::storage::slab::ThinSlab;
use crate::strings::{chars_eq_str, chars_of, str_views};
use crate::watcher::walker::path_components;

verus! {

/// The parent of a node, as a slot number.
pub open spec fn parent_of(n: SlabNode) -> Option<int> {
    match n.parent_view() {
        Some(p) => Some(p.raw() as int),
        None => None,
    }
}

/// The nodes met walking up from `id` while nodes are present: `id`, its
/// parent, and so on, up to a node without a parent or the last node
/// before a missing one; `None` when more than `fuel` nodes are met.
pub open spec fn chain_up(m: Map<int, SlabNode>, id: int, fuel: nat) -> Option<Seq<int>>
    decreases fuel,
{
    if !m.dom().contains(id) {
        Some(Seq::empty())
    } else if fuel == 0 {
        None
    } else {
        match parent_of(m[id]) {
            None => Some(seq![id]),
            Some(p) => match chain_up(m, p, (fuel - 1) as nat) {
                Some(s) => Some(seq![id] + s),
                None => None,
            },
        }
    }
}

/// The nodes from `id` up to a node without a parent, every one present;
/// `None` when a node on the way is missing or more than `fuel` are met.
pub open spec fn chain_strict(m: Map<int, SlabNode>, id: int, fuel: nat) -> Option<Seq<int>>
    decreases fuel,
{
    if !m.dom().contains(id) || fuel == 0 {
        None
    } else {
        match parent_of(m[id]) {
            None => Some(seq![id]),
            Some(p) => match chain_strict(m, p, (fuel - 1) as nat) {
                Some(s) => Some(seq![id] + s),
                None => None,
            },
        }
    }
}

/// The names of the nodes of a chain, in the chain's order.
pub open spec fn chain_names(m: Map<int, SlabNode>, chain: Seq<int>) -> Seq<Seq<char>> {
    chain.map_values(|i: int| m[i].name_view())
}

/// The text a name adds to a path: nothing for the root name `/` (and,
/// when asked, for an empty name), else a separator and the name.
pub open spec fn segment_text(n: Seq<char>, skip_empty: bool) -> Seq<char> {
    if n == seq!['/'] || (skip_empty && n.len() == 0) {
        Seq::empty()
    } else {
        seq!['/'] + n
    }
}

/// The path of names listed from the deepest up: the topmost name's text
/// first.
pub open spec fn join_up(names: Seq<Seq<char>>, skip_empty: bool) -> Seq<char>
    decreases names.len(),
{
    if names.len() == 0 {
        Seq::empty()
    } else {
        join_up(names.drop_first(), skip_empty) + segment_text(names[0], skip_empty)
    }
}

/// A path text, `/` when empty.
pub open spec fn path_or_root(t: Seq<char>) -> Seq<char> {
    if t.len() == 0 {
        seq!['/']
    } else {
        t
    }
}

/// The first child in `kids` that is present and named `seg`.
pub open spec fn find_child(m: Map<int, SlabNode>, kids: Seq<u32>, seg: Seq<char>) -> Option<int>
    decreases kids.len(),
{
    if kids.len() == 0 {
        None
    } else if m.dom().contains(kids[0] as int) && m[kids[0] as int].name_view() == seg {
        Some(kids[0] as int)
    } else {
        find_child(m, kids.drop_first(), seg)
    }
}

/// The node reached from `cur` by following the named children `segs`.
pub open spec fn descend(m: Map<int, SlabNode>, cur: int, segs: Seq<Seq<char>>) -> Option<int>
    decreases segs.len(),
{
    if segs.len() == 0 {
        Some(cur)
    } else if !m.dom().contains(cur) {
        None
    } else {
        match find_child(m, m[cur].children_view(), segs[0]) {
            None => None,
            Some(c) => descend(m, c, segs.drop_first()),
        }
    }
}

/// The nodes below a list of children, as a last-in first-out walk meets
/// them: the last child, the nodes below it, then the others the same way;
/// the walk goes at most `fuel` levels down.
pub open spec fn subnodes_list(m: Map<int, SlabNode>, kids: Seq<u32>, fuel: nat) -> Seq<int>
    decreases fuel, kids.len(),
{
    if kids.len() == 0 {
        Seq::empty()
    } else {
        let c = kids.last() as int;
        let below = if fuel == 0 || !m.dom().contains(c) {
            Seq::empty()
        } else {
            subnodes_list(m, m[c].children_view(), (fuel - 1) as nat)
        };
        seq![c] + below + subnodes_list(m, kids.drop_last(), fuel)
    }
}

/// The slot numbers of indices, as integers.
pub open spec fn ids_of(v: Seq<SlabIndex>) -> Seq<int> {
    v.map_values(|x: SlabIndex| x.raw() as int)
}

/// `new` is `old` with `child` added to its children (unless there already).
pub open spec fn child_added(old: SlabNode, new: SlabNode, child: u32) -> bool {
    &&& new.children_view() == (if old.children_view().contains(child) {
        old.children_view()
    } else {
        old.children_view().push(child)
    })
    &&& new.name_view() == old.name_view()
    &&& new.parent_view() == old.parent_view()
    &&& new.metadata == old.metadata
}

/// `new` is `old` with the first occurrence of `child` dropped from its
/// children.
pub open spec fn child_dropped(old: SlabNode, new: SlabNode, child: u32) -> bool {
    &&& new.children_view() == removed_first(old.children_view(), child)
    &&& new.name_view() == old.name_view()
    &&& new.parent_view() == old.parent_view()
    &&& new.metadata == old.metadata
}

/// Adds `child` to the children of the node at `parent`; false when no node
/// is there.
pub fn add_child_at(slab: &mut ThinSlab<SlabNode>, parent: SlabIndex, child: SlabIndex) -> (r: bool)
    requires
        old(slab).wf(),
    ensures
        final(slab).wf(),
        final(slab).count() == old(slab).count(),
        final(slab).next_free() == old(slab).next_free(),
        final(slab).slots() == old(slab).slots(),
        r == old(slab).view().dom().contains(parent.raw() as int),
        r ==> final(slab).view() == old(slab).view().insert(parent.raw() as int, final(slab).view()[parent.raw() as int])
            && child_added(old(slab).view()[parent.raw() as int], final(slab).view()[parent.raw() as int], child.raw()),
        !r ==> final(slab).view() == old(slab).view(),
{
    let placeholder = SlabNode::new(None, "", SlabNodeMetadata::default());
    match slab.replace(parent, placeholder) {
        None => false,
        Some(mut node) => {
            node.add_child(child);
            let _ = slab.replace(parent, node);
            proof {
                assert(slab.view() =~= old(slab).view().insert(parent.raw() as int, slab.view()[parent.raw() as int]));
            }
            true
        },
    }
}

/// Drops `child` from the children of the node at `parent`; false when no
/// node is there.
pub fn remove_child_at(slab: &mut ThinSlab<SlabNode>, parent: SlabIndex, child: SlabIndex) -> (r: bool)
    requires
        old(slab).wf(),
    ensures
        final(slab).wf(),
        final(slab).count() == old(slab).count(),
        final(slab).next_free() == old(slab).next_free(),
        final(slab).slots() == old(slab).slots(),
        r == old(slab).view().dom().contains(parent.raw() as int),
        r ==> final(slab).view() == old(slab).view().insert(parent.raw() as int, final(slab).view()[parent.raw() as int])
            && child_dropped(old(slab).view()[parent.raw() as int], final(slab).view()[parent.raw() as int], child.raw()),
        !r ==> final(slab).view() == old(slab).view(),
{
    let placeholder = SlabNode::new(None, "", SlabNodeMetadata::default());
    match slab.replace(parent, placeholder) {
        None => false,
        Some(mut node) => {
            let ghost before = node;
            let found = node.remove_child(child);
            proof {
                if found {
                    let i = choose|i: int| 0 <= i < before.children_view().len()
                        && before.children_view()[i] == child.raw()
                        && node.children_view() == before.children_view().remove(i)
                        && forall|j: int| 0 <= j < i ==> before.children_view()[j] != child.raw();
                    lemma_removed_first_at(before.children_view(), child.raw(), i);
                } else {
                    lemma_removed_first(before.children_view(), child.raw());
                }
            }
            let _ = slab.replace(parent, node);
            proof {
                assert(slab.view() =~= old(slab).view().insert(parent.raw() as int, slab.view()[parent.raw() as int]));
            }
            true
        },
    }
}

/// A node tree held in a slab.
pub struct FileNodes {
    slab: ThinSlab<SlabNode>,
    root: OptionSlabIndex,
}

impl FileNodes {
    /// The nodes by slot number.
    pub closed spec fn nodes(&self) -> Map<int, SlabNode> {
        self.slab.view()
    }

    /// The root index, if any.
    pub closed spec fn root_view(&self) -> Option<SlabIndex> {
        self.root.as_option()
    }

    /// The number of nodes: the bound of every walk.
    pub closed spec fn count(&self) -> nat {
        self.slab.count()
    }

    /// The slab the nodes live in.
    pub closed spec fn slab_view(&self) -> ThinSlab<SlabNode> {
        self.slab
    }

    /// The slab is well formed.
    pub closed spec fn wf(&self) -> bool {
        self.slab.wf()
    }

    /// A tree over a slab of nodes with the given root.
    pub fn new(slab: ThinSlab<SlabNode>, root: SlabIndex) -> (r: Self)
        requires
            slab.wf(),
        ensures
            r.wf(),
            r.slab_view() == slab,
            r.nodes() == slab.view(),
            r.count() == slab.count(),
            r.root_view() == Some(root),
    {
        FileNodes { slab, root: OptionSlabIndex::some(root) }
    }

    /// An empty tree without a root.
    pub fn empty() -> (r: Self)
        ensures
            r.wf(),
            r.nodes() == Map::<int, SlabNode>::empty(),
            r.count() == 0,
            r.root_view() is None,
    {
        FileNodes { slab: ThinSlab::new(), root: OptionSlabIndex::none() }
    }

    /// The slot the next inserted node takes.
    pub closed spec fn next_free(&self) -> usize {
        self.slab.next_free()
    }

    /// The number of slots used so far.
    pub closed spec fn slots(&self) -> nat {
        self.slab.slots()
    }

    /// The number of slots in use or freed so far.
    pub fn slot_count(&self) -> (r: usize)
        ensures
            r == self.slots(),
    {
        self.slab.slot_count()
    }

    /// The next free slot is within the slots used, and so is every node.
    pub proof fn lemma_next_free(&self)
        requires
            self.wf(),
        ensures
            self.next_free() <= self.slots(),
            forall|i: int| #[trigger] self.nodes().dom().contains(i) ==> 0 <= i < self.slots(),
    {
        self.slab.lemma_next_free();
    }

    /// Adds `child` to the children of the node at `parent`; false when no
    /// node is there.
    pub fn attach_child(&mut self, parent: SlabIndex, child: SlabIndex) -> (r: bool)
        requires
            old(self).wf(),
        ensures
            final(self).wf(),
            final(self).count() == old(self).count(),
            final(self).next_free() == old(self).next_free(),
            final(self).slots() == old(self).slots(),
            final(self).root_view() == old(self).root_view(),
            r == old(self).nodes().dom().contains(parent.raw() as int),
            r ==> final(self).nodes() == old(self).nodes().insert(parent.raw() as int, final(self).nodes()[parent.raw() as int])
                && child_added(old(self).nodes()[parent.raw() as int], final(self).nodes()[parent.raw() as int], child.raw()),
            !r ==> final(self).nodes() == old(self).nodes(),
    {
        add_child_at(&mut self.slab, parent, child)
    }

    /// Drops `child` from the children of the node at `parent`; false when
    /// no node is there.
    pub fn detach_child(&mut self, parent: SlabIndex, child: SlabIndex) -> (r: bool)
        requires
            old(self).wf(),
        ensures
            final(self).wf(),
            final(self).count() == old(self).count(),
            final(self).next_free() == old(self).next_free(),
            final(self).slots() == old(self).slots(),
            final(self).root_view() == old(self).root_view(),
            r == old(self).nodes().dom().contains(parent.raw() as int),
            r ==> final(self).nodes() == old(self).nodes().insert(parent.raw() as int, final(self).nodes()[parent.raw() as int])
                && child_dropped(old(self).nodes()[parent.raw() as int], final(self).nodes()[parent.raw() as int], child.raw()),
            !r ==> final(self).nodes() == old(self).nodes(),
    {
        remove_child_at(&mut self.slab, parent, child)
    }

    /// Removes the node at an index, if any; its slot is the next one reused.
    pub fn take(&mut self, index: SlabIndex) -> (r: Option<SlabNode>)
        requires
            old(self).wf(),
        ensures
            final(self).wf(),
            final(self).slots() == old(self).slots(),
            final(self).root_view() == old(self).root_view(),
            match r {
                Some(n) => old(self).nodes().dom().contains(index.raw() as int) && n == old(self).nodes()[index.raw() as int]
                    && final(self).nodes() == old(self).nodes().remove(index.raw() as int)
                    && final(self).next_free() == index.raw()
                    && final(self).count() + 1 == old(self).count(),
                None => !old(self).nodes().dom().contains(index.raw() as int) && final(self).nodes() == old(self).nodes()
                    && final(self).next_free() == old(self).next_free()
                    && final(self).count() == old(self).count(),
            },
    {
        self.slab.try_remove(index)
    }

    /// Inserts a node in the next free slot, returning its index.
    pub fn insert_node(&mut self, node: SlabNode) -> (r: SlabIndex)
        requires
            old(self).wf(),
            old(self).next_free() < u32::MAX,
        ensures
            final(self).wf(),
            final(self).root_view() == old(self).root_view(),
            r.raw() == old(self).next_free(),
            !old(self).nodes().dom().contains(r.raw() as int),
            final(self).nodes() == old(self).nodes().insert(r.raw() as int, node),
            final(self).count() == old(self).count() + 1,
            final(self).slots() <= old(self).slots() + 1,
    {
        self.slab.insert(node)
    }

    /// The root index, if any.
    pub fn root(&self) -> (r: Option<SlabIndex>)
        ensures
            r == self.root_view(),
    {
        self.root.to_option()
    }

    /// Whether the tree has a root.
    pub fn has_root(&self) -> (r: bool)
        ensures
            r == self.root_view() is Some,
    {
        self.root.to_option().is_some()
    }

    /// The node at an index, if present.
    pub fn get(&self, index: SlabIndex) -> (r: Option<&SlabNode>)
        requires
            self.wf(),
        ensures
            match r {
                Some(n) => self.nodes().dom().contains(index.raw() as int) && *n == self.nodes()[index.raw() as int],
                None => !self.nodes().dom().contains(index.raw() as int),
            },
    {
        self.slab.get(index)
    }

    /// The node with slot number `x`, if present.
    pub fn get_raw(&self, x: u32) -> (r: Option<&SlabNode>)
        requires
            self.wf(),
        ensures
            match r {
                Some(n) => self.nodes().dom().contains(x as int) && *n == self.nodes()[x as int],
                None => !self.nodes().dom().contains(x as int),
            },
    {
        if x == u32::MAX {
            proof {
                self.slab.lemma_bounded();
            }
            None
        } else {
            self.slab.get(SlabIndex::new(x as usize))
        }
    }

    /// The slab of nodes.
    pub fn slab(&self) -> (r: &ThinSlab<SlabNode>)
        requires
            self.wf(),
        ensures
            *r == self.slab_view(),
            r.wf(),
            r.view() == self.nodes(),
            r.count() == self.count(),
    {
        &self.slab
    }

    /// Gives the slab up for changes, with the root kept.
    pub fn into_parts(self) -> (r: (ThinSlab<SlabNode>, Option<SlabIndex>))
        ensures
            r.0 == self.slab_view(),
            r.1 == self.root_view(),
    {
        (self.slab, self.root.to_option())
    }

    /// Returns the number of nodes.
    pub fn len(&self) -> (r: usize)
        ensures
            r == self.count(),
    {
        self.slab.len()
    }

    /// Returns true if the tree holds no node.
    pub fn is_empty(&self) -> (r: bool)
        ensures
            r == (self.count() == 0),
    {
        self.slab.is_empty()
    }

    /// The full path of a node: the names from the topmost node reached down
    /// to it, each after a `/` (the root name `/` and empty names add
    /// nothing), `/` when all are skipped; none when the node is missing.
    pub fn node_path(&self, index: SlabIndex) -> (r: Option<String>)
        requires
            self.wf(),
        ensures
            r matches Some(t) ==> chain_up(self.nodes(), index.raw() as int, self.count()) matches Some(c)
                && c.len() > 0 && t@ == path_or_root(join_up(chain_names(self.nodes(), c), true)),
            r is None ==> !(chain_up(self.nodes(), index.raw() as int, self.count()) matches Some(c) && c.len() > 0),
    {
        match self.walk_up(index) {
            None => None,
            Some(names) => {
                proof {
                    if let Some(c) = chain_up(self.nodes(), index.raw() as int, self.count()) {
                        assert(strs_of(names@).len() == names@.len());
                        assert(chain_names(self.nodes(), c).len() == c.len());
                    }
                }
                if names.len() == 0 {
                    None
                } else {
                    Some(build_path(&names, true))
                }
            },
        }
    }

    /// The names met walking up from `index` while nodes are present.
    fn walk_up(&self, index: SlabIndex) -> (r: Option<Vec<&str>>)
        requires
            self.wf(),
        ensures
            match chain_up(self.nodes(), index.raw() as int, self.count()) {
                Some(c) => r matches Some(v) && strs_of(v@) == chain_names(self.nodes(), c),
                None => r is None,
            },
    {
        let ghost m = self.nodes();
        let ghost total = self.count();
        let mut names: Vec<&str> = Vec::new();
        let ghost mut acc: Seq<int> = Seq::empty();
        let mut cur = index;
        let mut left = self.slab.len();
        let mut done = false;
        let mut exhausted = false;
        while !done
            invariant
                self.wf(),
                m == self.nodes(),
                total == self.count(),
                strs_of(names@) == chain_names(m, acc),
                names@.len() == acc.len(),
                exhausted ==> done,
                !done ==> chain_up(m, index.raw() as int, total) == prefixed(acc, chain_up(m, cur.raw() as int, left as nat)),
                done ==> chain_up(m, index.raw() as int, total) == (if exhausted { None } else { Some(acc) }),
            decreases left + (if done { 0int } else { 1int }),
        {
            match self.slab.get(cur) {
                None => {
                    done = true;
                    assert(chain_up(m, cur.raw() as int, left as nat) == Some(Seq::<int>::empty()));
                    assert(acc + Seq::<int>::empty() =~= acc);
                },
                Some(node) => {
                    if left == 0 {
                        done = true;
                        exhausted = true;
                        assert(chain_up(m, cur.raw() as int, left as nat) is None);
                    } else {
                        let ghost before = acc;
                        names.push(node.name());
                        proof {
                            acc = acc.push(cur.raw() as int);
                            assert(node.name_view() == m[cur.raw() as int].name_view());
                            assert forall|k: int| 0 <= k < acc.len() implies #[trigger] strs_of(names@)[k] == chain_names(m, acc)[k] by {
                                if k < before.len() {
                                    assert(strs_of(names@)[k] == names@[k]@);
                                    assert(chain_names(m, acc)[k] == m[acc[k]].name_view());
                                    assert(chain_names(m, before)[k] == m[before[k]].name_view());
                                }
                            }
                            assert(strs_of(names@) =~= chain_names(m, acc));
                        }
                        match node.parent() {
                            None => {
                                done = true;
                                assert(chain_up(m, cur.raw() as int, left as nat) == Some(seq![cur.raw() as int]));
                                assert(before + seq![cur.raw() as int] =~= acc);
                            },
                            Some(p) => {
                                proof {
                                    assert(before + (seq![cur.raw() as int] + chain_up(m, p.raw() as int, (left - 1) as nat)->0)
                                        =~= acc + chain_up(m, p.raw() as int, (left - 1) as nat)->0);
                                }
                                cur = p;
                                left = left - 1;
                            },
                        }
                    }
                },
            }
        }
        if exhausted {
            None
        } else {
            Some(names)
        }
    }

    /// Locates the node of an absolute path: from the root, each component
    /// picks the first present child of that name; none for a relative path,
    /// without a root, or when a component has no such child.
    pub fn node_index_for_path(&self, path: &str) -> (r: Option<SlabIndex>)
        requires
            self.wf(),
        ensures
            match lookup_spec(self.nodes(), self.root_view(), path_components(path@)) {
                Some(x) => r matches Some(s) && s.raw() == x,
                None => r is None,
            },
    {
        let comps = crate::watcher::walker::components_of(path);
        if comps.len() == 0 {
            return None;
        }
        let first = chars_of(comps[0].as_str());
        if !(first.len() == 1 && first[0] == '/') {
            proof {
                assert(str_views(comps@)[0] == first@);
                assert(first@ != seq!['/']);
            }
            return None;
        }
        proof {
            assert(str_views(comps@)[0] == first@);
            assert(first@ =~= seq!['/']);
        }
        let root = match self.root.to_option() {
            None => return None,
            Some(r) => r,
        };
        let ghost m = self.nodes();
        let ghost segs = str_views(comps@).drop_first();
        let mut cur = root;
        let mut i: usize = 1;
        assert(segs.len() == comps@.len() - 1);
        assert(segs.subrange(0, segs.len() as int) =~= segs);
        while i < comps.len()
            invariant
                self.wf(),
                m == self.nodes(),
                1 <= i <= comps@.len(),
                segs == str_views(comps@).drop_first(),
                str_views(comps@) == path_components(path@),
                str_views(comps@)[0] == seq!['/'],
                self.root_view() == Some(root),
                descend(m, root.raw() as int, segs) == descend(m, cur.raw() as int, segs.subrange(i - 1, segs.len() as int)),
            decreases comps@.len() - i,
        {
            let ghost rest = segs.subrange(i - 1, segs.len() as int);
            assert(segs.len() == comps@.len() - 1);
            assert(rest.len() > 0);
            assert(rest[0] == comps@[i as int]@);
            assert(rest.drop_first() =~= segs.subrange(i as int, segs.len() as int));
            let node = match self.slab.get(cur) {
                None => {
                    assert(descend(m, cur.raw() as int, rest) is None);
                    return None;
                },
                Some(n) => n,
            };
            match self.find_child_named(node, comps[i].as_str()) {
                None => {
                    assert(find_child(m, m[cur.raw() as int].children_view(), rest[0]) is None);
                    assert(descend(m, cur.raw() as int, rest) is None);
                    return None;
                },
                Some(c) => {
                    cur = c;
                },
            }
            i = i + 1;
        }
        assert(segs.subrange(comps@.len() - 1, segs.len() as int) =~= Seq::<Seq<char>>::empty());
        Some(cur)
    }

    /// The first present child of `node` named `seg`.
    fn find_child_named(&self, node: &SlabNode, seg: &str) -> (r: Option<SlabIndex>)
        requires
            self.wf(),
        ensures
            match find_child(self.nodes(), node.children_view(), seg@) {
                Some(c) => r matches Some(x) && x.raw() == c,
                None => r is None,
            },
    {
        let ghost m = self.nodes();
        let ghost kids = node.children_view();
        let n = thin_len(&node.children);
        let mut i: usize = 0;
        assert(kids.subrange(0, n as int) =~= kids);
        while i < n
            invariant
                self.wf(),
                m == self.nodes(),
                kids == node.children_view(),
                n == kids.len(),
                i <= n,
                find_child(m, kids, seg@) == find_child(m, kids.subrange(i as int, n as int), seg@),
            decreases n - i,
        {
            let c = thin_get(&node.children, i);
            assert(kids.subrange(i as int, n as int).drop_first() =~= kids.subrange(i + 1, n as int));
            match self.slab.get(c) {
                Some(child) => {
                    if chars_eq_str(&chars_of(child.name()), seg) {
                        return Some(c);
                    }
                },
                None => {},
            }
            i = i + 1;
        }
        None
    }

    /// All nodes below `index` (children, grandchildren, ...), as a
    /// last-in first-out walk meets them.
    pub fn all_subnodes(&self, index: SlabIndex) -> (r: Vec<SlabIndex>)
        requires
            self.wf(),
        ensures
            ids_of(r@) == (if self.nodes().dom().contains(index.raw() as int) {
                subnodes_list(self.nodes(), self.nodes()[index.raw() as int].children_view(), self.count())
            } else {
                Seq::empty()
            }),
    {
        let mut out: Vec<SlabIndex> = Vec::new();
        match self.slab.get(index) {
            None => {},
            Some(node) => {
                self.push_subnodes(node, self.slab.len(), &mut out);
                assert(ids_of(out@) =~= Seq::<int>::empty() + subnodes_list(self.nodes(), node.children_view(), self.count()));
            },
        }
        assert(ids_of(out@) =~= ids_of(out@));
        out
    }

    /// Appends the nodes below `node`, at most `fuel` levels down.
    pub fn push_subnodes(&self, node: &SlabNode, fuel: usize, out: &mut Vec<SlabIndex>)
        requires
            self.wf(),
        ensures
            ids_of(final(out)@) == ids_of(old(out)@) + subnodes_list(self.nodes(), node.children_view(), fuel as nat),
        decreases fuel,
    {
        let ghost m = self.nodes();
        let ghost kids = node.children_view();
        let ghost start = ids_of(out@);
        let n = thin_len(&node.children);
        let mut i: usize = n;
        assert(kids.subrange(0, n as int) =~= kids);
        while i > 0
            invariant
                self.wf(),
                m == self.nodes(),
                kids == node.children_view(),
                n == kids.len(),
                i <= n,
                ids_of(out@) + subnodes_list(m, kids.subrange(0, i as int), fuel as nat) == start + subnodes_list(m, kids, fuel as nat),
            decreases i,
        {
            let c = thin_get(&node.children, i - 1);
            let ghost sub = kids.subrange(0, i as int);
            assert(sub.last() == c.raw());
            assert(sub.drop_last() =~= kids.subrange(0, i - 1));
            let ghost before = ids_of(out@);
            out.push(c);
            assert(ids_of(out@) =~= before + seq![c.raw() as int]);
            let ghost mid = ids_of(out@);
            if fuel > 0 {
                match self.slab.get(c) {
                    Some(child) => {
                        self.push_subnodes(child, fuel - 1, out);
                    },
                    None => {},
                }
            }
            proof {
                let below = if fuel == 0 || !m.dom().contains(c.raw() as int) {
                    Seq::<int>::empty()
                } else {
                    subnodes_list(m, m[c.raw() as int].children_view(), (fuel - 1) as nat)
                };
                assert(ids_of(out@) == mid + below);
                assert(subnodes_list(m, sub, fuel as nat) == seq![c.raw() as int] + below + subnodes_list(m, kids.subrange(0, i - 1), fuel as nat));
                assert(ids_of(out@) + subnodes_list(m, kids.subrange(0, i - 1), fuel as nat)
                    =~= before + subnodes_list(m, sub, fuel as nat));
            }
            i = i - 1;
        }
        assert(kids.subrange(0, 0) =~= Seq::<u32>::empty());
        assert(ids_of(out@) + Seq::<int>::empty() =~= ids_of(out@));
    }
}

/// The texts of string slices.
pub open spec fn strs_of(v: Seq<&str>) -> Seq<Seq<char>> {
    v.map_values(|s: &str| s@)
}

/// A chain result with `acc` put in front.
pub open spec fn prefixed(acc: Seq<int>, o: Option<Seq<int>>) -> Option<Seq<int>> {
    match o {
        Some(s) => Some(acc + s),
        None => None,
    }
}

/// The node of a path given by its components: none unless the path is
/// absolute and the tree has a root; else the root's descent by the other
/// components.
pub open spec fn lookup_spec(m: Map<int, SlabNode>, root: Option<SlabIndex>, comps: Seq<Seq<char>>) -> Option<int> {
    if comps.len() == 0 || comps[0] != seq!['/'] {
        None
    } else {
        match root {
            None => None,
            Some(r) => descend(m, r.raw() as int, comps.drop_first()),
        }
    }
}

/// Builds a path from names listed from the deepest up.
pub fn build_path(names: &Vec<&str>, skip_empty: bool) -> (r: String)
    ensures
        r@ == path_or_root(join_up(strs_of(names@), skip_empty)),
{
    let ghost s = strs_of(names@);
    let mut text = String::new();
    let mut any = false;
    let mut i: usize = names.len();
    assert(s.subrange(names.len() as int, names.len() as int) =~= Seq::<Seq<char>>::empty());
    while i > 0
        invariant
            i <= names@.len(),
            s == strs_of(names@),
            text@ == join_up(s.subrange(i as int, s.len() as int), skip_empty),
            any == (text@.len() > 0),
        decreases i,
    {
        proof {
            reveal_strlit("/");
        }
        let name = names[i - 1];
        let ghost sub = s.subrange(i - 1, s.len() as int);
        assert(sub.drop_first() =~= s.subrange(i as int, s.len() as int));
        assert(sub[0] == name@);
        let v = chars_of(name);
        let is_root = v.len() == 1 && v[0] == '/';
        proof {
            if v.len() == 1 && v[0] == '/' {
                assert(name@ =~= seq!['/']);
            }
            if name@ == seq!['/'] {
                assert(v@.len() == 1 && v@[0] == '/');
            }
        }
        if !(is_root || (skip_empty && v.len() == 0)) {
            text.append("/");
            text.append(name);
            any = true;
            assert(text@ =~= join_up(s.subrange(i as int, s.len() as int), skip_empty) + (seq!['/'] + name@));
        } else {
            assert(segment_text(name@, skip_empty) =~= Seq::<char>::empty());
            assert(text@ =~= join_up(s.subrange(i as int, s.len() as int), skip_empty) + segment_text(name@, skip_empty));
        }
        i = i - 1;
    }
    assert(s.subrange(0, s.len() as int) =~= s);
    if !any {
        proof {
            reveal_strlit("/");
        }
        String::from_str("/")
    } else {
        text
    }
}

} // verus!
