//! Properties of a node derived by walking up its parent chain: its path,
//! its depth, and whether it lies in a hidden directory.

use vstd::prelude::*;
use crate::index::file_nodes::{build_path, chain_names, chain_strict, join_up, parent_of, path_or_root, strs_of};
use crate::storage::index_types::SlabIndex;
use crate::storage::node::SlabNode;
use crate::storage::slab::ThinSlab;

verus! {

/// A node's name starts with `.`.
pub open spec fn hidden_name(n: SlabNode) -> bool {
    n.name_view().len() > 0 && n.name_view()[0] == '.'
}

/// Walking up from `id`: `Some(true)` at the first hidden node, `Some(false)`
/// at a node without a parent, `None` at a missing node or after `fuel`
/// nodes.
pub open spec fn hidden_up(m: Map<int, SlabNode>, id: int, fuel: nat) -> Option<bool>
    decreases fuel,
{
    if !m.dom().contains(id) || fuel == 0 {
        None
    } else if hidden_name(m[id]) {
        Some(true)
    } else {
        match parent_of(m[id]) {
            None => Some(false),
            Some(p) => hidden_up(m, p, (fuel - 1) as nat),
        }
    }
}

/// Like `hidden_up`, looking at `id` and at most `levels` ancestors.
pub open spec fn hidden_within(m: Map<int, SlabNode>, id: int, levels: int) -> Option<bool>
    decreases levels + 1,
{
    if levels < 0 {
        Some(false)
    } else if !m.dom().contains(id) {
        None
    } else if hidden_name(m[id]) {
        Some(true)
    } else {
        match parent_of(m[id]) {
            None => Some(false),
            Some(p) => hidden_within(m, p, levels - 1),
        }
    }
}

/// A node of a slab, seen through its parent chain.
pub struct NodeView<'a> {
    slab: &'a ThinSlab<SlabNode>,
    index: SlabIndex,
}

impl<'a> NodeView<'a> {
    /// The slab.
    pub closed spec fn slab_view(&self) -> ThinSlab<SlabNode> {
        *self.slab
    }

    /// The node's index.
    pub closed spec fn index_view(&self) -> SlabIndex {
        self.index
    }

    /// The strict chain of the node, bounded by the slab's count.
    pub open spec fn chain(&self) -> Option<Seq<int>> {
        chain_strict(self.slab_view().view(), self.index_view().raw() as int, self.slab_view().count())
    }

    /// A view of the node at `index`.
    pub fn new(slab: &'a ThinSlab<SlabNode>, index: SlabIndex) -> (r: Self)
        ensures
            r.slab_view() == *slab,
            r.index_view() == index,
    {
        NodeView { slab, index }
    }

    /// The names from the node up to a node without a parent; none when a
    /// node on the way is missing.
    fn names_up(&self) -> (r: Option<Vec<&'a str>>)
        requires
            self.slab_view().wf(),
        ensures
            match self.chain() {
                Some(c) => r matches Some(v) && strs_of(v@) == chain_names(self.slab_view().view(), c),
                None => r is None,
            },
    {
        let ghost m = self.slab.view();
        let ghost total = self.slab.count();
        let mut names: Vec<&'a str> = Vec::new();
        let ghost mut acc: Seq<int> = Seq::empty();
        let mut cur = self.index;
        let mut left = self.slab.len();
        loop
            invariant
                self.slab_view().wf(),
                m == self.slab_view().view(),
                total == self.slab_view().count(),
                strs_of(names@) == chain_names(m, acc),
                names@.len() == acc.len(),
                chain_strict(m, self.index_view().raw() as int, total) == prefixed_strict(acc, chain_strict(m, cur.raw() as int, left as nat)),
            decreases left,
        {
            let node = match self.slab.get(cur) {
                None => return None,
                Some(n) => n,
            };
            if left == 0 {
                return None;
            }
            let ghost before = acc;
            names.push(node.name());
            proof {
                acc = acc.push(cur.raw() as int);
                assert forall|k: int| 0 <= k < acc.len() implies #[trigger] strs_of(names@)[k] == chain_names(m, acc)[k] by {
                    if k < before.len() {
                        assert(strs_of(names@)[k] == names@[k]@);
                        assert(chain_names(m, before)[k] == m[before[k]].name_view());
                    }
                }
                assert(strs_of(names@) =~= chain_names(m, acc));
            }
            match node.parent() {
                None => {
                    assert(chain_strict(m, cur.raw() as int, left as nat) == Some(seq![cur.raw() as int]));
                    assert(before + seq![cur.raw() as int] =~= acc);
                    return Some(names);
                },
                Some(p) => {
                    proof {
                        if let Some(s) = chain_strict(m, p.raw() as int, (left - 1) as nat) {
                            assert(before + (seq![cur.raw() as int] + s) =~= acc + s);
                        }
                    }
                    cur = p;
                    left = left - 1;
                },
            }
        }
    }

    /// The absolute path: the names from the topmost node down, each after a
    /// `/` (the root name `/` adds nothing), `/` when none is left; none
    /// when a node on the way up is missing.
    pub fn compute_path(&self, root_path: &str) -> (r: Option<String>)
        requires
            self.slab_view().wf(),
        ensures
            match self.chain() {
                Some(c) => r matches Some(t) && t@ == path_or_root(join_up(chain_names(self.slab_view().view(), c), false)),
                None => r is None,
            },
    {
        match self.names_up() {
            None => None,
            Some(names) => Some(build_path(&names, false)),
        }
    }

    /// The number of ancestors (0 for a node without a parent); none when a
    /// node on the way up is missing.
    pub fn compute_depth(&self) -> (r: Option<usize>)
        requires
            self.slab_view().wf(),
        ensures
            match self.chain() {
                Some(c) => r == Some((c.len() - 1) as usize),
                None => r is None,
            },
    {
        match self.names_up() {
            None => None,
            Some(names) => {
                proof {
                    let c = self.chain()->0;
                    assert(chain_names(self.slab_view().view(), c).len() == c.len());
                    lemma_chain_nonempty(self.slab_view().view(), self.index_view().raw() as int, self.slab_view().count());
                }
                Some(names.len() - 1)
            },
        }
    }

    /// Whether the node or one of its first `max_depth` ancestors is hidden;
    /// none when a node on the way is missing.
    pub fn is_hidden_within_depth(&self, max_depth: usize) -> (r: Option<bool>)
        requires
            self.slab_view().wf(),
        ensures
            r == hidden_within(self.slab_view().view(), self.index_view().raw() as int, max_depth as int),
    {
        let ghost m = self.slab.view();
        let mut cur = self.index;
        let mut depth: usize = 0;
        loop
            invariant
                self.slab_view().wf(),
                m == self.slab_view().view(),
                depth <= max_depth + 1,
                hidden_within(m, self.index_view().raw() as int, max_depth as int)
                    == hidden_within(m, cur.raw() as int, max_depth - depth),
            decreases max_depth + 1 - depth,
        {
            if depth > max_depth {
                return Some(false);
            }
            let node = match self.slab.get(cur) {
                None => return None,
                Some(n) => n,
            };
            if node.is_hidden() {
                return Some(true);
            }
            match node.parent() {
                None => return Some(false),
                Some(p) => {
                    if depth == max_depth {
                        assert(hidden_within(m, p.raw() as int, -1) == Some(false));
                        assert(hidden_within(m, cur.raw() as int, 0) == hidden_within(m, p.raw() as int, -1));
                        return Some(false);
                    }
                    cur = p;
                    depth = depth + 1;
                },
            }
        }
    }

    /// Whether the node or any ancestor is hidden; none when a node on the
    /// way up is missing before a hidden one is met.
    pub fn is_hidden_recursive(&self) -> (r: Option<bool>)
        requires
            self.slab_view().wf(),
        ensures
            r == hidden_up(self.slab_view().view(), self.index_view().raw() as int, self.slab_view().count()),
    {
        let ghost m = self.slab.view();
        let ghost total = self.slab.count();
        let mut cur = self.index;
        let mut left = self.slab.len();
        loop
            invariant
                self.slab_view().wf(),
                m == self.slab_view().view(),
                total == self.slab_view().count(),
                hidden_up(m, self.index_view().raw() as int, total) == hidden_up(m, cur.raw() as int, left as nat),
            decreases left,
        {
            let node = match self.slab.get(cur) {
                None => return None,
                Some(n) => n,
            };
            if left == 0 {
                return None;
            }
            if node.is_hidden() {
                return Some(true);
            }
            match node.parent() {
                None => return Some(false),
                Some(p) => {
                    cur = p;
                    left = left - 1;
                },
            }
        }
    }
}

/// A strict chain result with `acc` put in front.
pub open spec fn prefixed_strict(acc: Seq<int>, o: Option<Seq<int>>) -> Option<Seq<int>> {
    match o {
        Some(s) => Some(acc + s),
        None => None,
    }
}

/// A strict chain, when there is one, starts at its node.
pub proof fn lemma_chain_nonempty(m: Map<int, SlabNode>, id: int, fuel: nat)
    ensures
        chain_strict(m, id, fuel) matches Some(c) ==> c.len() >= 1,
    decreases fuel,
{
    if m.dom().contains(id) && fuel > 0 {
        if let Some(p) = parent_of(m[id]) {
            lemma_chain_nonempty(m, p, (fuel - 1) as nat);
        }
    }
}

} // verus!
