//! Building the slab and the name index from a walked tree.
//!
//! The walk gives a tree whose children are sorted by name; a preorder
//! pass puts each node in the next slot of a fresh slab, so slots follow
//! path order and every name's list of slots stays in path order too.

use vstd::prelude::*;
use crate::index::file_nodes::parent_of;
use crate::index::name_index::{ids_for, NameIndex};
use crate::storage::index_types::SlabIndex;
use crate::storage::node::{SlabNode, SlabNodeMetadata};
use crate::storage::slab::ThinSlab;

verus! {

/// A node of a walked tree.
pub struct Node {
    /// Child nodes, sorted by name.
    pub children: Vec<Node>,
    /// The file name (not the full path).
    pub name: String,
    /// File metadata, when it could be read.
    pub metadata: Option<SlabNodeMetadata>,
}

impl Node {
    /// A node without children.
    pub fn new(name: String, metadata: Option<SlabNodeMetadata>) -> (r: Self)
        ensures
            r.children@.len() == 0,
            r.name@ == name@,
            r.metadata == metadata,
    {
        Node { children: Vec::new(), name, metadata }
    }

    /// A leaf (a file) with metadata.
    pub fn leaf(name: String, metadata: SlabNodeMetadata) -> (r: Self)
        ensures
            r.children@.len() == 0,
            r.name@ == name@,
            r.metadata == Some(metadata),
    {
        Node { children: Vec::new(), name, metadata: Some(metadata) }
    }
}

/// The number of nodes of a tree.
pub open spec fn tree_size(t: Node) -> nat
    decreases t,
{
    1 + forest_size(t.children@)
}

/// The number of nodes of a list of trees.
pub open spec fn forest_size(f: Seq<Node>) -> nat
    decreases f,
{
    if f.len() == 0 {
        0
    } else {
        forest_size(f.drop_last()) + tree_size(f.last())
    }
}

/// Metadata recorded for a node without any: all zero.
pub open spec fn is_blank(x: SlabNodeMetadata) -> bool {
    x.state_type_size.bits() == 0 && x.ctime == 0 && x.mtime == 0
}

/// The slots of a list of trees laid out from `start` in preorder: each
/// tree's root.
pub open spec fn child_slots(f: Seq<Node>, start: int) -> Seq<u32>
    decreases f.len(),
{
    if f.len() == 0 {
        Seq::empty()
    } else {
        child_slots(f.drop_last(), start).push((start + forest_size(f.drop_last())) as u32)
    }
}

/// A tree is laid out in `m` in preorder from `slot`, under `parent`: each
/// node carries its name, its metadata (blank when unknown), its parent and
/// the slots of its children.
pub open spec fn placed(m: Map<int, SlabNode>, t: Node, slot: int, parent: Option<int>) -> bool
    decreases t,
{
    &&& m.dom().contains(slot)
    &&& m[slot].name_view() == t.name@
    &&& parent_of(m[slot]) == parent
    &&& match t.metadata {
        Some(x) => m[slot].metadata == x,
        None => is_blank(m[slot].metadata),
    }
    &&& m[slot].children_view() == child_slots(t.children@, slot + 1)
    &&& placed_list(m, t.children@, slot + 1, slot)
}

/// A list of trees is laid out from `start`, one after the other.
pub open spec fn placed_list(m: Map<int, SlabNode>, f: Seq<Node>, start: int, parent: int) -> bool
    decreases f,
{
    if f.len() == 0 {
        true
    } else {
        placed_list(m, f.drop_last(), start, parent) && placed(m, f.last(), start + forest_size(f.drop_last()), Some(parent))
    }
}

/// The names and slots of a tree laid out from `slot`, in preorder.
pub open spec fn preorder(t: Node, slot: int) -> Seq<(Seq<char>, int)>
    decreases t,
{
    seq![(t.name@, slot)] + preorder_list(t.children@, slot + 1)
}

/// The names and slots of a list of trees laid out from `start`.
pub open spec fn preorder_list(f: Seq<Node>, start: int) -> Seq<(Seq<char>, int)>
    decreases f,
{
    if f.len() == 0 {
        Seq::empty()
    } else {
        preorder_list(f.drop_last(), start) + preorder(f.last(), start + forest_size(f.drop_last()))
    }
}

/// The slots listed with a name, in order.
pub open spec fn named(l: Seq<(Seq<char>, int)>, name: Seq<char>) -> Seq<u32>
    decreases l.len(),
{
    if l.len() == 0 {
        Seq::empty()
    } else {
        named(l.drop_last(), name) + (if l.last().0 == name { seq![l.last().1 as u32] } else { Seq::empty() })
    }
}

/// A name's list with more slots appended (a name without slots stays
/// absent).
pub open spec fn extended(o: Option<Seq<u32>>, extra: Seq<u32>) -> Option<Seq<u32>> {
    if extra.len() == 0 {
        o
    } else {
        Some(match o {
            Some(s) => s + extra,
            None => extra,
        })
    }
}

/// Naming distributes over concatenation.
pub proof fn lemma_named_add(a: Seq<(Seq<char>, int)>, b: Seq<(Seq<char>, int)>, name: Seq<char>)
    ensures
        named(a + b, name) == named(a, name) + named(b, name),
    decreases b.len(),
{
    if b.len() == 0 {
        assert(a + b =~= a);
        assert(named(a, name) + Seq::<u32>::empty() =~= named(a, name));
    } else {
        lemma_named_add(a, b.drop_last(), name);
        assert((a + b).drop_last() =~= a + b.drop_last());
        assert((a + b).last() == b.last());
        assert(named(a + b, name) =~= named(a, name) + named(b, name));
    }
}

/// Extending twice is extending once with both.
pub proof fn lemma_extended_twice(o: Option<Seq<u32>>, a: Seq<u32>, b: Seq<u32>)
    ensures
        extended(extended(o, a), b) == extended(o, a + b),
{
    if a.len() == 0 {
        assert(a + b =~= b);
    }
    if b.len() == 0 {
        assert(a + b =~= a);
    }
    if a.len() > 0 && b.len() > 0 {
        if let Some(s) = o {
            assert(s + a + b =~= s + (a + b));
        }
    }
}

/// Two maps agree on the slots `lo..hi`, all present in the second.
pub open spec fn agree(m1: Map<int, SlabNode>, m2: Map<int, SlabNode>, lo: int, hi: int) -> bool {
    forall|i: int| lo <= i < hi ==> #[trigger] m2.dom().contains(i) && m2[i] == m1[i]
}

/// Laying out a tree depends only on the slots it occupies.
pub proof fn lemma_placed_frame(m1: Map<int, SlabNode>, m2: Map<int, SlabNode>, t: Node, slot: int, parent: Option<int>)
    requires
        placed(m1, t, slot, parent),
        agree(m1, m2, slot, slot + tree_size(t)),
    ensures
        placed(m2, t, slot, parent),
    decreases t,
{
    assert(tree_size(t) == 1 + forest_size(t.children@));
    assert(m2.dom().contains(slot));
    assert(m2[slot] == m1[slot]);
    assert(agree(m1, m2, slot + 1, slot + 1 + forest_size(t.children@))) by {
        assert forall|i: int| slot + 1 <= i < slot + 1 + forest_size(t.children@) implies #[trigger] m2.dom().contains(i) && m2[i] == m1[i] by {
            assert(slot <= i < slot + tree_size(t));
        }
    }
    lemma_placed_list_frame(m1, m2, t.children@, slot + 1, slot);
}

/// Laying out a list of trees depends only on the slots it occupies.
pub proof fn lemma_placed_list_frame(m1: Map<int, SlabNode>, m2: Map<int, SlabNode>, f: Seq<Node>, start: int, parent: int)
    requires
        placed_list(m1, f, start, parent),
        agree(m1, m2, start, start + forest_size(f)),
    ensures
        placed_list(m2, f, start, parent),
    decreases f,
{
    if f.len() > 0 {
        let d = forest_size(f.drop_last());
        assert(forest_size(f) == d + tree_size(f.last()));
        assert(agree(m1, m2, start, start + d)) by {
            assert forall|i: int| start <= i < start + d implies #[trigger] m2.dom().contains(i) && m2[i] == m1[i] by {
                assert(start <= i < start + forest_size(f));
            }
        }
        assert(agree(m1, m2, start + d, start + d + tree_size(f.last()))) by {
            assert forall|i: int| start + d <= i < start + d + tree_size(f.last()) implies #[trigger] m2.dom().contains(i) && m2[i] == m1[i] by {
                assert(start <= i < start + forest_size(f));
            }
        }
        lemma_placed_list_frame(m1, m2, f.drop_last(), start, parent);
        lemma_placed_frame(m1, m2, f.last(), start + d, Some(parent));
    }
}

/// Builds the slab and the name index from a walked tree; the root goes
/// to slot 0 and every node to the next slot in preorder.
pub fn construct_slab_and_name_index(root: &Node) -> (r: (SlabIndex, ThinSlab<SlabNode>, NameIndex))
    requires
        tree_size(*root) < u32::MAX,
    ensures
        r.0.raw() == 0,
        r.1.wf(),
        r.2.wf(),
        r.1.count() == tree_size(*root),
        forall|i: int| #[trigger] r.1.view().dom().contains(i) <==> 0 <= i < tree_size(*root),
        placed(r.1.view(), *root, 0, None),
        forall|name: Seq<char>| #[trigger] ids_for(r.2.pairs(), name) == extended(None, named(preorder(*root, 0), name)),
{
    let mut slab: ThinSlab<SlabNode> = ThinSlab::new();
    let mut names = NameIndex::new();
    let idx = construct_node_recursive(None, root, &mut slab, &mut names);
    proof {
        assert forall|name: Seq<char>| #[trigger] ids_for(names.pairs(), name) == extended(None, named(preorder(*root, 0), name)) by {
            assert(ids_for(Seq::<(Seq<char>, Seq<u32>)>::empty(), name) is None);
        }
    }
    (idx, slab, names)
}

/// Lays out a walked tree in the next slots of the slab, recording each
/// name in the name index.
fn construct_node_recursive(
    parent: Option<SlabIndex>,
    node: &Node,
    slab: &mut ThinSlab<SlabNode>,
    names: &mut NameIndex,
) -> (index: SlabIndex)
    requires
        old(slab).wf(),
        old(names).wf(),
        old(slab).next_free() == old(slab).slots(),
        old(slab).slots() + tree_size(*node) < u32::MAX,
    ensures
        final(slab).wf(),
        final(names).wf(),
        final(slab).next_free() == final(slab).slots(),
        final(slab).slots() == old(slab).slots() + tree_size(*node),
        final(slab).count() == old(slab).count() + tree_size(*node),
        index.raw() == old(slab).slots(),
        placed(final(slab).view(), *node, index.raw() as int, match parent { Some(p) => Some(p.raw() as int), None => None }),
        forall|i: int| #[trigger] old(slab).view().dom().contains(i) ==> final(slab).view().dom().contains(i)
            && final(slab).view()[i] == old(slab).view()[i],
        forall|i: int| #[trigger] final(slab).view().dom().contains(i) ==> old(slab).view().dom().contains(i)
            || (old(slab).slots() <= i < final(slab).slots()),
        forall|i: int| old(slab).slots() <= i < final(slab).slots() ==> #[trigger] final(slab).view().dom().contains(i),
        forall|name: Seq<char>| #[trigger] ids_for(final(names).pairs(), name)
            == extended(ids_for(old(names).pairs(), name), named(preorder(*node, old(slab).slots() as int), name)),
    decreases node,
{
    let ghost base = slab.slots() as int;
    let ghost pint = match parent { Some(p) => Some(p.raw() as int), None => None };
    proof {
        slab.lemma_next_free();
    }
    let metadata = match node.metadata {
        Some(m) => m,
        None => SlabNodeMetadata::default(),
    };
    let slab_node = SlabNode::new(parent, node.name.as_str(), metadata);
    let index = slab.insert(slab_node);
    names.add_index_ordered(node.name.as_str(), index);
    let ghost after_root_names = names.pairs();
    proof {
        assert forall|name: Seq<char>| #[trigger] ids_for(names.pairs(), name)
            == extended(ids_for(old(names).pairs(), name), named(seq![(node.name@, base)], name)) by {
            let one = seq![(node.name@, base)];
            assert(one.drop_last() =~= Seq::<(Seq<char>, int)>::empty());
            assert(one.last() == (node.name@, base));
            assert(named(Seq::<(Seq<char>, int)>::empty(), name) =~= Seq::<u32>::empty());
            assert(named(one, name) == named(one.drop_last(), name)
                + (if one.last().0 == name { seq![one.last().1 as u32] } else { Seq::<u32>::empty() }));
            if name == node.name@ {
                assert(named(one, name) =~= seq![base as u32]);
                if let Some(ids) = ids_for(old(names).pairs(), name) {
                    assert(ids.push(index.raw()) =~= ids + seq![base as u32]);
                }
            } else {
                assert(named(one, name) =~= Seq::<u32>::empty());
            }
        }
    }
    let ghost m1 = slab.view();
    let mut child_indices: Vec<SlabIndex> = Vec::new();
    let mut i: usize = 0;
    assert(node.children@.subrange(0, 0) =~= Seq::<Node>::empty());
    while i < node.children.len()
        invariant
            slab.wf(),
            names.wf(),
            slab.next_free() == slab.slots(),
            i <= node.children@.len(),
            index.raw() == base,
            base + tree_size(*node) < u32::MAX,
            slab.slots() == base + 1 + forest_size(node.children@.subrange(0, i as int)),
            slab.count() == old(slab).count() + 1 + forest_size(node.children@.subrange(0, i as int)),
            child_indices@.len() == i,
            forall|k: int| 0 <= k < i ==> #[trigger] child_indices@[k].raw() == child_slots(node.children@.subrange(0, i as int), base + 1)[k],
            placed_list(slab.view(), node.children@.subrange(0, i as int), base + 1, base),
            slab.view().dom().contains(base),
            m1.dom().contains(base),
            slab.view()[base] == m1[base],
            child_slots(node.children@.subrange(0, i as int), base + 1).len() == i,
            base >= 0,
            forall|j: int| #[trigger] old(slab).view().dom().contains(j) ==> slab.view().dom().contains(j)
                && slab.view()[j] == old(slab).view()[j],
            forall|j: int| #[trigger] slab.view().dom().contains(j) ==> old(slab).view().dom().contains(j)
                || (base <= j < slab.slots()),
            forall|j: int| base <= j < slab.slots() ==> #[trigger] slab.view().dom().contains(j),
            forall|name: Seq<char>| #[trigger] ids_for(names.pairs(), name) == extended(ids_for(old(names).pairs(), name),
                named(seq![(node.name@, base)] + preorder_list(node.children@.subrange(0, i as int), base + 1), name)),
        decreases node.children@.len() - i,
    {
        let ghost sub = node.children@.subrange(0, i + 1);
        let ghost prev = node.children@.subrange(0, i as int);
        let ghost start = base + 1 + forest_size(prev);
        proof {
            assert(sub.drop_last() =~= prev);
            assert(sub.last() == node.children@[i as int]);
            lemma_forest_prefix(node.children@, i as int + 1);
            assert(decreases_to!(node => node.children));
            assert(decreases_to!(node.children => node.children@[i as int]));
        }
        let ghost m_before = slab.view();
        let ghost n_before = names.pairs();
        let c = construct_node_recursive(Some(index), &node.children[i], slab, names);
        child_indices.push(c);
        proof {
            let m_after = slab.view();
            assert(agree(m_before, m_after, base + 1, base + 1 + forest_size(prev))) by {
                assert forall|j: int| base + 1 <= j < base + 1 + forest_size(prev) implies #[trigger] m_after.dom().contains(j) && m_after[j] == m_before[j] by {
                    assert(m_before.dom().contains(j));
                }
            }
            lemma_placed_list_frame(m_before, m_after, prev, base + 1, base);
            assert(child_slots(sub, base + 1) == child_slots(sub.drop_last(), base + 1).push((base + 1 + forest_size(sub.drop_last())) as u32));
            lemma_child_slots_len(sub, base + 1);
            assert(placed_list(m_after, sub, base + 1, base));
            assert forall|k: int| 0 <= k < i + 1 implies #[trigger] child_indices@[k].raw() == child_slots(sub, base + 1)[k] by {
                assert(child_slots(sub, base + 1) == child_slots(prev, base + 1).push((base + 1 + forest_size(prev)) as u32));
            }
            assert forall|name: Seq<char>| #[trigger] ids_for(names.pairs(), name) == extended(ids_for(old(names).pairs(), name),
                named(seq![(node.name@, base)] + preorder_list(sub, base + 1), name)) by {
                let head = seq![(node.name@, base)];
                lemma_extended_twice(ids_for(old(names).pairs(), name), named(head + preorder_list(prev, base + 1), name),
                    named(preorder(node.children@[i as int], start), name));
                lemma_named_add(head + preorder_list(prev, base + 1), preorder(node.children@[i as int], start), name);
                assert(preorder_list(sub, base + 1) == preorder_list(prev, base + 1) + preorder(node.children@[i as int], start));
                assert(head + preorder_list(sub, base + 1) =~= head + preorder_list(prev, base + 1) + preorder(node.children@[i as int], start));
            }
        }
        i = i + 1;
    }
    proof {
        assert(node.children@.subrange(0, node.children@.len() as int) =~= node.children@);
    }
    let placeholder = SlabNode::new(None, "", SlabNodeMetadata::default());
    let ghost m2 = slab.view();
    let taken = slab.replace(index, placeholder);
    let mut root_node = match taken {
        Some(n) => n,
        None => {
            proof {
                assert(false);
            }
            return index;
        },
    };
    let mut k: usize = 0;
    proof {
        lemma_child_slots_len(node.children@, base + 1);
    }
    while k < child_indices.len()
        invariant
            base >= 0,
            m1.dom().contains(base),
            base + 1 + forest_size(node.children@) < u32::MAX,
            child_slots(node.children@, base + 1).len() == node.children@.len(),
            k <= child_indices@.len(),
            child_indices@.len() == node.children@.len(),
            forall|a: int| 0 <= a < child_indices@.len() ==> #[trigger] child_indices@[a].raw() == child_slots(node.children@, base + 1)[a],
            root_node.children_view() == child_slots(node.children@, base + 1).subrange(0, k as int),
            root_node.name_view() == m1[base].name_view(),
            root_node.parent_view() == m1[base].parent_view(),
            root_node.metadata == m1[base].metadata,
        decreases child_indices@.len() - k,
    {
        proof {
            let cs = child_slots(node.children@, base + 1);
            lemma_child_slots_increasing(node.children@, base + 1);
            if cs.subrange(0, k as int).contains(child_indices@[k as int].raw()) {
                let a = choose|a: int| 0 <= a < k && #[trigger] cs.subrange(0, k as int)[a] == child_indices@[k as int].raw();
                assert(cs[a] < cs[k as int]);
            }
        }
        root_node.add_child(child_indices[k]);
        proof {
            assert(root_node.children_view() =~= child_slots(node.children@, base + 1).subrange(0, k + 1));
        }
        k = k + 1;
    }
    proof {
        lemma_child_slots_len(node.children@, base + 1);
        assert(child_slots(node.children@, base + 1).subrange(0, child_indices@.len() as int) =~= child_slots(node.children@, base + 1));
    }
    let ghost final_root = root_node;
    slab.replace(index, root_node);
    proof {
        let m3 = slab.view();
        assert(m3 == m2.insert(base, final_root));
        lemma_placed_list_frame(m2, m3, node.children@, base + 1, base);
        assert(placed(m3, *node, base, pint));
        assert forall|name: Seq<char>| #[trigger] ids_for(names.pairs(), name)
            == extended(ids_for(old(names).pairs(), name), named(preorder(*node, base), name)) by {
            assert(preorder(*node, base) == seq![(node.name@, base)] + preorder_list(node.children@, base + 1));
        }
    }
    index
}

/// The size of a list's first trees plus the next one.
proof fn lemma_forest_prefix(f: Seq<Node>, n: int)
    requires
        0 < n <= f.len(),
    ensures
        forest_size(f.subrange(0, n)) == forest_size(f.subrange(0, n - 1)) + tree_size(f[n - 1]),
        forest_size(f.subrange(0, n)) <= forest_size(f),
    decreases f.len() - n,
{
    assert(f.subrange(0, n).drop_last() =~= f.subrange(0, n - 1));
    if n < f.len() {
        lemma_forest_prefix(f, n + 1);
    } else {
        assert(f.subrange(0, n) =~= f);
    }
}

/// The child slots of a list, one per tree.
proof fn lemma_child_slots_len(f: Seq<Node>, start: int)
    ensures
        child_slots(f, start).len() == f.len(),
    decreases f.len(),
{
    if f.len() > 0 {
        lemma_child_slots_len(f.drop_last(), start);
    }
}

/// Child slots increase when they fit in 32 bits.
proof fn lemma_child_slots_increasing(f: Seq<Node>, start: int)
    requires
        0 <= start,
        start + forest_size(f) < u32::MAX,
    ensures
        child_slots(f, start).len() == f.len(),
        forall|a: int, b: int| 0 <= a < b < f.len() ==> child_slots(f, start)[a] < child_slots(f, start)[b],
        forall|a: int| 0 <= a < f.len() ==> start <= #[trigger] child_slots(f, start)[a] < start + forest_size(f),
    decreases f.len(),
{
    if f.len() > 0 {
        assert(tree_size(f.last()) >= 1);
        lemma_child_slots_increasing(f.drop_last(), start);
        lemma_child_slots_len(f, start);
    }
}

} // verus!
