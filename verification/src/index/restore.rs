//! The records a cache file keeps of index data, and rebuilding the data
//! from them.

use vstd::prelude::*;
use crate::index::data::RootIndexData;
use crate::index::file_nodes::FileNodes;
use crate::index::name_index::{ids_for, pair_names, NameIndex};
use crate::strings::lemma_seq_lt_order;
use crate::storage::index_types::{thin_get, thin_len, SlabIndex};
use crate::storage::node::{SlabNode, SlabNodeMetadata};
use crate::storage::slab::ThinSlab;

verus! {

/// A node as a cache file records it: its slot, name, parent slot, child
/// slots and metadata.
pub struct StoredNode {
    pub slot: u32,
    pub name: String,
    pub parent: Option<u32>,
    pub children: Vec<u32>,
    pub metadata: SlabNodeMetadata,
}

/// The last record of slot `k`, if any.
pub open spec fn stored_at(nodes: Seq<StoredNode>, k: int) -> Option<StoredNode>
    decreases nodes.len(),
{
    if nodes.len() == 0 {
        None
    } else if nodes.last().slot == k {
        Some(nodes.last())
    } else {
        stored_at(nodes.drop_last(), k)
    }
}

proof fn lemma_stored_at_prepend(x: StoredNode, s: Seq<StoredNode>, k: int)
    ensures
        stored_at(seq![x] + s, k) == (if stored_at(s, k) is Some {
            stored_at(s, k)
        } else if x.slot == k {
            Some(x)
        } else {
            None
        }),
    decreases s.len(),
{
    if s.len() == 0 {
        assert(seq![x] + s =~= seq![x]);
        assert(seq![x].drop_last() =~= Seq::<StoredNode>::empty());
        assert(stored_at(Seq::<StoredNode>::empty(), k) is None);
        assert(stored_at(s, k) is None);
        assert(seq![x].last() == x);
    } else {
        lemma_stored_at_prepend(x, s.drop_last(), k);
        assert((seq![x] + s).drop_last() =~= seq![x] + s.drop_last());
        assert((seq![x] + s).last() == s.last());
    }
}

/// Places each record in its slot (the last record of a slot wins);
/// `r[slots - 1 - k]` is the record of slot `k`.
fn records_by_slot(nodes: Vec<StoredNode>, slots: u32) -> (r: Vec<Option<StoredNode>>)
    ensures
        r@.len() == slots,
        forall|k: int| 0 <= k < slots ==> #[trigger] r@[slots - 1 - k] == stored_at(nodes@, k),
{
    let ghost orig = nodes@;
    let mut rest = nodes;
    let mut by_slot: Vec<Option<StoredNode>> = Vec::new();
    let mut n: u32 = 0;
    while n < slots
        invariant
            n <= slots,
            by_slot@.len() == n,
            forall|j: int| 0 <= j < n ==> by_slot@[j] is None,
        decreases slots - n,
    {
        by_slot.push(None);
        n = n + 1;
    }
    proof {
        assert(orig.subrange(orig.len() as int, orig.len() as int) =~= Seq::<StoredNode>::empty());
    }
    while rest.len() > 0
        invariant
            rest@ == orig.subrange(0, rest@.len() as int),
            rest@.len() <= orig.len(),
            by_slot@.len() == slots,
            forall|k: int| 0 <= k < slots ==> #[trigger] by_slot@[slots - 1 - k] == stored_at(
                orig.subrange(rest@.len() as int, orig.len() as int), k),
        decreases rest@.len(),
    {
        let ghost before = orig.subrange(rest@.len() as int, orig.len() as int);
        let x = rest.pop().unwrap();
        proof {
            assert(orig.subrange(rest@.len() as int, orig.len() as int) =~= seq![x] + before);
            assert(rest@ =~= orig.subrange(0, rest@.len() as int));
            assert forall|k: int| 0 <= k < slots implies stored_at(orig.subrange(rest@.len() as int, orig.len() as int), k)
                == (if stored_at(before, k) is Some { stored_at(before, k) } else if x.slot == k { Some(x) } else { None }) by {
                lemma_stored_at_prepend(x, before, k);
            }
        }
        if x.slot < slots {
            let idx = (slots - 1 - x.slot) as usize;
            if by_slot[idx].is_none() {
                by_slot.set(idx, Some(x));
            }
        }
    }
    proof {
        assert(orig.subrange(0, orig.len() as int) =~= orig);
    }
    by_slot
}


/// The slots a record refers to fit a `SlabIndex`.
pub open spec fn record_ids_fit(st: StoredNode) -> bool {
    &&& st.parent matches Some(p) ==> p < u32::MAX
    &&& forall|i: int| 0 <= i < st.children@.len() ==> #[trigger] st.children@[i] < u32::MAX
}

/// The ids of `s` with repeats dropped, first occurrences kept in order.
pub open spec fn dedup_ids(s: Seq<u32>) -> Seq<u32>
    decreases s.len(),
{
    if s.len() == 0 {
        Seq::empty()
    } else {
        let d = dedup_ids(s.drop_last());
        if d.contains(s.last()) {
            d
        } else {
            d.push(s.last())
        }
    }
}

/// Node `n` is what record `st` describes.
pub open spec fn restored(n: SlabNode, st: StoredNode) -> bool {
    &&& n.name_view() == st.name@
    &&& match st.parent {
        Some(p) => n.parent_view() matches Some(x) && x.raw() == p,
        None => n.parent_view() is None,
    }
    &&& n.children_view() == dedup_ids(st.children@)
    &&& n.metadata == st.metadata
}

/// The node a record describes.
fn restore_node(st: &StoredNode) -> (r: SlabNode)
    requires
        record_ids_fit(*st),
    ensures
        restored(r, *st),
{
    let parent = match st.parent {
        Some(p) => Some(SlabIndex::new(p as usize)),
        None => None,
    };
    let mut node = SlabNode::new(parent, st.name.as_str(), st.metadata);
    let mut c: usize = 0;
    assert(st.children@.subrange(0, 0) =~= Seq::<u32>::empty());
    while c < st.children.len()
        invariant
            c <= st.children@.len(),
            record_ids_fit(*st),
            node.name_view() == st.name@,
            match st.parent {
                Some(p) => node.parent_view() matches Some(x) && x.raw() == p,
                None => node.parent_view() is None,
            },
            node.metadata == st.metadata,
            node.children_view() == dedup_ids(st.children@.subrange(0, c as int)),
        decreases st.children@.len() - c,
    {
        let id = st.children[c];
        assert(st.children@[c as int] < u32::MAX);
        node.add_child(SlabIndex::new(id as usize));
        proof {
            assert(st.children@.subrange(0, c + 1).drop_last() =~= st.children@.subrange(0, c as int));
        }
        c = c + 1;
    }
    assert(st.children@.subrange(0, st.children@.len() as int) =~= st.children@);
    node
}

/// The slab of the records placed by slot (`by_slot[slots - 1 - k]` is the
/// record of slot `k`): each recorded slot holds its node, the others are
/// vacant.
fn restore_slab(by_slot: Vec<Option<StoredNode>>, slots: u32) -> (r: ThinSlab<SlabNode>)
    requires
        slots < u32::MAX,
        by_slot@.len() == slots,
        forall|k: int| 0 <= k < slots ==> (#[trigger] by_slot@[k] matches Some(st) ==> record_ids_fit(st)),
    ensures
        r.wf(),
        forall|k: int| #[trigger] r.view().dom().contains(k) <==> 0 <= k < slots && by_slot@[slots - 1 - k] is Some,
        forall|k: int| 0 <= k < slots && (#[trigger] by_slot@[slots - 1 - k]) is Some ==> restored(r.view()[k],
            by_slot@[slots - 1 - k]->0),
{
    let ghost orig = by_slot@;
    let mut rest = by_slot;
    let mut slab: ThinSlab<SlabNode> = ThinSlab::new();
    let mut vacant: Vec<u32> = Vec::new();
    let mut s: u32 = 0;
    while s < slots
        invariant
            s <= slots,
            slots < u32::MAX,
            orig.len() == slots,
            forall|k: int| 0 <= k < slots ==> (#[trigger] orig[k] matches Some(st) ==> record_ids_fit(st)),
            rest@ == orig.subrange(0, slots - s),
            slab.wf(),
            slab.next_free() == s,
            slab.slots() == s,
            forall|k: int| #[trigger] slab.view().dom().contains(k) <==> 0 <= k < s,
            forall|k: int| 0 <= k < s && (#[trigger] orig[slots - 1 - k]) is Some ==> restored(slab.view()[k],
                orig[slots - 1 - k]->0),
            forall|j: int| 0 <= j < vacant@.len() ==> #[trigger] vacant@[j] < s && orig[slots - 1 - vacant@[j]] is None,
            forall|k: int| 0 <= k < s && (#[trigger] orig[slots - 1 - k]) is None ==> vacant@.contains(k as u32),
            forall|i: int, j: int| 0 <= i < j < vacant@.len() ==> vacant@[i] < vacant@[j],
        decreases slots - s,
    {
        let entry = rest.pop().unwrap();
        assert(entry == orig[slots - 1 - s]);
        let ghost before = slab.view();
        let ghost old_vacant = vacant@;
        match entry {
            Some(st) => {
                let node = restore_node(&st);
                let idx = slab.insert(node);
                assert(idx.raw() == s);
            },
            None => {
                let idx = slab.insert(SlabNode::new(None, "", SlabNodeMetadata::default()));
                assert(idx.raw() == s);
                vacant.push(s);
            },
        }
        proof {
            assert(rest@ =~= orig.subrange(0, slots - (s + 1)));
            assert forall|k: int| 0 <= k < s && (#[trigger] orig[slots - 1 - k]) is Some implies restored(slab.view()[k],
                orig[slots - 1 - k]->0) by {
                assert(slab.view()[k] == before[k]);
            }
            assert forall|k: int| 0 <= k < s + 1 && (#[trigger] orig[slots - 1 - k]) is None implies vacant@.contains(k as u32) by {
                if k < s {
                    let j = choose|j: int| 0 <= j < old_vacant.len() && old_vacant[j] == k as u32;
                    assert(vacant@[j] == k as u32);
                } else {
                    assert(vacant@[vacant@.len() - 1] == s);
                }
            }
        }
        s = s + 1;
    }
    while vacant.len() > 0
        invariant
            slab.wf(),
            slots < u32::MAX,
            orig.len() == slots,
            forall|k: int| #[trigger] slab.view().dom().contains(k) <==> 0 <= k < slots && (orig[slots - 1 - k] is Some
                || vacant@.contains(k as u32)),
            forall|k: int| 0 <= k < slots && (#[trigger] orig[slots - 1 - k]) is Some ==> restored(slab.view()[k],
                orig[slots - 1 - k]->0),
            forall|j: int| 0 <= j < vacant@.len() ==> #[trigger] vacant@[j] < slots && orig[slots - 1 - vacant@[j]] is None,
            forall|i: int, j: int| 0 <= i < j < vacant@.len() ==> vacant@[i] < vacant@[j],
        decreases vacant@.len(),
    {
        let ghost before = slab.view();
        let ghost old_vacant = vacant@;
        let v = vacant.pop().unwrap();
        assert(old_vacant[old_vacant.len() - 1] == v);
        let _ = slab.try_remove(SlabIndex::new(v as usize));
        proof {
            assert forall|k: int| #[trigger] slab.view().dom().contains(k) <==> 0 <= k < slots && (orig[slots - 1 - k] is Some
                || vacant@.contains(k as u32)) by {
                if k == v as int {
                    if vacant@.contains(k as u32) {
                        let j = choose|j: int| 0 <= j < vacant@.len() && vacant@[j] == k as u32;
                        assert(old_vacant[j] < old_vacant[old_vacant.len() - 1]);
                    }
                } else if 0 <= k < slots {
                    if old_vacant.contains(k as u32) {
                        let j = choose|j: int| 0 <= j < old_vacant.len() && old_vacant[j] == k as u32;
                        assert(j < old_vacant.len() - 1);
                        assert(vacant@[j] == k as u32);
                    }
                    if vacant@.contains(k as u32) {
                        let j = choose|j: int| 0 <= j < vacant@.len() && vacant@[j] == k as u32;
                        assert(old_vacant[j] == k as u32);
                    }
                }
            }
        }
    }
    slab
}

/// Every record that `stored_at` picks is one of the records, so what holds
/// of all records holds of it.
proof fn lemma_stored_at_fits(nodes: Seq<StoredNode>, k: int)
    requires
        forall|i: int| 0 <= i < nodes.len() ==> record_ids_fit(#[trigger] nodes[i]),
    ensures
        stored_at(nodes, k) matches Some(st) ==> record_ids_fit(st),
    decreases nodes.len(),
{
    if nodes.len() > 0 && nodes.last().slot != k {
        let d = nodes.drop_last();
        assert forall|i: int| 0 <= i < d.len() implies record_ids_fit(#[trigger] d[i]) by {
            assert(d[i] == nodes[i]);
        }
        lemma_stored_at_fits(d, k);
    }
}

/// `prev` with the ids `t` appended; a name with no ids stays unlisted.
pub open spec fn add_all(prev: Option<Seq<u32>>, t: Seq<u32>) -> Option<Seq<u32>> {
    if t.len() == 0 {
        prev
    } else {
        match prev {
            Some(s) => Some(s + t),
            None => Some(t),
        }
    }
}

/// The ids recorded for `name`: the lists of all its entries, in order,
/// joined.
pub open spec fn recorded_ids(names: Seq<(String, Vec<u32>)>, name: Seq<char>) -> Option<Seq<u32>>
    decreases names.len(),
{
    if names.len() == 0 {
        None
    } else {
        let prev = recorded_ids(names.drop_last(), name);
        if names.last().0@ == name {
            add_all(prev, names.last().1@)
        } else {
            prev
        }
    }
}

proof fn lemma_add_all_push(prev: Option<Seq<u32>>, t: Seq<u32>, x: u32)
    ensures
        add_all(prev, t.push(x)) == Some(match add_all(prev, t) {
            Some(ids) => ids.push(x),
            None => seq![x],
        }),
{
    if t.len() == 0 {
        assert(t.push(x) =~= seq![x]);
        if let Some(s) = prev {
            assert(s + seq![x] =~= s.push(x));
        }
    } else {
        if let Some(s) = prev {
            assert(s + t.push(x) =~= (s + t).push(x));
        }
    }
}

/// The data a cache file records: `slots` slots, of which those with a
/// record hold the node it describes (the last record of a slot wins) and
/// the others are vacant; the tree has the recorded root, or is empty with
/// no root; each name lists the recorded ids of its entries, in order.
pub fn restore_index(
    slots: u32,
    root_slot: Option<u32>,
    nodes: Vec<StoredNode>,
    names: Vec<(String, Vec<u32>)>,
    errors: usize,
) -> (r: RootIndexData)
    requires
        slots < u32::MAX,
        root_slot matches Some(x) ==> x < u32::MAX,
        forall|i: int| 0 <= i < nodes@.len() ==> record_ids_fit(#[trigger] nodes@[i]),
        forall|i: int, j: int| 0 <= i < names@.len() && 0 <= j < names@[i].1@.len() ==> #[trigger] names@[i].1@[j]
            < u32::MAX,
    ensures
        r.wf(),
        r.errors == errors,
        forall|n: Seq<char>| #[trigger] ids_for(r.name_index.pairs(), n) == recorded_ids(names@, n),
        root_slot is None ==> r.file_nodes.root_view() is None && r.file_nodes.nodes() == Map::<int, SlabNode>::empty(),
        root_slot matches Some(x) ==> (r.file_nodes.root_view() matches Some(ri) && ri.raw() == x),
        root_slot is Some ==> forall|k: int| #[trigger] r.file_nodes.nodes().dom().contains(k) <==> 0 <= k < slots
            && stored_at(nodes@, k) is Some,
        root_slot is Some ==> forall|k: int| 0 <= k < slots && (#[trigger] stored_at(nodes@, k)) is Some ==> restored(
            r.file_nodes.nodes()[k], stored_at(nodes@, k)->0),
{
    let ghost recs = nodes@;
    let by_slot = records_by_slot(nodes, slots);
    proof {
        assert forall|k: int| 0 <= k < slots implies (#[trigger] by_slot@[k] matches Some(st) ==> record_ids_fit(st)) by {
            let kk = slots - 1 - k;
            assert(by_slot@[slots - 1 - kk] == stored_at(recs, kk));
            lemma_stored_at_fits(recs, kk);
        }
    }
    let ghost bs = by_slot@;
    let slab = restore_slab(by_slot, slots);
    proof {
        assert forall|k: int| 0 <= k < slots && (#[trigger] stored_at(recs, k)) is Some implies restored(
            slab.view()[k], stored_at(recs, k)->0) by {
            assert(bs[slots - 1 - k] == stored_at(recs, k));
        }
        assert forall|k: int| #[trigger] slab.view().dom().contains(k) <==> 0 <= k < slots && stored_at(recs, k) is Some by {
            if 0 <= k < slots {
                assert(bs[slots - 1 - k] == stored_at(recs, k));
            }
        }
    }
    let file_nodes = match root_slot {
        Some(root) => FileNodes::new(slab, SlabIndex::new(root as usize)),
        None => FileNodes::empty(),
    };
    let mut name_index = NameIndex::new();
    let mut i: usize = 0;
    while i < names.len()
        invariant
            i <= names@.len(),
            name_index.wf(),
            forall|i2: int, j: int| 0 <= i2 < names@.len() && 0 <= j < names@[i2].1@.len() ==> #[trigger] names@[i2].1@[j]
                < u32::MAX,
            forall|n: Seq<char>| #[trigger] ids_for(name_index.pairs(), n) == recorded_ids(names@.subrange(0, i as int), n),
        decreases names@.len() - i,
    {
        let entry = &names[i];
        let ghost before = name_index.pairs();
        let ghost sub = names@.subrange(0, i as int);
        let mut j: usize = 0;
        assert(entry.1@.subrange(0, 0) =~= Seq::<u32>::empty());
        while j < entry.1.len()
            invariant
                j <= entry.1@.len(),
                *entry == names@[i as int],
                0 <= i < names@.len(),
                name_index.wf(),
                forall|i2: int, j2: int| 0 <= i2 < names@.len() && 0 <= j2 < names@[i2].1@.len() ==> #[trigger] names@[i2].1@[j2]
                    < u32::MAX,
                forall|n: Seq<char>| #[trigger] ids_for(name_index.pairs(), n) == (if n == entry.0@ {
                    add_all(recorded_ids(sub, n), entry.1@.subrange(0, j as int))
                } else {
                    recorded_ids(sub, n)
                }),
            decreases entry.1@.len() - j,
        {
            let id = entry.1[j];
            assert(names@[i as int].1@[j as int] < u32::MAX);
            name_index.add_index_ordered(entry.0.as_str(), SlabIndex::new(id as usize));
            proof {
                assert(entry.1@.subrange(0, j + 1) =~= entry.1@.subrange(0, j as int).push(id));
                lemma_add_all_push(recorded_ids(sub, entry.0@), entry.1@.subrange(0, j as int), id);
            }
            j = j + 1;
        }
        proof {
            let sub2 = names@.subrange(0, i + 1);
            assert(sub2.drop_last() =~= sub);
            assert(sub2.last() == names@[i as int]);
            assert(entry.1@.subrange(0, entry.1@.len() as int) =~= entry.1@);
            assert forall|n: Seq<char>| #[trigger] ids_for(name_index.pairs(), n) == recorded_ids(sub2, n) by {
            }
        }
        i = i + 1;
    }
    proof {
        assert(names@.subrange(0, names@.len() as int) =~= names@);
    }
    RootIndexData { file_nodes, name_index, errors }
}

/// Record `st` describes node `n` of slot `k`.
pub open spec fn describes(st: StoredNode, k: int, n: SlabNode) -> bool {
    &&& st.slot == k
    &&& st.name@ == n.name_view()
    &&& st.parent == match n.parent_view() {
        Some(p) => Some(p.raw()),
        None => None::<u32>,
    }
    &&& st.children@ == n.children_view()
    &&& st.metadata == n.metadata
}

/// `nodes` records the nodes of `m`: one record per node, by increasing
/// slot.
pub open spec fn nodes_recorded(nodes: Seq<StoredNode>, m: Map<int, SlabNode>) -> bool {
    &&& forall|i: int| 0 <= i < nodes.len() ==> m.dom().contains(#[trigger] nodes[i].slot as int) && describes(
        nodes[i], nodes[i].slot as int, m[nodes[i].slot as int])
    &&& forall|a: int, b: int| 0 <= a < b < nodes.len() ==> #[trigger] nodes[a].slot < #[trigger] nodes[b].slot
    &&& forall|k: int| #[trigger] m.dom().contains(k) ==> exists|i: int| 0 <= i < nodes.len() && nodes[i].slot == k
}

/// `names` records the entries `p` of a name index, in order.
pub open spec fn names_recorded(names: Seq<(String, Vec<u32>)>, p: Seq<(Seq<char>, Seq<u32>)>) -> bool {
    &&& names.len() == p.len()
    &&& forall|i: int| 0 <= i < p.len() ==> (#[trigger] names[i]).0@ == p[i].0 && names[i].1@ == p[i].1
}

/// The record of one node.
fn store_node(k: u32, n: &SlabNode) -> (r: StoredNode)
    ensures
        describes(r, k as int, *n),
{
    let parent = match n.parent() {
        Some(p) => Some(p.get() as u32),
        None => None,
    };
    let mut children: Vec<u32> = Vec::new();
    let len = thin_len(&n.children);
    let mut c: usize = 0;
    while c < len
        invariant
            c <= len,
            len == n.children_view().len(),
            children@ == n.children_view().subrange(0, c as int),
        decreases len - c,
    {
        let id = thin_get(&n.children, c);
        children.push(id.get() as u32);
        proof {
            assert(children@ =~= n.children_view().subrange(0, c + 1));
        }
        c = c + 1;
    }
    assert(n.children_view().subrange(0, len as int) =~= n.children_view());
    StoredNode { slot: k, name: n.name().to_owned(), parent, children, metadata: n.metadata }
}

/// The records of the nodes of a tree, one per node, by increasing slot.
pub fn store_nodes(tree: &FileNodes) -> (r: Vec<StoredNode>)
    requires
        tree.wf(),
    ensures
        nodes_recorded(r@, tree.nodes()),
{
    let slab = tree.slab();
    proof {
        tree.lemma_next_free();
        slab.lemma_bounded();
    }
    let slots = tree.slot_count();
    let mut r: Vec<StoredNode> = Vec::new();
    let mut k: usize = 0;
    while k < slots && k < u32::MAX as usize
        invariant
            tree.wf(),
            k <= slots,
            slots == tree.slots(),
            forall|i: int| #[trigger] tree.nodes().dom().contains(i) ==> 0 <= i < tree.slots() && i < u32::MAX,
            forall|i: int| 0 <= i < r@.len() ==> tree.nodes().dom().contains(#[trigger] r@[i].slot as int) && describes(
                r@[i], r@[i].slot as int, tree.nodes()[r@[i].slot as int]) && r@[i].slot < k,
            forall|a: int, b: int| 0 <= a < b < r@.len() ==> #[trigger] r@[a].slot < #[trigger] r@[b].slot,
            forall|j: int| 0 <= j < k && #[trigger] tree.nodes().dom().contains(j) ==> exists|i: int| 0 <= i < r@.len()
                && r@[i].slot == j,
        decreases slots - k,
    {
        match tree.get_raw(k as u32) {
            Some(n) => {
                let st = store_node(k as u32, n);
                let ghost before = r@;
                r.push(st);
                proof {
                    assert forall|j: int| 0 <= j < k + 1 && #[trigger] tree.nodes().dom().contains(j) implies exists|i: int| 0 <= i
                        < r@.len() && r@[i].slot == j by {
                        if j < k {
                            let i = choose|i: int| 0 <= i < before.len() && before[i].slot == j;
                            assert(r@[i] == before[i]);
                        } else {
                            assert(r@[r@.len() - 1].slot == j);
                        }
                    }
                }
            },
            None => {},
        }
        k = k + 1;
    }
    proof {
        assert forall|j: int| #[trigger] tree.nodes().dom().contains(j) implies exists|i: int| 0 <= i < r@.len()
            && r@[i].slot == j by {
            assert(0 <= j < k);
        }
    }
    r
}

/// The records of the entries of a name index, in order.
pub fn store_names(index: &NameIndex) -> (r: Vec<(String, Vec<u32>)>)
    ensures
        names_recorded(r@, index.pairs()),
{
    let mut r: Vec<(String, Vec<u32>)> = Vec::new();
    let len = index.len();
    let mut k: usize = 0;
    while k < len
        invariant
            k <= len,
            len == index.pairs().len(),
            r@.len() == k,
            forall|i: int| 0 <= i < k ==> (#[trigger] r@[i]).0@ == index.pairs()[i].0 && r@[i].1@ == index.pairs()[i].1,
        decreases len - k,
    {
        let indices = index.indices_at(k);
        let n = indices.len();
        let mut ids: Vec<u32> = Vec::new();
        let mut j: usize = 0;
        while j < n
            invariant
                j <= n,
                n == indices.items().len(),
                ids@ == indices.items().subrange(0, j as int),
            decreases n - j,
        {
            let x = indices.get(j);
            ids.push(x.get() as u32);
            proof {
                assert(ids@ =~= indices.items().subrange(0, j + 1));
            }
            j = j + 1;
        }
        assert(indices.items().subrange(0, n as int) =~= indices.items());
        r.push((index.name_at(k).to_owned(), ids));
        k = k + 1;
    }
    r
}

/// No id occurs twice.
pub open spec fn no_repeats(s: Seq<u32>) -> bool {
    forall|i: int, j: int| 0 <= i < j < s.len() ==> s[i] != s[j]
}

/// Dropping repeats from ids without repeats leaves them as they are.
pub proof fn lemma_dedup_without_repeats(s: Seq<u32>)
    requires
        no_repeats(s),
    ensures
        dedup_ids(s) == s,
    decreases s.len(),
{
    if s.len() > 0 {
        let d = s.drop_last();
        lemma_dedup_without_repeats(d);
        assert(!d.contains(s.last())) by {
            if d.contains(s.last()) {
                let i = choose|i: int| 0 <= i < d.len() && d[i] == s.last();
                assert(s[i] == s[s.len() - 1]);
            }
        }
        assert(d.push(s.last()) =~= s);
    }
}

/// With slots increasing along the records, the record of a slot is the
/// one that names it.
proof fn lemma_stored_at_sorted(nodes: Seq<StoredNode>, k: int)
    requires
        forall|a: int, b: int| 0 <= a < b < nodes.len() ==> #[trigger] nodes[a].slot < #[trigger] nodes[b].slot,
    ensures
        forall|i: int| 0 <= i < nodes.len() && #[trigger] nodes[i].slot == k ==> stored_at(nodes, k) == Some(nodes[i]),
        (forall|i: int| 0 <= i < nodes.len() ==> #[trigger] nodes[i].slot != k) ==> stored_at(nodes, k) is None,
    decreases nodes.len(),
{
    if nodes.len() > 0 {
        let d = nodes.drop_last();
        assert forall|a: int, b: int| 0 <= a < b < d.len() implies #[trigger] d[a].slot < #[trigger] d[b].slot by {
            assert(d[a] == nodes[a] && d[b] == nodes[b]);
        }
        lemma_stored_at_sorted(d, k);
        assert forall|i: int| 0 <= i < nodes.len() && #[trigger] nodes[i].slot == k implies stored_at(nodes, k) == Some(
            nodes[i]) by {
            if i < nodes.len() - 1 {
                assert(nodes[i].slot < nodes[nodes.len() - 1].slot);
                assert(d[i] == nodes[i]);
            }
        }
        if forall|i: int| 0 <= i < nodes.len() ==> #[trigger] nodes[i].slot != k {
            assert(nodes[nodes.len() - 1].slot != k);
            assert forall|i: int| 0 <= i < d.len() implies #[trigger] d[i].slot != k by {
                assert(d[i] == nodes[i]);
            }
        }
    }
}

/// With names each held once, a name's ids are those of the entry that
/// holds it.
proof fn lemma_ids_for_at(p: Seq<(Seq<char>, Seq<u32>)>, n: Seq<char>)
    requires
        forall|i: int, j: int| 0 <= i < j < p.len() ==> #[trigger] p[i].0 != #[trigger] p[j].0,
    ensures
        forall|i: int| 0 <= i < p.len() && #[trigger] p[i].0 == n ==> ids_for(p, n) == Some(p[i].1),
        (forall|i: int| 0 <= i < p.len() ==> #[trigger] p[i].0 != n) ==> ids_for(p, n) is None,
    decreases p.len(),
{
    if p.len() > 0 {
        let d = p.drop_first();
        assert forall|i: int, j: int| 0 <= i < j < d.len() implies #[trigger] d[i].0 != #[trigger] d[j].0 by {
            assert(d[i] == p[i + 1] && d[j] == p[j + 1]);
        }
        lemma_ids_for_at(d, n);
        assert forall|i: int| 0 <= i < p.len() && #[trigger] p[i].0 == n implies ids_for(p, n) == Some(p[i].1) by {
            if i > 0 {
                assert(p[0].0 != p[i].0);
                assert(d[i - 1] == p[i]);
            }
        }
        if forall|i: int| 0 <= i < p.len() ==> #[trigger] p[i].0 != n {
            assert(p[0].0 != n);
            assert forall|i: int| 0 <= i < d.len() implies #[trigger] d[i].0 != n by {
                assert(d[i] == p[i + 1]);
            }
        }
    }
}

/// With names recorded once each, a name's recorded ids are those of the
/// entry that names it.
proof fn lemma_recorded_at(names: Seq<(String, Vec<u32>)>, n: Seq<char>)
    requires
        forall|i: int, j: int| 0 <= i < j < names.len() ==> #[trigger] names[i].0@ != #[trigger] names[j].0@,
    ensures
        forall|i: int| 0 <= i < names.len() && #[trigger] names[i].0@ == n ==> recorded_ids(names, n) == add_all(None,
            names[i].1@),
        (forall|i: int| 0 <= i < names.len() ==> #[trigger] names[i].0@ != n) ==> recorded_ids(names, n) is None,
    decreases names.len(),
{
    if names.len() > 0 {
        let d = names.drop_last();
        let l = names.len() - 1;
        assert forall|i: int, j: int| 0 <= i < j < d.len() implies #[trigger] d[i].0@ != #[trigger] d[j].0@ by {
            assert(d[i] == names[i] && d[j] == names[j]);
        }
        lemma_recorded_at(d, n);
        assert forall|i: int| 0 <= i < names.len() && #[trigger] names[i].0@ == n implies recorded_ids(names, n)
            == add_all(None, names[i].1@) by {
            if i < l {
                assert(names[i].0@ != names[l].0@);
                assert(d[i] == names[i]);
            } else {
                assert forall|j: int| 0 <= j < d.len() implies #[trigger] d[j].0@ != n by {
                    assert(d[j] == names[j]);
                    assert(names[j].0@ != names[l].0@);
                }
            }
        }
        if forall|i: int| 0 <= i < names.len() ==> #[trigger] names[i].0@ != n {
            assert(names[l].0@ != n);
            assert forall|i: int| 0 <= i < d.len() implies #[trigger] d[i].0@ != n by {
                assert(d[i] == names[i]);
            }
        }
    }
}

/// Rebuilding from the records of a tree's nodes gives the tree's nodes
/// back: a slot has a record exactly when it holds a node, and the node
/// rebuilt from that record has the node's name, parent and metadata, and
/// its children with repeats dropped (all of them, in order, when none
/// repeats).
pub proof fn law_restore_after_store_nodes(m: Map<int, SlabNode>, nodes: Seq<StoredNode>, k: int, x: SlabNode)
    requires
        nodes_recorded(nodes, m),
    ensures
        stored_at(nodes, k) is Some <==> m.dom().contains(k),
        m.dom().contains(k) && restored(x, stored_at(nodes, k)->0) ==> {
            &&& x.name_view() == m[k].name_view()
            &&& x.parent_view() == m[k].parent_view()
            &&& x.metadata == m[k].metadata
            &&& x.children_view() == dedup_ids(m[k].children_view())
            &&& no_repeats(m[k].children_view()) ==> x.children_view() == m[k].children_view()
        },
{
    lemma_stored_at_sorted(nodes, k);
    if m.dom().contains(k) {
        let i = choose|i: int| 0 <= i < nodes.len() && nodes[i].slot == k;
        assert(nodes[i].slot == k);
        assert(stored_at(nodes, k) == Some(nodes[i]));
        let st = nodes[i];
        assert(m.dom().contains(st.slot as int) && describes(st, k, m[k]));
        if restored(x, st) {
            match m[k].parent_view() {
                Some(q) => {
                    let y = x.parent_view()->0;
                    y.lemma_raw_injective(q);
                },
                None => {},
            }
            if no_repeats(m[k].children_view()) {
                lemma_dedup_without_repeats(m[k].children_view());
            }
        }
    } else {
        assert forall|i: int| 0 <= i < nodes.len() implies #[trigger] nodes[i].slot != k by {
            assert(m.dom().contains(nodes[i].slot as int));
        }
    }
}

/// Rebuilding from the records of a name index's entries gives every
/// name its ids back (a name listed with no ids stays unlisted).
pub proof fn law_restore_after_store_names(index: NameIndex, names: Seq<(String, Vec<u32>)>, n: Seq<char>)
    requires
        index.wf(),
        names_recorded(names, index.pairs()),
    ensures
        recorded_ids(names, n) == match ids_for(index.pairs(), n) {
            Some(s) => add_all(None, s),
            None => None,
        },
{
    let p = index.pairs();
    assert forall|i: int, j: int| 0 <= i < j < p.len() implies #[trigger] p[i].0 != #[trigger] p[j].0 by {
        assert(pair_names(p)[i] == p[i].0 && pair_names(p)[j] == p[j].0);
        lemma_seq_lt_order(p[i].0, p[i].0, p[i].0);
    }
    assert forall|i: int, j: int| 0 <= i < j < names.len() implies #[trigger] names[i].0@ != #[trigger] names[j].0@ by {
        assert(names[i].0@ == p[i].0 && names[j].0@ == p[j].0);
    }
    lemma_ids_for_at(p, n);
    lemma_recorded_at(names, n);
    if exists|i: int| 0 <= i < p.len() && p[i].0 == n {
        let i = choose|i: int| 0 <= i < p.len() && p[i].0 == n;
        assert(names[i].0@ == n);
    } else {
        assert forall|i: int| 0 <= i < names.len() implies #[trigger] names[i].0@ != n by {
            assert(names[i].0@ == p[i].0);
        }
    }
}

} // verus!
