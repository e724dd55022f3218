//! Decisions about filesystem events: how an FSEvents record is classified,
//! what a batch of them asks of the index thread, and how one changed path
//! is applied to the index data.

use vstd::prelude::*;

use crate::index::data::{entry_removed, entry_upserted, RootIndexData};
use crate::storage::node::SlabNodeMetadata;
use crate::strings::str_views;
use crate::watcher::walker::{comps_eq, comps_prefix, components_of, path_components, path_in_scope, path_is_ignored};

verus! {

/// The flags of an FSEvents record, as their raw bits.
#[derive(Debug, Clone, Copy, PartialEq, Eq, Structural)]
pub struct FsEventFlags {
    pub bits: u32,
}

impl FsEventFlags {
    pub const MUST_SCAN_SUBDIRS: u32 = 0x0000_0001;
    pub const EVENT_IDS_WRAPPED: u32 = 0x0000_0008;
    pub const HISTORY_DONE: u32 = 0x0000_0010;
    pub const ROOT_CHANGED: u32 = 0x0000_0020;
    pub const ITEM_CREATED: u32 = 0x0000_0100;
    pub const ITEM_REMOVED: u32 = 0x0000_0200;
    pub const ITEM_RENAMED: u32 = 0x0000_1000;
    pub const ITEM_MODIFIED: u32 = 0x0000_2000;
    pub const ITEM_IS_FILE: u32 = 0x0001_0000;
    pub const ITEM_IS_DIR: u32 = 0x0002_0000;
    pub const ITEM_IS_SYMLINK: u32 = 0x0004_0000;

    /// Every bit of `flag` is set.
    pub open spec fn has(self, flag: u32) -> bool {
        self.bits & flag == flag
    }

    /// Flags from raw bits.
    pub fn from_bits(bits: u32) -> (r: Self)
        ensures
            r.bits == bits,
    {
        FsEventFlags { bits }
    }

    /// Whether every bit of `flag` is set.
    pub fn contains(&self, flag: u32) -> (r: bool)
        ensures
            r == self.has(flag),
    {
        self.bits & flag == flag
    }
}

/// What an event asks the index to do.
#[derive(Debug, Clone, Copy, PartialEq, Eq, Structural)]
pub enum FsEventScanType {
    /// Nothing (bookkeeping events).
    Nop,
    /// Rescan everything.
    ReScan,
    /// Look at a directory.
    Folder,
    /// Look at one node.
    SingleNode,
}

/// The scan an event's flags ask for: bookkeeping events ask for nothing; a
/// changed root or dropped events ask for a rescan; otherwise a directory or
/// a single node is looked at.
pub open spec fn scan_type_of(flags: FsEventFlags) -> FsEventScanType {
    if flags.has(FsEventFlags::HISTORY_DONE) || flags.has(FsEventFlags::EVENT_IDS_WRAPPED) {
        FsEventScanType::Nop
    } else if flags.has(FsEventFlags::ROOT_CHANGED) || flags.has(FsEventFlags::MUST_SCAN_SUBDIRS) {
        FsEventScanType::ReScan
    } else if flags.has(FsEventFlags::ITEM_IS_DIR) {
        FsEventScanType::Folder
    } else {
        FsEventScanType::SingleNode
    }
}

impl FsEventScanType {
    /// Classifies an event by its flags.
    pub fn classify(flags: FsEventFlags) -> (r: Self)
        ensures
            r == scan_type_of(flags),
    {
        if flags.contains(FsEventFlags::HISTORY_DONE) || flags.contains(FsEventFlags::EVENT_IDS_WRAPPED) {
            return FsEventScanType::Nop;
        }
        if flags.contains(FsEventFlags::ROOT_CHANGED) || flags.contains(FsEventFlags::MUST_SCAN_SUBDIRS) {
            return FsEventScanType::ReScan;
        }
        if flags.contains(FsEventFlags::ITEM_IS_DIR) {
            return FsEventScanType::Folder;
        }
        FsEventScanType::SingleNode
    }
}

/// One FSEvents record.
#[derive(Debug, Clone)]
pub struct FsEvent {
    pub path: String,
    pub flags: FsEventFlags,
    pub event_id: u64,
    pub scan_type: FsEventScanType,
}

/// A message from the watcher to the index thread.
#[derive(Debug, Clone)]
pub enum WatcherEvent {
    /// Incremental path changes to apply.
    PathsChanged(Vec<String>),
    /// A full rescan is required.
    RescanRequired,
    /// The replay of past events is complete.
    HistoryDone,
    /// The watcher met an error.
    Error(String),
}

/// What a batch of events asks for: the largest event id seen (0 for none)
/// and the messages to send, in order.
pub struct BatchPlan {
    pub max_event_id: u64,
    pub messages: Vec<WatcherEvent>,
}

/// The largest event id of `events[..n]`, 0 when there is none.
pub open spec fn max_event_id(events: Seq<FsEvent>, n: int) -> u64
    decreases n,
{
    if n <= 0 {
        0
    } else {
        let rest = max_event_id(events, n - 1);
        if events[n - 1].event_id > rest {
            events[n - 1].event_id
        } else {
            rest
        }
    }
}

/// The event asks for a rescan: it says so, or it looks at the root itself.
pub open spec fn asks_rescan(e: FsEvent, root: Seq<char>) -> bool {
    e.scan_type == FsEventScanType::ReScan || ((e.scan_type == FsEventScanType::SingleNode
        || e.scan_type == FsEventScanType::Folder) && path_components(e.path@) == path_components(root))
}

/// The paths of the events of `events[..n]` that ask for something, in order.
pub open spec fn changed_paths(events: Seq<FsEvent>, n: int) -> Seq<Seq<char>>
    decreases n,
{
    if n <= 0 {
        Seq::empty()
    } else if events[n - 1].scan_type == FsEventScanType::Nop {
        changed_paths(events, n - 1)
    } else {
        changed_paths(events, n - 1).push(events[n - 1].path@)
    }
}

/// What a message says, over plain values: a tag (0 paths changed, 1
/// rescan, 2 history done, 3 error) and the paths.
pub open spec fn message_view(m: WatcherEvent) -> (u8, Seq<Seq<char>>) {
    match m {
        WatcherEvent::PathsChanged(p) => (0, str_views(p@)),
        WatcherEvent::RescanRequired => (1, Seq::empty()),
        WatcherEvent::HistoryDone => (2, Seq::empty()),
        WatcherEvent::Error(_) => (3, Seq::empty()),
    }
}

/// The messages a batch sends: `HistoryDone` when an event carries that
/// flag; then `RescanRequired` when an event asks for a rescan, or else the
/// changed paths when there are any.
pub open spec fn batch_messages(events: Seq<FsEvent>, root: Seq<char>) -> Seq<(u8, Seq<Seq<char>>)> {
    let done: Seq<(u8, Seq<Seq<char>>)> = if exists|i: int|
        0 <= i < events.len() && (#[trigger] events[i]).flags.has(FsEventFlags::HISTORY_DONE) {
        seq![(2u8, Seq::<Seq<char>>::empty())]
    } else {
        Seq::empty()
    };
    if events.len() == 0 {
        Seq::empty()
    } else if exists|i: int| 0 <= i < events.len() && asks_rescan(#[trigger] events[i], root) {
        done.push((1u8, Seq::<Seq<char>>::empty()))
    } else if changed_paths(events, events.len() as int).len() > 0 {
        done.push((0u8, changed_paths(events, events.len() as int)))
    } else {
        done
    }
}

/// Decides what a batch of FSEvents records asks of the index thread.
pub fn process_fsevent_batch(root: &str, events: &Vec<FsEvent>) -> (r: BatchPlan)
    ensures
        r.max_event_id == max_event_id(events@, events@.len() as int),
        r.messages@.map_values(|m: WatcherEvent| message_view(m)) == batch_messages(events@, root@),
{
    let mut messages: Vec<WatcherEvent> = Vec::new();
    if events.len() == 0 {
        assert(messages@.map_values(|m: WatcherEvent| message_view(m)) =~= batch_messages(events@, root@));
        return BatchPlan { max_event_id: 0, messages };
    }
    let rc = components_of(root);
    let mut max_id: u64 = 0;
    let mut history_done = false;
    let mut rescan = false;
    let mut paths: Vec<String> = Vec::new();
    let mut i: usize = 0;
    while i < events.len()
        invariant
            i <= events@.len(),
            str_views(rc@) == path_components(root@),
            max_id == max_event_id(events@, i as int),
            history_done == exists|k: int| 0 <= k < i && (#[trigger] events@[k]).flags.has(FsEventFlags::HISTORY_DONE),
            rescan == exists|k: int| 0 <= k < i && asks_rescan(#[trigger] events@[k], root@),
            str_views(paths@) == changed_paths(events@, i as int),
        decreases events@.len() - i,
    {
        let e = &events[i];
        if e.event_id > max_id {
            max_id = e.event_id;
        }
        if e.flags.contains(FsEventFlags::HISTORY_DONE) {
            history_done = true;
        }
        let root_change = match e.scan_type {
            FsEventScanType::SingleNode | FsEventScanType::Folder => {
                let ec = components_of(e.path.as_str());
                comps_eq(&ec, &rc)
            },
            _ => false,
        };
        if e.scan_type == FsEventScanType::ReScan || root_change {
            rescan = true;
        }
        if e.scan_type != FsEventScanType::Nop {
            paths.push(e.path.clone());
        }
        proof {
            assert(str_views(paths@) =~= changed_paths(events@, i + 1));
        }
        i = i + 1;
    }
    if history_done {
        messages.push(WatcherEvent::HistoryDone);
    }
    if rescan {
        messages.push(WatcherEvent::RescanRequired);
    } else if paths.len() > 0 {
        messages.push(WatcherEvent::PathsChanged(paths));
    }
    assert(messages@.map_values(|m: WatcherEvent| message_view(m)) =~= batch_messages(events@, root@));
    BatchPlan { max_event_id: max_id, messages }
}

/// What applying a changed path does to the index data.
pub open spec fn path_change_applied(
    before: RootIndexData,
    after: RootIndexData,
    root: Seq<char>,
    root_is_dir: bool,
    ignored_roots: Seq<String>,
    changed: Seq<char>,
    current: Option<SlabNodeMetadata>,
) -> bool {
    let in_scope = if root_is_dir {
        comps_prefix(path_components(root), path_components(changed))
    } else {
        path_components(changed) == path_components(root)
    };
    let ignored = exists|k: int|
        0 <= k < ignored_roots.len() && comps_prefix(path_components(#[trigger] ignored_roots[k]@), path_components(changed));
    if !in_scope || (!ignored && path_components(changed) == path_components(root)) {
        after == before
    } else if ignored {
        entry_removed(before, after, changed)
    } else {
        match current {
            None => entry_removed(before, after, changed),
            Some(md) => exists|mid: RootIndexData, r: bool|
                entry_removed(before, mid, changed) && entry_upserted(mid, after, changed, md, r),
        }
    }
}

/// Applies one changed path to the index data. Outside the watched scope
/// nothing happens; an ignored path is removed with everything below it; the
/// root itself is left to a rescan; otherwise the path's old entry is removed
/// and, when the path still exists (`current` holds its metadata), a fresh
/// entry is added.
pub fn apply_path_change(
    root: &str,
    root_is_dir: bool,
    ignored_roots: &[String],
    data: &mut RootIndexData,
    changed_path: &str,
    current: Option<SlabNodeMetadata>,
)
    requires
        old(data).wf(),
        old(data).file_nodes.slots() < u32::MAX,
    ensures
        final(data).wf(),
        path_change_applied(*old(data), *final(data), root@, root_is_dir, ignored_roots@, changed_path@, current),
{
    if !path_in_scope(root, root_is_dir, changed_path) {
        return;
    }
    if path_is_ignored(ignored_roots, changed_path) {
        data.remove_entry(changed_path);
        return;
    }
    let rc = components_of(root);
    let cc = components_of(changed_path);
    if comps_eq(&cc, &rc) {
        return;
    }
    match current {
        Some(md) => {
            data.remove_entry(changed_path);
            let ghost mid = *data;
            let r = data.upsert_entry(changed_path, md);
            assert(entry_removed(*old(data), mid, changed_path@) && entry_upserted(mid, *data, changed_path@, md, r));
        },
        None => {
            data.remove_entry(changed_path);
        },
    }
}

} // verus!
