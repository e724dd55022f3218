//! The decisions of an index thread: what to do on each search request,
//! rescan request, finished build, watcher message and flush tick. The
//! thread itself (channels, clocks, the data and its cache file) lives
//! around this state machine and carries out the actions it returns.

use vstd::prelude::*;

use crate::watcher::events::WatcherEvent;
use crate::watcher::walker::{antichain, coalesce_event_paths, covers};

verus! {

/// How often the thread checks whether to flush, in milliseconds.
pub const INDEX_FLUSH_POLL_MS: u64 = 10_000;

/// Searches must have been quiet this long before a flush, in milliseconds.
pub const INDEX_FLUSH_IDLE_MS: u64 = 300_000;

/// A dirty index is flushed at the latest after this long, in milliseconds.
pub const INDEX_FLUSH_MAX_DELAY_MS: u64 = 600_000;

/// The build state of an index.
#[derive(Debug, Clone, Copy, PartialEq, Eq, Structural)]
pub enum IndexBuildState {
    Idle,
    Building,
    Ready,
    Error,
    Updating,
}

/// The state a stored number stands for (1 building, 2 ready, 3 error,
/// 4 updating, anything else idle).
pub open spec fn state_of_u8(value: u8) -> IndexBuildState {
    if value == 1 {
        IndexBuildState::Building
    } else if value == 2 {
        IndexBuildState::Ready
    } else if value == 3 {
        IndexBuildState::Error
    } else if value == 4 {
        IndexBuildState::Updating
    } else {
        IndexBuildState::Idle
    }
}

impl IndexBuildState {
    /// The state a stored number stands for.
    pub fn from_u8(value: u8) -> (r: Self)
        ensures
            r == state_of_u8(value),
    {
        match value {
            1 => IndexBuildState::Building,
            2 => IndexBuildState::Ready,
            3 => IndexBuildState::Error,
            4 => IndexBuildState::Updating,
            _ => IndexBuildState::Idle,
        }
    }

    /// The number the state is stored as.
    pub fn to_u8(self) -> (r: u8)
        ensures
            state_of_u8(r) == self,
            r <= 4,
    {
        match self {
            IndexBuildState::Idle => 0,
            IndexBuildState::Building => 1,
            IndexBuildState::Ready => 2,
            IndexBuildState::Error => 3,
            IndexBuildState::Updating => 4,
        }
    }

    /// The state's name.
    pub fn as_str(self) -> (r: &'static str)
        ensures
            r@ == (match self {
                IndexBuildState::Idle => "idle"@,
                IndexBuildState::Building => "building"@,
                IndexBuildState::Ready => "ready"@,
                IndexBuildState::Error => "error"@,
                IndexBuildState::Updating => "updating"@,
            }),
    {
        match self {
            IndexBuildState::Idle => "idle",
            IndexBuildState::Building => "building",
            IndexBuildState::Ready => "ready",
            IndexBuildState::Error => "error",
            IndexBuildState::Updating => "updating",
        }
    }
}

/// What the index thread is told about.
pub enum LoopEvent {
    /// A search request arrived at time `now`.
    Search { now: u64 },
    /// A rescan request arrived.
    RescanRequest,
    /// A build finished at time `now`, with data when `built`; `drained`
    /// holds the paths of the watcher messages that queued up meanwhile.
    BuildDone { built: bool, now: u64, drained: Vec<String> },
    /// A watcher message arrived at time `now`.
    Watcher { event: WatcherEvent, now: u64 },
    /// The flush timer fired at time `now`.
    FlushTick { now: u64 },
}

/// What the index thread must do after an event.
pub struct LoopAction {
    /// Start a build on a worker (progress reset, last error cleared).
    pub start_build: bool,
    /// Run the search request.
    pub run_search: bool,
    /// Take the built data as the index.
    pub take_build: bool,
    /// Paths to apply to the data, each with `apply_path_change`.
    pub apply_paths: Vec<String>,
    /// Queued rescan requests to answer with the index status.
    pub answer_rescans: usize,
    /// Write the index to its cache file.
    pub flush: bool,
    /// Count one more rescan.
    pub count_rescan: bool,
    /// Count one more watcher error.
    pub count_error: bool,
    /// Record this as the last error.
    pub record_error: Option<String>,
}

/// The state of an index thread.
pub struct IndexLoop {
    pub state: IndexBuildState,
    pub dirty: bool,
    /// When the data became dirty.
    pub first_dirty_at: Option<u64>,
    /// When the last search arrived.
    pub last_search_at: Option<u64>,
    /// Changed paths that arrived during a build.
    pub pending_paths: Vec<String>,
    /// Rescan requests waiting for the build to finish.
    pub waiting_rescans: usize,
}

/// `out` is a coalescing of `paths` (see `coalesce_event_paths`): drawn from
/// them, covering all of them, none below another.
pub open spec fn coalescing_of(out: Seq<String>, paths: Seq<String>) -> bool {
    &&& forall|k: int| 0 <= k < out.len() ==> #[trigger] paths.contains(out[k])
    &&& covers(out, paths)
    &&& antichain(out)
}

/// A dirty flush may happen at `now`: searches have been quiet for
/// `INDEX_FLUSH_IDLE_MS`, or the data has been dirty for
/// `INDEX_FLUSH_MAX_DELAY_MS`.
pub open spec fn flush_due(last_search_at: Option<u64>, first_dirty_at: Option<u64>, now: u64) -> bool {
    let idle = match last_search_at {
        Some(t) => (if now >= t {
            now - t
        } else {
            0
        }) >= INDEX_FLUSH_IDLE_MS,
        None => true,
    };
    let late = match first_dirty_at {
        Some(t) => (if now >= t {
            now - t
        } else {
            0
        }) >= INDEX_FLUSH_MAX_DELAY_MS,
        None => false,
    };
    idle || late
}

/// An action that asks for nothing.
fn no_action() -> (r: LoopAction)
    ensures
        !r.start_build && !r.run_search && !r.take_build && r.apply_paths@.len() == 0 && r.answer_rescans
            == 0 && !r.flush && !r.count_rescan && !r.count_error && r.record_error is None,
{
    LoopAction {
        start_build: false,
        run_search: false,
        take_build: false,
        apply_paths: Vec::new(),
        answer_rescans: 0,
        flush: false,
        count_rescan: false,
        count_error: false,
        record_error: None,
    }
}

impl IndexLoop {
    /// A thread starting in `initial`; a build starts right away from an
    /// idle or failed state.
    pub fn new(initial: IndexBuildState) -> (r: (Self, bool))
        ensures
            r.1 == (initial == IndexBuildState::Idle || initial == IndexBuildState::Error),
            r.0.state == (if r.1 {
                IndexBuildState::Building
            } else {
                initial
            }),
            !r.0.dirty,
            r.0.first_dirty_at is None,
            r.0.last_search_at is None,
            r.0.pending_paths@.len() == 0,
            r.0.waiting_rescans == 0,
    {
        let start = initial == IndexBuildState::Idle || initial == IndexBuildState::Error;
        let state = if start {
            IndexBuildState::Building
        } else {
            initial
        };
        (
            IndexLoop {
                state,
                dirty: false,
                first_dirty_at: None,
                last_search_at: None,
                pending_paths: Vec::new(),
                waiting_rescans: 0,
            },
            start,
        )
    }

    /// Marks the data dirty at `now`, keeping the first time it became so.
    fn mark_dirty(&mut self, now: u64)
        ensures
            final(self).dirty,
            final(self).first_dirty_at == (if old(self).dirty {
                old(self).first_dirty_at
            } else {
                Some(now)
            }),
            final(self).state == old(self).state,
            final(self).last_search_at == old(self).last_search_at,
            final(self).pending_paths@ == old(self).pending_paths@,
            final(self).waiting_rescans == old(self).waiting_rescans,
    {
        if !self.dirty {
            self.first_dirty_at = Some(now);
        }
        self.dirty = true;
    }

    /// Decides what to do about one event.
    pub fn step(&mut self, event: LoopEvent) -> (r: LoopAction)
        requires
            old(self).waiting_rescans < usize::MAX,
        ensures
            match event {
                LoopEvent::Search { now } => {
                    &&& r.run_search && !r.start_build && !r.take_build && r.apply_paths@.len() == 0
                    &&& r.answer_rescans == 0 && !r.flush && !r.count_rescan && !r.count_error && r.record_error is None
                    &&& final(self).last_search_at == Some(now)
                    &&& final(self).state == old(self).state && final(self).dirty == old(self).dirty
                    &&& final(self).first_dirty_at == old(self).first_dirty_at
                    &&& final(self).pending_paths@ == old(self).pending_paths@
                    &&& final(self).waiting_rescans == old(self).waiting_rescans
                },
                LoopEvent::RescanRequest => {
                    &&& r.start_build == (old(self).state != IndexBuildState::Building)
                    &&& !r.run_search && !r.take_build && r.apply_paths@.len() == 0 && r.answer_rescans == 0
                    &&& !r.flush && !r.count_rescan && !r.count_error && r.record_error is None
                    &&& final(self).state == IndexBuildState::Building
                    &&& final(self).waiting_rescans == old(self).waiting_rescans + 1
                    &&& final(self).dirty == old(self).dirty && final(self).first_dirty_at == old(self).first_dirty_at
                    &&& final(self).last_search_at == old(self).last_search_at
                    &&& final(self).pending_paths@ == old(self).pending_paths@
                },
                LoopEvent::BuildDone { built, now, drained } => {
                    &&& r.take_build == built
                    &&& final(self).state == (if built {
                        IndexBuildState::Ready
                    } else {
                        IndexBuildState::Error
                    })
                    &&& (if built {
                        r.record_error is None
                    } else {
                        r.record_error matches Some(m) && m@ == "index build was unexpectedly cancelled"@
                    })
                    &&& coalescing_of(r.apply_paths@, old(self).pending_paths@ + drained@)
                    &&& final(self).pending_paths@.len() == 0
                    &&& r.answer_rescans == old(self).waiting_rescans && final(self).waiting_rescans == 0
                    &&& final(self).dirty && final(self).first_dirty_at == (if old(self).dirty {
                        old(self).first_dirty_at
                    } else {
                        Some(now)
                    })
                    &&& !r.start_build && !r.run_search && !r.flush && !r.count_rescan && !r.count_error
                    &&& final(self).last_search_at == old(self).last_search_at
                },
                LoopEvent::Watcher { event, now } => {
                    &&& !r.run_search && !r.take_build && r.answer_rescans == 0 && !r.flush
                    &&& final(self).last_search_at == old(self).last_search_at
                    &&& final(self).waiting_rescans == old(self).waiting_rescans
                    &&& match event {
                        WatcherEvent::PathsChanged(paths) => {
                            &&& !r.start_build && !r.count_rescan && !r.count_error && r.record_error is None
                            &&& final(self).state == old(self).state
                            &&& if old(self).state == IndexBuildState::Building {
                                &&& final(self).pending_paths@ == old(self).pending_paths@ + paths@
                                &&& r.apply_paths@.len() == 0
                                &&& final(self).dirty == old(self).dirty
                                &&& final(self).first_dirty_at == old(self).first_dirty_at
                            } else {
                                &&& final(self).pending_paths@ == old(self).pending_paths@
                                &&& coalescing_of(r.apply_paths@, paths@)
                                &&& final(self).dirty
                                &&& final(self).first_dirty_at == (if old(self).dirty {
                                    old(self).first_dirty_at
                                } else {
                                    Some(now)
                                })
                            }
                        },
                        WatcherEvent::RescanRequired => {
                            &&& r.count_rescan && !r.count_error && r.record_error is None
                            &&& r.start_build == (old(self).state != IndexBuildState::Building)
                            &&& final(self).state == IndexBuildState::Building
                            &&& r.apply_paths@.len() == 0
                            &&& final(self).pending_paths@ == old(self).pending_paths@
                            &&& final(self).dirty == old(self).dirty
                            &&& final(self).first_dirty_at == old(self).first_dirty_at
                        },
                        WatcherEvent::HistoryDone => {
                            &&& !r.start_build && !r.count_rescan && !r.count_error && r.record_error is None
                            &&& r.apply_paths@.len() == 0
                            &&& final(self).state == old(self).state
                            &&& final(self).pending_paths@ == old(self).pending_paths@
                            &&& final(self).dirty == old(self).dirty
                            &&& final(self).first_dirty_at == old(self).first_dirty_at
                        },
                        WatcherEvent::Error(msg) => {
                            &&& !r.start_build && !r.count_rescan && r.count_error
                            &&& r.record_error matches Some(m) && m@ == msg@
                            &&& r.apply_paths@.len() == 0
                            &&& final(self).state == old(self).state
                            &&& final(self).pending_paths@ == old(self).pending_paths@
                            &&& final(self).dirty == old(self).dirty
                            &&& final(self).first_dirty_at == old(self).first_dirty_at
                        },
                    }
                },
                LoopEvent::FlushTick { now } => {
                    let go = old(self).dirty && flush_due(old(self).last_search_at, old(self).first_dirty_at, now);
                    &&& r.flush == go
                    &&& !r.start_build && !r.run_search && !r.take_build && r.apply_paths@.len() == 0
                    &&& r.answer_rescans == 0 && !r.count_rescan && !r.count_error && r.record_error is None
                    &&& final(self).dirty == (old(self).dirty && !go)
                    &&& final(self).first_dirty_at == (if go {
                        None
                    } else {
                        old(self).first_dirty_at
                    })
                    &&& final(self).state == old(self).state
                    &&& final(self).last_search_at == old(self).last_search_at
                    &&& final(self).pending_paths@ == old(self).pending_paths@
                    &&& final(self).waiting_rescans == old(self).waiting_rescans
                },
            },
    {
        let mut action = no_action();
        match event {
            LoopEvent::Search { now } => {
                self.last_search_at = Some(now);
                action.run_search = true;
            },
            LoopEvent::RescanRequest => {
                if self.state != IndexBuildState::Building {
                    self.state = IndexBuildState::Building;
                    action.start_build = true;
                }
                self.waiting_rescans = self.waiting_rescans + 1;
            },
            LoopEvent::BuildDone { built, now, drained } => {
                if built {
                    action.take_build = true;
                    self.state = IndexBuildState::Ready;
                } else {
                    self.state = IndexBuildState::Error;
                    action.record_error = Some("index build was unexpectedly cancelled".to_owned());
                }
                let mut paths: Vec<String> = Vec::new();
                std::mem::swap(&mut paths, &mut self.pending_paths);
                let mut drained = drained;
                paths.append(&mut drained);
                action.apply_paths = coalesce_event_paths(paths);
                self.mark_dirty(now);
                action.answer_rescans = self.waiting_rescans;
                self.waiting_rescans = 0;
            },
            LoopEvent::Watcher { event, now } => {
                match event {
                    WatcherEvent::PathsChanged(paths) => {
                        if self.state == IndexBuildState::Building {
                            let mut paths = paths;
                            self.pending_paths.append(&mut paths);
                        } else {
                            action.apply_paths = coalesce_event_paths(paths);
                            self.mark_dirty(now);
                        }
                    },
                    WatcherEvent::RescanRequired => {
                        action.count_rescan = true;
                        if self.state != IndexBuildState::Building {
                            self.state = IndexBuildState::Building;
                            action.start_build = true;
                        }
                    },
                    WatcherEvent::HistoryDone => {},
                    WatcherEvent::Error(msg) => {
                        action.count_error = true;
                        action.record_error = Some(msg);
                    },
                }
            },
            LoopEvent::FlushTick { now } => {
                if self.dirty {
                    let idle = match self.last_search_at {
                        Some(t) => now.saturating_sub(t) >= INDEX_FLUSH_IDLE_MS,
                        None => true,
                    };
                    let late = match self.first_dirty_at {
                        Some(t) => now.saturating_sub(t) >= INDEX_FLUSH_MAX_DELAY_MS,
                        None => false,
                    };
                    if idle || late {
                        action.flush = true;
                        self.dirty = false;
                        self.first_dirty_at = None;
                    }
                }
            },
        }
        action
    }
}

} // verus!
