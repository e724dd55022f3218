use filesystem::search::index_loop::{
    IndexBuildState, IndexLoop, LoopEvent, INDEX_FLUSH_IDLE_MS, INDEX_FLUSH_MAX_DELAY_MS,
};
use filesystem::watcher::events::WatcherEvent;

#[test]
fn build_state_numbers_round_trip() {
    for s in [
        IndexBuildState::Idle,
        IndexBuildState::Building,
        IndexBuildState::Ready,
        IndexBuildState::Error,
        IndexBuildState::Updating,
    ] {
        assert_eq!(IndexBuildState::from_u8(s.to_u8()), s);
    }
    assert_eq!(IndexBuildState::from_u8(99), IndexBuildState::Idle);
    assert_eq!(IndexBuildState::Ready.as_str(), "ready");
    assert_eq!(IndexBuildState::Building.as_str(), "building");
}

#[test]
fn new_loop_builds_from_idle_or_error() {
    let (l, start) = IndexLoop::new(IndexBuildState::Idle);
    assert!(start);
    assert_eq!(l.state, IndexBuildState::Building);
    let (l, start) = IndexLoop::new(IndexBuildState::Ready);
    assert!(!start);
    assert_eq!(l.state, IndexBuildState::Ready);
    let (_, start) = IndexLoop::new(IndexBuildState::Error);
    assert!(start);
}

#[test]
fn paths_during_build_wait_for_the_build() {
    let (mut l, _) = IndexLoop::new(IndexBuildState::Idle);
    let a = l.step(LoopEvent::Watcher {
        event: WatcherEvent::PathsChanged(vec!["/r/a".to_string(), "/r/a/b".to_string()]),
        now: 5,
    });
    assert!(a.apply_paths.is_empty());
    assert_eq!(l.pending_paths.len(), 2);
    let r = l.step(LoopEvent::RescanRequest);
    assert!(!r.start_build);
    assert_eq!(l.waiting_rescans, 1);
    let done = l.step(LoopEvent::BuildDone { built: true, now: 9, drained: vec!["/r/c".to_string()] });
    assert!(done.take_build);
    assert_eq!(done.answer_rescans, 1);
    let mut applied = done.apply_paths.clone();
    applied.sort();
    assert_eq!(applied, vec!["/r/a".to_string(), "/r/c".to_string()]);
    assert_eq!(l.state, IndexBuildState::Ready);
    assert!(l.dirty);
    assert_eq!(l.first_dirty_at, Some(9));
}

#[test]
fn failed_build_records_error() {
    let (mut l, _) = IndexLoop::new(IndexBuildState::Idle);
    let done = l.step(LoopEvent::BuildDone { built: false, now: 1, drained: vec![] });
    assert!(!done.take_build);
    assert_eq!(done.record_error.as_deref(), Some("index build was unexpectedly cancelled"));
    assert_eq!(l.state, IndexBuildState::Error);
}

#[test]
fn flush_waits_for_quiet_searches_or_max_delay() {
    let (mut l, _) = IndexLoop::new(IndexBuildState::Ready);
    let a = l.step(LoopEvent::FlushTick { now: 1_000_000 });
    assert!(!a.flush);
    l.step(LoopEvent::Watcher { event: WatcherEvent::PathsChanged(vec!["/x".to_string()]), now: 1000 });
    l.step(LoopEvent::Search { now: 1000 });
    let a = l.step(LoopEvent::FlushTick { now: 1000 + INDEX_FLUSH_IDLE_MS - 1 });
    assert!(!a.flush);
    let a = l.step(LoopEvent::FlushTick { now: 1000 + INDEX_FLUSH_IDLE_MS });
    assert!(a.flush);
    assert!(!l.dirty);
    assert_eq!(l.first_dirty_at, None);

    l.step(LoopEvent::Watcher { event: WatcherEvent::PathsChanged(vec!["/y".to_string()]), now: 2000 });
    let mut t = 2000;
    while t < 2000 + INDEX_FLUSH_MAX_DELAY_MS {
        l.step(LoopEvent::Search { now: t });
        t += 100_000;
    }
    l.step(LoopEvent::Search { now: 2000 + INDEX_FLUSH_MAX_DELAY_MS });
    let a = l.step(LoopEvent::FlushTick { now: 2000 + INDEX_FLUSH_MAX_DELAY_MS });
    assert!(a.flush);
}

#[test]
fn watcher_rescan_and_errors() {
    let (mut l, _) = IndexLoop::new(IndexBuildState::Ready);
    let a = l.step(LoopEvent::Watcher { event: WatcherEvent::RescanRequired, now: 0 });
    assert!(a.count_rescan);
    assert!(a.start_build);
    let a = l.step(LoopEvent::Watcher { event: WatcherEvent::RescanRequired, now: 0 });
    assert!(a.count_rescan);
    assert!(!a.start_build);
    let a = l.step(LoopEvent::Watcher { event: WatcherEvent::Error("boom".to_string()), now: 0 });
    assert!(a.count_error);
    assert_eq!(a.record_error.as_deref(), Some("boom"));
    let a = l.step(LoopEvent::Search { now: 3 });
    assert!(a.run_search);
    assert_eq!(l.last_search_at, Some(3));
}
