use wiki_game_solver::AdjacencyMap;
use wiki_game_solver::FileWatcher;
use wiki_game_solver::QUIET_WINDOW_SECS;
use wiki_game_solver::QueryOutcome;
use wiki_game_solver::SETTLE_DELAY_SECS;
use wiki_game_solver::SnapshotManager;
use wiki_game_solver::encode_links;
use wiki_game_solver::get_link_data;

fn artifact_of(edges: &[(u32, u32)]) -> Vec<u8> {
    let mut m = AdjacencyMap::new();
    for &(u, v) in edges {
        m.push_edge(u, v);
    }
    encode_links(&m)
}

#[test]
fn queries_before_first_load_get_not_ready() {
    let manager = SnapshotManager::new();
    assert!(!manager.is_ready());
    assert!(matches!(manager.solve(1, 2), QueryOutcome::NotReady));
}

#[test]
fn artifact_replacement_after_settle_delay_serves_the_new_snapshot() {
    // Simulated publish, watcher signal, settle delay, reload and swap:
    // queries after the swap observe the whole new snapshot; the whole old
    // one was served until then.
    let mut manager = SnapshotManager::new();
    let mut watcher = FileWatcher::new();
    let mut clock: u64 = 1000;

    let old_artifact = artifact_of(&[(1, 2)]);
    assert!(watcher.on_event(true, clock));
    clock += SETTLE_DELAY_SECS;
    manager.install(get_link_data(&old_artifact).unwrap());
    assert!(manager.is_ready());
    assert!(matches!(manager.solve(1, 2), QueryOutcome::Path(p) if p == vec![1, 2]));
    assert!(matches!(manager.solve(1, 3), QueryOutcome::NotFound));

    // the artifact is replaced and the watcher signals the change
    clock += QUIET_WINDOW_SECS;
    let new_artifact = artifact_of(&[(1, 3)]);
    assert!(watcher.on_event(true, clock));
    // a query in flight during the settle delay still sees the old snapshot
    assert!(matches!(manager.solve(1, 2), QueryOutcome::Path(p) if p == vec![1, 2]));
    clock += SETTLE_DELAY_SECS;
    manager.install(get_link_data(&new_artifact).unwrap());
    // after the swap every query observes the new snapshot wholesale
    assert!(matches!(manager.solve(1, 3), QueryOutcome::Path(p) if p == vec![1, 3]));
    assert!(matches!(manager.solve(1, 2), QueryOutcome::NotFound));
    let _ = clock;
}

#[test]
fn watcher_collapses_signal_bursts() {
    let mut watcher = FileWatcher::new();
    assert!(watcher.on_event(true, 5000));
    // further signals within the quiet window are suppressed
    assert!(!watcher.on_event(true, 5001));
    assert!(!watcher.on_event(true, 5000 + QUIET_WINDOW_SECS - 1));
    // a signal after the window is accepted again
    assert!(watcher.on_event(true, 5000 + QUIET_WINDOW_SECS));
    assert!(!watcher.on_event(true, 5000 + QUIET_WINDOW_SECS + 1));
}

#[test]
fn watcher_ignores_non_modification_events() {
    let mut watcher = FileWatcher::new();
    assert!(!watcher.on_event(false, 100));
    // the ignored event did not start a quiet window
    assert!(watcher.on_event(true, 101));
}

#[test]
fn failed_reload_keeps_the_old_snapshot_serving() {
    let mut manager = SnapshotManager::new();
    manager.install(get_link_data(&artifact_of(&[(4, 5)])).unwrap());
    // a broken artifact fails to decode; the manager is left untouched
    let broken = vec![0, 1, 2, 3];
    assert!(get_link_data(&broken).is_err());
    assert!(matches!(manager.solve(4, 5), QueryOutcome::Path(p) if p == vec![4, 5]));
}

#[test]
fn solve_handles_equal_endpoints_and_missing_pages() {
    let mut manager = SnapshotManager::new();
    manager.install(get_link_data(&artifact_of(&[(1, 2)])).unwrap());
    assert!(matches!(manager.solve(9, 9), QueryOutcome::Path(p) if p == vec![9]));
    assert!(matches!(manager.solve(8, 9), QueryOutcome::NotFound));
}
