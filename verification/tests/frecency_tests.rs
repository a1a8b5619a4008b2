use wkit::frecency::{ZEntry, ZIntegration};

#[test]
fn test_z_entry_parsing() {
    let line = "/Users/test/project|5.5|1640995200";
    let entry = ZEntry::from_line(line).unwrap();

    assert_eq!(entry.path, "/Users/test/project");
    assert_eq!(entry.rank_milli as f64 / 1000.0, 5.5);
    assert_eq!(entry.timestamp, 1640995200);
}

#[test]
fn test_z_entry_serialization() {
    let entry = ZEntry {
        path: String::from("/Users/test/project"),
        rank_milli: 5500,
        timestamp: 1640995200,
    };

    let line = entry.to_line();
    assert_eq!(line, "/Users/test/project|5.5|1640995200");
}

#[test]
fn test_z_entry_rank_shapes() {
    assert_eq!(ZEntry::from_line("/p|1|7").unwrap().rank_milli, 1000);
    assert_eq!(ZEntry::from_line("/p|0.5|7").unwrap().rank_milli, 500);
    assert_eq!(ZEntry::from_line("/p|5.25|7").unwrap().rank_milli, 5250);
    assert_eq!(ZEntry::from_line("/p|0.005|7").unwrap().rank_milli, 5);
    let e = ZEntry { path: String::from("/p"), rank_milli: 5250, timestamp: 7 };
    assert_eq!(e.to_line(), "/p|5.25|7");
    let whole = ZEntry { path: String::from("/p"), rank_milli: 3000, timestamp: 7 };
    assert_eq!(whole.to_line(), "/p|3|7");
}

#[test]
fn test_z_entry_bad_lines_dropped() {
    assert!(ZEntry::from_line("").is_none());
    assert!(ZEntry::from_line("/p|1").is_none());
    assert!(ZEntry::from_line("/p|1|2|3").is_none());
    assert!(ZEntry::from_line("/p|x|2").is_none());
    assert!(ZEntry::from_line("/p|1|x").is_none());
    assert!(ZEntry::from_line("/p|-1|2").is_none());
    assert!(ZEntry::from_line("/p|1|99999999999999999999999").is_none());
}

#[test]
fn test_store_round_trip() {
    let mut store = ZIntegration::new();
    store.upsert("/repos/alpha", 1000, 100);
    store.upsert("/repos/beta", 500, 200);
    let text = store.to_text();
    assert_eq!(text, "/repos/alpha|1|100\n/repos/beta|0.5|200\n");

    let read_back = ZIntegration::from_text(text.as_str());
    let entries = read_back.entries();
    assert_eq!(entries.len(), 2);
    assert_eq!(entries[0].path, "/repos/alpha");
    assert_eq!(entries[0].rank_milli, 1000);
    assert_eq!(entries[0].timestamp, 100);
    assert_eq!(entries[1].path, "/repos/beta");
    assert_eq!(entries[1].rank_milli, 500);
    assert_eq!(entries[1].timestamp, 200);
}

#[test]
fn test_from_text_drops_unreadable_lines() {
    let store = ZIntegration::from_text("/a|1|1\ngarbage\n/b|2|2\n");
    let entries = store.entries();
    assert_eq!(entries.len(), 2);
    assert_eq!(entries[0].path, "/a");
    assert_eq!(entries[1].path, "/b");
}

#[test]
fn test_upsert_existing_increases_rank_without_duplicate() {
    let mut store = ZIntegration::new();
    store.upsert("/repos/alpha", 1000, 100);
    store.upsert("/repos/alpha", 1000, 250);
    let entries = store.entries();
    assert_eq!(entries.len(), 1);
    assert_eq!(entries[0].rank_milli, 2000);
    assert_eq!(entries[0].timestamp, 250);
}

#[test]
fn test_upsert_new_path_appends_with_delta_rank() {
    let mut store = ZIntegration::new();
    store.upsert("/repos/alpha", 1000, 100);
    store.upsert("/repos/beta", 500, 150);
    let entries = store.entries();
    assert_eq!(entries.len(), 2);
    assert_eq!(entries[1].path, "/repos/beta");
    assert_eq!(entries[1].rank_milli, 500);
    assert_eq!(entries[1].timestamp, 150);
}

#[test]
fn test_add_worktree_with_alias() {
    let mut store = ZIntegration::new();
    store.add_worktree("/repos/project/feature", Some("myproj-feature"), 100);
    let entries = store.entries();
    assert_eq!(entries.len(), 2);
    assert_eq!(entries[0].path, "/repos/project/feature");
    assert_eq!(entries[0].rank_milli, 1000);
    assert_eq!(entries[1].path, "/repos/project/myproj-feature");
    assert_eq!(entries[1].rank_milli, 500);
}

#[test]
fn test_remove_worktree_drops_matching_path() {
    let mut store = ZIntegration::new();
    store.upsert("/a", 1000, 1);
    store.upsert("/b", 1000, 2);
    store.remove_worktree("/a");
    let entries = store.entries();
    assert_eq!(entries.len(), 1);
    assert_eq!(entries[0].path, "/b");
}

#[test]
fn test_cleanup_worktrees_evicts_missing() {
    let mut store = ZIntegration::new();
    store.upsert("/keep1", 1000, 1);
    store.upsert("/gone", 1000, 2);
    store.upsert("/keep2", 2000, 3);
    let removed = store.cleanup_worktrees(&vec![true, false, true]);
    assert_eq!(removed, vec![String::from("/gone")]);
    let entries = store.entries();
    assert_eq!(entries.len(), 2);
    assert_eq!(entries[0].path, "/keep1");
    assert_eq!(entries[0].rank_milli, 1000);
    assert_eq!(entries[0].timestamp, 1);
    assert_eq!(entries[1].path, "/keep2");
    assert_eq!(entries[1].rank_milli, 2000);
    assert_eq!(entries[1].timestamp, 3);
}

#[test]
fn test_cleanup_worktrees_nothing_missing() {
    let mut store = ZIntegration::new();
    store.upsert("/keep", 1000, 1);
    let removed = store.cleanup_worktrees(&vec![true]);
    assert!(removed.is_empty());
    assert_eq!(store.entries().len(), 1);
}

#[test]
fn test_frecency_score_example() {
    // rank 2.0 visited 30 minutes ago: weight 4.0, score 8.0
    let now: u64 = 1_000_000;
    let entry = ZEntry { path: String::from("/p"), rank_milli: 2000, timestamp: now - 30 * 60 };
    let fresh = entry.frecency_score(now);
    assert_eq!(fresh as f64 / 2000.0, 8.0);

    // the same entry re-evaluated 30 hours after the visit: weight 1.0, score 2.0
    let later = now + 30 * 3600 - 30 * 60;
    let aged = entry.frecency_score(later);
    assert_eq!(aged as f64 / 2000.0, 2.0);
}

#[test]
fn test_frecency_score_buckets_strictly_decrease() {
    let rank: u64 = 3000;
    let now: u64 = 10_000_000;
    let mk = |age: u64| ZEntry { path: String::from("/p"), rank_milli: rank, timestamp: now - age };
    let s1 = mk(30 * 60).frecency_score(now);
    let s2 = mk(2 * 3600).frecency_score(now);
    let s3 = mk(48 * 3600).frecency_score(now);
    let s4 = mk(200 * 3600).frecency_score(now);
    assert!(s1 > s2 && s2 > s3 && s3 > s4);
}

#[test]
fn test_frecency_score_future_timestamp_clamped() {
    let entry = ZEntry { path: String::from("/p"), rank_milli: 1000, timestamp: 2000 };
    // now earlier than the visit: age clamps to zero, freshest bucket
    assert_eq!(entry.frecency_score(1000), 1000 * 8);
}

#[test]
fn test_search_is_case_insensitive_and_skips_missing_paths() {
    let now: u64 = 1_000_000;
    let mut store = ZIntegration::new();
    store.upsert("/repos/MyProject", 1000, now);
    store.upsert("/repos/myproject-old", 1000, now);
    // second entry's path no longer exists on disk
    let found = store.search_worktrees("MYPROJECT", &vec![true, false], now);
    assert_eq!(found.len(), 1);
    assert_eq!(found[0].path, "/repos/MyProject");
}

#[test]
fn test_search_orders_by_descending_score() {
    let now: u64 = 1_000_000;
    let mut store = ZIntegration::new();
    store.upsert("/repos/proj-stale", 5000, now - 10 * 24 * 3600);
    store.upsert("/repos/proj-fresh", 1000, now - 60);
    let found = store.search_worktrees("proj", &vec![true, true], now);
    assert_eq!(found.len(), 2);
    // fresh: 1000 * 8 = 8000; stale: 5000 * 1 = 5000
    assert_eq!(found[0].path, "/repos/proj-fresh");
    assert_eq!(found[1].path, "/repos/proj-stale");
}

#[test]
fn test_search_matches_final_component() {
    let now: u64 = 1_000_000;
    let mut store = ZIntegration::new();
    store.upsert("/repos/widget", 1000, now);
    store.upsert("/repos/other", 1000, now);
    let found = store.search_worktrees("widg", &vec![true, true], now);
    assert_eq!(found.len(), 1);
    assert_eq!(found[0].path, "/repos/widget");
}

#[test]
fn test_find_best_match() {
    let now: u64 = 1_000_000;
    let mut store = ZIntegration::new();
    store.upsert("/repos/proj-low", 1000, now - 10 * 24 * 3600);
    store.upsert("/repos/proj-high", 1000, now - 60);
    let best = store.find_best_match("proj", &vec![true, true], now);
    assert_eq!(best, Some(String::from("/repos/proj-high")));
    let none = store.find_best_match("absent", &vec![true, true], now);
    assert_eq!(none, None);
}

#[test]
fn test_create_smart_alias_from_remote() {
    let now: u64 = 500;
    let mut store = ZIntegration::new();
    store.create_smart_alias(
        "/repos/widget",
        "feature",
        Some("git@github.com:acme/widget.git"),
        now,
    );
    let entries = store.entries();
    assert_eq!(entries.len(), 2);
    assert_eq!(entries[0].path, "/repos/widget");
    assert_eq!(entries[0].rank_milli, 1000);
    assert_eq!(entries[1].path, "/repos/widget-feature");
    assert_eq!(entries[1].rank_milli, 500);
}

#[test]
fn test_create_smart_alias_directory_fallback() {
    let now: u64 = 500;
    let mut store = ZIntegration::new();
    store.create_smart_alias("/repos/widget", "feature", None, now);
    let entries = store.entries();
    assert_eq!(entries.len(), 2);
    assert_eq!(entries[1].path, "/repos/widget-feature");
}
