use gitlogue::commit::Commit;
use gitlogue::log::Log;

fn commit(hash: &str, time: i64) -> Commit {
    let mut c = Commit::new();
    c.tree_hash = "t".to_string();
    c.commit_hash = hash.to_string();
    c.committer_time = time;
    c
}

fn hashes(v: &[Commit]) -> Vec<String> {
    v.iter().map(|c| c.commit_hash.clone()).collect()
}

#[test]
fn new_log_is_empty() {
    let log = Log::new();
    assert!(log.is_empty());
    assert!(log.iterate().is_empty());
    assert!(log.get(0).is_none());
}

#[test]
fn log_with_a_commit_is_not_empty() {
    let mut log = Log::new();
    log.insert(commit("a", 0));
    assert!(!log.is_empty());
    log.insert(commit("b", 0));
    assert!(!log.is_empty());
}

#[test]
fn same_time_commits_are_kept_in_insertion_order() {
    let mut log = Log::new();
    log.insert(commit("first", 100));
    log.insert(commit("second", 100));
    let same = log.get(100).unwrap();
    assert_eq!(hashes(same), vec!["first", "second"]);
}

#[test]
fn get_gives_only_the_commits_of_that_time() {
    let mut log = Log::new();
    log.insert(commit("a", 3));
    log.insert(commit("b", 1));
    log.insert(commit("c", 3));
    log.insert(commit("d", 2));
    log.insert(commit("e", 3));
    assert_eq!(hashes(log.get(3).unwrap()), vec!["a", "c", "e"]);
    assert_eq!(hashes(log.get(1).unwrap()), vec!["b"]);
    assert_eq!(hashes(log.get(2).unwrap()), vec!["d"]);
    assert!(log.get(4).is_none());
    assert!(log.get(-3).is_none());
}

#[test]
fn iterate_goes_from_the_earliest_to_the_latest() {
    let mut log = Log::new();
    log.insert(commit("newest", 300));
    log.insert(commit("middle", 200));
    log.insert(commit("oldest", 100));
    assert_eq!(hashes(&log.iterate()), vec!["oldest", "middle", "newest"]);
}

#[test]
fn iterate_keeps_insertion_order_within_a_time() {
    let mut log = Log::new();
    log.insert(commit("a", 5));
    log.insert(commit("b", 1));
    log.insert(commit("c", 5));
    log.insert(commit("d", -7));
    log.insert(commit("e", 1));
    log.insert(commit("f", 5));
    assert_eq!(hashes(&log.iterate()), vec!["d", "b", "e", "a", "c", "f"]);
}

#[test]
fn iterate_orders_negative_times_first() {
    let mut log = Log::new();
    log.insert(commit("zero", 0));
    log.insert(commit("minus", i64::MIN));
    log.insert(commit("plus", i64::MAX));
    log.insert(commit("minus-one", -1));
    assert_eq!(hashes(&log.iterate()), vec!["minus", "minus-one", "zero", "plus"]);
}

#[test]
fn iterate_can_be_repeated() {
    let mut log = Log::new();
    log.insert(commit("a", 2));
    log.insert(commit("b", 1));
    let once = hashes(&log.iterate());
    let twice = hashes(&log.iterate());
    assert_eq!(once, twice);
    assert_eq!(once, vec!["b", "a"]);
}

#[test]
fn iterate_hands_out_every_commit_once() {
    let mut log = Log::new();
    for i in 0..50i64 {
        log.insert(commit(&format!("c{}", i), (i * 7) % 5));
    }
    let all = log.iterate();
    assert_eq!(all.len(), 50);
    for w in all.windows(2) {
        assert!(w[0].committer_time <= w[1].committer_time);
    }
    let mut seen = hashes(&all);
    seen.sort();
    seen.dedup();
    assert_eq!(seen.len(), 50);
}

#[test]
fn iterate_hands_out_whole_records() {
    let mut log = Log::new();
    let mut c = commit("h", 9);
    c.parent_hashes = vec!["pa".to_string(), "pb".to_string()];
    c.author_name = "A ".to_string();
    c.message = "msg".to_string();
    log.insert(c);
    let all = log.iterate();
    assert_eq!(all[0].commit_hash, "h");
    assert_eq!(all[0].parent_hashes, vec!["pa".to_string(), "pb".to_string()]);
    assert_eq!(all[0].author_name, "A ");
    assert_eq!(all[0].message, "msg");
    assert_eq!(all[0].committer_time, 9);
}

#[test]
fn equal_commits_are_both_kept() {
    let mut log = Log::new();
    log.insert(commit("same", 1));
    log.insert(commit("same", 1));
    assert_eq!(log.get(1).unwrap().len(), 2);
    assert_eq!(log.iterate().len(), 2);
}
