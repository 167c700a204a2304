use scribe::git::HistoryWalk;

fn hashes(walk: HistoryWalk) -> Vec<String> {
    walk.finish().into_iter().map(|c| c.hash).collect()
}

fn strings(v: &[&str]) -> Vec<String> {
    v.iter().map(|s| s.to_string()).collect()
}

#[test]
fn walk_reports_commits_with_the_file_oldest_first() {
    let mut walk = HistoryWalk::new("h3".to_string(), None);
    assert_eq!(walk.next(), Some("h3".to_string()));
    assert!(walk.wants_file());
    walk.record(strings(&["h2"]), Some((30, b"three".to_vec())));
    assert_eq!(walk.next(), Some("h2".to_string()));
    walk.record(strings(&["h1"]), None);
    assert_eq!(walk.next(), Some("h1".to_string()));
    walk.record(vec![], Some((10, b"one".to_vec())));
    assert_eq!(walk.next(), None);
    let commits = walk.finish();
    assert_eq!(commits.len(), 2);
    assert_eq!(commits[0].hash, "h1");
    assert_eq!(commits[0].timestamp, 10);
    assert_eq!(commits[0].blob_content, b"one".to_vec());
    assert_eq!(commits[1].hash, "h3");
}

#[test]
fn walk_sets_aside_the_last_processed_commit_and_its_ancestors() {
    let mut walk = HistoryWalk::new("h3".to_string(), Some("h2".to_string()));
    assert_eq!(walk.next(), Some("h2".to_string()));
    assert!(!walk.wants_file());
    walk.record(strings(&["h1"]), None);
    assert_eq!(walk.next(), Some("h1".to_string()));
    walk.record(vec![], None);
    assert_eq!(walk.next(), Some("h3".to_string()));
    assert!(walk.wants_file());
    walk.record(strings(&["h2"]), Some((30, Vec::new())));
    assert_eq!(walk.next(), None);
    assert_eq!(walk.next(), None);
    assert_eq!(hashes(walk), vec!["h3"]);
}

#[test]
fn walk_orders_a_merge_history_ancestors_first() {
    // m merges a and b, which both have the parent c.
    let mut walk = HistoryWalk::new("m".to_string(), None);
    assert_eq!(walk.next(), Some("m".to_string()));
    walk.record(strings(&["a", "b"]), Some((4, Vec::new())));
    assert_eq!(walk.next(), Some("b".to_string()));
    walk.record(strings(&["c"]), Some((3, Vec::new())));
    assert_eq!(walk.next(), Some("c".to_string()));
    walk.record(vec![], Some((1, Vec::new())));
    assert_eq!(walk.next(), Some("a".to_string()));
    walk.record(strings(&["c"]), Some((2, Vec::new())));
    assert_eq!(walk.next(), None);
    let order = hashes(walk);
    let pos = |h: &str| order.iter().position(|x| x == h).unwrap();
    assert_eq!(order.len(), 4);
    assert!(pos("c") < pos("a"));
    assert!(pos("c") < pos("b"));
    assert!(pos("a") < pos("m"));
    assert!(pos("b") < pos("m"));
}

#[test]
fn walk_skips_every_ancestor_of_the_last_processed_commit() {
    // m merges a and b, which both have the parent c; a was processed.
    let mut walk = HistoryWalk::new("m".to_string(), Some("a".to_string()));
    assert_eq!(walk.next(), Some("a".to_string()));
    walk.record(strings(&["c"]), None);
    assert_eq!(walk.next(), Some("c".to_string()));
    walk.record(vec![], None);
    assert_eq!(walk.next(), Some("m".to_string()));
    walk.record(strings(&["a", "b"]), Some((4, Vec::new())));
    assert_eq!(walk.next(), Some("b".to_string()));
    walk.record(strings(&["c"]), Some((3, Vec::new())));
    assert_eq!(walk.next(), None);
    assert_eq!(hashes(walk), vec!["b", "m"]);
}

#[test]
fn walk_with_head_already_processed_reports_nothing() {
    let mut walk = HistoryWalk::new("h1".to_string(), Some("h1".to_string()));
    assert_eq!(walk.next(), Some("h1".to_string()));
    walk.record(vec![], None);
    assert_eq!(walk.next(), None);
    assert!(hashes(walk).is_empty());
}

#[test]
fn walk_sets_aside_only_ancestors_of_the_last_processed_commit() {
    // h3 and s2 both have the parent h1; s2 was processed on another branch,
    // so only s2 and h1 are set aside and h3 is new.
    let mut walk = HistoryWalk::new("h3".to_string(), Some("s2".to_string()));
    assert_eq!(walk.next(), Some("s2".to_string()));
    assert!(!walk.wants_file());
    walk.record(strings(&["h1"]), None);
    assert_eq!(walk.next(), Some("h1".to_string()));
    walk.record(vec![], None);
    assert_eq!(walk.next(), Some("h3".to_string()));
    assert!(walk.wants_file());
    walk.record(strings(&["h1"]), Some((3, b"x".to_vec())));
    assert_eq!(walk.next(), None);
    assert_eq!(hashes(walk), vec!["h3"]);
}
