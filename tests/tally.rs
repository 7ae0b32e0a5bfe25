use commit_counter::tally::{count_authors, Tally};

#[test]
fn add_accumulates_per_identity() {
    let mut t = Tally::new();
    t.add("bob lee", 1);
    t.add("bob lee", 3);
    t.add("alice@x.com", 2);
    assert_eq!(t.len(), 2);
    assert_eq!(t.count_of("bob lee"), 4);
    assert_eq!(t.count_of("alice@x.com"), 2);
    assert_eq!(t.count_of("nobody"), 0);
}

#[test]
fn add_stops_at_largest_count() {
    let mut t = Tally::new();
    t.add("k", u64::MAX - 1);
    t.add("k", 5);
    assert_eq!(t.count_of("k"), u64::MAX);
}

#[test]
fn merge_sums_counts_of_each_identity() {
    let mut a = Tally::new();
    a.add("k", 2);
    a.add("only a", 1);
    let mut b = Tally::new();
    b.add("k", 5);
    b.add("only b", 7);
    a.merge(&b);
    assert_eq!(a.count_of("k"), 7);
    assert_eq!(a.count_of("only a"), 1);
    assert_eq!(a.count_of("only b"), 7);
    assert_eq!(a.len(), 3);
}

#[test]
fn merge_of_many_repositories_in_any_order() {
    let counts: Vec<u64> = vec![3, 1, 4, 1, 5, 9, 2, 6];
    let mut forward = Tally::new();
    for c in counts.iter() {
        let mut local = Tally::new();
        local.add("k", *c);
        forward.merge(&local);
    }
    let mut backward = Tally::new();
    for c in counts.iter().rev() {
        let mut local = Tally::new();
        local.add("k", *c);
        backward.merge(&local);
    }
    assert_eq!(forward.count_of("k"), 31);
    assert_eq!(backward.count_of("k"), 31);
}

#[test]
fn count_authors_skips_commits_without_name() {
    let names = vec![
        Some("alice@x.com".to_string()),
        None,
        Some("Bob Lee".to_string()),
        Some("alice@x.com".to_string()),
    ];
    let t = count_authors(&names);
    assert_eq!(t.len(), 2);
    assert_eq!(t.count_of("alice@x.com"), 2);
    assert_eq!(t.count_of("bob lee"), 1);
}

#[test]
fn ranked_is_descending_by_count() {
    let mut t = Tally::new();
    t.add("one", 1);
    t.add("three", 3);
    t.add("two", 2);
    let r = t.ranked();
    assert_eq!(
        r,
        vec![("three".to_string(), 3), ("two".to_string(), 2), ("one".to_string(), 1)]
    );
}

#[test]
fn ranked_of_empty_tally_is_empty() {
    let t = Tally::new();
    assert!(t.ranked().is_empty());
}
