use commit_counter::report::{RepoOutcome, Report};
use commit_counter::tally::{count_authors, Tally};

fn names(list: &[&str]) -> Option<Tally> {
    let authors: Vec<Option<String>> = list.iter().map(|n| Some(n.to_string())).collect();
    Some(count_authors(&authors))
}

#[test]
fn two_repositories_scenario() {
    let mut r = Report::new();
    r.absorb(RepoOutcome {
        counts: names(&["alice@x.com", "alice@x.com", "Bob Lee"]),
        origin: None,
    });
    r.absorb(RepoOutcome {
        counts: names(&["bob lee", "bob lee", "bob lee"]),
        origin: Some("git@host:repo.git".to_string()),
    });
    assert_eq!(
        r.ranked(),
        vec![("bob lee".to_string(), 4), ("alice@x.com".to_string(), 2)]
    );
    assert_eq!(r.origins(), &vec!["git@host:repo.git".to_string()]);
}

#[test]
fn totals_do_not_depend_on_completion_order() {
    let a = || RepoOutcome { counts: names(&["x", "y", "x"]), origin: Some("a".to_string()) };
    let b = || RepoOutcome { counts: names(&["y", "z"]), origin: Some("b".to_string()) };
    let mut first = Report::new();
    first.absorb(a());
    first.absorb(b());
    let mut second = Report::new();
    second.absorb(b());
    second.absorb(a());
    assert_eq!(first.ranked().len(), 3);
    for key in ["x ", "y ", "z "] {
        assert_eq!(first.count_of(key), second.count_of(key));
    }
    assert_eq!(first.count_of("y "), 2);
    assert_eq!(first.origins(), &vec!["a".to_string(), "b".to_string()]);
    assert_eq!(second.origins(), &vec!["b".to_string(), "a".to_string()]);
}

#[test]
fn unresolvable_head_still_records_origin() {
    let mut r = Report::new();
    r.absorb(RepoOutcome { counts: None, origin: Some("https://h/empty.git".to_string()) });
    assert!(r.ranked().is_empty());
    assert_eq!(r.origins(), &vec!["https://h/empty.git".to_string()]);
}

#[test]
fn repository_without_origin_adds_only_counts() {
    let mut r = Report::new();
    r.absorb(RepoOutcome { counts: names(&["Ann Lee"]), origin: None });
    assert_eq!(r.count_of("ann lee"), 1);
    assert!(r.origins().is_empty());
}

#[test]
fn commits_without_author_name_are_not_counted() {
    let mut r = Report::new();
    r.absorb(RepoOutcome { counts: Some(count_authors(&vec![None, None])), origin: None });
    assert!(r.ranked().is_empty());
}

#[test]
fn empty_report_has_empty_sections() {
    let r = Report::new();
    assert!(r.ranked().is_empty());
    assert!(r.origins().is_empty());
}
