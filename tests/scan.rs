use commit_counter::scan::{Listing, Scan};

fn entry(path: &str, is_dir: bool, has_git: bool) -> Listing {
    Listing { path: path.to_string(), is_dir, has_git }
}

#[test]
fn root_that_is_not_a_directory_finds_nothing() {
    let mut s = Scan::start("file.txt".to_string(), false);
    assert!(s.is_done());
    assert_eq!(s.next_dir(), None);
    assert!(s.into_found().is_empty());
}

#[test]
fn directory_without_repositories_finds_nothing() {
    let mut s = Scan::start("root".to_string(), true);
    assert_eq!(s.next_dir(), Some("root".to_string()));
    s.visit(&vec![entry("root/notes.txt", false, false)]);
    assert!(s.is_done());
    assert!(s.into_found().is_empty());
}

#[test]
fn walk_stops_at_repositories() {
    let mut s = Scan::start("root".to_string(), true);
    let mut listed: Vec<String> = Vec::new();
    while let Some(dir) = s.next_dir() {
        listed.push(dir.clone());
        let entries = match dir.as_str() {
            "root" => vec![
                entry("root/a", true, true),
                entry("root/group", true, false),
                entry("root/readme", false, false),
                entry("root/link.git", false, true),
            ],
            "root/group" => vec![entry("root/group/b", true, true), entry("root/group/c", true, false)],
            "root/group/c" => vec![],
            other => panic!("listed {} inside a repository", other),
        };
        s.visit(&entries);
    }
    assert_eq!(listed, vec!["root", "root/group", "root/group/c"]);
    assert_eq!(s.into_found(), vec!["root/a".to_string(), "root/group/b".to_string()]);
}

#[test]
fn repositories_come_in_depth_first_listing_order() {
    let mut s = Scan::start("r".to_string(), true);
    let mut listed: Vec<String> = Vec::new();
    while let Some(dir) = s.next_dir() {
        listed.push(dir.clone());
        let entries = match dir.as_str() {
            "r" => vec![entry("r/x", true, false), entry("r/y", true, true), entry("r/z", true, false)],
            "r/x" => vec![entry("r/x/a", true, true), entry("r/x/deep", true, false)],
            "r/x/deep" => vec![entry("r/x/deep/b", true, true)],
            "r/z" => vec![entry("r/z/c", true, true)],
            other => panic!("listed {} inside a repository", other),
        };
        s.visit(&entries);
    }
    assert_eq!(listed, vec!["r", "r/x", "r/x/deep", "r/z"]);
    assert_eq!(
        s.into_found(),
        vec![
            "r/x/a".to_string(),
            "r/x/deep/b".to_string(),
            "r/y".to_string(),
            "r/z/c".to_string()
        ]
    );
}

#[test]
fn root_holding_git_is_listed_not_recorded() {
    let mut s = Scan::start("repo".to_string(), true);
    assert_eq!(s.next_dir(), Some("repo".to_string()));
    s.visit(&vec![entry("repo/.git", true, false), entry("repo/sub", true, true)]);
    assert_eq!(s.next_dir(), Some("repo/.git".to_string()));
    s.visit(&vec![]);
    assert_eq!(s.next_dir(), None);
    assert_eq!(s.into_found(), vec!["repo/sub".to_string()]);
}
