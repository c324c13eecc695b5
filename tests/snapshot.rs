use doublegit::apis::{Github, GithubProject, Loader, Registry};
use doublegit::history::Interval;
use doublegit::snapshot::{branches_at, main_branch, snapshot_dates, SnapshotDates};

fn row(name: &str, tag: bool, from: u32, to: Option<u32>, sha: &str) -> Interval {
    Interval {
        name: name.into(),
        tag,
        from_date: format!("2019-03-16 17:{:02}:00", from),
        to_date: to.map(|t| format!("2019-03-16 17:{:02}:00", t)),
        sha: sha.into(),
    }
}

fn t(n: u32) -> Option<String> {
    Some(format!("2019-03-16 17:{:02}:00", n))
}

fn record() -> Vec<Interval> {
    vec![
        row("br1", false, 1, Some(3), "one"),
        row("br1", false, 3, Some(4), "two"),
        row("br1", false, 4, Some(6), "one"),
        row("br2", false, 6, None, "three"),
        row("tag1", true, 7, None, "one"),
        row("feature", false, 3, None, "f"),
    ]
}

#[test]
fn snapshot_latest() {
    let d = snapshot_dates(&record(), "latest");
    assert_eq!(d, SnapshotDates { current: t(7), prev: t(6), next: None });
}

#[test]
fn snapshot_between_boundaries() {
    let d = snapshot_dates(&record(), "2019-03-16 17:05:00");
    assert_eq!(d, SnapshotDates { current: t(4), prev: t(3), next: t(6) });
    let d = snapshot_dates(&record(), "2019-03-16 17:03:00");
    assert_eq!(d, SnapshotDates { current: t(3), prev: t(1), next: t(4) });
}

#[test]
fn snapshot_before_everything_is_not_found() {
    let d = snapshot_dates(&record(), "2019-03-16 17:00:00");
    assert_eq!(d, SnapshotDates { current: None, prev: None, next: t(1) });
    let d = snapshot_dates(&vec![], "latest");
    assert_eq!(d, SnapshotDates { current: None, prev: None, next: None });
}

#[test]
fn branches_live_at_a_time() {
    let b = branches_at(&record(), "2019-03-16 17:03:00");
    assert_eq!(b, vec![("br1".to_string(), "two".to_string()), ("feature".to_string(), "f".to_string())]);
    let b = branches_at(&record(), "2019-03-16 17:06:00");
    assert_eq!(b, vec![("br2".to_string(), "three".to_string()), ("feature".to_string(), "f".to_string())]);
    assert!(branches_at(&record(), "2019-03-16 17:00:00").is_empty());
}

#[test]
fn main_branch_prefers_master() {
    let mut rows = record();
    rows.push(row("master", false, 2, None, "m"));
    assert_eq!(main_branch(&rows, None), Some("master".to_string()));
    assert_eq!(main_branch(&rows, Some("2019-03-16 17:01:00")), Some("br1".to_string()));
}

#[test]
fn main_branch_takes_the_latest_started() {
    assert_eq!(main_branch(&record(), None), Some("br2".to_string()));
    assert_eq!(main_branch(&record(), Some("2019-03-16 17:03:00")), Some("feature".to_string()));
    assert_eq!(main_branch(&record(), Some("2019-03-16 17:00:00")), None);
    assert_eq!(main_branch(&vec![], None), None);
}

#[test]
fn github_instances() {
    let g = Github::github_com();
    assert_eq!(g.api_path, "https://api.github.com");
    assert_eq!(g.git_path, "https://github.com");
    let e = Github::github_enterprise("https://api.example.com", "https://git.example.com");
    assert_eq!(e.api_path, "https://api.example.com");
    assert_eq!(e.git_path, "https://git.example.com");
    let p = GithubProject { platform: g, url: "https://github.com/remram44/doublegit".into() };
    assert_eq!(p.git_url(), Some("https://github.com/remram44/doublegit.git".to_string()));
}

#[test]
fn registry_lookup() {
    let mut r = Registry::new();
    assert_eq!(r.get_platform("github"), Some(Loader::Github));
    assert_eq!(r.get_platform("gitlab"), None);
    r.register_platform("hub", Loader::Github);
    assert_eq!(r.get_platform("hub"), Some(Loader::Github));
}

use doublegit::browse::{browse_target, snapshot_head, BrowseTarget, SnapshotHead};

#[test]
fn browse_finds_a_live_branch() {
    match browse_target(&record(), "2019-03-16%2017%3A05%3A00", "br1") {
        BrowseTarget::Found { date, dates, others, sha } => {
            assert_eq!(date, "2019-03-16 17:05:00");
            assert_eq!(dates, SnapshotDates { current: t(4), prev: t(3), next: t(6) });
            assert_eq!(others, vec![("feature".to_string(), "f".to_string())]);
            assert_eq!(sha, "one");
        }
        _ => panic!("not found"),
    }
}

#[test]
fn browse_misses() {
    assert!(matches!(browse_target(&record(), "%FF", "br1"), BrowseTarget::BadAddress));
    assert!(matches!(browse_target(&record(), "2019-03-16 17:00:00", "br1"), BrowseTarget::NoSnapshot(_)));
    assert!(matches!(browse_target(&record(), "latest", "br1"), BrowseTarget::NoBranch(_)));
    assert!(matches!(browse_target(&record(), "latest", "br2"), BrowseTarget::Found { .. }));
}

#[test]
fn percent_signs_without_digits_stay() {
    match snapshot_head(&record(), "2019-03-16 17:03:00%zz") {
        SnapshotHead::Head { date, name } => {
            assert_eq!(date, "2019-03-16 17:03:00%zz");
            assert_eq!(name, "feature");
        }
        _ => panic!(),
    }
}

#[test]
fn snapshot_heads() {
    match snapshot_head(&record(), "2019-03-16%2017:06:00") {
        SnapshotHead::Head { date, name } => {
            assert_eq!(date, "2019-03-16 17:06:00");
            assert_eq!(name, "br2");
        }
        _ => panic!(),
    }
    assert!(matches!(snapshot_head(&record(), "2019-03-16 17:00:00"), SnapshotHead::NoBranch));
    assert!(matches!(snapshot_head(&record(), "%C3%28"), SnapshotHead::BadAddress));
}
