use doublegit::listing::{branch_names, is_tag_kind, log_commits, object_name, push_branch_name, CommitInfo};
use doublegit::Error;

#[test]
fn branch_listing_is_trimmed() {
    let names = branch_names(b"  keep-abc\n* main\n\n  keep-def  \n").unwrap();
    assert_eq!(names, vec!["keep-abc".to_string(), "* main".to_string(), "keep-def".to_string()]);
    assert!(branch_names(b"").unwrap().is_empty());
}

#[test]
fn branch_listing_must_be_text() {
    assert!(matches!(branch_names(b"  keep-abc\n  \xff\n"), Err(Error::NotText)));
}

#[test]
fn blank_names_are_skipped() {
    let mut v = vec!["a".to_string()];
    push_branch_name(&mut v, "");
    assert_eq!(v, vec!["a".to_string()]);
    push_branch_name(&mut v, "b");
    assert_eq!(v, vec!["a".to_string(), "b".to_string()]);
}

#[test]
fn object_names_are_trimmed() {
    assert_eq!(object_name(b"ae79568054d9fa2e4956968310655e9bcbd60e2f\n").unwrap(), "ae79568054d9fa2e4956968310655e9bcbd60e2f");
    assert!(matches!(object_name(b"\xc3\x28"), Err(Error::NotText)));
}

#[test]
fn tag_kind() {
    assert!(is_tag_kind(b"tag\n"));
    assert!(!is_tag_kind(b"commit\n"));
    assert!(!is_tag_kind(b"tag"));
}

#[test]
fn commit_log_lines() {
    let out = b"commit 8dcda34bbae83d2e3d856cc5dbc356ee6e947619
Author: doublegit <doublegit@example.com>

    two

commit ae79568054d9fa2e4956968310655e9bcbd60e2f
Author: doublegit <doublegit@example.com>
Date:   Sat Mar 16 17:00:00 2019 +0000

    one
";
    let commits = log_commits(out);
    assert_eq!(
        commits,
        vec![
            CommitInfo {
                sha: "8dcda34bbae83d2e3d856cc5dbc356ee6e947619".into(),
                author: "Author: doublegit <doublegit@example.com>".into(),
                date: "".into(),
                message: "two".into(),
            },
            CommitInfo {
                sha: "ae79568054d9fa2e4956968310655e9bcbd60e2f".into(),
                author: "Author: doublegit <doublegit@example.com>".into(),
                date: "Date:   Sat Mar 16 17:00:00 2019 +0000".into(),
                message: "one".into(),
            },
        ]
    );
}

#[test]
fn commit_log_without_commits() {
    assert!(log_commits(b"Author: nobody\n    text\n").is_empty());
    let commits = log_commits(b"commit abc\n    caf\xe9\n");
    assert_eq!(commits[0].message, "caf\u{FFFD}");
}
