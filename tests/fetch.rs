use doublegit::fetch::{parse_fetch_output, parse_operation, Operation, Ref};
use doublegit::Error;

fn branch(name: &str) -> Ref {
    Ref { name: name.into(), tag: false }
}

fn tag(name: &str) -> Ref {
    Ref { name: name.into(), tag: true }
}

#[test]
fn test_parse_operation() {
    assert!(parse_operation("").is_err());
    assert!(parse_operation("++").is_err());
    assert_eq!("\u{E9}".len(), 2);
    assert!(parse_operation("\u{E9}").is_err());
    assert_eq!(parse_operation("+").unwrap(), Operation::Forced);
}

#[test]
fn test_parse_fetch() {
    let stderr: &[u8] = b"
Fetching origin
remote: Enumerating objects: 14, done.
remote: Counting objects: 100% (14/14), done.
remote: Compressing objects: 100% (11/11), done.
remote: Total 14 (delta 3), reused 12 (delta 1), pack-reused 0
Unpacking objects: 100% (14/14), done.
From github.com:remram44/doublegit
 * [new branch]      master     -> origin/master
   673b728..466e90b  devel      -> origin/devel
 - [deleted]         (none)     -> origin/old
";
    let output = parse_fetch_output(stderr).unwrap();
    assert_eq!(
        output.new,
        [Ref { name: "master".into(), tag: false }].iter().cloned().collect::<Vec<_>>(),
    );
    assert_eq!(
        output.changed,
        [Ref { name: "devel".into(), tag: false }].iter().cloned().collect::<Vec<_>>(),
    );
    assert_eq!(
        output.removed,
        [Ref { name: "old".into(), tag: false }].iter().cloned().collect::<Vec<_>>(),
    );
}

#[test]
fn every_operation_code() {
    assert_eq!(parse_operation(" ").unwrap(), Operation::FastForward);
    assert_eq!(parse_operation("-").unwrap(), Operation::Pruned);
    assert_eq!(parse_operation("t").unwrap(), Operation::Tag);
    assert_eq!(parse_operation("*").unwrap(), Operation::New);
    assert_eq!(parse_operation("!").unwrap(), Operation::Reject);
    assert_eq!(parse_operation("=").unwrap(), Operation::Noop);
    assert!(matches!(parse_operation("x"), Err(Error::InvalidOperation)));
}

#[test]
fn new_branch_line() {
    let out = parse_fetch_output(b" * [new branch]      master     -> origin/master").unwrap();
    assert_eq!(out.new, vec![branch("master")]);
    assert!(out.changed.is_empty());
    assert!(out.removed.is_empty());
}

#[test]
fn fast_forward_line() {
    let out = parse_fetch_output(b"   673b728..466e90b  devel      -> origin/devel").unwrap();
    assert_eq!(out.changed, vec![branch("devel")]);
    assert!(out.new.is_empty());
}

#[test]
fn deleted_line() {
    let out = parse_fetch_output(b" - [deleted]         (none)     -> origin/old").unwrap();
    assert_eq!(out.removed, vec![branch("old")]);
    assert!(out.new.is_empty());
}

#[test]
fn tags_and_forced_updates() {
    let text = b" * [new tag]         v1.0       -> v1.0\n \
t [tag update]      v0.9       -> v0.9\n \
+ 1234567...89abcde feature    -> origin/feature  (forced update)\n \
- [deleted]         (none)     -> v0.1\n";
    let out = parse_fetch_output(text).unwrap();
    assert_eq!(out.new, vec![tag("v1.0")]);
    assert_eq!(out.changed, vec![tag("v0.9"), branch("feature")]);
    assert_eq!(out.removed, vec![tag("v0.1")]);
}

#[test]
fn branch_names_keep_their_slashes() {
    let out = parse_fetch_output(b" * [new branch]      fix/bug    -> origin/fix/bug").unwrap();
    assert_eq!(out.new, vec![branch("fix/bug")]);
}

#[test]
fn noop_and_other_lines_change_nothing() {
    let text = b" = [up to date]      master     -> origin/master\nFrom ../origin\n   (refs/remotes/origin/HEAD has become dangling)\n\n";
    let out = parse_fetch_output(text).unwrap();
    assert!(out.new.is_empty() && out.changed.is_empty() && out.removed.is_empty());
}

#[test]
fn empty_output() {
    let out = parse_fetch_output(b"").unwrap();
    assert!(out.new.is_empty() && out.changed.is_empty() && out.removed.is_empty());
}

#[test]
fn repeated_ref_is_listed_once() {
    let text = b"   1111111..2222222  devel      -> origin/devel\n + 2222222...3333333 devel      -> origin/devel  (forced update)\n";
    let out = parse_fetch_output(text).unwrap();
    assert_eq!(out.changed, vec![branch("devel")]);
}

#[test]
fn rejected_update_fails() {
    let text = b" * [new branch]      a          -> origin/a\n ! [rejected]        b          -> origin/b  (non-fast-forward)\n";
    match parse_fetch_output(text) {
        Err(Error::Rejected(name)) => assert_eq!(name, "origin/b"),
        other => panic!("unexpected {:?}", other.is_ok()),
    }
}

#[test]
fn other_remote_fails() {
    match parse_fetch_output(b" * [new branch]      a          -> upstream/a") {
        Err(Error::UnknownRemote(name)) => assert_eq!(name, "upstream/a"),
        other => panic!("unexpected {:?}", other.is_ok()),
    }
}

#[test]
fn non_utf8_line_fails() {
    let text: &[u8] = b"From x\n\xff\xfe junk\n * [new branch]      a          -> origin/a\n";
    assert!(matches!(parse_fetch_output(text), Err(Error::NotText)));
}

#[test]
fn first_failing_line_decides() {
    let text: &[u8] = b" ! [rejected]        b          -> origin/b\n\xff\n";
    assert!(matches!(parse_fetch_output(text), Err(Error::Rejected(_))));
    let text: &[u8] = b"\xff\n ! [rejected]        b          -> origin/b\n";
    assert!(matches!(parse_fetch_output(text), Err(Error::NotText)));
}

#[test]
fn non_ascii_names_are_decoded() {
    let out = parse_fetch_output(" * [new branch]      caf\u{E9}       -> origin/caf\u{E9}".as_bytes()).unwrap();
    assert_eq!(out.new, vec![branch("caf\u{E9}")]);
}

#[test]
fn malformed_lines_are_ignored() {
    let text = b" * [new branch]      master     -> \n * [new branch] master origin/master\n*  a  b -> origin/c\n * [new branch]      master     -> origin/x  \n";
    let out = parse_fetch_output(text).unwrap();
    assert_eq!(out.new, vec![branch("x")]);
    let out = parse_fetch_output(b" * [new branch]      master     -> origin/y ").unwrap();
    assert!(out.new.is_empty());
}

#[test]
fn unknown_operation_code_fails() {
    let text = b" * [new branch]      a          -> origin/a\n x 1234567..89abcde  b          -> origin/b\n";
    assert!(matches!(parse_fetch_output(text), Err(Error::InvalidOperation)));
    let text = " \u{E9} [new branch]      a          -> origin/a".as_bytes();
    assert!(matches!(parse_fetch_output(text), Err(Error::InvalidOperation)));
    assert!(matches!(parse_fetch_output(b" x a b -> c"), Err(Error::InvalidOperation)));
}
