use doublegit::fetch::Ref;
use doublegit::history::{text_less, History, Interval, Timestamp};
use doublegit::keeper::{keep_branch_name, kept_tag_ref, superseded_branches};

fn row(name: &str, tag: bool, from: &str, to: Option<&str>, sha: &str) -> Interval {
    Interval { name: name.into(), tag, from_date: from.into(), to_date: to.map(|s| s.into()), sha: sha.into() }
}

#[test]
fn timestamp_text() {
    let t = Timestamp { year: 2019, month: 3, day: 16, hour: 17, minute: 5, second: 9 };
    assert_eq!(t.to_text(), "2019-03-16 17:05:09");
    let t = Timestamp { year: 987, month: 12, day: 31, hour: 0, minute: 59, second: 0 };
    assert_eq!(t.to_text(), "0987-12-31 00:59:00");
}

#[test]
fn text_order_is_byte_order() {
    assert!(text_less("2019-03-16 17:01:00", "2019-03-16 17:03:00"));
    assert!(!text_less("2019-03-16 17:03:00", "2019-03-16 17:01:00"));
    assert!(!text_less("a", "a"));
    assert!(text_less("a", "ab"));
    assert!(text_less("", "a"));
    assert!(text_less("Z", "a"));
    assert!(text_less("z", "\u{E9}"));
}

#[test]
fn close_takes_the_latest_open_interval() {
    let mut h = History {
        rows: vec![
            row("a", false, "2019-01-01 00:00:00", None, "x"),
            row("a", false, "2019-01-03 00:00:00", None, "y"),
            row("a", true, "2019-01-04 00:00:00", None, "z"),
            row("a", false, "2019-01-02 00:00:00", None, "w"),
        ],
    };
    let k = h.close(&Ref { name: "a".into(), tag: false }, &"2019-01-05 00:00:00".to_string());
    assert_eq!(k, Some(1));
    assert_eq!(h.rows[1].to_date.as_deref(), Some("2019-01-05 00:00:00"));
    assert_eq!(h.rows[0].to_date, None);
    assert_eq!(h.rows[2].to_date, None);
}

#[test]
fn close_without_open_interval_does_nothing() {
    let mut h = History { rows: vec![row("a", false, "2019-01-01 00:00:00", Some("2019-01-02 00:00:00"), "x")] };
    let before = h.rows.clone();
    assert_eq!(h.close(&Ref { name: "a".into(), tag: false }, &"2019-01-05 00:00:00".to_string()), None);
    assert_eq!(h.rows, before);
}

#[test]
fn open_appends_an_interval() {
    let mut h = History { rows: vec![] };
    h.open(&Ref { name: "t".into(), tag: true }, &"2019-01-01 00:00:00".to_string(), &"abc".to_string());
    assert_eq!(h.rows, vec![row("t", true, "2019-01-01 00:00:00", None, "abc")]);
}

#[test]
fn keeper_names() {
    assert_eq!(keep_branch_name("abc"), "keep-abc");
    assert_eq!(kept_tag_ref("abc"), "refs/kept-tags/tag-abc");
}

#[test]
fn superseded_excludes_own_keeper() {
    let listed = vec!["keep-a".to_string(), "keep-b".to_string(), "keep-c".to_string()];
    assert_eq!(superseded_branches(&listed, &"keep-b".to_string()), vec!["keep-a".to_string(), "keep-c".to_string()]);
    assert!(superseded_branches(&vec![], &"keep-b".to_string()).is_empty());
}

#[test]
fn written_stamps_sort_by_time() {
    let a = Timestamp { year: 2019, month: 3, day: 16, hour: 17, minute: 59, second: 59 };
    let b = Timestamp { year: 2019, month: 3, day: 16, hour: 18, minute: 0, second: 0 };
    let c = Timestamp { year: 2020, month: 1, day: 1, hour: 0, minute: 0, second: 0 };
    let d = Timestamp { year: 999, month: 12, day: 31, hour: 23, minute: 59, second: 59 };
    assert!(text_less(&a.to_text(), &b.to_text()));
    assert!(text_less(&b.to_text(), &c.to_text()));
    assert!(text_less(&d.to_text(), &a.to_text()));
    assert!(!text_less(&c.to_text(), &a.to_text()));
    assert!(!text_less(&a.to_text(), &a.to_text()));
}
