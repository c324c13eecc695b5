use std::collections::{BTreeMap, BTreeSet, HashMap};

use doublegit::fetch::{FetchOutput, Ref};
use doublegit::history::{History, Interval, Timestamp};
use doublegit::session::{update, Action, Event, Phase, UpdateSession};

const ONE: &str = "ae79568054d9fa2e4956968310655e9bcbd60e2f";
const TWO: &str = "8dcda34bbae83d2e3d856cc5dbc356ee6e947619";
const THREE: &str = "54356c0e8c1cb663294d64157f517f980e5fbd98";
const TAG2_1: &str = "8fda1c0cfb4957e376fba4b53bf3ce080e25300c";
const TAG2_2: &str = "a64697beb90c35d198fd25f2985cbc9e1ac1783e";

fn time(n: u32) -> Timestamp {
    Timestamp { year: 2019, month: 3, day: 16, hour: 17, minute: n, second: 0 }
}

fn timestr(n: u32) -> String {
    format!("2019-03-16 17:{:02}:00", n)
}

/// A repository as far as a run sees it.
struct Repo {
    parent: HashMap<String, String>,
    tag_objects: HashMap<String, String>,
    refs: HashMap<String, String>,
    branches: BTreeMap<String, String>,
    raw: BTreeMap<String, String>,
}

impl Repo {
    fn new() -> Repo {
        let mut parent = HashMap::new();
        parent.insert(TWO.to_string(), ONE.to_string());
        parent.insert(THREE.to_string(), ONE.to_string());
        let mut tag_objects = HashMap::new();
        tag_objects.insert(TAG2_1.to_string(), TWO.to_string());
        tag_objects.insert(TAG2_2.to_string(), ONE.to_string());
        Repo { parent, tag_objects, refs: HashMap::new(), branches: BTreeMap::new(), raw: BTreeMap::new() }
    }

    fn peel(&self, sha: &str) -> String {
        self.tag_objects.get(sha).cloned().unwrap_or_else(|| sha.to_string())
    }

    /// `a` is `b` or one of its ancestors.
    fn ancestor(&self, a: &str, b: &str) -> bool {
        let a = self.peel(a);
        let mut cur = Some(self.peel(b));
        while let Some(c) = cur {
            if c == a {
                return true;
            }
            cur = self.parent.get(&c).cloned();
        }
        false
    }

    fn reachable(&self, sha: &str) -> bool {
        self.branches.values().any(|t| self.ancestor(sha, t))
            || self.raw.values().any(|t| t == sha || self.ancestor(sha, t))
            || self.refs.values().any(|t| t == sha || self.ancestor(sha, t))
    }

    fn run(&mut self, rows: Vec<Interval>, changes: &FetchOutput, n: u32) -> (Vec<Interval>, Vec<usize>, usize) {
        let mut s = UpdateSession::new(History { rows }, changes, &time(n));
        let mut event = Event::Done;
        let mut actions = 0;
        loop {
            actions += 1;
            event = match update(&mut s, event) {
                Action::Resolve(path) => Event::Resolved(self.refs[&path].clone()),
                Action::QueryKind(sha) => Event::Kind(self.tag_objects.contains_key(&sha)),
                Action::MakeBranch(name, sha) => {
                    let c = self.peel(&sha);
                    self.branches.insert(name, c);
                    Event::Done
                }
                Action::MakeRef(path, sha) => {
                    self.raw.insert(path, sha);
                    Event::Done
                }
                Action::ListIncluded(sha) => Event::Branches(
                    self.branches.iter().filter(|(_, t)| self.ancestor(t, &sha)).map(|(b, _)| b.clone()).collect(),
                ),
                Action::ListIncluding(sha) => Event::Branches(
                    self.branches.iter().filter(|(_, t)| self.ancestor(&sha, t)).map(|(b, _)| b.clone()).collect(),
                ),
                Action::DeleteBranches(names) => {
                    for b in names {
                        assert!(self.branches.remove(&b).is_some());
                    }
                    Event::Done
                }
                Action::Finish => break,
                Action::Abort => panic!("run aborted"),
            };
        }
        assert_eq!(s.phase, Phase::Finished);
        (s.history.rows, s.closed, actions)
    }
}

fn branch(name: &str) -> Ref {
    Ref { name: name.into(), tag: false }
}

fn tag(name: &str) -> Ref {
    Ref { name: name.into(), tag: true }
}

fn changes(new: Vec<Ref>, changed: Vec<Ref>, removed: Vec<Ref>) -> FetchOutput {
    FetchOutput { new, changed, removed }
}

fn rows_of(rows: &[Interval], tags: bool) -> Vec<(String, String, Option<String>, String)> {
    let mut v: Vec<_> = rows
        .iter()
        .filter(|r| r.tag == tags)
        .map(|r| (r.name.clone(), r.from_date.clone(), r.to_date.clone(), r.sha.clone()))
        .collect();
    v.sort_by(|a, b| (a.1.clone(), a.0.clone()).cmp(&(b.1.clone(), b.0.clone())));
    v
}

fn expect(list: &[(&str, u32, Option<u32>, &str)]) -> Vec<(String, String, Option<String>, String)> {
    list.iter().map(|(n, f, t, s)| (n.to_string(), timestr(*f), t.map(timestr), s.to_string())).collect()
}

fn keepers(repo: &Repo) -> BTreeSet<String> {
    repo.branches.keys().cloned().collect()
}

fn keep(list: &[&str]) -> BTreeSet<String> {
    list.iter().map(|h| format!("keep-{}", h)).collect()
}

fn check_history_kept(repo: &Repo, rows: &[Interval]) {
    for r in rows {
        assert!(repo.reachable(&r.sha), "{} is no longer reachable", r.sha);
    }
    for (i, a) in rows.iter().enumerate() {
        for b in rows.iter().skip(i + 1) {
            assert!(!(a.to_date.is_none() && b.to_date.is_none() && a.name == b.name && a.tag == b.tag));
        }
    }
}

#[test]
fn update_scenario() {
    let mut repo = Repo::new();

    // new branch br1
    repo.refs.insert("refs/remotes/origin/br1".into(), ONE.into());
    let (rows, _, _) = repo.run(vec![], &changes(vec![branch("br1")], vec![], vec![]), 1);
    assert_eq!(rows_of(&rows, false), expect(&[("br1", 1, None, ONE)]));
    assert_eq!(keepers(&repo), keep(&[ONE]));
    check_history_kept(&repo, &rows);

    // br1 moves on
    repo.refs.insert("refs/remotes/origin/br1".into(), TWO.into());
    let (rows, closed, _) = repo.run(rows, &changes(vec![], vec![branch("br1")], vec![]), 3);
    assert_eq!(closed, vec![0]);
    assert_eq!(rows_of(&rows, false), expect(&[("br1", 1, Some(3), ONE), ("br1", 3, None, TWO)]));
    assert_eq!(keepers(&repo), keep(&[TWO]));
    check_history_kept(&repo, &rows);

    // br1 forced back
    repo.refs.insert("refs/remotes/origin/br1".into(), ONE.into());
    let (rows, _, _) = repo.run(rows, &changes(vec![], vec![branch("br1")], vec![]), 4);
    assert_eq!(
        rows_of(&rows, false),
        expect(&[("br1", 1, Some(3), ONE), ("br1", 3, Some(4), TWO), ("br1", 4, None, ONE)])
    );
    assert_eq!(keepers(&repo), keep(&[TWO]));
    check_history_kept(&repo, &rows);

    // br1 deleted, br2 made
    repo.refs.remove("refs/remotes/origin/br1");
    repo.refs.insert("refs/remotes/origin/br2".into(), THREE.into());
    let (rows, _, _) = repo.run(rows, &changes(vec![branch("br2")], vec![], vec![branch("br1")]), 6);
    assert_eq!(
        rows_of(&rows, false),
        expect(&[
            ("br1", 1, Some(3), ONE),
            ("br1", 3, Some(4), TWO),
            ("br1", 4, Some(6), ONE),
            ("br2", 6, None, THREE),
        ])
    );
    assert_eq!(keepers(&repo), keep(&[TWO, THREE]));
    check_history_kept(&repo, &rows);

    // lightweight tag1
    repo.refs.insert("refs/tags/tag1".into(), ONE.into());
    let (rows, _, _) = repo.run(rows, &changes(vec![tag("tag1")], vec![], vec![]), 7);
    assert_eq!(rows_of(&rows, true), expect(&[("tag1", 7, None, ONE)]));
    assert_eq!(keepers(&repo), keep(&[TWO, THREE]));
    check_history_kept(&repo, &rows);

    // annotated tag2
    repo.refs.insert("refs/tags/tag2".into(), TAG2_1.into());
    let (rows, _, _) = repo.run(rows, &changes(vec![tag("tag2")], vec![], vec![]), 8);
    assert_eq!(rows_of(&rows, true), expect(&[("tag1", 7, None, ONE), ("tag2", 8, None, TAG2_1)]));
    assert_eq!(keepers(&repo), keep(&[THREE]));
    check_history_kept(&repo, &rows);

    // both tags move
    repo.refs.insert("refs/tags/tag1".into(), TWO.into());
    repo.refs.insert("refs/tags/tag2".into(), TAG2_2.into());
    let (rows, _, _) = repo.run(rows, &changes(vec![], vec![tag("tag1"), tag("tag2")], vec![]), 9);
    assert_eq!(
        rows_of(&rows, true),
        expect(&[
            ("tag1", 7, Some(9), ONE),
            ("tag2", 8, Some(9), TAG2_1),
            ("tag1", 9, None, TWO),
            ("tag2", 9, None, TAG2_2),
        ])
    );
    assert_eq!(keepers(&repo), keep(&[TWO, THREE]));
    check_history_kept(&repo, &rows);

    // both tags removed
    repo.refs.remove("refs/tags/tag1");
    repo.refs.remove("refs/tags/tag2");
    let (rows, _, _) = repo.run(rows, &changes(vec![], vec![], vec![tag("tag1"), tag("tag2")]), 10);
    assert_eq!(
        rows_of(&rows, true),
        expect(&[
            ("tag1", 7, Some(9), ONE),
            ("tag2", 8, Some(9), TAG2_1),
            ("tag1", 9, Some(10), TWO),
            ("tag2", 9, Some(10), TAG2_2),
        ])
    );
    assert_eq!(keepers(&repo), keep(&[TWO, THREE]));
    let kept_tags: BTreeSet<String> = repo.raw.keys().cloned().collect();
    let expected: BTreeSet<String> =
        [TAG2_1, TAG2_2].iter().map(|h| format!("refs/kept-tags/tag-{}", h)).collect();
    assert_eq!(kept_tags, expected);
    check_history_kept(&repo, &rows);
}

#[test]
fn quiet_fetch_records_nothing() {
    let mut repo = Repo::new();
    repo.refs.insert("refs/remotes/origin/br1".into(), ONE.into());
    let (rows, _, _) = repo.run(vec![], &changes(vec![branch("br1")], vec![], vec![]), 1);
    let before = keepers(&repo);
    let (after, closed, actions) = repo.run(rows.clone(), &changes(vec![], vec![], vec![]), 2);
    assert_eq!(after, rows);
    assert!(closed.is_empty());
    assert_eq!(actions, 1);
    assert_eq!(keepers(&repo), before);
}

#[test]
fn first_actions_of_a_run() {
    let rows = vec![Interval {
        name: "br1".into(),
        tag: false,
        from_date: timestr(1),
        to_date: None,
        sha: ONE.into(),
    }];
    let mut s = UpdateSession::new(History { rows }, &changes(vec![], vec![branch("br1")], vec![]), &time(3));
    assert_eq!(s.closed, vec![0]);
    assert_eq!(s.history.rows[0].to_date, Some(timestr(3)));
    match update(&mut s, Event::Done) {
        Action::Resolve(p) => assert_eq!(p, "refs/remotes/origin/br1"),
        _ => panic!(),
    }
    match update(&mut s, Event::Resolved(TWO.into())) {
        Action::QueryKind(sha) => assert_eq!(sha, TWO),
        _ => panic!(),
    }
    assert_eq!(s.history.rows.len(), 2);
    assert_eq!(s.history.rows[1].from_date, timestr(3));
    match update(&mut s, Event::Kind(false)) {
        Action::MakeBranch(name, sha) => {
            assert_eq!(name, format!("keep-{}", TWO));
            assert_eq!(sha, TWO);
        }
        _ => panic!(),
    }
    match update(&mut s, Event::Done) {
        Action::ListIncluded(sha) => assert_eq!(sha, TWO),
        _ => panic!(),
    }
    let listed = vec![format!("keep-{}", ONE), format!("keep-{}", TWO)];
    match update(&mut s, Event::Branches(listed)) {
        Action::DeleteBranches(gone) => assert_eq!(gone, vec![format!("keep-{}", ONE)]),
        _ => panic!(),
    }
    match update(&mut s, Event::Done) {
        Action::ListIncluding(sha) => assert_eq!(sha, TWO),
        _ => panic!(),
    }
    match update(&mut s, Event::Branches(vec![format!("keep-{}", TWO), "other".into()])) {
        Action::DeleteBranches(gone) => assert_eq!(gone, vec![format!("keep-{}", TWO)]),
        _ => panic!(),
    }
    assert!(matches!(update(&mut s, Event::Done), Action::Finish));
    assert!(matches!(update(&mut s, Event::Done), Action::Finish));
}

#[test]
fn annotated_tag_skips_redundancy_check() {
    let mut s = UpdateSession::new(History { rows: vec![] }, &changes(vec![tag("v1")], vec![], vec![]), &time(5));
    assert!(matches!(update(&mut s, Event::Done), Action::Resolve(p) if p == "refs/tags/v1"));
    assert!(matches!(update(&mut s, Event::Resolved(TAG2_1.into())), Action::QueryKind(_)));
    match update(&mut s, Event::Kind(true)) {
        Action::MakeRef(path, sha) => {
            assert_eq!(path, format!("refs/kept-tags/tag-{}", TAG2_1));
            assert_eq!(sha, TAG2_1);
        }
        _ => panic!(),
    }
    assert!(matches!(update(&mut s, Event::Done), Action::ListIncluded(_)));
    assert!(matches!(update(&mut s, Event::Branches(vec![])), Action::DeleteBranches(v) if v.is_empty()));
    assert!(matches!(update(&mut s, Event::Done), Action::Finish));
}

#[test]
fn answer_out_of_turn_aborts() {
    let mut s = UpdateSession::new(History { rows: vec![] }, &changes(vec![branch("a")], vec![], vec![]), &time(5));
    assert!(matches!(update(&mut s, Event::Kind(true)), Action::Abort));
    assert_eq!(s.phase, Phase::Failed);
    assert!(matches!(update(&mut s, Event::Done), Action::Abort));
}

#[test]
fn ref_in_two_lists_is_handled_once() {
    let rows = vec![Interval { name: "a".into(), tag: false, from_date: timestr(1), to_date: None, sha: ONE.into() }];
    let s = UpdateSession::new(
        History { rows },
        &changes(vec![branch("a")], vec![branch("a")], vec![branch("a")]),
        &time(2),
    );
    assert_eq!(s.closed, vec![0]);
    assert_eq!(s.targets, vec![branch("a")]);
}
