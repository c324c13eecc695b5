//! One archiving run: the decisions between the steps that only the
//! repository can take. The caller performs each action in the repository
//! and answers with the event it produced.
use vstd::prelude::*;
use vstd::string::StringExecFns;

use crate::fetch::{ref_ids, FetchOutput, Ref, RefId};
use crate::history::{close_spec, latest_open, lemma_close_keeps_one_open, lemma_latest_open, none_open, one_open, History, IntervalView, Timestamp};
use crate::keeper::{
    after_step, covered, with_keeper, is_ancestry, keep_branch_name, keep_name, keepers_named, kept_tag_ref,
    lemma_retention_keeps_history, redundant, superseded, superseded_branches, tag_anchor_path, truthful, without,
    Anchors, RetentionStep,
};

verus! {

/// What the run waits for.
#[derive(Debug, Clone, Copy, PartialEq, Eq, Structural)]
pub enum Phase {
    /// Nothing asked yet.
    Idle,
    /// The object the current ref points at.
    AwaitSha,
    /// Whether that object is a tag object.
    AwaitKind,
    /// The keeper ref made.
    AwaitAnchor,
    /// The branches that the object contains.
    AwaitIncluded,
    /// The superseded branches deleted.
    AwaitPruned,
    /// The branches that contain the object.
    AwaitIncluding,
    /// The redundant keeper deleted.
    AwaitDropped,
    /// The run is over and its record may be committed.
    Finished,
    /// The run was answered out of turn and must be rolled back.
    Failed,
}

/// What the repository answered.
pub enum Event {
    /// The last action is done.
    Done,
    /// The object a ref points at.
    Resolved(String),
    /// Whether an object is a tag object.
    Kind(bool),
    /// A listing of branch names.
    Branches(Vec<String>),
}

pub enum EventView {
    Done,
    Resolved(Seq<char>),
    Kind(bool),
    Branches(Seq<Seq<char>>),
}

impl View for Event {
    type V = EventView;

    open spec fn view(&self) -> EventView {
        match self {
            Event::Done => EventView::Done,
            Event::Resolved(s) => EventView::Resolved(s@),
            Event::Kind(b) => EventView::Kind(*b),
            Event::Branches(v) => EventView::Branches(v.deep_view()),
        }
    }
}

/// What the repository is asked to do next.
#[derive(Debug)]
pub enum Action {
    /// Give the object that the ref at this path points at.
    Resolve(String),
    /// Tell whether this object is a tag object.
    QueryKind(String),
    /// Make (or move) the branch of this name to point at this object.
    MakeBranch(String, String),
    /// Make (or move) the ref at this path to point at this object.
    MakeRef(String, String),
    /// List the branches whose tips are ancestors of this object.
    ListIncluded(String),
    /// Delete these branches.
    DeleteBranches(Vec<String>),
    /// List the branches that contain this object.
    ListIncluding(String),
    /// Commit the record: the run is over.
    Finish,
    /// Roll the record back: the run failed.
    Abort,
}

pub enum ActionView {
    Resolve(Seq<char>),
    QueryKind(Seq<char>),
    MakeBranch(Seq<char>, Seq<char>),
    MakeRef(Seq<char>, Seq<char>),
    ListIncluded(Seq<char>),
    DeleteBranches(Seq<Seq<char>>),
    ListIncluding(Seq<char>),
    Finish,
    Abort,
}

impl View for Action {
    type V = ActionView;

    open spec fn view(&self) -> ActionView {
        match self {
            Action::Resolve(s) => ActionView::Resolve(s@),
            Action::QueryKind(s) => ActionView::QueryKind(s@),
            Action::MakeBranch(n, s) => ActionView::MakeBranch(n@, s@),
            Action::MakeRef(n, s) => ActionView::MakeRef(n@, s@),
            Action::ListIncluded(s) => ActionView::ListIncluded(s@),
            Action::DeleteBranches(v) => ActionView::DeleteBranches(v.deep_view()),
            Action::ListIncluding(s) => ActionView::ListIncluding(s@),
            Action::Finish => ActionView::Finish,
            Action::Abort => ActionView::Abort,
        }
    }
}

/// The state of a run.
pub struct UpdateSession {
    /// The run's time stamp, as written in the record.
    pub date: String,
    /// The record, as the run has changed it so far.
    pub history: History,
    /// The intervals of the loaded record that the run closed.
    pub closed: Vec<usize>,
    /// The refs to record anew: the changed ones, then the new ones.
    pub targets: Vec<Ref>,
    /// The index of the current target.
    pub pos: usize,
    /// The object the current target points at.
    pub sha: String,
    /// Whether that object is a tag object.
    pub tag: bool,
    pub phase: Phase,
}

pub struct SessionView {
    pub date: Seq<char>,
    pub rows: Seq<IntervalView>,
    pub targets: Seq<RefId>,
    pub pos: int,
    pub sha: Seq<char>,
    pub tag: bool,
    pub phase: Phase,
}

impl View for UpdateSession {
    type V = SessionView;

    open spec fn view(&self) -> SessionView {
        SessionView {
            date: self.date@,
            rows: self.history@,
            targets: ref_ids(self.targets@),
            pos: self.pos as int,
            sha: self.sha@,
            tag: self.tag,
            phase: self.phase,
        }
    }
}

// ---- the decisions, as a function of state and event ------------------------

/// Where the repository keeps a ref: tags as tags, branches as the remote's
/// branches.
pub open spec fn ref_path(id: RefId) -> Seq<char> {
    if id.tag {
        "refs/tags/"@ + id.name
    } else {
        "refs/remotes/origin/"@ + id.name
    }
}

/// The intervals after closing those of `ids`, in order.
pub open spec fn close_all(rows: Seq<IntervalView>, ids: Seq<RefId>, date: Seq<char>) -> Seq<IntervalView>
    decreases ids.len(),
{
    if ids.len() == 0 {
        rows
    } else {
        close_spec(close_all(rows, ids.drop_last(), date), ids.last(), date)
    }
}

/// The indices of the intervals that closing those of `ids` closes, in order.
pub open spec fn closed_rows(rows: Seq<IntervalView>, ids: Seq<RefId>, date: Seq<char>) -> Seq<int>
    decreases ids.len(),
{
    if ids.len() == 0 {
        seq![]
    } else {
        let before = close_all(rows, ids.drop_last(), date);
        let earlier = closed_rows(rows, ids.drop_last(), date);
        match latest_open(before, ids.last(), before.len() as int) {
            Some(k) => earlier.push(k),
            None => earlier,
        }
    }
}

/// The refs of `s`, each once, in the order they first come.
pub open spec fn dedup(s: Seq<RefId>) -> Seq<RefId>
    decreases s.len(),
{
    if s.len() == 0 {
        s
    } else {
        let d = dedup(s.drop_last());
        if d.contains(s.last()) {
            d
        } else {
            d.push(s.last())
        }
    }
}

pub proof fn lemma_dedup(s: Seq<RefId>)
    ensures
        dedup(s).no_duplicates(),
        forall|x: RefId| #[trigger] dedup(s).contains(x) <==> s.contains(x),
    decreases s.len(),
{
    if s.len() > 0 {
        let t = s.drop_last();
        lemma_dedup(t);
        assert forall|x: RefId| #[trigger] dedup(s).contains(x) <==> s.contains(x) by {
            if t.contains(x) {
                let j = choose|j: int| 0 <= j < t.len() && t[j] == x;
                assert(s[j] == x);
            }
            if s.contains(x) && x != s.last() {
                let j = choose|j: int| 0 <= j < s.len() && s[j] == x;
                assert(t[j] == x);
            }
            if !dedup(t).contains(s.last()) {
                assert(dedup(t).push(s.last())[dedup(t).len() as int] == s.last());
                if dedup(t).push(s.last()).contains(x) && x != s.last() {
                    let j = choose|j: int| 0 <= j < dedup(t).len() + 1 && dedup(t).push(s.last())[j] == x;
                    assert(dedup(t)[j] == x);
                }
                if dedup(t).contains(x) {
                    let j = choose|j: int| 0 <= j < dedup(t).len() && dedup(t)[j] == x;
                    assert(dedup(t).push(s.last())[j] == x);
                }
            }
        }
    }
}

/// A run's start: the intervals of the refs removed or changed are closed
/// (each ref once), and the refs changed or new wait to be recorded (each
/// once).
pub open spec fn initial(
    rows: Seq<IntervalView>,
    removed: Seq<RefId>,
    changed: Seq<RefId>,
    new: Seq<RefId>,
    date: Seq<char>,
) -> SessionView {
    SessionView {
        date,
        rows: close_all(rows, dedup(removed + changed), date),
        targets: dedup(changed + new),
        pos: 0,
        sha: Seq::empty(),
        tag: false,
        phase: Phase::Idle,
    }
}

pub open spec fn fail(s: SessionView) -> (SessionView, ActionView) {
    (SessionView { phase: Phase::Failed, ..s }, ActionView::Abort)
}

/// Turns to the target at `pos`, or ends the run.
pub open spec fn advance(s: SessionView) -> (SessionView, ActionView) {
    if 0 <= s.pos < s.targets.len() {
        (SessionView { phase: Phase::AwaitSha, ..s }, ActionView::Resolve(ref_path(s.targets[s.pos])))
    } else {
        (SessionView { phase: Phase::Finished, ..s }, ActionView::Finish)
    }
}

/// Turns to the target after the current one.
pub open spec fn next_target(s: SessionView) -> (SessionView, ActionView) {
    if 0 <= s.pos < s.targets.len() {
        advance(SessionView { pos: s.pos + 1, ..s })
    } else {
        fail(s)
    }
}

/// The open interval recorded for ref `id` from `date` on.
pub open spec fn new_row(id: RefId, date: Seq<char>, sha: Seq<char>) -> IntervalView {
    IntervalView { name: id.name, tag: id.tag, from: date, to: None, sha }
}

/// One decision of a run. For each target in turn: resolve its object and
/// record an open interval for it; make the object's keeper (a ref outside
/// the branches for a tag object, a branch otherwise); delete the branches
/// the object contains, but its own keeper; then, for a commit only, delete
/// the keeper again when another branch contains the commit. An event out of
/// turn fails the run.
pub open spec fn step(s: SessionView, e: EventView) -> (SessionView, ActionView) {
    match s.phase {
        Phase::Idle => match e {
            EventView::Done => advance(s),
            _ => fail(s),
        },
        Phase::AwaitSha => match e {
            EventView::Resolved(sha) => if 0 <= s.pos < s.targets.len() {
                (
                    SessionView {
                        rows: s.rows.push(new_row(s.targets[s.pos], s.date, sha)),
                        sha,
                        phase: Phase::AwaitKind,
                        ..s
                    },
                    ActionView::QueryKind(sha),
                )
            } else {
                fail(s)
            },
            _ => fail(s),
        },
        Phase::AwaitKind => match e {
            EventView::Kind(tag) => (
                SessionView { tag, phase: Phase::AwaitAnchor, ..s },
                if tag {
                    ActionView::MakeRef(tag_anchor_path(s.sha), s.sha)
                } else {
                    ActionView::MakeBranch(keep_name(s.sha), s.sha)
                },
            ),
            _ => fail(s),
        },
        Phase::AwaitAnchor => match e {
            EventView::Done => (SessionView { phase: Phase::AwaitIncluded, ..s }, ActionView::ListIncluded(s.sha)),
            _ => fail(s),
        },
        Phase::AwaitIncluded => match e {
            EventView::Branches(l) => (
                SessionView { phase: Phase::AwaitPruned, ..s },
                ActionView::DeleteBranches(superseded(l, keep_name(s.sha))),
            ),
            _ => fail(s),
        },
        Phase::AwaitPruned => match e {
            EventView::Done => if s.tag {
                next_target(s)
            } else {
                (SessionView { phase: Phase::AwaitIncluding, ..s }, ActionView::ListIncluding(s.sha))
            },
            _ => fail(s),
        },
        Phase::AwaitIncluding => match e {
            EventView::Branches(l) => if redundant(l) {
                (SessionView { phase: Phase::AwaitDropped, ..s }, ActionView::DeleteBranches(seq![keep_name(s.sha)]))
            } else {
                next_target(s)
            },
            _ => fail(s),
        },
        Phase::AwaitDropped => match e {
            EventView::Done => next_target(s),
            _ => fail(s),
        },
        Phase::Finished => (s, ActionView::Finish),
        Phase::Failed => (s, ActionView::Abort),
    }
}


// ---- the decisions, executed --------------------------------------------------

/// The path at which the repository keeps ref `r`.
pub fn ref_path_of(r: &Ref) -> (p: String)
    ensures
        p@ == ref_path(r@),
{
    if r.tag {
        String::from_str("refs/tags/").concat(r.name.as_str())
    } else {
        String::from_str("refs/remotes/origin/").concat(r.name.as_str())
    }
}

fn copy_ref(r: &Ref) -> (c: Ref)
    ensures
        c@ == r@,
{
    Ref { name: r.name.clone(), tag: r.tag }
}

/// Appends copies of the refs of `src` to `dst`.
fn append_refs(dst: &mut Vec<Ref>, src: &Vec<Ref>)
    ensures
        ref_ids(final(dst)@) == ref_ids(old(dst)@) + ref_ids(src@),
{
    let mut i: usize = 0;
    while i < src.len()
        invariant
            0 <= i <= src@.len(),
            ref_ids(dst@) == ref_ids(old(dst)@) + ref_ids(src@).subrange(0, i as int),
        decreases src@.len() - i,
    {
        let c = copy_ref(&src[i]);
        let ghost before = dst@;
        dst.push(c);
        assert(ref_ids(dst@) =~= ref_ids(before).push(src@[i as int]@));
        assert(ref_ids(src@).subrange(0, i + 1) =~= ref_ids(src@).subrange(0, i as int).push(src@[i as int]@));
        assert(ref_ids(dst@) =~= ref_ids(old(dst)@) + ref_ids(src@).subrange(0, i + 1));
        i = i + 1;
    }
    assert(ref_ids(src@).subrange(0, src@.len() as int) =~= ref_ids(src@));
}

fn contains_ref(v: &Vec<Ref>, r: &Ref) -> (b: bool)
    ensures
        b == ref_ids(v@).contains(r@),
{
    let ghost ids = ref_ids(v@);
    let mut i: usize = 0;
    while i < v.len()
        invariant
            0 <= i <= v@.len(),
            ids == ref_ids(v@),
            ids.len() == v@.len(),
            forall|j: int| 0 <= j < i ==> ids[j] != r@,
        decreases v@.len() - i,
    {
        if v[i].tag == r.tag && v[i].name == r.name {
            assert(ids[i as int] == r@);
            return true;
        }
        i = i + 1;
    }
    false
}

/// Copies of the refs of `v`, each once, in the order they first come.
fn dedup_refs(v: &Vec<Ref>) -> (r: Vec<Ref>)
    ensures
        ref_ids(r@) == dedup(ref_ids(v@)),
{
    let ghost ids = ref_ids(v@);
    let mut r: Vec<Ref> = Vec::new();
    assert(ref_ids(r@) =~= dedup(ids.subrange(0, 0)));
    let mut i: usize = 0;
    while i < v.len()
        invariant
            0 <= i <= v@.len(),
            ids == ref_ids(v@),
            ids.len() == v@.len(),
            ref_ids(r@) == dedup(ids.subrange(0, i as int)),
        decreases v@.len() - i,
    {
        proof {
            let sub = ids.subrange(0, i + 1);
            assert(sub.drop_last() =~= ids.subrange(0, i as int));
            assert(sub.last() == v@[i as int]@);
        }
        if !contains_ref(&r, &v[i]) {
            let c = copy_ref(&v[i]);
            let ghost before = r@;
            r.push(c);
            assert(ref_ids(r@) =~= ref_ids(before).push(v@[i as int]@));
        }
        i = i + 1;
    }
    assert(ids.subrange(0, ids.len() as int) =~= ids);
    r
}

pub open spec fn indices(v: Seq<usize>) -> Seq<int> {
    v.map_values(|k: usize| k as int)
}

impl UpdateSession {
    /// Starts a run at `date` on the loaded record `history`, for the
    /// changes a fetch reported: the intervals of the removed and the
    /// changed refs are closed at once (each the latest open one, if any).
    pub fn new(history: History, changes: &FetchOutput, date: &Timestamp) -> (s: UpdateSession)
        requires
            date.wf(),
        ensures
            s@ == initial(
                history@,
                ref_ids(changes.removed@),
                ref_ids(changes.changed@),
                ref_ids(changes.new@),
                date.text(),
            ),
            indices(s.closed@) == closed_rows(
                history@,
                dedup(ref_ids(changes.removed@) + ref_ids(changes.changed@)),
                date.text(),
            ),
    {
        let text = date.to_text();
        let mut all_closed: Vec<Ref> = Vec::new();
        append_refs(&mut all_closed, &changes.removed);
        append_refs(&mut all_closed, &changes.changed);
        let to_close = dedup_refs(&all_closed);
        let mut all_targets: Vec<Ref> = Vec::new();
        append_refs(&mut all_targets, &changes.changed);
        append_refs(&mut all_targets, &changes.new);
        let targets = dedup_refs(&all_targets);
        let mut history = history;
        let closed = close_refs(&mut history, &to_close, &text);
        UpdateSession {
            date: text,
            history,
            closed,
            targets,
            pos: 0,
            sha: String::new(),
            tag: false,
            phase: Phase::Idle,
        }
    }
}

/// Closes the intervals of the refs of `to_close` in order; gives the
/// indices of the intervals closed.
fn close_refs(history: &mut History, to_close: &Vec<Ref>, date: &String) -> (closed: Vec<usize>)
    ensures
        final(history)@ == close_all(old(history)@, ref_ids(to_close@), date@),
        indices(closed@) == closed_rows(old(history)@, ref_ids(to_close@), date@),
{
    let ghost ids = ref_ids(to_close@);
    let ghost rows0 = history@;
    let mut closed: Vec<usize> = Vec::new();
    let mut i: usize = 0;
    while i < to_close.len()
        invariant
            0 <= i <= to_close@.len(),
            ids == ref_ids(to_close@),
            ids.len() == to_close@.len(),
            rows0 == old(history)@,
            history@ == close_all(rows0, ids.subrange(0, i as int), date@),
            indices(closed@) == closed_rows(rows0, ids.subrange(0, i as int), date@),
        decreases to_close@.len() - i,
    {
        proof {
            let sub = ids.subrange(0, i + 1);
            assert(sub.drop_last() =~= ids.subrange(0, i as int));
            assert(sub.last() == to_close@[i as int]@);
        }
        let k = history.close(&to_close[i], date);
        match k {
            Some(k) => {
                let ghost before = closed@;
                closed.push(k);
                assert(indices(closed@) =~= indices(before).push(k as int));
            },
            None => {},
        }
        i = i + 1;
    }
    assert(ids.subrange(0, ids.len() as int) =~= ids);
    closed
}

fn fail_session(s: &mut UpdateSession) -> (a: Action)
    ensures
        (final(s)@, a@) == fail(old(s)@),
{
    s.phase = Phase::Failed;
    Action::Abort
}

fn advance_session(s: &mut UpdateSession) -> (a: Action)
    ensures
        (final(s)@, a@) == advance(old(s)@),
{
    if s.pos < s.targets.len() {
        s.phase = Phase::AwaitSha;
        let p = ref_path_of(&s.targets[s.pos]);
        Action::Resolve(p)
    } else {
        s.phase = Phase::Finished;
        Action::Finish
    }
}

fn next_session(s: &mut UpdateSession) -> (a: Action)
    ensures
        (final(s)@, a@) == next_target(old(s)@),
{
    if s.pos < s.targets.len() {
        s.pos = s.pos + 1;
        advance_session(s)
    } else {
        fail_session(s)
    }
}

/// Takes the repository's answer to the last action and gives the next
/// action, as `step` decides.
pub fn update(session: &mut UpdateSession, event: Event) -> (a: Action)
    ensures
        (final(session)@, a@) == step(old(session)@, event@),
{
    match session.phase {
        Phase::Idle => match event {
            Event::Done => advance_session(session),
            _ => fail_session(session),
        },
        Phase::AwaitSha => match event {
            Event::Resolved(sha) => {
                if session.pos < session.targets.len() {
                    let r = copy_ref(&session.targets[session.pos]);
                    session.history.open(&r, &session.date, &sha);
                    let q = sha.clone();
                    session.sha = sha;
                    session.phase = Phase::AwaitKind;
                    Action::QueryKind(q)
                } else {
                    fail_session(session)
                }
            },
            _ => fail_session(session),
        },
        Phase::AwaitKind => match event {
            Event::Kind(tag) => {
                session.tag = tag;
                session.phase = Phase::AwaitAnchor;
                if tag {
                    Action::MakeRef(kept_tag_ref(session.sha.as_str()), session.sha.clone())
                } else {
                    Action::MakeBranch(keep_branch_name(session.sha.as_str()), session.sha.clone())
                }
            },
            _ => fail_session(session),
        },
        Phase::AwaitAnchor => match event {
            Event::Done => {
                session.phase = Phase::AwaitIncluded;
                Action::ListIncluded(session.sha.clone())
            },
            _ => fail_session(session),
        },
        Phase::AwaitIncluded => match event {
            Event::Branches(listed) => {
                let own = keep_branch_name(session.sha.as_str());
                let gone = superseded_branches(&listed, &own);
                session.phase = Phase::AwaitPruned;
                Action::DeleteBranches(gone)
            },
            _ => fail_session(session),
        },
        Phase::AwaitPruned => match event {
            Event::Done => {
                if session.tag {
                    next_session(session)
                } else {
                    session.phase = Phase::AwaitIncluding;
                    Action::ListIncluding(session.sha.clone())
                }
            },
            _ => fail_session(session),
        },
        Phase::AwaitIncluding => match event {
            Event::Branches(listed) => {
                if listed.len() > 1 {
                    session.phase = Phase::AwaitDropped;
                    let own = keep_branch_name(session.sha.as_str());
                    let gone = vec![own];
                    assert(gone.deep_view() =~= seq![keep_name(session.sha@)]);
                    Action::DeleteBranches(gone)
                } else {
                    next_session(session)
                }
            },
            _ => fail_session(session),
        },
        Phase::AwaitDropped => match event {
            Event::Done => next_session(session),
            _ => fail_session(session),
        },
        Phase::Finished => Action::Finish,
        Phase::Failed => Action::Abort,
    }
}


// ---- laws ---------------------------------------------------------------------

impl SessionView {
    /// At most one open interval per ref, and none yet for the targets
    /// still to record.
    pub open spec fn inv(self) -> bool {
        &&& one_open(self.rows)
        &&& self.targets.no_duplicates()
        &&& 0 <= self.pos <= self.targets.len()
        &&& forall|k: int| self.pos < k < self.targets.len() ==> none_open(self.rows, #[trigger] self.targets[k])
        &&& (self.phase == Phase::Idle || self.phase == Phase::AwaitSha) ==> (self.pos < self.targets.len()
            ==> none_open(self.rows, self.targets[self.pos]))
    }
}

proof fn lemma_close_all(rows: Seq<IntervalView>, ids: Seq<RefId>, date: Seq<char>)
    requires
        one_open(rows),
    ensures
        one_open(close_all(rows, ids, date)),
        forall|id: RefId| ids.contains(id) ==> none_open(close_all(rows, ids, date), id),
        forall|id: RefId| none_open(rows, id) ==> none_open(close_all(rows, ids, date), id),
    decreases ids.len(),
{
    if ids.len() > 0 {
        let prev = close_all(rows, ids.drop_last(), date);
        lemma_close_all(rows, ids.drop_last(), date);
        lemma_close_keeps_one_open(prev, ids.last(), date);
        assert(close_all(rows, ids, date) == close_spec(prev, ids.last(), date));
        assert forall|id: RefId| ids.contains(id) implies none_open(close_all(rows, ids, date), id) by {
            if id != ids.last() {
                let j = choose|j: int| 0 <= j < ids.len() && ids[j] == id;
                assert(j < ids.len() - 1);
                assert(ids.drop_last()[j] == id);
                assert(ids.drop_last().contains(id));
                assert(none_open(prev, id));
            }
        }
    }
}

/// A run starts with at most one open interval per ref when the record had
/// that and every new ref that is neither removed nor changed has no open
/// interval yet.
pub proof fn lemma_start_keeps_one_open(
    rows: Seq<IntervalView>,
    removed: Seq<RefId>,
    changed: Seq<RefId>,
    new: Seq<RefId>,
    date: Seq<char>,
)
    requires
        one_open(rows),
        forall|i: int| 0 <= i < new.len() ==> (removed + changed).contains(#[trigger] new[i]) || none_open(rows, new[i]),
    ensures
        initial(rows, removed, changed, new, date).inv(),
{
    let ids = dedup(removed + changed);
    let s = initial(rows, removed, changed, new, date);
    lemma_dedup(removed + changed);
    lemma_dedup(changed + new);
    lemma_close_all(rows, ids, date);
    assert forall|k: int| 0 <= k < s.targets.len() implies none_open(s.rows, #[trigger] s.targets[k]) by {
        let t = s.targets[k];
        assert(dedup(changed + new).contains(t));
        assert((changed + new).contains(t));
        let j = choose|j: int| 0 <= j < (changed + new).len() && (changed + new)[j] == t;
        if j < changed.len() {
            assert((removed + changed)[removed.len() + j] == t);
            assert(ids.contains(t));
        } else {
            assert(new[j - changed.len()] == t);
            if (removed + changed).contains(t) {
                assert(ids.contains(t));
            }
        }
    }
}

/// Every decision of a run keeps at most one open interval per ref.
pub proof fn lemma_step_keeps_one_open(s: SessionView, e: EventView)
    requires
        s.inv(),
    ensures
        step(s, e).0.inv(),
{
    let t = step(s, e).0;
    if s.phase == Phase::AwaitSha {
        if let EventView::Resolved(sha) = e {
            if 0 <= s.pos < s.targets.len() {
                let id = s.targets[s.pos];
                let row = new_row(id, s.date, sha);
                assert(t.rows == s.rows.push(row));
                assert forall|i: int, j: int|
                    0 <= i < t.rows.len() && 0 <= j < t.rows.len() && i != j && (#[trigger] t.rows[i]).to is None
                        && (#[trigger] t.rows[j]).to is None implies t.rows[i].id() != t.rows[j].id() by {
                    if i == s.rows.len() {
                        assert(!s.rows[j].is_open_of(id));
                    } else if j == s.rows.len() {
                        assert(!s.rows[i].is_open_of(id));
                    } else {
                        assert(t.rows[i] == s.rows[i] && t.rows[j] == s.rows[j]);
                    }
                }
                assert forall|k: int| t.pos < k < t.targets.len() implies none_open(t.rows, #[trigger] t.targets[k]) by {
                    assert(s.targets[k] != id);
                    assert forall|i: int| 0 <= i < t.rows.len() implies !(#[trigger] t.rows[i]).is_open_of(t.targets[k]) by {
                        if i < s.rows.len() {
                            assert(t.rows[i] == s.rows[i]);
                        }
                    }
                }
            }
        }
    }
}

/// The state after a run answered with `events`, in order.
pub open spec fn run(s: SessionView, events: Seq<EventView>) -> SessionView
    decreases events.len(),
{
    if events.len() == 0 {
        s
    } else {
        step(run(s, events.drop_last()), events.last()).0
    }
}

/// Whatever the repository answers, and at any point of a run, the record
/// holds at most one open interval per ref, when it held that at the start
/// and no new ref that is neither removed nor changed had an open interval.
pub proof fn lemma_run_keeps_one_open(
    rows: Seq<IntervalView>,
    removed: Seq<RefId>,
    changed: Seq<RefId>,
    new: Seq<RefId>,
    date: Seq<char>,
    events: Seq<EventView>,
)
    requires
        one_open(rows),
        forall|i: int| 0 <= i < new.len() ==> (removed + changed).contains(#[trigger] new[i]) || none_open(rows, new[i]),
    ensures
        one_open(run(initial(rows, removed, changed, new, date), events).rows),
{
    lemma_start_keeps_one_open(rows, removed, changed, new, date);
    lemma_run_keeps_inv(initial(rows, removed, changed, new, date), events);
}

proof fn lemma_run_keeps_inv(s: SessionView, events: Seq<EventView>)
    requires
        s.inv(),
    ensures
        run(s, events).inv(),
    decreases events.len(),
{
    if events.len() > 0 {
        lemma_run_keeps_inv(s, events.drop_last());
        lemma_step_keeps_one_open(run(s, events.drop_last()), events.last());
    }
}

/// A tag object is kept by a ref outside the branches and skips the check
/// for redundancy; a commit, whether a branch's or a lightweight tag's, is
/// kept by a branch that goes through both prunings.
pub proof fn lemma_tag_objects_keep_outside_branches(s: SessionView)
    ensures
        s.phase == Phase::AwaitKind ==> step(s, EventView::Kind(true)).1 == ActionView::MakeRef(tag_anchor_path(s.sha), s.sha)
            && step(s, EventView::Kind(false)).1 == ActionView::MakeBranch(keep_name(s.sha), s.sha),
        s.phase == Phase::AwaitPruned && s.tag ==> step(s, EventView::Done) == next_target(s),
        s.phase == Phase::AwaitPruned && !s.tag ==> step(s, EventView::Done).1 == ActionView::ListIncluding(s.sha),
        s.phase == Phase::AwaitAnchor ==> step(s, EventView::Done).1 == ActionView::ListIncluded(s.sha),
{
}

/// What an action does to the anchors.
pub open spec fn perform(w: Anchors, a: ActionView) -> Anchors {
    match a {
        ActionView::MakeBranch(name, sha) => Anchors { branches: w.branches.insert(name, sha), ..w },
        ActionView::MakeRef(_path, sha) => Anchors { tag_refs: w.tag_refs.insert(sha), ..w },
        ActionView::DeleteBranches(names) => without(w, names),
        _ => w,
    }
}

/// The actions a run takes for one target, once its object's kind is known,
/// do to the anchors exactly what one retention step does, given the same
/// listings; so what holds of retention steps holds of runs.
pub proof fn lemma_run_performs_retention(
    s: SessionView,
    w: Anchors,
    tag: bool,
    included: Seq<Seq<char>>,
    including: Seq<Seq<char>>,
)
    requires
        s.phase == Phase::AwaitKind,
    ensures
        ({
            let st = RetentionStep { sha: s.sha, tag, included, including };
            let (s1, a1) = step(s, EventView::Kind(tag));
            let (s2, a2) = step(s1, EventView::Done);
            let (s3, a3) = step(s2, EventView::Branches(included));
            let (s4, a4) = step(s3, EventView::Done);
            let (s5, a5) = step(s4, EventView::Branches(including));
            let w3 = perform(perform(w, a1), a3);
            &&& a2 == ActionView::ListIncluded(s.sha)
            &&& tag ==> w3 == after_step(w, st)
            &&& !tag ==> a4 == ActionView::ListIncluding(s.sha)
            &&& !tag && redundant(including) ==> perform(w3, a5) == after_step(w, st)
            &&& !tag && !redundant(including) ==> w3 == after_step(w, st)
        }),
{
}

/// The state and the anchors after a run answered with `events`, each
/// action performed on the anchors as it is taken.
pub open spec fn walk(s: SessionView, w: Anchors, events: Seq<EventView>) -> (SessionView, Anchors)
    decreases events.len(),
{
    if events.len() == 0 {
        (s, w)
    } else {
        let (t, a) = step(s, events[0]);
        walk(t, perform(w, a), events.drop_first())
    }
}

/// The answers to the actions for one target: its object, whether that is
/// a tag object, and the two listings.
pub open spec fn target_events(st: RetentionStep) -> Seq<EventView> {
    seq![
        EventView::Resolved(st.sha),
        EventView::Kind(st.tag),
        EventView::Done,
        EventView::Branches(st.included),
        EventView::Done,
    ] + if st.tag {
        Seq::empty()
    } else if redundant(st.including) {
        seq![EventView::Branches(st.including), EventView::Done]
    } else {
        seq![EventView::Branches(st.including)]
    }
}

/// The answers for the targets in turn.
pub open spec fn answer_events(answers: Seq<RetentionStep>) -> Seq<EventView>
    decreases answers.len(),
{
    if answers.len() == 0 {
        Seq::empty()
    } else {
        target_events(answers[0]) + answer_events(answers.drop_first())
    }
}

/// Each target's listings were answered truthfully, in the anchors as the
/// earlier targets left them.
pub open spec fn truthful_from(w: Anchors, anc: spec_fn(Seq<char>, Seq<char>) -> bool, answers: Seq<RetentionStep>) -> bool
    decreases answers.len(),
{
    answers.len() == 0 || (truthful(w, anc, answers[0]) && truthful_from(
        after_step(w, answers[0]),
        anc,
        answers.drop_first(),
    ))
}

proof fn lemma_walk_concat(s: SessionView, w: Anchors, e1: Seq<EventView>, e2: Seq<EventView>)
    ensures
        walk(s, w, e1 + e2) == walk(walk(s, w, e1).0, walk(s, w, e1).1, e2),
    decreases e1.len(),
{
    if e1.len() == 0 {
        assert(e1 + e2 =~= e2);
    } else {
        let (t, a) = step(s, e1[0]);
        assert((e1 + e2)[0] == e1[0]);
        assert((e1 + e2).drop_first() =~= e1.drop_first() + e2);
        lemma_walk_concat(t, perform(w, a), e1.drop_first(), e2);
    }
}

proof fn lemma_walk_first(s: SessionView, w: Anchors, e: EventView, rest: Seq<EventView>)
    ensures
        walk(s, w, seq![e] + rest) == walk(step(s, e).0, perform(w, step(s, e).1), rest),
{
    assert((seq![e] + rest)[0] == e);
    assert((seq![e] + rest).drop_first() =~= rest);
}

/// One target's answers record its interval, move on, and do to the anchors
/// what one retention step does.
proof fn lemma_target(s: SessionView, w: Anchors, st: RetentionStep)
    requires
        s.phase == Phase::AwaitSha,
        0 <= s.pos < s.targets.len(),
    ensures
        ({
            let (t, w2) = walk(s, w, target_events(st));
            &&& t.rows == s.rows.push(new_row(s.targets[s.pos], s.date, st.sha))
            &&& t.pos == s.pos + 1
            &&& t.targets == s.targets
            &&& t.date == s.date
            &&& t.phase == if s.pos + 1 < s.targets.len() { Phase::AwaitSha } else { Phase::Finished }
            &&& w2 == after_step(w, st)
        }),
{
    let r = EventView::Resolved(st.sha);
    let k = EventView::Kind(st.tag);
    let d = EventView::Done;
    let b1 = EventView::Branches(st.included);
    let b2 = EventView::Branches(st.including);
    let tail: Seq<EventView> = if st.tag {
        Seq::empty()
    } else if redundant(st.including) {
        seq![b2, d]
    } else {
        seq![b2]
    };
    assert(target_events(st) =~= seq![r] + (seq![k] + (seq![d] + (seq![b1] + (seq![d] + tail)))));
    let (s1, a1) = step(s, r);
    lemma_walk_first(s, w, r, seq![k] + (seq![d] + (seq![b1] + (seq![d] + tail))));
    let w1 = perform(w, a1);
    let (s2, a2) = step(s1, k);
    lemma_walk_first(s1, w1, k, seq![d] + (seq![b1] + (seq![d] + tail)));
    let w2 = perform(w1, a2);
    let (s3, a3) = step(s2, d);
    lemma_walk_first(s2, w2, d, seq![b1] + (seq![d] + tail));
    let w3 = perform(w2, a3);
    let (s4, a4) = step(s3, b1);
    lemma_walk_first(s3, w3, b1, seq![d] + tail);
    let w4 = perform(w3, a4);
    let (s5, a5) = step(s4, d);
    lemma_walk_first(s4, w4, d, tail);
    let w5 = perform(w4, a5);
    assert(walk(s, w, target_events(st)) == walk(s5, w5, tail));
    assert(s4.rows == s.rows.push(new_row(s.targets[s.pos], s.date, st.sha)));
    assert(w4 == without(with_keeper(w, st.sha, st.tag), superseded(st.included, keep_name(st.sha))));
    if st.tag {
        assert(tail == Seq::<EventView>::empty());
        assert(walk(s5, w5, tail) == (s5, w5));
        assert(w5 == w4);
        assert(after_step(w, st) == w4);
        assert(walk(s, w, target_events(st)).1 == after_step(w, st));
    }
    if !st.tag {
        let (s6, a6) = step(s5, b2);
        assert(w5 == w4);
        assert(s5.phase == Phase::AwaitIncluding && s5.pos == s.pos);
        if redundant(st.including) {
            assert(tail =~= seq![b2] + seq![d]);
            lemma_walk_first(s5, w5, b2, seq![d]);
            let w6 = perform(w5, a6);
            assert(w6 == without(w4, seq![keep_name(st.sha)]));
            assert(seq![d] =~= seq![d] + Seq::<EventView>::empty());
            lemma_walk_first(s6, w6, d, Seq::empty());
            let (s7, a7) = step(s6, d);
            assert(s7 == next_target(s6).0);
            assert(walk(s7, perform(w6, a7), Seq::empty()) == (s7, perform(w6, a7)));
            assert(perform(w6, a7) == w6);
            assert(after_step(w, st) == w6);
            assert(walk(s, w, target_events(st)).1 == after_step(w, st));
        } else {
            assert(tail =~= seq![b2] + Seq::<EventView>::empty());
            lemma_walk_first(s5, w5, b2, Seq::empty());
            assert(walk(s6, perform(w5, a6), Seq::empty()) == (s6, perform(w5, a6)));
            assert(perform(w5, a6) == w5);
            assert(after_step(w, st) == w4);
            assert(walk(s, w, target_events(st)).1 == after_step(w, st));
        }
    }
}

proof fn lemma_answers_keep_history(
    s: SessionView,
    w: Anchors,
    anc: spec_fn(Seq<char>, Seq<char>) -> bool,
    answers: Seq<RetentionStep>,
)
    requires
        0 <= s.pos,
        s.targets.len() - s.pos == answers.len(),
        answers.len() > 0 ==> s.phase == Phase::AwaitSha,
        answers.len() == 0 ==> s.phase == Phase::Finished,
        is_ancestry(anc),
        keepers_named(w),
        truthful_from(w, anc, answers),
        forall|i: int| 0 <= i < s.rows.len() ==> covered(w, anc, #[trigger] s.rows[i].sha),
    ensures
        ({
            let (t, w2) = walk(s, w, answer_events(answers));
            &&& t.phase == Phase::Finished
            &&& forall|i: int| 0 <= i < t.rows.len() ==> covered(w2, anc, #[trigger] t.rows[i].sha)
        }),
    decreases answers.len(),
{
    if answers.len() > 0 {
        let st = answers[0];
        let rest = answers.drop_first();
        lemma_target(s, w, st);
        lemma_walk_concat(s, w, target_events(st), answer_events(rest));
        let (s1, w1) = walk(s, w, target_events(st));
        lemma_retention_keeps_history(w, anc, st.sha, st.tag, st.included, st.including);
        assert forall|i: int| 0 <= i < s1.rows.len() implies covered(w1, anc, #[trigger] s1.rows[i].sha) by {
            if i < s.rows.len() {
                assert(s1.rows[i] == s.rows[i]);
                assert(covered(w, anc, s.rows[i].sha));
            } else {
                assert(s1.rows[i].sha == st.sha);
            }
        }
        lemma_answers_keep_history(s1, w1, anc, rest);
    }
}

proof fn lemma_close_all_keeps_objects(rows: Seq<IntervalView>, ids: Seq<RefId>, date: Seq<char>)
    ensures
        close_all(rows, ids, date).len() == rows.len(),
        forall|i: int| 0 <= i < rows.len() ==> #[trigger] close_all(rows, ids, date)[i].sha == rows[i].sha,
    decreases ids.len(),
{
    if ids.len() > 0 {
        let prev = close_all(rows, ids.drop_last(), date);
        lemma_close_all_keeps_objects(rows, ids.drop_last(), date);
        lemma_latest_open(prev, ids.last(), prev.len() as int);
        assert(close_all(rows, ids, date) == close_spec(prev, ids.last(), date));
    }
}

/// Nothing recorded is ever lost. Given anchors that keep every object the
/// record already holds and whose keepers are named after their commits,
/// and a repository that answers each target's listings truthfully, at the
/// end of a run every object the record holds, old or new, is reachable
/// from the anchors the run leaves.
pub proof fn lemma_run_keeps_history(
    rows: Seq<IntervalView>,
    removed: Seq<RefId>,
    changed: Seq<RefId>,
    new: Seq<RefId>,
    date: Seq<char>,
    w: Anchors,
    anc: spec_fn(Seq<char>, Seq<char>) -> bool,
    answers: Seq<RetentionStep>,
)
    requires
        is_ancestry(anc),
        keepers_named(w),
        truthful_from(w, anc, answers),
        answers.len() == dedup(changed + new).len(),
        forall|i: int| 0 <= i < rows.len() ==> covered(w, anc, #[trigger] rows[i].sha),
    ensures
        ({
            let s = initial(rows, removed, changed, new, date);
            let (t, w2) = walk(s, w, seq![EventView::Done] + answer_events(answers));
            &&& t.phase == Phase::Finished
            &&& forall|i: int| 0 <= i < t.rows.len() ==> covered(w2, anc, #[trigger] t.rows[i].sha)
        }),
{
    let s = initial(rows, removed, changed, new, date);
    lemma_close_all_keeps_objects(rows, dedup(removed + changed), date);
    lemma_walk_first(s, w, EventView::Done, answer_events(answers));
    let (s1, a1) = step(s, EventView::Done);
    assert(perform(w, a1) == w);
    assert forall|i: int| 0 <= i < s1.rows.len() implies covered(w, anc, #[trigger] s1.rows[i].sha) by {
        assert(s1.rows[i].sha == rows[i].sha);
    }
    lemma_answers_keep_history(s1, w, anc, answers);
}

/// Nothing changed upstream, nothing recorded: a run on a fetch that
/// reports no change ends at once, with the record as it was and no keeper
/// made or deleted.
pub proof fn lemma_quiet_fetch_changes_nothing(rows: Seq<IntervalView>, date: Seq<char>)
    ensures
        ({
            let s = initial(rows, Seq::empty(), Seq::empty(), Seq::empty(), date);
            let (t, a) = step(s, EventView::Done);
            &&& a == ActionView::Finish
            &&& t.rows == rows
            &&& t.phase == Phase::Finished
            &&& step(t, EventView::Done) == (t, ActionView::Finish)
        }),
{
    let ids = Seq::<RefId>::empty() + Seq::<RefId>::empty();
    assert(ids =~= Seq::<RefId>::empty());
    assert(Seq::<RefId>::empty() + Seq::<RefId>::empty() =~= Seq::<RefId>::empty());
}

} // verus!
