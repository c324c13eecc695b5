//! Reading the record: what the refs looked like at a given time.
use vstd::prelude::*;
use vstd::seq_lib::to_multiset_insert;
use vstd::string::StringExecFns;

use crate::history::{lemma_text_order, rows_view, text_le, text_less, text_lt, Interval, IntervalView};

verus! {

// ---- recorded times ----------------------------------------------------------

/// The times at which the first `n` intervals start or end.
pub open spec fn boundaries_upto(rows: Seq<IntervalView>, n: int) -> Set<Seq<char>>
    decreases n,
{
    if n <= 0 {
        Set::empty()
    } else {
        let before = boundaries_upto(rows, n - 1).insert(rows[n - 1].from);
        match rows[n - 1].to {
            Some(t) => before.insert(t),
            None => before,
        }
    }
}

/// Every time at which an interval starts or ends.
pub open spec fn boundaries(rows: Seq<IntervalView>) -> Set<Seq<char>> {
    boundaries_upto(rows, rows.len() as int)
}

/// The times a query may land on: not after `below`, after `above`, and
/// other than `skip`, where given.
pub open spec fn admitted(
    below: Option<Seq<char>>,
    above: Option<Seq<char>>,
    skip: Option<Seq<char>>,
) -> spec_fn(Seq<char>) -> bool {
    |d: Seq<char>|
        (below matches Some(b) ==> text_le(d, b)) && (above matches Some(a) ==> text_lt(a, d)) && (skip
            matches Some(k) ==> d != k)
}

/// `d` is a better pick than `c`: earlier when the lowest is wanted, later
/// otherwise.
pub open spec fn beats(lowest: bool, d: Seq<char>, c: Seq<char>) -> bool {
    if lowest {
        text_lt(d, c)
    } else {
        text_lt(c, d)
    }
}

/// `r` is the best of the candidates that `p` admits (the lowest or the
/// highest), or nothing when it admits none.
pub open spec fn best_of(
    cands: Set<Seq<char>>,
    p: spec_fn(Seq<char>) -> bool,
    lowest: bool,
    r: Option<Seq<char>>,
) -> bool {
    match r {
        Some(c) => cands.contains(c) && p(c) && forall|d: Seq<char>|
            cands.contains(d) && p(d) ==> !#[trigger] beats(lowest, d, c),
        None => forall|d: Seq<char>| cands.contains(d) ==> !p(d),
    }
}

pub open spec fn opt_view(o: Option<String>) -> Option<Seq<char>> {
    match o {
        Some(s) => Some(s@),
        None => None,
    }
}

pub open spec fn opt_str_view(o: Option<&str>) -> Option<Seq<char>> {
    match o {
        Some(s) => Some(s@),
        None => None,
    }
}

pub open spec fn opt_string_view(o: Option<&String>) -> Option<Seq<char>> {
    match o {
        Some(s) => Some(s@),
        None => None,
    }
}

fn admits(d: &String, below: Option<&str>, above: Option<&str>, skip: Option<&String>) -> (r: bool)
    ensures
        r == admitted(opt_str_view(below), opt_str_view(above), opt_string_view(skip))(d@),
{
    let ok_below = match below {
        Some(b) => !text_less(b, d.as_str()),
        None => true,
    };
    let ok_above = match above {
        Some(a) => text_less(a, d.as_str()),
        None => true,
    };
    let ok_skip = match skip {
        Some(k) => !(*d == *k),
        None => true,
    };
    ok_below && ok_above && ok_skip
}

/// Weighs one more candidate.
fn consider(
    best: &mut Option<String>,
    d: &String,
    below: Option<&str>,
    above: Option<&str>,
    skip: Option<&String>,
    lowest: bool,
    Ghost(cands): Ghost<Set<Seq<char>>>,
)
    requires
        best_of(cands, admitted(opt_str_view(below), opt_str_view(above), opt_string_view(skip)), lowest, opt_view(*old(best))),
    ensures
        best_of(cands.insert(d@), admitted(opt_str_view(below), opt_str_view(above), opt_string_view(skip)), lowest, opt_view(*final(best))),
{
    let ghost p = admitted(opt_str_view(below), opt_str_view(above), opt_string_view(skip));
    if !admits(d, below, above, skip) {
        return;
    }
    let better = match best {
        None => true,
        Some(c) => if lowest {
            text_less(d.as_str(), c.as_str())
        } else {
            text_less(c.as_str(), d.as_str())
        },
    };
    if better {
        proof {
            if let Some(c) = opt_view(*best) {
                assert forall|e: Seq<char>| cands.insert(d@).contains(e) && p(e) implies !#[trigger] beats(lowest, e, d@) by {
                    if e != d@ {
                        assert(cands.contains(e));
                        assert(!beats(lowest, e, c));
                        assert(beats(lowest, d@, c));
                        lemma_text_order(e, d@, c);
                        lemma_text_order(c, d@, e);
                    } else {
                        lemma_text_order(e, e, e);
                    }
                }
            } else {
                assert forall|e: Seq<char>| cands.insert(d@).contains(e) && p(e) implies !#[trigger] beats(lowest, e, d@) by {
                    lemma_text_order(e, e, e);
                }
            }
        }
        *best = Some(d.clone());
    } else {
        proof {
            let c = opt_view(*best)->0;
            assert(cands.insert(d@).contains(c));
        }
    }
}

/// The lowest or the highest recorded time that the bounds admit.
fn pick_boundary(
    rows: &Vec<Interval>,
    below: Option<&str>,
    above: Option<&str>,
    skip: Option<&String>,
    lowest: bool,
) -> (r: Option<String>)
    ensures
        best_of(
            boundaries(rows_view(rows@)),
            admitted(opt_str_view(below), opt_str_view(above), opt_string_view(skip)),
            lowest,
            opt_view(r),
        ),
{
    let ghost v = rows_view(rows@);
    let mut best: Option<String> = None;
    let mut i: usize = 0;
    while i < rows.len()
        invariant
            0 <= i <= rows@.len(),
            v == rows_view(rows@),
            v.len() == rows@.len(),
            best_of(
                boundaries_upto(v, i as int),
                admitted(opt_str_view(below), opt_str_view(above), opt_string_view(skip)),
                lowest,
                opt_view(best),
            ),
        decreases rows@.len() - i,
    {
        let row = &rows[i];
        assert(v[i as int] == row@);
        consider(&mut best, &row.from_date, below, above, skip, lowest, Ghost(boundaries_upto(v, i as int)));
        match &row.to_date {
            Some(t) => {
                consider(
                    &mut best,
                    t,
                    below,
                    above,
                    skip,
                    lowest,
                    Ghost(boundaries_upto(v, i as int).insert(row.from_date@)),
                );
            },
            None => {},
        }
        i = i + 1;
    }
    best
}

/// The recorded time a query lands on, with its neighbours.
#[derive(Debug, Clone, PartialEq, Eq)]
pub struct SnapshotDates {
    /// The latest recorded time not after the one asked for; none when the
    /// record starts later.
    pub current: Option<String>,
    /// The recorded time before `current`.
    pub prev: Option<String>,
    /// The first recorded time after the one asked for.
    pub next: Option<String>,
}

/// `r` holds the recorded times around `requested`: for `latest`, the
/// latest recorded time and the one before it; otherwise the latest not
/// after the request, the one before that, and the first after the request.
pub open spec fn resolves(rows: Seq<IntervalView>, requested: Seq<char>, r: SnapshotDates) -> bool {
    let b = boundaries(rows);
    let cur = opt_view(r.current);
    if requested == "latest"@ {
        &&& best_of(b, admitted(None, None, None), false, cur)
        &&& best_of(b, admitted(None, None, cur), false, opt_view(r.prev))
        &&& r.next is None
    } else {
        let q = Some(requested);
        &&& best_of(b, admitted(q, None, None), false, cur)
        &&& best_of(b, admitted(q, None, cur), false, opt_view(r.prev))
        &&& best_of(b, admitted(None, q, None), true, opt_view(r.next))
    }
}

/// Resolves a requested time (a written time stamp, or `latest`) to the
/// recorded times around it. For `latest`, the latest recorded time and the
/// one before it; otherwise the latest recorded time not after the request,
/// the one before that, and the first after the request.
pub fn snapshot_dates(rows: &Vec<Interval>, requested: &str) -> (r: SnapshotDates)
    ensures
        resolves(rows_view(rows@), requested@, r),
{
    let latest = String::from_str(requested) == String::from_str("latest");
    if latest {
        let current = pick_boundary(rows, None, None, None, false);
        let prev = pick_boundary(rows, None, None, current.as_ref(), false);
        SnapshotDates { current, prev, next: None }
    } else {
        let current = pick_boundary(rows, Some(requested), None, None, false);
        let prev = pick_boundary(rows, Some(requested), None, current.as_ref(), false);
        let next = pick_boundary(rows, None, Some(requested), None, true);
        SnapshotDates { current, prev, next }
    }
}


// ---- live branches ---------------------------------------------------------------

/// The interval is a branch's, and covers time `at` (or, without a time,
/// is still open).
pub open spec fn live_at(r: IntervalView, at: Option<Seq<char>>) -> bool {
    &&& !r.tag
    &&& match at {
        Some(a) => text_le(r.from, a) && (r.to matches Some(t) ==> text_lt(a, t)),
        None => r.to is None,
    }
}

/// Name and object of the live branches among the first `n` intervals.
pub open spec fn live_pairs(rows: Seq<IntervalView>, at: Option<Seq<char>>, n: int) -> Seq<(Seq<char>, Seq<char>)>
    decreases n,
{
    if n <= 0 {
        seq![]
    } else {
        let before = live_pairs(rows, at, n - 1);
        if live_at(rows[n - 1], at) {
            before.push((rows[n - 1].name, rows[n - 1].sha))
        } else {
            before
        }
    }
}

/// Pairs of texts in lexicographic order.
pub open spec fn pair_lt(x: (Seq<char>, Seq<char>), y: (Seq<char>, Seq<char>)) -> bool {
    text_lt(x.0, y.0) || (x.0 == y.0 && text_lt(x.1, y.1))
}

pub open spec fn sorted_pairs(s: Seq<(Seq<char>, Seq<char>)>) -> bool {
    forall|i: int, j: int| 0 <= i < j < s.len() ==> !pair_lt(#[trigger] s[j], #[trigger] s[i])
}

pub open spec fn pairs_view(v: Seq<(String, String)>) -> Seq<(Seq<char>, Seq<char>)> {
    v.map_values(|p: (String, String)| (p.0@, p.1@))
}

proof fn lemma_pair_order(x: (Seq<char>, Seq<char>), y: (Seq<char>, Seq<char>), z: (Seq<char>, Seq<char>))
    ensures
        !pair_lt(x, x),
        pair_lt(x, y) && pair_lt(y, z) ==> pair_lt(x, z),
{
    lemma_text_order(x.0, y.0, z.0);
    lemma_text_order(x.1, y.1, z.1);
}

fn pair_less(x: &(String, String), y: &(String, String)) -> (r: bool)
    ensures
        r == pair_lt((x.0@, x.1@), (y.0@, y.1@)),
{
    text_less(x.0.as_str(), y.0.as_str()) || (x.0 == y.0 && text_less(x.1.as_str(), y.1.as_str()))
}

/// Inserts a pair into a sorted list, keeping it sorted.
fn insert_sorted(v: &mut Vec<(String, String)>, x: (String, String))
    requires
        sorted_pairs(pairs_view(old(v)@)),
    ensures
        sorted_pairs(pairs_view(final(v)@)),
        pairs_view(final(v)@).to_multiset() == pairs_view(old(v)@).to_multiset().insert((x.0@, x.1@)),
{
    let ghost xv = (x.0@, x.1@);
    let ghost pv = pairs_view(v@);
    let mut pos: usize = 0;
    while pos < v.len() && !pair_less(&x, &v[pos])
        invariant
            0 <= pos <= v@.len(),
            xv == (x.0@, x.1@),
            v@ == old(v)@,
            pv == pairs_view(v@),
            pv.len() == v@.len(),
            forall|k: int| 0 <= k < pos ==> !pair_lt(xv, #[trigger] pv[k]),
        decreases v@.len() - pos,
    {
        assert(pv[pos as int] == (v@[pos as int].0@, v@[pos as int].1@));
        pos = pos + 1;
    }
    v.insert(pos, x);
    proof {
        let nv = pairs_view(v@);
        assert(nv =~= pv.insert(pos as int, xv));
        to_multiset_insert(pv, pos as int, xv);
        assert forall|i: int, j: int| 0 <= i < j < nv.len() implies !pair_lt(#[trigger] nv[j], #[trigger] nv[i]) by {
            if j < pos {
                assert(nv[i] == pv[i] && nv[j] == pv[j]);
            } else if j == pos {
                assert(nv[i] == pv[i]);
            } else if i == pos {
                assert(nv[j] == pv[j - 1]);
                assert(pair_lt(xv, pv[pos as int]));
                lemma_pair_order(pv[j - 1], xv, pv[pos as int]);
                lemma_pair_order(pv[pos as int], pv[pos as int], pv[pos as int]);
            } else if i < pos {
                assert(nv[i] == pv[i] && nv[j] == pv[j - 1]);
            } else {
                assert(nv[i] == pv[i - 1] && nv[j] == pv[j - 1]);
            }
        }
    }
}

fn is_live(row: &Interval, at: Option<&str>) -> (r: bool)
    ensures
        r == live_at(row@, opt_str_view(at)),
{
    if row.tag {
        return false;
    }
    match at {
        Some(a) => {
            !text_less(a, row.from_date.as_str()) && match &row.to_date {
                Some(t) => text_less(a, t.as_str()),
                None => true,
            }
        },
        None => row.to_date.is_none(),
    }
}

/// `v` lists the branches that live at `at`, each with its object, sorted.
pub open spec fn lists_live(rows: Seq<IntervalView>, at: Seq<char>, v: Seq<(Seq<char>, Seq<char>)>) -> bool {
    &&& sorted_pairs(v)
    &&& v.to_multiset() == live_pairs(rows, Some(at), rows.len() as int).to_multiset()
}

/// The branches that live at recorded time `at`, each with the object it
/// pointed at, sorted by name and then object.
pub fn branches_at(rows: &Vec<Interval>, at: &str) -> (r: Vec<(String, String)>)
    ensures
        lists_live(rows_view(rows@), at@, pairs_view(r@)),
{
    let ghost v = rows_view(rows@);
    let mut r: Vec<(String, String)> = Vec::new();
    assert(pairs_view(r@) =~= Seq::empty());
    let mut i: usize = 0;
    while i < rows.len()
        invariant
            0 <= i <= rows@.len(),
            v == rows_view(rows@),
            v.len() == rows@.len(),
            sorted_pairs(pairs_view(r@)),
            pairs_view(r@).to_multiset() == live_pairs(v, Some(at@), i as int).to_multiset(),
        decreases rows@.len() - i,
    {
        let row = &rows[i];
        assert(v[i as int] == row@);
        if is_live(row, Some(at)) {
            insert_sorted(&mut r, (row.name.clone(), row.sha.clone()));
            proof {
                vstd::seq_lib::to_multiset_build(live_pairs(v, Some(at@), i as int), (row@.name, row@.sha));
            }
        }
        i = i + 1;
    }
    r
}

/// Order of intervals by start time, then by name.
pub open spec fn main_key_lt(x: IntervalView, y: IntervalView) -> bool {
    text_lt(x.from, y.from) || (x.from == y.from && text_lt(x.name, y.name))
}

/// `r` is the branch to show first at `at`: `master` when it lives then;
/// otherwise the live branch that started last, the last by name among
/// those that started together; none when no branch lives then.
pub open spec fn chooses_main(v: Seq<IntervalView>, a: Option<Seq<char>>, r: Option<Seq<char>>) -> bool {
    if exists|i: int| 0 <= i < v.len() && live_at(#[trigger] v[i], a) && v[i].name == "master"@ {
        r == Some("master"@)
    } else {
        match r {
            None => forall|i: int| 0 <= i < v.len() ==> !live_at(#[trigger] v[i], a),
            Some(n) => exists|i: int|
                0 <= i < v.len() && live_at(#[trigger] v[i], a) && v[i].name == n && forall|j: int|
                    0 <= j < v.len() && live_at(#[trigger] v[j], a) ==> !main_key_lt(v[i], v[j]),
        }
    }
}

/// The branch to show first at time `at` (or, without a time, now):
/// `master` when it lives then; otherwise the live branch that started
/// last, the last by name among those that started together; none when no
/// branch lives then.
pub fn main_branch(rows: &Vec<Interval>, at: Option<&str>) -> (r: Option<String>)
    ensures
        chooses_main(rows_view(rows@), opt_str_view(at), opt_view(r)),
{
    let ghost v = rows_view(rows@);
    let ghost a = opt_str_view(at);
    let master = String::from_str("master");
    let mut i: usize = 0;
    while i < rows.len()
        invariant
            0 <= i <= rows@.len(),
            v == rows_view(rows@),
            v.len() == rows@.len(),
            a == opt_str_view(at),
            master@ == "master"@,
            forall|k: int| 0 <= k < i ==> !(live_at(#[trigger] v[k], a) && v[k].name == "master"@),
        decreases rows@.len() - i,
    {
        let row = &rows[i];
        assert(v[i as int] == row@);
        if is_live(row, at) && row.name == master {
            return Some(master);
        }
        i = i + 1;
    }
    let mut best: Option<usize> = None;
    let mut i: usize = 0;
    while i < rows.len()
        invariant
            0 <= i <= rows@.len(),
            v == rows_view(rows@),
            v.len() == rows@.len(),
            a == opt_str_view(at),
            forall|k: int| 0 <= k < rows@.len() ==> !(live_at(#[trigger] v[k], a) && v[k].name == "master"@),
            best is None ==> forall|k: int| 0 <= k < i ==> !live_at(#[trigger] v[k], a),
            best matches Some(b) ==> b < i && live_at(v[b as int], a) && forall|k: int|
                0 <= k < i && live_at(#[trigger] v[k], a) ==> !main_key_lt(v[b as int], v[k]),
        decreases rows@.len() - i,
    {
        let row = &rows[i];
        assert(v[i as int] == row@);
        if is_live(row, at) {
            let later = match best {
                None => true,
                Some(b) => {
                    let cur = &rows[b];
                    assert(v[b as int] == cur@);
                    text_less(cur.from_date.as_str(), row.from_date.as_str()) || (cur.from_date
                        == row.from_date && text_less(cur.name.as_str(), row.name.as_str()))
                },
            };
            if later {
                proof {
                    assert forall|k: int| 0 <= k <= i && live_at(#[trigger] v[k], a) implies !main_key_lt(v[i as int], v[k]) by {
                        lemma_text_order(v[k].from, v[k].from, v[k].from);
                        lemma_text_order(v[k].name, v[k].name, v[k].name);
                        if let Some(b) = best {
                            if k < i {
                                let x = v[b as int];
                                let y = v[i as int];
                                let z = v[k];
                                assert(!main_key_lt(x, z));
                                assert(main_key_lt(x, y));
                                lemma_text_order(x.from, y.from, z.from);
                                lemma_text_order(x.from, z.from, y.from);
                                lemma_text_order(y.from, z.from, x.from);
                                lemma_text_order(z.from, y.from, x.from);
                                lemma_text_order(x.name, y.name, z.name);
                                lemma_text_order(x.name, z.name, y.name);
                                lemma_text_order(y.name, z.name, x.name);
                                lemma_text_order(z.name, y.name, x.name);
                            }
                        }
                    }
                }
                best = Some(i);
            } else {
                proof {
                    let b = best->0;
                    let x = v[b as int];
                    let y = v[i as int];
                    lemma_text_order(x.from, y.from, y.from);
                    lemma_text_order(y.from, x.from, x.from);
                    lemma_text_order(x.name, y.name, y.name);
                    lemma_text_order(y.name, x.name, x.name);
                }
            }
        }
        i = i + 1;
    }
    match best {
        Some(b) => {
            assert(v[b as int] == rows@[b as int]@);
            Some(rows[b].name.clone())
        },
        None => None,
    }
}

} // verus!
