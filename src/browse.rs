//! What a browsing address asks for: a snapshot, and a branch in it.
use vstd::prelude::*;
use vstd::string::StringExecFns;
use vstd::utf8::*;

use crate::history::{rows_view, Interval, IntervalView};
use crate::snapshot::{
    branches_at, chooses_main, lists_live, live_pairs, main_branch, opt_view, pairs_view, resolves, snapshot_dates, SnapshotDates,
};

verus! {

/// The value of a hexadecimal digit byte.
pub open spec fn hex_value(b: u8) -> Option<u8> {
    if 0x30 <= b <= 0x39 {
        Some((b - 0x30) as u8)
    } else if 0x41 <= b <= 0x46 {
        Some((b - 0x37) as u8)
    } else if 0x61 <= b <= 0x66 {
        Some((b - 0x57) as u8)
    } else {
        None
    }
}

/// Bytes with each `%` that two hexadecimal digits follow replaced by the
/// byte they write; any other byte stays.
pub open spec fn percent_decode_bytes(b: Seq<u8>) -> Seq<u8>
    decreases b.len(),
{
    if b.len() == 0 {
        seq![]
    } else if b[0] == 0x25 && b.len() >= 3 && hex_value(b[1]) is Some && hex_value(b[2]) is Some {
        seq![(hex_value(b[1])->0 * 16 + hex_value(b[2])->0) as u8] + percent_decode_bytes(b.subrange(3, b.len() as int))
    } else {
        seq![b[0]] + percent_decode_bytes(b.subrange(1, b.len() as int))
    }
}

/// The text an address segment writes, when its decoded bytes are UTF-8.
pub open spec fn decoded_segment(s: Seq<char>) -> Option<Seq<char>> {
    let b = percent_decode_bytes(encode_utf8(s));
    if valid_utf8(b) {
        Some(decode_utf8(b))
    } else {
        None
    }
}

/// Relies on percent_encoding::percent_decode, read as UTF-8 with
/// PercentDecode::decode_utf8: the segment's bytes percent-decoded, if they
/// are well-formed UTF-8.
#[verifier::external_body]
fn percent_decoded(s: &str) -> (r: Option<String>)
    ensures
        match decoded_segment(s@) {
            Some(t) => r matches Some(x) && x@ == t,
            None => r is None,
        },
{
    percent_encoding::percent_decode(s.as_bytes()).decode_utf8().ok().map(|t| t.into_owned())
}

/// What the address of a branch in a snapshot leads to.
pub enum BrowseTarget {
    /// The date segment does not decode to text.
    BadAddress,
    /// No recorded time is at or before the date asked for.
    NoSnapshot(SnapshotDates),
    /// The branch does not live at the snapshot's time.
    NoBranch(SnapshotDates),
    /// The object the branch pointed at, and the other branches that lived
    /// then.
    Found { date: String, dates: SnapshotDates, others: Vec<(String, String)>, sha: String },
}

/// Resolves the address of a branch in a snapshot: the date segment,
/// percent-decoded, is resolved to a recorded time, and the branch is looked
/// up among those that live then; the others are listed beside it, sorted.
pub fn browse_target(rows: &Vec<Interval>, date: &str, refname: &str) -> (r: BrowseTarget)
    ensures
        ({
            let v = rows_view(rows@);
            let d = decoded_segment(date@)->0;
            match r {
                BrowseTarget::BadAddress => decoded_segment(date@) is None,
                BrowseTarget::NoSnapshot(s) => {
                    &&& decoded_segment(date@) is Some
                    &&& resolves(v, d, s)
                    &&& s.current is None
                },
                BrowseTarget::NoBranch(s) => {
                    &&& decoded_segment(date@) is Some
                    &&& resolves(v, d, s)
                    &&& s.current is Some
                    &&& forall|p: (Seq<char>, Seq<char>)| live_pair_at(v, s.current->0@, p) ==> p.0 != refname@
                },
                BrowseTarget::Found { date: dd, dates: s, others, sha } => {
                    &&& decoded_segment(date@) == Some(dd@)
                    &&& resolves(v, dd@, s)
                    &&& s.current is Some
                    &&& exists|live: Seq<(Seq<char>, Seq<char>)>, k: int|
                        lists_live(v, s.current->0@, live) && 0 <= k < live.len() && live[k] == (refname@, sha@)
                            && pairs_view(others@) == live.remove(k)
                },
            }
        }),
{
    let d = match percent_decoded(date) {
        Some(d) => d,
        None => return BrowseTarget::BadAddress,
    };
    let dates = snapshot_dates(rows, d.as_str());
    let current = match &dates.current {
        Some(c) => c.clone(),
        None => return BrowseTarget::NoSnapshot(dates),
    };
    let branches = branches_at(rows, current.as_str());
    let ghost pv = pairs_view(branches@);
    let name = String::from_str(refname);
    let mut i: usize = 0;
    while i < branches.len()
        invariant
            0 <= i <= branches@.len(),
            pv == pairs_view(branches@),
            pv.len() == branches@.len(),
            name@ == refname@,
            decoded_segment(date@) == Some(d@),
            resolves(rows_view(rows@), d@, dates),
            dates.current is Some,
            dates.current->0@ == current@,
            lists_live(rows_view(rows@), current@, pv),
            forall|k: int| 0 <= k < i ==> (#[trigger] pv[k]).0 != refname@,
        decreases branches@.len() - i,
    {
        if branches[i].0 == name {
            let mut others = branches;
            let (_, sha) = others.remove(i);
            assert(pv[i as int] == (refname@, sha@));
            assert(pairs_view(others@) =~= pv.remove(i as int));
            return BrowseTarget::Found { date: d, dates, others, sha };
        }
        i = i + 1;
    }
    proof {
        assert forall|p: (Seq<char>, Seq<char>)| live_pair_at(rows_view(rows@), current@, p) implies p.0 != refname@ by {
            let v = rows_view(rows@);
            assert(live_pairs(v, Some(current@), v.len() as int).to_multiset().count(p) > 0) by {
                live_pairs(v, Some(current@), v.len() as int).to_multiset_ensures();
            }
            pv.to_multiset_ensures();
            assert(pv.contains(p));
        }
    }
    BrowseTarget::NoBranch(dates)
}

/// A live branch at `at` has this name and object.
pub open spec fn live_pair_at(v: Seq<IntervalView>, at: Seq<char>, p: (Seq<char>, Seq<char>)) -> bool {
    live_pairs(v, Some(at), v.len() as int).contains(p)
}

/// What the address of a snapshot leads to.
pub enum SnapshotHead {
    /// The date segment does not decode to text.
    BadAddress,
    /// No branch lives at the date asked for.
    NoBranch,
    /// The branch to show first at the date asked for.
    Head { date: String, name: String },
}

/// Resolves the address of a snapshot: the date segment, percent-decoded,
/// and the branch to show first at that date.
pub fn snapshot_head(rows: &Vec<Interval>, date: &str) -> (r: SnapshotHead)
    ensures
        match r {
            SnapshotHead::BadAddress => decoded_segment(date@) is None,
            SnapshotHead::NoBranch => decoded_segment(date@) is Some && chooses_main(
                rows_view(rows@),
                decoded_segment(date@),
                None,
            ),
            SnapshotHead::Head { date: d, name } => decoded_segment(date@) == Some(d@) && chooses_main(
                rows_view(rows@),
                Some(d@),
                Some(name@),
            ),
        },
{
    let d = match percent_decoded(date) {
        Some(d) => d,
        None => return SnapshotHead::BadAddress,
    };
    match main_branch(rows, Some(d.as_str())) {
        Some(name) => SnapshotHead::Head { date: d, name },
        None => SnapshotHead::NoBranch,
    }
}

} // verus!
