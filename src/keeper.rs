//! Keeper refs: extra refs that keep every recorded object reachable, so
//! that garbage collection never drops what the record points at.
use vstd::prelude::*;
use vstd::string::StringExecFns;

verus! {

/// The branch that keeps commit `sha` alive.
pub open spec fn keep_name(sha: Seq<char>) -> Seq<char> {
    "keep-"@ + sha
}

/// The ref, outside the branches, that keeps tag object `sha` alive.
pub open spec fn tag_anchor_path(sha: Seq<char>) -> Seq<char> {
    "refs/kept-tags/tag-"@ + sha
}

/// The branches of a listing that a keeper for a descendant supersedes:
/// all but the keeper itself.
pub open spec fn superseded(listed: Seq<Seq<char>>, own: Seq<char>) -> Seq<Seq<char>> {
    listed.filter(other_than(own))
}

pub open spec fn other_than(own: Seq<char>) -> spec_fn(Seq<char>) -> bool {
    |b: Seq<char>| b != own
}

/// A new keeper is redundant when the branches that contain its commit are
/// more than the keeper itself.
pub open spec fn redundant(listed: Seq<Seq<char>>) -> bool {
    listed.len() > 1
}

/// The name of the branch that keeps commit `sha` alive.
pub fn keep_branch_name(sha: &str) -> (r: String)
    ensures
        r@ == keep_name(sha@),
{
    String::from_str("keep-").concat(sha)
}

/// The ref that keeps tag object `sha` alive.
pub fn kept_tag_ref(sha: &str) -> (r: String)
    ensures
        r@ == tag_anchor_path(sha@),
{
    String::from_str("refs/kept-tags/tag-").concat(sha)
}

/// The branches of `listed` to delete once the keeper `own` protects their
/// descendant: all but `own`, in their order.
pub fn superseded_branches(listed: &Vec<String>, own: &String) -> (r: Vec<String>)
    ensures
        r.deep_view() == superseded(listed.deep_view(), own@),
{
    let ghost l = listed.deep_view();
    let ghost pred = other_than(own@);
    let mut r: Vec<String> = Vec::new();
    let mut i: usize = 0;
    while i < listed.len()
        invariant
            0 <= i <= listed@.len(),
            l == listed.deep_view(),
            pred == other_than(own@),
            l.len() == listed@.len(),
            r.deep_view() == l.subrange(0, i as int).filter(pred),
        decreases listed@.len() - i,
    {
        proof {
            reveal(Seq::filter);
            let sub = l.subrange(0, i + 1);
            assert(sub.drop_last() =~= l.subrange(0, i as int));
            assert(sub.last() == l[i as int]);
            assert(l[i as int] == listed@[i as int]@);
            assert(sub.filter(pred) == if pred(l[i as int]) {
                l.subrange(0, i as int).filter(pred).push(l[i as int])
            } else {
                l.subrange(0, i as int).filter(pred)
            });
        }
        if !(listed[i] == *own) {
            r.push(listed[i].clone());
            assert(r.deep_view() =~= l.subrange(0, i as int).filter(pred).push(l[i as int]));
        }
        i = i + 1;
    }
    assert(l.subrange(0, l.len() as int) =~= l);
    r
}

// ---- why no recorded object is lost ---------------------------------------

/// The refs that keep objects alive: branches by name with the commit at
/// their tip, and the tag objects held by refs outside the branches.
pub struct Anchors {
    pub branches: Map<Seq<char>, Seq<char>>,
    pub tag_refs: Set<Seq<char>>,
}

/// Object `x` stays reachable: it is an ancestor (or the same) of a branch
/// tip or of a kept tag object.
pub open spec fn covered(w: Anchors, anc: spec_fn(Seq<char>, Seq<char>) -> bool, x: Seq<char>) -> bool {
    ||| exists|b: Seq<char>| w.branches.contains_key(b) && #[trigger] anc(x, w.branches[b])
    ||| exists|t: Seq<char>| w.tag_refs.contains(t) && #[trigger] anc(x, t)
}

/// Ancestry is reflexive and transitive.
pub open spec fn is_ancestry(anc: spec_fn(Seq<char>, Seq<char>) -> bool) -> bool {
    &&& forall|x: Seq<char>| #[trigger] anc(x, x)
    &&& forall|x: Seq<char>, y: Seq<char>, z: Seq<char>|
        #[trigger] anc(x, y) && #[trigger] anc(y, z) ==> anc(x, z)
}

/// Each keeper branch points at the commit it is named after.
pub open spec fn keepers_named(w: Anchors) -> bool {
    forall|c: Seq<char>| #[trigger] w.branches.contains_key(keep_name(c)) ==> w.branches[keep_name(c)] == c
}

/// `listed` lists, once each, exactly the branches of `w` whose tip
/// satisfies `p`.
pub open spec fn lists_exactly(listed: Seq<Seq<char>>, w: Anchors, p: spec_fn(Seq<char>) -> bool) -> bool {
    &&& listed.no_duplicates()
    &&& forall|b: Seq<char>| #[trigger] listed.contains(b) <==> (w.branches.contains_key(b) && p(w.branches[b]))
}

/// The anchors once the keeper of `sha` is made.
pub open spec fn with_keeper(w: Anchors, sha: Seq<char>, tag: bool) -> Anchors {
    if tag {
        Anchors { tag_refs: w.tag_refs.insert(sha), ..w }
    } else {
        Anchors { branches: w.branches.insert(keep_name(sha), sha), ..w }
    }
}

/// The anchors once the branches of `gone` are deleted.
pub open spec fn without(w: Anchors, gone: Seq<Seq<char>>) -> Anchors {
    Anchors { branches: w.branches.remove_keys(gone.to_set()), ..w }
}

/// The anchors after retention for `sha`: its keeper made, the superseded
/// branches deleted and, for a commit whose keeper is redundant, that
/// keeper deleted again.
pub open spec fn retained(
    w: Anchors,
    sha: Seq<char>,
    tag: bool,
    included: Seq<Seq<char>>,
    including: Seq<Seq<char>>,
) -> Anchors {
    let w2 = without(with_keeper(w, sha, tag), superseded(included, keep_name(sha)));
    if !tag && redundant(including) {
        without(w2, seq![keep_name(sha)])
    } else {
        w2
    }
}

/// Retention loses nothing. Given anchors whose keepers are named after
/// their commits, and listings that the repository answers truthfully
/// (first the branches whose tips are ancestors of the new target, then,
/// for a commit, those that contain it), making the target's keeper,
/// deleting the superseded branches and, when redundant, the new keeper
/// itself leaves the target reachable and every object that was reachable
/// still reachable.
pub proof fn lemma_retention_keeps_history(
    w: Anchors,
    anc: spec_fn(Seq<char>, Seq<char>) -> bool,
    sha: Seq<char>,
    tag: bool,
    included: Seq<Seq<char>>,
    including: Seq<Seq<char>>,
)
    requires
        is_ancestry(anc),
        keepers_named(w),
        lists_exactly(included, with_keeper(w, sha, tag), |t: Seq<char>| anc(t, sha)),
        !tag ==> lists_exactly(
            including,
            without(with_keeper(w, sha, tag), superseded(included, keep_name(sha))),
            |t: Seq<char>| anc(sha, t),
        ),
    ensures
        covered(retained(w, sha, tag, included, including), anc, sha),
        forall|x: Seq<char>|
            covered(w, anc, x) ==> #[trigger] covered(retained(w, sha, tag, included, including), anc, x),
        keepers_named(retained(w, sha, tag, included, including)),
{
    let own = keep_name(sha);
    let gone = superseded(included, own);
    let w1 = with_keeper(w, sha, tag);
    let w2 = without(w1, gone);
    let w3 = if !tag && redundant(including) { without(w2, seq![own]) } else { w2 };
    let pred = other_than(own);
    assert(keepers_named(w3)) by {
        assert forall|c: Seq<char>| #[trigger] w3.branches.contains_key(keep_name(c)) implies w3.branches[keep_name(c)] == c by {
            if !tag && c == sha {
            } else if !tag {
                assert(keep_name(c) != own) by {
                    let p = "keep-"@;
                    assert(keep_name(c).subrange(p.len() as int, keep_name(c).len() as int) =~= c);
                    assert(own.subrange(p.len() as int, own.len() as int) =~= sha);
                }
            }
        }
    }
    // the target's own anchor survives the pruning
    assert(!gone.to_set().contains(own)) by {
        if gone.contains(own) {
            let i = choose|i: int| 0 <= i < gone.len() && gone[i] == own;
            included.lemma_filter_pred(pred, i);
        }
    }
    assert(covered(w2, anc, sha)) by {
        if tag {
            assert(w2.tag_refs.contains(sha) && anc(sha, sha));
        } else {
            assert(w2.branches.contains_key(own) && w2.branches[own] == sha && anc(sha, w2.branches[own]));
        }
    }
    // whatever the deleted branches kept, the target's anchor keeps
    assert forall|x: Seq<char>| covered(w, anc, x) implies #[trigger] covered(w2, anc, x) by {
        if exists|t: Seq<char>| w.tag_refs.contains(t) && #[trigger] anc(x, t) {
            let t = choose|t: Seq<char>| w.tag_refs.contains(t) && #[trigger] anc(x, t);
            assert(w2.tag_refs.contains(t));
        } else {
            let b = choose|b: Seq<char>| w.branches.contains_key(b) && #[trigger] anc(x, w.branches[b]);
            if b == own {
                assert(w.branches[own] == sha);
                assert(w2.branches.contains_key(own) && w2.branches[own] == sha);
                assert(anc(x, w2.branches[own]));
            } else {
                assert(w1.branches[b] == w.branches[b]);
                if gone.to_set().contains(b) {
                    included.lemma_filter_contains_rev(pred, b);
                    assert(included.contains(b));
                    assert(anc(w1.branches[b], sha));
                    assert(anc(x, sha));
                    if tag {
                        assert(w2.tag_refs.contains(sha) && anc(x, sha));
                    } else {
                        assert(w2.branches.contains_key(own) && anc(x, w2.branches[own]));
                    }
                } else {
                    assert(w2.branches.contains_key(b) && w2.branches[b] == w.branches[b]);
                    assert(anc(x, w2.branches[b]));
                }
            }
        }
    }
    if !tag && redundant(including) {
        // another branch contains the target and keeps what its keeper kept
        let other = if including[0] != own { including[0] } else { including[1] };
        assert(including.contains(including[0]));
        assert(including.contains(including[1]));
        assert(including[0] != including[1]);
        assert(other != own);
        assert(including.contains(other));
        assert(w2.branches.contains_key(other) && anc(sha, w2.branches[other]));
        assert(w3.branches.contains_key(other) && w3.branches[other] == w2.branches[other]);
        assert forall|x: Seq<char>| covered(w2, anc, x) implies #[trigger] covered(w3, anc, x) by {
            if exists|t: Seq<char>| w2.tag_refs.contains(t) && #[trigger] anc(x, t) {
                let t = choose|t: Seq<char>| w2.tag_refs.contains(t) && #[trigger] anc(x, t);
                assert(w3.tag_refs.contains(t));
            } else {
                let b = choose|b: Seq<char>| w2.branches.contains_key(b) && #[trigger] anc(x, w2.branches[b]);
                if b == own {
                    assert(anc(x, sha));
                    assert(anc(x, w3.branches[other]));
                } else {
                    assert(!seq![own].to_set().contains(b));
                    assert(w3.branches.contains_key(b) && w3.branches[b] == w2.branches[b]);
                    assert(anc(x, w3.branches[b]));
                }
            }
        }
    }
}


/// One retention step: the target, whether it is a tag object, and the two
/// listings the repository answered.
pub struct RetentionStep {
    pub sha: Seq<char>,
    pub tag: bool,
    pub included: Seq<Seq<char>>,
    pub including: Seq<Seq<char>>,
}

/// The anchors after one retention step.
pub open spec fn after_step(w: Anchors, st: RetentionStep) -> Anchors {
    retained(w, st.sha, st.tag, st.included, st.including)
}

/// The repository answered the step's listings truthfully.
pub open spec fn truthful(w: Anchors, anc: spec_fn(Seq<char>, Seq<char>) -> bool, st: RetentionStep) -> bool {
    &&& lists_exactly(st.included, with_keeper(w, st.sha, st.tag), |t: Seq<char>| anc(t, st.sha))
    &&& !st.tag ==> lists_exactly(
        st.including,
        without(with_keeper(w, st.sha, st.tag), superseded(st.included, keep_name(st.sha))),
        |t: Seq<char>| anc(st.sha, t),
    )
}

/// The anchors after the steps, in order.
pub open spec fn run_steps(w: Anchors, steps: Seq<RetentionStep>) -> Anchors
    decreases steps.len(),
{
    if steps.len() == 0 {
        w
    } else {
        after_step(run_steps(w, steps.drop_last()), steps.last())
    }
}

/// Every step was answered truthfully, in the state it ran in.
pub open spec fn all_truthful(w: Anchors, anc: spec_fn(Seq<char>, Seq<char>) -> bool, steps: Seq<RetentionStep>) -> bool
    decreases steps.len(),
{
    steps.len() == 0 || (all_truthful(w, anc, steps.drop_last()) && truthful(
        run_steps(w, steps.drop_last()),
        anc,
        steps.last(),
    ))
}

/// Over any sequence of retention steps answered truthfully, every target
/// ever kept stays reachable, and so does everything reachable before.
pub proof fn lemma_retention_runs_keep_history(
    w: Anchors,
    anc: spec_fn(Seq<char>, Seq<char>) -> bool,
    steps: Seq<RetentionStep>,
)
    requires
        is_ancestry(anc),
        keepers_named(w),
        all_truthful(w, anc, steps),
    ensures
        keepers_named(run_steps(w, steps)),
        forall|x: Seq<char>| covered(w, anc, x) ==> #[trigger] covered(run_steps(w, steps), anc, x),
        forall|i: int| 0 <= i < steps.len() ==> covered(run_steps(w, steps), anc, #[trigger] steps[i].sha),
    decreases steps.len(),
{
    if steps.len() > 0 {
        let prev = run_steps(w, steps.drop_last());
        let st = steps.last();
        lemma_retention_runs_keep_history(w, anc, steps.drop_last());
        lemma_retention_keeps_history(prev, anc, st.sha, st.tag, st.included, st.including);
        let last = run_steps(w, steps);
        assert(last == after_step(prev, st));
        assert forall|x: Seq<char>| covered(w, anc, x) implies #[trigger] covered(last, anc, x) by {
            assert(covered(prev, anc, x));
        }
        assert forall|i: int| 0 <= i < steps.len() implies covered(last, anc, #[trigger] steps[i].sha) by {
            if i < steps.len() - 1 {
                assert(steps.drop_last()[i] == steps[i]);
                assert(covered(prev, anc, steps.drop_last()[i].sha));
            }
        }
    }
}

} // verus!
