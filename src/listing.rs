//! Reading what git prints: branch listings, object names and object kinds.
use vstd::prelude::*;
use vstd::string::StringExecFns;
use vstd::utf8::*;

use crate::fetch::{find_byte, find_byte_from, lemma_find_byte_bounds, line_end, text_of, utf8_text};
use crate::{Error, ErrorView};

verus! {

/// The text without its leading and trailing white space, as `str::trim`
/// gives it.
pub uninterp spec fn trimmed(s: Seq<char>) -> Seq<char>;

/// Relies on str::trim: the text with leading and trailing Unicode white
/// space removed, which depends on the text alone.
#[verifier::external_body]
fn trim_text(s: &str) -> (r: &str)
    ensures
        r@ == trimmed(s@),
{
    s.trim()
}

/// Adds a trimmed line of a branch listing: a blank one names no branch.
pub fn push_branch_name(names: &mut Vec<String>, name: &str)
    ensures
        final(names).deep_view() == if name@.len() == 0 {
            old(names).deep_view()
        } else {
            old(names).deep_view().push(name@)
        },
{
    if !name.is_empty() {
        let ghost before = names.deep_view();
        names.push(String::from_str(name));
        assert(names.deep_view() =~= before.push(name@));
    }
}

/// The branch names of the lines that start at `start`, after those
/// gathered already.
pub open spec fn names_from(s: Seq<u8>, start: int, acc: Seq<Seq<char>>) -> Result<Seq<Seq<char>>, ErrorView>
    decreases s.len() - start,
    when 0 <= start <= s.len()
    via names_from_decreases
{
    let e = line_end(s, start);
    let line = s.subrange(start, e);
    if !valid_utf8(line) {
        Err(ErrorView::NotText)
    } else {
        let t = trimmed(decode_utf8(line));
        let next = if t.len() == 0 { acc } else { acc.push(t) };
        if e >= s.len() {
            Ok(next)
        } else {
            names_from(s, e + 1, next)
        }
    }
}

#[via_fn]
proof fn names_from_decreases(s: Seq<u8>, start: int, acc: Seq<Seq<char>>) {
    lemma_find_byte_bounds(s, 0x0a, start);
}

/// The branches that `git branch` lists: one per non-blank line, trimmed.
pub open spec fn branch_listing(s: Seq<u8>) -> Result<Seq<Seq<char>>, ErrorView> {
    names_from(s, 0, Seq::empty())
}

/// Reads the branch names that `git branch` printed; fails on a line that
/// is not UTF-8 text.
pub fn branch_names(out: &[u8]) -> (r: Result<Vec<String>, Error>)
    ensures
        match branch_listing(out@) {
            Ok(names) => r matches Ok(v) && v.deep_view() == names,
            Err(x) => r matches Err(e) && e@ == x,
        },
{
    let mut names: Vec<String> = Vec::new();
    assert(names.deep_view() =~= Seq::<Seq<char>>::empty());
    let mut start: usize = 0;
    loop
        invariant
            start <= out@.len(),
            names_from(out@, start as int, names.deep_view()) == branch_listing(out@),
        decreases out@.len() - start,
    {
        let e = find_byte_from(out, 0x0a, start);
        let line = &out[start..e];
        match utf8_text(line) {
            None => return Err(Error::NotText),
            Some(text) => push_branch_name(&mut names, trim_text(text)),
        }
        if e >= out.len() {
            return Ok(names);
        }
        start = e + 1;
    }
}

/// Reads the object name that `git rev-parse` printed: its output, trimmed.
pub fn object_name(out: &[u8]) -> (r: Result<String, Error>)
    ensures
        valid_utf8(out@) ==> (r matches Ok(s) && s@ == trimmed(decode_utf8(out@))),
        !valid_utf8(out@) ==> (r matches Err(e) && e == Error::NotText),
{
    match utf8_text(out) {
        None => Err(Error::NotText),
        Some(text) => Ok(String::from_str(trim_text(text))),
    }
}

/// Whether `git cat-file -t` printed the kind of a tag object.
pub fn is_tag_kind(out: &[u8]) -> (r: bool)
    ensures
        r == (out@ == seq![0x74u8, 0x61u8, 0x67u8, 0x0au8]),
{
    let r = out.len() == 4 && out[0] == 0x74 && out[1] == 0x61 && out[2] == 0x67 && out[3] == 0x0a;
    if r {
        assert(out@ =~= seq![0x74u8, 0x61u8, 0x67u8, 0x0au8]);
    }
    r
}


// ---- commit logs -----------------------------------------------------------------

/// The text of bytes with each ill-formed sequence replaced by U+FFFD, as
/// `String::from_utf8_lossy` gives it.
pub uninterp spec fn lossy(b: Seq<u8>) -> Seq<char>;

/// Relies on String::from_utf8_lossy: the text of the bytes, ill-formed
/// sequences replaced; well-formed UTF-8 is decoded as it is.
#[verifier::external_body]
fn lossy_text(b: &[u8]) -> (r: String)
    ensures
        r@ == lossy(b@),
        valid_utf8(b@) ==> r@ == decode_utf8(b@),
{
    String::from_utf8_lossy(b).into_owned()
}

/// One commit of a log: its name, and its author, date and message lines.
#[derive(Debug, Clone, PartialEq, Eq)]
pub struct CommitInfo {
    pub sha: String,
    pub author: String,
    pub date: String,
    pub message: String,
}

pub struct CommitView {
    pub sha: Seq<char>,
    pub author: Seq<char>,
    pub date: Seq<char>,
    pub message: Seq<char>,
}

impl View for CommitInfo {
    type V = CommitView;

    open spec fn view(&self) -> CommitView {
        CommitView { sha: self.sha@, author: self.author@, date: self.date@, message: self.message@ }
    }
}

pub open spec fn commit_views(v: Seq<CommitInfo>) -> Seq<CommitView> {
    v.map_values(|c: CommitInfo| c@)
}

pub open spec fn starts_with(l: Seq<u8>, p: Seq<u8>) -> bool {
    l.len() >= p.len() && l.subrange(0, p.len() as int) == p
}

/// `commit ` in ASCII.
pub open spec fn commit_prefix() -> Seq<u8> {
    seq![0x63u8, 0x6fu8, 0x6du8, 0x6du8, 0x69u8, 0x74u8, 0x20u8]
}

/// `Author: ` in ASCII.
pub open spec fn author_prefix() -> Seq<u8> {
    seq![0x41u8, 0x75u8, 0x74u8, 0x68u8, 0x6fu8, 0x72u8, 0x3au8, 0x20u8]
}

/// `Date: ` in ASCII.
pub open spec fn date_prefix() -> Seq<u8> {
    seq![0x44u8, 0x61u8, 0x74u8, 0x65u8, 0x3au8, 0x20u8]
}

/// Four spaces, which indent a message line.
pub open spec fn message_prefix() -> Seq<u8> {
    seq![0x20u8, 0x20u8, 0x20u8, 0x20u8]
}

/// The effect of one line of `git log --format=short` on the commits read
/// so far: `commit` starts a commit; the author, date and indented message
/// lines, trimmed, fill in the last commit; other lines, and lines before
/// the first commit, change nothing.
pub open spec fn log_line(acc: Seq<CommitView>, l: Seq<u8>) -> Seq<CommitView> {
    if starts_with(l, commit_prefix()) {
        acc.push(CommitView {
            sha: lossy(l.subrange(7, l.len() as int)),
            author: Seq::empty(),
            date: Seq::empty(),
            message: Seq::empty(),
        })
    } else if acc.len() == 0 {
        acc
    } else if starts_with(l, author_prefix()) {
        acc.drop_last().push(CommitView { author: trimmed(lossy(l)), ..acc.last() })
    } else if starts_with(l, date_prefix()) {
        acc.drop_last().push(CommitView { date: trimmed(lossy(l)), ..acc.last() })
    } else if starts_with(l, message_prefix()) {
        acc.drop_last().push(CommitView { message: trimmed(lossy(l)), ..acc.last() })
    } else {
        acc
    }
}

pub open spec fn log_from(s: Seq<u8>, start: int, acc: Seq<CommitView>) -> Seq<CommitView>
    decreases s.len() - start,
    when 0 <= start <= s.len()
    via log_from_decreases
{
    let e = line_end(s, start);
    let next = log_line(acc, s.subrange(start, e));
    if e >= s.len() {
        next
    } else {
        log_from(s, e + 1, next)
    }
}

#[via_fn]
proof fn log_from_decreases(s: Seq<u8>, start: int, acc: Seq<CommitView>) {
    lemma_find_byte_bounds(s, 0x0a, start);
}

/// The commits of a log, its lines read in order.
pub open spec fn commit_log(s: Seq<u8>) -> Seq<CommitView> {
    log_from(s, 0, Seq::empty())
}

fn starts_with_bytes(l: &[u8], p: &Vec<u8>) -> (r: bool)
    ensures
        r == starts_with(l@, p@),
{
    if l.len() < p.len() {
        return false;
    }
    let mut i: usize = 0;
    while i < p.len()
        invariant
            0 <= i <= p@.len(),
            p@.len() <= l@.len(),
            l@.subrange(0, i as int) == p@.subrange(0, i as int),
        decreases p@.len() - i,
    {
        if l[i] != p[i] {
            assert(l@.subrange(0, p@.len() as int)[i as int] != p@[i as int]);
            return false;
        }
        assert(l@.subrange(0, i + 1) =~= l@.subrange(0, i as int).push(l@[i as int]));
        assert(p@.subrange(0, i + 1) =~= p@.subrange(0, i as int).push(p@[i as int]));
        i = i + 1;
    }
    assert(p@.subrange(0, p@.len() as int) =~= p@);
    true
}

/// Applies one line of a log to the commits read so far.
pub fn add_log_line(commits: &mut Vec<CommitInfo>, l: &[u8])
    ensures
        commit_views(final(commits)@) == log_line(commit_views(old(commits)@), l@),
{
    let ghost before = commit_views(commits@);
    let commit = vec![0x63u8, 0x6fu8, 0x6du8, 0x6du8, 0x69u8, 0x74u8, 0x20u8];
    let author = vec![0x41u8, 0x75u8, 0x74u8, 0x68u8, 0x6fu8, 0x72u8, 0x3au8, 0x20u8];
    let date = vec![0x44u8, 0x61u8, 0x74u8, 0x65u8, 0x3au8, 0x20u8];
    let message = vec![0x20u8, 0x20u8, 0x20u8, 0x20u8];
    assert(commit@ =~= commit_prefix());
    assert(author@ =~= author_prefix());
    assert(date@ =~= date_prefix());
    assert(message@ =~= message_prefix());
    if starts_with_bytes(l, &commit) {
        let c = CommitInfo {
            sha: lossy_text(&l[7..l.len()]),
            author: String::new(),
            date: String::new(),
            message: String::new(),
        };
        commits.push(c);
        assert(commit_views(commits@) =~= log_line(before, l@));
        return;
    }
    if commits.len() == 0 {
        return;
    }
    let is_author = starts_with_bytes(l, &author);
    let is_date = !is_author && starts_with_bytes(l, &date);
    let is_message = !is_author && !is_date && starts_with_bytes(l, &message);
    if !is_author && !is_date && !is_message {
        return;
    }
    let text = lossy_text(l);
    let t = String::from_str(trim_text(text.as_str()));
    let last = commits.pop();
    match last {
        Some(c) => {
            let mut c = c;
            if is_author {
                c.author = t;
            } else if is_date {
                c.date = t;
            } else {
                c.message = t;
            }
            commits.push(c);
            assert(commit_views(commits@) =~= log_line(before, l@));
        },
        None => {},
    }
}

/// Reads the commits that `git log --format=short` printed.
pub fn log_commits(out: &[u8]) -> (r: Vec<CommitInfo>)
    ensures
        commit_views(r@) == commit_log(out@),
{
    let mut commits: Vec<CommitInfo> = Vec::new();
    assert(commit_views(commits@) =~= Seq::<CommitView>::empty());
    let mut start: usize = 0;
    loop
        invariant
            start <= out@.len(),
            log_from(out@, start as int, commit_views(commits@)) == commit_log(out@),
        decreases out@.len() - start,
    {
        let e = find_byte_from(out, 0x0a, start);
        add_log_line(&mut commits, &out[start..e]);
        if e >= out.len() {
            return commits;
        }
        start = e + 1;
    }
}

} // verus!
