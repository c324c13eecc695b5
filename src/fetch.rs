//! Reading the ref changes that a fetch reports.
use vstd::prelude::*;
use vstd::string::StringSliceAdditionalSpecFns;
use vstd::string::StringExecFns;
use vstd::utf8::*;

use crate::{Error, ErrorView};

verus! {

/// What a fetch did to one ref, from the one-character code of its line.
#[derive(Debug, Clone, Copy, PartialEq, Eq, Structural)]
pub enum Operation {
    FastForward,
    Forced,
    Pruned,
    Tag,
    New,
    Reject,
    Noop,
}

/// The operation that a code byte stands for, if any.
pub open spec fn operation_of(code: u8) -> Option<Operation> {
    if code == 0x20 {
        Some(Operation::FastForward)
    } else if code == 0x2b {
        Some(Operation::Forced)
    } else if code == 0x2d {
        Some(Operation::Pruned)
    } else if code == 0x74 {
        Some(Operation::Tag)
    } else if code == 0x2a {
        Some(Operation::New)
    } else if code == 0x21 {
        Some(Operation::Reject)
    } else if code == 0x3d {
        Some(Operation::Noop)
    } else {
        None
    }
}

/// Maps a code byte to its operation.
pub fn operation_of_code(code: u8) -> (r: Option<Operation>)
    ensures
        r == operation_of(code),
{
    match code {
        0x20 => Some(Operation::FastForward),
        0x2b => Some(Operation::Forced),
        0x2d => Some(Operation::Pruned),
        0x74 => Some(Operation::Tag),
        0x2a => Some(Operation::New),
        0x21 => Some(Operation::Reject),
        0x3d => Some(Operation::Noop),
        _ => None,
    }
}

/// Parses the operation code of a fetch line: exactly one byte, one of the seven codes.
pub fn parse_operation(chr: &str) -> (r: Result<Operation, Error>)
    ensures
        r is Ok <==> chr.spec_bytes().len() == 1 && operation_of(chr.spec_bytes()[0]) is Some,
        r matches Ok(op) ==> Some(op) == operation_of(chr.spec_bytes()[0]),
        r matches Err(e) ==> e == Error::InvalidOperation,
{
    if chr.len() != 1 {
        return Err(Error::InvalidOperation);
    }
    let bytes = chr.as_bytes();
    match operation_of_code(bytes[0]) {
        Some(op) => Ok(op),
        None => Err(Error::InvalidOperation),
    }
}


/// What names a branch or a tag: its name and whether it is a tag.
pub struct RefId {
    pub name: Seq<char>,
    pub tag: bool,
}

/// A branch or a tag, as the archive names it: branches and tags have
/// separate name spaces.
#[derive(Debug, Clone, PartialEq, Eq, Hash)]
pub struct Ref {
    pub name: String,
    pub tag: bool,
}

impl View for Ref {
    type V = RefId;

    open spec fn view(&self) -> RefId {
        RefId { name: self.name@, tag: self.tag }
    }
}

/// The three sets of refs that a fetch reports.
pub struct ChangeSets {
    pub new: Set<RefId>,
    pub changed: Set<RefId>,
    pub removed: Set<RefId>,
}

pub open spec fn ref_ids(v: Seq<Ref>) -> Seq<RefId> {
    v.map_values(|r: Ref| r@)
}

/// The ref changes of a fetch: each list holds each ref once.
pub struct FetchOutput {
    pub new: Vec<Ref>,
    pub changed: Vec<Ref>,
    pub removed: Vec<Ref>,
}

impl View for FetchOutput {
    type V = ChangeSets;

    open spec fn view(&self) -> ChangeSets {
        ChangeSets {
            new: ref_ids(self.new@).to_set(),
            changed: ref_ids(self.changed@).to_set(),
            removed: ref_ids(self.removed@).to_set(),
        }
    }
}

impl FetchOutput {
    /// No list names a ref twice.
    pub open spec fn distinct(&self) -> bool {
        &&& ref_ids(self.new@).no_duplicates()
        &&& ref_ids(self.changed@).no_duplicates()
        &&& ref_ids(self.removed@).no_duplicates()
    }
}

// ---- the line grammar ------------------------------------------------------
//
// A line that reports a ref reads
//   ' ' code ' '+ summary ' '+ old-name ' '+ '->' ' '+ new-name (' '+ reason)?
// where the summary is a run of non-space bytes or a bracketed text, the
// names are runs of non-space bytes and the reason is any non-empty text.
// When both forms of the summary fit, the run of non-space bytes is taken.
// The code is any one character; a line whose code is not one of the seven
// operation codes fails the parse.

pub open spec fn is_space(b: u8) -> bool {
    b == 0x20
}

/// The first index from `i` on that holds no space (or the length).
pub open spec fn skip_spaces(l: Seq<u8>, i: int) -> int
    decreases l.len() - i,
{
    if i < 0 || i >= l.len() || !is_space(l[i]) {
        i
    } else {
        skip_spaces(l, i + 1)
    }
}

/// The first index from `i` on that holds a space (or the length).
pub open spec fn token_end(l: Seq<u8>, i: int) -> int
    decreases l.len() - i,
{
    if i < 0 || i >= l.len() || is_space(l[i]) {
        i
    } else {
        token_end(l, i + 1)
    }
}

/// The first index from `i` on that holds byte `b` (or the length).
pub open spec fn find_byte(l: Seq<u8>, b: u8, i: int) -> int
    decreases l.len() - i,
{
    if i < 0 || i >= l.len() || l[i] == b {
        i
    } else {
        find_byte(l, b, i + 1)
    }
}

/// Matches what follows the summary, which ends before `j`; gives the span
/// of the new name.
pub open spec fn tail_match(l: Seq<u8>, j: int) -> Option<(int, int)> {
    if 0 <= j < l.len() && is_space(l[j]) {
        let k = skip_spaces(l, j);
        let e = token_end(l, k);
        let m = skip_spaces(l, e);
        if k < l.len() && e < l.len() && m + 2 < l.len() && l[m] == 0x2d && l[m + 1] == 0x3e
            && is_space(l[m + 2]) {
            let n = skip_spaces(l, m + 2);
            let p = token_end(l, n);
            if n < l.len() && (p == l.len() || p + 2 <= l.len()) {
                Some((n, p))
            } else {
                None
            }
        } else {
            None
        }
    } else {
        None
    }
}

/// A UTF-8 continuation byte: it goes on the character before it.
pub open spec fn is_continuation(b: u8) -> bool {
    0x80 <= b <= 0xbf
}

/// The end of the character that goes on before `i`: the first index from
/// `i` on that holds no continuation byte (or the length).
pub open spec fn char_end(l: Seq<u8>, i: int) -> int
    decreases l.len() - i,
{
    if i < 0 || i >= l.len() || !is_continuation(l[i]) {
        i
    } else {
        char_end(l, i + 1)
    }
}

/// The operation that a line's code stands for: one of the seven one-byte
/// codes, or none for any other character.
pub open spec fn code_operation(l: Seq<u8>, k: int) -> Option<Operation> {
    if k == 2 {
        operation_of(l[1])
    } else {
        None
    }
}

/// Matches a line that reports a ref: the operation of its code (none for
/// an unknown code) and the span of its new name. The code is the one
/// character after the leading space, whatever it is.
pub open spec fn fetch_line(l: Seq<u8>) -> Option<(Option<Operation>, int, int)> {
    let k = char_end(l, 2);
    if l.len() >= 3 && is_space(l[0]) && k < l.len() && is_space(l[k]) {
        let i = skip_spaces(l, k);
        let op = code_operation(l, k);
        if i < l.len() {
            match tail_match(l, token_end(l, i)) {
                Some(t) => Some((op, t.0, t.1)),
                None => {
                    let q = find_byte(l, 0x5d, i + 1);
                    if l[i] == 0x5b && i + 1 < l.len() && l[i + 1] != 0x5d && q < l.len() {
                        match tail_match(l, q + 1) {
                            Some(t) => Some((op, t.0, t.1)),
                            None => None,
                        }
                    } else {
                        None
                    }
                },
            }
        } else {
            None
        }
    } else {
        None
    }
}

/// The ref that a new name stands for: with a '/', a branch of the archived
/// remote; without, a tag.
pub open spec fn ref_of_target(t: Seq<u8>) -> Result<RefId, ErrorView> {
    let k = find_byte(t, 0x2f, 0);
    if k == t.len() {
        Ok(RefId { name: decode_utf8(t), tag: true })
    } else if decode_utf8(t.subrange(0, k)) == REMOTE@ {
        Ok(RefId { name: decode_utf8(t.subrange(k + 1, t.len() as int)), tag: false })
    } else {
        Err(ErrorView::UnknownRemote(decode_utf8(t)))
    }
}

/// The effect of one line of fetch output on the sets gathered so far.
pub open spec fn apply_line(acc: ChangeSets, l: Seq<u8>) -> Result<ChangeSets, ErrorView> {
    if !valid_utf8(l) {
        Err(ErrorView::NotText)
    } else {
        match fetch_line(l) {
            None => Ok(acc),
            Some((code, n, p)) => {
                let t = l.subrange(n, p);
                match code {
                    None => Err(ErrorView::InvalidOperation),
                    Some(Operation::Reject) => Err(ErrorView::Rejected(decode_utf8(t))),
                    Some(Operation::Noop) => Ok(acc),
                    Some(op) => match ref_of_target(t) {
                        Err(e) => Err(e),
                        Ok(r) => if op == Operation::New {
                            Ok(ChangeSets { new: acc.new.insert(r), ..acc })
                        } else if op == Operation::Pruned {
                            Ok(ChangeSets { removed: acc.removed.insert(r), ..acc })
                        } else {
                            Ok(ChangeSets { changed: acc.changed.insert(r), ..acc })
                        },
                    },
                }
            },
        }
    }
}

/// The end of the line that starts at `i`: the next newline, or the length.
pub open spec fn line_end(s: Seq<u8>, i: int) -> int {
    find_byte(s, 0x0a, i)
}

/// The sets gathered from the lines that start at `start`, given those
/// gathered before; the first failing line decides the error.
pub open spec fn parse_from(s: Seq<u8>, start: int, acc: ChangeSets) -> Result<ChangeSets, ErrorView>
    decreases s.len() - start,
    when 0 <= start <= s.len()
    via parse_from_decreases
{
    let e = line_end(s, start);
    match apply_line(acc, s.subrange(start, e)) {
        Err(x) => Err(x),
        Ok(a) => if e >= s.len() {
            Ok(a)
        } else {
            parse_from(s, e + 1, a)
        },
    }
}

#[via_fn]
proof fn parse_from_decreases(s: Seq<u8>, start: int, acc: ChangeSets) {
    lemma_find_byte_bounds(s, 0x0a, start);
}

pub open spec fn no_changes() -> ChangeSets {
    ChangeSets { new: Set::empty(), changed: Set::empty(), removed: Set::empty() }
}

/// What a fetch's diagnostic output reports: the lines split at each newline,
/// read in order.
pub open spec fn parse_fetch(s: Seq<u8>) -> Result<ChangeSets, ErrorView> {
    parse_from(s, 0, no_changes())
}

/// The remote that the archive follows.
pub const REMOTE: &'static str = "origin";

// ---- lemmas ------------------------------------------------------------------

pub proof fn lemma_find_byte_bounds(l: Seq<u8>, b: u8, i: int)
    requires
        0 <= i <= l.len(),
    ensures
        i <= find_byte(l, b, i) <= l.len(),
        find_byte(l, b, i) < l.len() ==> l[find_byte(l, b, i)] == b,
        forall|k: int| i <= k < find_byte(l, b, i) ==> l[k] != b,
    decreases l.len() - i,
{
    if i < l.len() && l[i] != b {
        lemma_find_byte_bounds(l, b, i + 1);
    }
}

pub proof fn lemma_skip_spaces_bounds(l: Seq<u8>, i: int)
    requires
        0 <= i <= l.len(),
    ensures
        i <= skip_spaces(l, i) <= l.len(),
        skip_spaces(l, i) < l.len() ==> !is_space(l[skip_spaces(l, i)]),
        forall|k: int| i <= k < skip_spaces(l, i) ==> is_space(#[trigger] l[k]),
    decreases l.len() - i,
{
    if i < l.len() && is_space(l[i]) {
        lemma_skip_spaces_bounds(l, i + 1);
    }
}

pub proof fn lemma_char_end_bounds(l: Seq<u8>, i: int)
    requires
        0 <= i <= l.len(),
    ensures
        i <= char_end(l, i) <= l.len(),
    decreases l.len() - i,
{
    if i < l.len() && is_continuation(l[i]) {
        lemma_char_end_bounds(l, i + 1);
    }
}

pub proof fn lemma_token_end_bounds(l: Seq<u8>, i: int)
    requires
        0 <= i <= l.len(),
    ensures
        i <= token_end(l, i) <= l.len(),
        token_end(l, i) < l.len() ==> is_space(l[token_end(l, i)]),
        forall|k: int| i <= k < token_end(l, i) ==> !is_space(#[trigger] l[k]),
    decreases l.len() - i,
{
    if i < l.len() && !is_space(l[i]) {
        lemma_token_end_bounds(l, i + 1);
    }
}

/// In well-formed UTF-8, a character starts right after any ASCII byte.
pub proof fn lemma_boundary_after_ascii(bytes: Seq<u8>, index: int)
    requires
        valid_utf8(bytes),
        0 < index <= bytes.len(),
        bytes[index - 1] < 0x80,
    ensures
        is_char_boundary(bytes, index),
    decreases bytes.len(),
{
    let k = length_of_first_scalar(bytes);
    if index - 1 == 0 {
        assert(is_leading_byte_width_1(bytes[0]));
        assert(is_char_boundary(pop_first_scalar(bytes), 0));
    } else if index - 1 < k {
        assert(is_continuation_byte(bytes[index - 1]));
    } else {
        let rest = pop_first_scalar(bytes);
        assert(rest[index - k - 1] == bytes[index - 1]);
        lemma_boundary_after_ascii(rest, index - k);
    }
}

/// The bytes between two places that each follow an ASCII byte, or end
/// the text, are well-formed UTF-8 too.
pub proof fn lemma_valid_span(l: Seq<u8>, n: int, p: int)
    requires
        valid_utf8(l),
        0 < n <= p <= l.len(),
        l[n - 1] < 0x80,
        p < l.len() ==> l[p] < 0x80,
    ensures
        valid_utf8(l.subrange(n, p)),
{
    lemma_boundary_after_ascii(l, n);
    valid_utf8_split(l, n);
    let rest = l.subrange(n, l.len() as int);
    if p < l.len() {
        assert(rest[p - n] == l[p]);
        is_char_boundary_iff_not_is_continuation_byte(rest, p - n);
    } else {
        is_char_boundary_start_end_of_seq(rest);
    }
    valid_utf8_split(rest, p - n);
    assert(rest.subrange(0, p - n) =~= l.subrange(n, p));
}

// ---- executable parsing -------------------------------------------------------

/// Relies on std::str::from_utf8: it accepts exactly the well-formed UTF-8
/// byte strings, and the text it returns is what those bytes encode.
#[verifier::external_body]
pub(crate) fn utf8_text(b: &[u8]) -> (r: Option<&str>)
    ensures
        r is Some <==> valid_utf8(b@),
        r matches Some(s) ==> s@ == decode_utf8(b@),
{
    std::str::from_utf8(b).ok()
}

/// The text that well-formed UTF-8 bytes encode.
pub(crate) fn text_of(b: &[u8]) -> (r: String)
    requires
        valid_utf8(b@),
    ensures
        r@ == decode_utf8(b@),
{
    match utf8_text(b) {
        Some(s) => String::from_str(s),
        None => String::new(),
    }
}

fn skip_spaces_from(l: &[u8], i: usize) -> (r: usize)
    requires
        i <= l@.len(),
    ensures
        r == skip_spaces(l@, i as int),
        i <= r <= l@.len(),
{
    proof { lemma_skip_spaces_bounds(l@, i as int); }
    let mut k = i;
    while k < l.len() && l[k] == 0x20
        invariant
            i <= k <= l@.len(),
            skip_spaces(l@, k as int) == skip_spaces(l@, i as int),
        decreases l@.len() - k,
    {
        k = k + 1;
    }
    k
}

fn token_end_from(l: &[u8], i: usize) -> (r: usize)
    requires
        i <= l@.len(),
    ensures
        r == token_end(l@, i as int),
        i <= r <= l@.len(),
{
    proof { lemma_token_end_bounds(l@, i as int); }
    let mut k = i;
    while k < l.len() && l[k] != 0x20
        invariant
            i <= k <= l@.len(),
            token_end(l@, k as int) == token_end(l@, i as int),
        decreases l@.len() - k,
    {
        k = k + 1;
    }
    k
}

pub(crate) fn find_byte_from(l: &[u8], b: u8, i: usize) -> (r: usize)
    requires
        i <= l@.len(),
    ensures
        r == find_byte(l@, b, i as int),
        i <= r <= l@.len(),
{
    proof { lemma_find_byte_bounds(l@, b, i as int); }
    let mut k = i;
    while k < l.len() && l[k] != b
        invariant
            i <= k <= l@.len(),
            find_byte(l@, b, k as int) == find_byte(l@, b, i as int),
        decreases l@.len() - k,
    {
        k = k + 1;
    }
    k
}

/// A span that follows a space and ends at a space or at the end of the line.
pub open spec fn spans_name(l: Seq<u8>, n: int, p: int) -> bool {
    &&& 0 < n <= p <= l.len()
    &&& is_space(l[n - 1])
    &&& p < l.len() ==> is_space(l[p])
}

fn match_tail(l: &[u8], j: usize) -> (r: Option<(usize, usize)>)
    requires
        j <= l@.len(),
    ensures
        match tail_match(l@, j as int) {
            Some(t) => r matches Some(x) && x.0 == t.0 && x.1 == t.1,
            None => r is None,
        },
        r matches Some(x) ==> spans_name(l@, x.0 as int, x.1 as int),
{
    if j >= l.len() || l[j] != 0x20 {
        return None;
    }
    let k = skip_spaces_from(l, j);
    if k >= l.len() {
        return None;
    }
    let e = token_end_from(l, k);
    if e >= l.len() {
        return None;
    }
    let m = skip_spaces_from(l, e);
    if l.len() - m <= 2 || l[m] != 0x2d || l[m + 1] != 0x3e || l[m + 2] != 0x20 {
        return None;
    }
    let n = skip_spaces_from(l, m + 2);
    if n >= l.len() {
        return None;
    }
    let p = token_end_from(l, n);
    proof {
        lemma_skip_spaces_bounds(l@, (m + 2) as int);
        lemma_token_end_bounds(l@, n as int);
    }
    if p == l.len() || l.len() - p >= 2 {
        Some((n, p))
    } else {
        None
    }
}

fn char_end_from(l: &[u8], i: usize) -> (r: usize)
    requires
        i <= l@.len(),
    ensures
        r == char_end(l@, i as int),
        i <= r <= l@.len(),
{
    proof { lemma_char_end_bounds(l@, i as int); }
    let mut k = i;
    while k < l.len() && 0x80 <= l[k] && l[k] <= 0xbf
        invariant
            i <= k <= l@.len(),
            char_end(l@, k as int) == char_end(l@, i as int),
        decreases l@.len() - k,
    {
        k = k + 1;
    }
    k
}

/// Matches a line that reports a ref; gives the operation of its code (none
/// for an unknown code) and the span of its new name.
fn match_fetch_line(l: &[u8]) -> (r: Option<(Option<Operation>, usize, usize)>)
    ensures
        match fetch_line(l@) {
            Some(t) => r matches Some(x) && x.0 == t.0 && x.1 == t.1 && x.2 == t.2,
            None => r is None,
        },
        r matches Some(x) ==> spans_name(l@, x.1 as int, x.2 as int),
{
    if l.len() < 3 || l[0] != 0x20 {
        return None;
    }
    let k = char_end_from(l, 2);
    if k >= l.len() || l[k] != 0x20 {
        return None;
    }
    let op = if k == 2 { operation_of_code(l[1]) } else { None };
    let i = skip_spaces_from(l, k);
    if i >= l.len() {
        return None;
    }
    let e = token_end_from(l, i);
    if let Some((n, p)) = match_tail(l, e) {
        return Some((op, n, p));
    }
    if l[i] != 0x5b || i + 1 >= l.len() || l[i + 1] == 0x5d {
        return None;
    }
    let q = find_byte_from(l, 0x5d, i + 1);
    if q >= l.len() {
        return None;
    }
    match match_tail(l, q + 1) {
        Some((n, p)) => Some((op, n, p)),
        None => None,
    }
}

/// The ref that the new name of a fetch line stands for.
fn resolve_ref(t: &[u8]) -> (r: Result<Ref, Error>)
    requires
        valid_utf8(t@),
    ensures
        match ref_of_target(t@) {
            Ok(x) => r matches Ok(y) && y@ == x,
            Err(x) => r matches Err(e) && e@ == x,
        },
{
    let k = find_byte_from(t, 0x2f, 0);
    if k == t.len() {
        return Ok(Ref { name: text_of(t), tag: true });
    }
    proof {
        lemma_find_byte_bounds(t@, 0x2f, 0);
        is_char_boundary_iff_not_is_continuation_byte(t@, k as int);
        valid_utf8_split(t@, k as int);
        lemma_valid_span(t@, k + 1, t@.len() as int);
    }
    let prefix = text_of(&t[0..k]);
    let remote = String::from_str(REMOTE);
    if prefix == remote {
        Ok(Ref { name: text_of(&t[k + 1..t.len()]), tag: false })
    } else {
        Err(Error::UnknownRemote(text_of(t)))
    }
}

/// Adds a ref to a list that holds each ref once, unless it is there already.
fn insert_ref(v: &mut Vec<Ref>, r: Ref)
    requires
        ref_ids(old(v)@).no_duplicates(),
    ensures
        ref_ids(final(v)@).no_duplicates(),
        ref_ids(final(v)@).to_set() == ref_ids(old(v)@).to_set().insert(r@),
{
    let ghost ids = ref_ids(v@);
    let mut i: usize = 0;
    while i < v.len()
        invariant
            0 <= i <= v@.len(),
            v@ == old(v)@,
            ids.no_duplicates(),
            ids == ref_ids(v@),
            ids.len() == v@.len(),
            forall|j: int| 0 <= j < i ==> ids[j] != r@,
        decreases v@.len() - i,
    {
        if v[i].tag == r.tag && v[i].name == r.name {
            proof {
                assert(ids[i as int] == r@);
                assert(ids.to_set().insert(r@) =~= ids.to_set());
            }
            return;
        }
        i = i + 1;
    }
    v.push(r);
    proof {
        let nids = ref_ids(v@);
        assert(nids =~= ids.push(r@));
        assert(!ids.contains(r@));
        assert(nids.to_set() =~= ids.to_set().insert(r@)) by {
            assert forall|x: RefId| nids.to_set().contains(x) <==> ids.to_set().insert(r@).contains(x) by {
                if x == r@ {
                    assert(nids[ids.len() as int] == x);
                }
                if ids.contains(x) {
                    let j = choose|j: int| 0 <= j < ids.len() && ids[j] == x;
                    assert(nids[j] == x);
                }
                if nids.contains(x) && x != r@ {
                    let j = choose|j: int| 0 <= j < nids.len() && nids[j] == x;
                    assert(ids[j] == x);
                }
            }
        }
    }
}

/// Applies one line of fetch output to the sets gathered so far.
fn apply_fetch_line(acc: &mut FetchOutput, l: &[u8]) -> (r: Result<(), Error>)
    requires
        old(acc).distinct(),
    ensures
        final(acc).distinct(),
        match apply_line(old(acc)@, l@) {
            Ok(a) => r is Ok && final(acc)@ == a,
            Err(x) => r matches Err(e) && e@ == x,
        },
{
    if utf8_text(l).is_none() {
        return Err(Error::NotText);
    }
    match match_fetch_line(l) {
        None => Ok(()),
        Some((code, n, p)) => {
            proof { lemma_valid_span(l@, n as int, p as int); }
            let t = &l[n..p];
            match code {
                None => Err(Error::InvalidOperation),
                Some(Operation::Reject) => Err(Error::Rejected(text_of(t))),
                Some(Operation::Noop) => Ok(()),
                Some(op) => {
                    let r = match resolve_ref(t) {
                        Ok(r) => r,
                        Err(e) => return Err(e),
                    };
                    if op == Operation::New {
                        insert_ref(&mut acc.new, r);
                    } else if op == Operation::Pruned {
                        insert_ref(&mut acc.removed, r);
                    } else {
                        insert_ref(&mut acc.changed, r);
                    }
                    Ok(())
                },
            }
        },
    }
}

/// Reads the ref changes from the diagnostic output of a fetch.
///
/// The output is split at each newline and its lines are read in order.
/// A line that is not UTF-8 text fails the whole parse; a line that
/// reports a ref puts that ref in the set of its operation (new; changed
/// for fast-forwards, forced updates and tag moves; removed for pruned
/// refs); a rejected update fails the parse with the ref's name; other
/// lines change nothing.
pub fn parse_fetch_output(output: &[u8]) -> (r: Result<FetchOutput, Error>)
    ensures
        match parse_fetch(output@) {
            Ok(c) => r matches Ok(o) && o@ == c && o.distinct(),
            Err(x) => r matches Err(e) && e@ == x,
        },
{
    let mut acc = FetchOutput { new: Vec::new(), changed: Vec::new(), removed: Vec::new() };
    proof {
        assert(ref_ids(acc.new@).to_set() =~= Set::empty());
        assert(ref_ids(acc.changed@).to_set() =~= Set::empty());
        assert(ref_ids(acc.removed@).to_set() =~= Set::empty());
    }
    let mut start: usize = 0;
    loop
        invariant
            start <= output@.len(),
            acc.distinct(),
            parse_from(output@, start as int, acc@) == parse_fetch(output@),
        decreases output@.len() - start,
    {
        let e = find_byte_from(output, 0x0a, start);
        let line = &output[start..e];
        match apply_fetch_line(&mut acc, line) {
            Err(x) => return Err(x),
            Ok(()) => {},
        }
        if e >= output.len() {
            return Ok(acc);
        }
        start = e + 1;
    }
}

} // verus!
