//! The archive's record: for each ref, the intervals of time during which it
//! pointed at one object.
use vstd::prelude::*;
use vstd::string::StringSliceAdditionalSpecFns;
use vstd::string::StringExecFns;
use vstd::utf8::*;

use crate::fetch::{Ref, RefId};

verus! {

// ---- time stamps -----------------------------------------------------------

/// A moment, to the second, in UTC.
#[derive(Debug, Clone, Copy, PartialEq, Eq, Structural)]
pub struct Timestamp {
    pub year: u32,
    pub month: u32,
    pub day: u32,
    pub hour: u32,
    pub minute: u32,
    pub second: u32,
}

pub open spec fn digit_char(d: int) -> char {
    if d == 0 { '0' }
    else if d == 1 { '1' }
    else if d == 2 { '2' }
    else if d == 3 { '3' }
    else if d == 4 { '4' }
    else if d == 5 { '5' }
    else if d == 6 { '6' }
    else if d == 7 { '7' }
    else if d == 8 { '8' }
    else { '9' }
}

pub open spec fn two_digits(v: int) -> Seq<char> {
    seq![digit_char(v / 10 % 10), digit_char(v % 10)]
}

pub open spec fn four_digits(v: int) -> Seq<char> {
    seq![digit_char(v / 1000 % 10), digit_char(v / 100 % 10), digit_char(v / 10 % 10), digit_char(v % 10)]
}

impl Timestamp {
    /// A real moment that four digits of year can write.
    pub open spec fn wf(&self) -> bool {
        &&& self.year <= 9999
        &&& 1 <= self.month <= 12
        &&& 1 <= self.day <= 31
        &&& self.hour < 24
        &&& self.minute < 60
        &&& self.second < 60
    }

    /// The moment written `YYYY-MM-DD HH:MM:SS`.
    pub open spec fn text(&self) -> Seq<char> {
        four_digits(self.year as int) + seq!['-'] + two_digits(self.month as int) + seq!['-']
            + two_digits(self.day as int) + seq![' '] + two_digits(self.hour as int) + seq![':']
            + two_digits(self.minute as int) + seq![':'] + two_digits(self.second as int)
    }

    /// Writes the moment as `YYYY-MM-DD HH:MM:SS`, the form the record keeps.
    pub fn to_text(&self) -> (r: String)
        requires
            self.wf(),
        ensures
            r@ == self.text(),
    {
        let mut s = String::new();
        push_four(&mut s, self.year);
        push_sep(&mut s, '-');
        push_two(&mut s, self.month);
        push_sep(&mut s, '-');
        push_two(&mut s, self.day);
        push_sep(&mut s, ' ');
        push_two(&mut s, self.hour);
        push_sep(&mut s, ':');
        push_two(&mut s, self.minute);
        push_sep(&mut s, ':');
        push_two(&mut s, self.second);
        s
    }
}

fn push_digit(s: &mut String, d: u32)
    requires
        d < 10,
    ensures
        final(s)@ == old(s)@.push(digit_char(d as int)),
{
    let t = match d {
        0 => "0",
        1 => "1",
        2 => "2",
        3 => "3",
        4 => "4",
        5 => "5",
        6 => "6",
        7 => "7",
        8 => "8",
        _ => "9",
    };
    proof {
        reveal_strlit("0");
        reveal_strlit("1");
        reveal_strlit("2");
        reveal_strlit("3");
        reveal_strlit("4");
        reveal_strlit("5");
        reveal_strlit("6");
        reveal_strlit("7");
        reveal_strlit("8");
        reveal_strlit("9");
    }
    assert(t@ =~= seq![digit_char(d as int)]);
    s.append(t);
}

fn push_two(s: &mut String, v: u32)
    ensures
        final(s)@ == old(s)@ + two_digits(v as int),
{
    push_digit(s, v / 10 % 10);
    push_digit(s, v % 10);
    assert(s@ =~= old(s)@ + two_digits(v as int));
}

fn push_four(s: &mut String, v: u32)
    ensures
        final(s)@ == old(s)@ + four_digits(v as int),
{
    push_digit(s, v / 1000 % 10);
    push_digit(s, v / 100 % 10);
    push_digit(s, v / 10 % 10);
    push_digit(s, v % 10);
    assert(s@ =~= old(s)@ + four_digits(v as int));
}

fn push_sep(s: &mut String, c: char)
    requires
        c == '-' || c == ' ' || c == ':',
    ensures
        final(s)@ == old(s)@.push(c),
{
    let t = if c == '-' { "-" } else if c == ' ' { " " } else { ":" };
    proof {
        reveal_strlit("-");
        reveal_strlit(" ");
        reveal_strlit(":");
    }
    assert(t@ =~= seq![c]);
    s.append(t);
}

// ---- the order of texts ----------------------------------------------------

/// Byte strings in lexicographic order, from index `i` on.
pub open spec fn bytes_lt_from(a: Seq<u8>, b: Seq<u8>, i: int) -> bool
    decreases a.len() - i,
{
    if i < 0 || i >= a.len() {
        0 <= i < b.len()
    } else if i >= b.len() {
        false
    } else if a[i] != b[i] {
        a[i] < b[i]
    } else {
        bytes_lt_from(a, b, i + 1)
    }
}

/// The order in which the record compares texts: their UTF-8 bytes,
/// lexicographically. Written time stamps sort by time in it.
pub open spec fn text_lt(a: Seq<char>, b: Seq<char>) -> bool {
    bytes_lt_from(encode_utf8(a), encode_utf8(b), 0)
}

pub open spec fn text_le(a: Seq<char>, b: Seq<char>) -> bool {
    !text_lt(b, a)
}

pub proof fn lemma_bytes_lt_irreflexive(a: Seq<u8>, i: int)
    ensures
        !bytes_lt_from(a, a, i),
    decreases a.len() - i,
{
    if 0 <= i < a.len() {
        lemma_bytes_lt_irreflexive(a, i + 1);
    }
}

pub proof fn lemma_bytes_lt_transitive(a: Seq<u8>, b: Seq<u8>, c: Seq<u8>, i: int)
    requires
        bytes_lt_from(a, b, i),
        bytes_lt_from(b, c, i),
    ensures
        bytes_lt_from(a, c, i),
    decreases a.len() - i,
{
    if 0 <= i < a.len() && a[i] == b[i] && b[i] == c[i] {
        lemma_bytes_lt_transitive(a, b, c, i + 1);
    }
}

pub proof fn lemma_bytes_lt_total(a: Seq<u8>, b: Seq<u8>, i: int)
    requires
        0 <= i <= a.len(),
        i <= b.len(),
        a.subrange(0, i) == b.subrange(0, i),
        a != b,
    ensures
        bytes_lt_from(a, b, i) || bytes_lt_from(b, a, i),
    decreases a.len() - i,
{
    if i == a.len() && i == b.len() {
        assert(a =~= a.subrange(0, i));
        assert(b =~= b.subrange(0, i));
    } else if i < a.len() && i < b.len() && a[i] == b[i] {
        assert(a.subrange(0, i + 1) =~= a.subrange(0, i).push(a[i]));
        assert(b.subrange(0, i + 1) =~= b.subrange(0, i).push(b[i]));
        lemma_bytes_lt_total(a, b, i + 1);
    }
}

/// The order of texts is a strict total order.
pub proof fn lemma_text_order(a: Seq<char>, b: Seq<char>, c: Seq<char>)
    ensures
        !text_lt(a, a),
        text_lt(a, b) && text_lt(b, c) ==> text_lt(a, c),
        a != b ==> text_lt(a, b) || text_lt(b, a),
{
    lemma_bytes_lt_irreflexive(encode_utf8(a), 0);
    if text_lt(a, b) && text_lt(b, c) {
        lemma_bytes_lt_transitive(encode_utf8(a), encode_utf8(b), encode_utf8(c), 0);
    }
    if a != b {
        encode_utf8_decode_utf8(a);
        encode_utf8_decode_utf8(b);
        assert(encode_utf8(a).subrange(0, 0) =~= encode_utf8(b).subrange(0, 0));
        lemma_bytes_lt_total(encode_utf8(a), encode_utf8(b), 0);
    }
}

/// Whether text `a` comes before text `b`.
pub fn text_less(a: &str, b: &str) -> (r: bool)
    ensures
        r == text_lt(a@, b@),
{
    let x = a.as_bytes();
    let y = b.as_bytes();
    let mut i: usize = 0;
    while i < x.len() && i < y.len() && x[i] == y[i]
        invariant
            x@ == encode_utf8(a@),
            y@ == encode_utf8(b@),
            i <= x@.len(),
            i <= y@.len(),
            bytes_lt_from(x@, y@, i as int) == bytes_lt_from(x@, y@, 0),
        decreases x@.len() - i,
    {
        i = i + 1;
    }
    if i < x.len() && i < y.len() {
        x[i] < y[i]
    } else {
        i >= x.len() && i < y.len()
    }
}

// ---- written time stamps sort by time -------------------------------------------

/// Time order: by year, then month, day, hour, minute and second.
pub open spec fn time_lt(a: Timestamp, b: Timestamp) -> bool {
    if a.year != b.year {
        a.year < b.year
    } else if a.month != b.month {
        a.month < b.month
    } else if a.day != b.day {
        a.day < b.day
    } else if a.hour != b.hour {
        a.hour < b.hour
    } else if a.minute != b.minute {
        a.minute < b.minute
    } else {
        a.second < b.second
    }
}

pub open spec fn digit_byte(d: int) -> u8 {
    (0x30 + d) as u8
}

pub open spec fn two_bytes(v: int) -> Seq<u8> {
    seq![digit_byte(v / 10 % 10), digit_byte(v % 10)]
}

pub open spec fn four_bytes(v: int) -> Seq<u8> {
    seq![digit_byte(v / 1000 % 10), digit_byte(v / 100 % 10), digit_byte(v / 10 % 10), digit_byte(v % 10)]
}

/// The UTF-8 bytes of a written time stamp.
pub open spec fn stamp_bytes(t: Timestamp) -> Seq<u8> {
    four_bytes(t.year as int) + seq![0x2du8] + two_bytes(t.month as int) + seq![0x2du8] + two_bytes(t.day as int)
        + seq![0x20u8] + two_bytes(t.hour as int) + seq![0x3au8] + two_bytes(t.minute as int) + seq![0x3au8]
        + two_bytes(t.second as int)
}

proof fn lemma_digit_char(d: int)
    requires
        0 <= d < 10,
    ensures
        digit_char(d) as u8 == digit_byte(d),
        '\0' <= digit_char(d) <= '\u{7f}',
{
}

pub open spec fn ascii_bytes(c: Seq<char>) -> Seq<u8> {
    c.map_values(|ch: char| ch as u8)
}

proof fn lemma_two_ascii(v: int)
    ensures
        ascii_bytes(two_digits(v)) == two_bytes(v),
        is_ascii_chars(two_digits(v)),
{
    lemma_digit_char(v / 10 % 10);
    lemma_digit_char(v % 10);
    assert(ascii_bytes(two_digits(v)) =~= two_bytes(v));
}

proof fn lemma_four_ascii(v: int)
    ensures
        ascii_bytes(four_digits(v)) == four_bytes(v),
        is_ascii_chars(four_digits(v)),
{
    lemma_digit_char(v / 1000 % 10);
    lemma_digit_char(v / 100 % 10);
    lemma_digit_char(v / 10 % 10);
    lemma_digit_char(v % 10);
    assert(ascii_bytes(four_digits(v)) =~= four_bytes(v));
}

proof fn lemma_ascii_concat(a: Seq<char>, b: Seq<char>)
    ensures
        ascii_bytes(a + b) == ascii_bytes(a) + ascii_bytes(b),
        is_ascii_chars(a) && is_ascii_chars(b) ==> is_ascii_chars(a + b),
{
    assert(ascii_bytes(a + b) =~= ascii_bytes(a) + ascii_bytes(b));
    if is_ascii_chars(a) && is_ascii_chars(b) {
        assert forall|i: int| 0 <= i < (a + b).len() implies '\0' <= #[trigger] (a + b)[i] <= '\u{7f}' by {
            if i < a.len() {
                assert((a + b)[i] == a[i]);
            } else {
                assert((a + b)[i] == b[i - a.len()]);
            }
        }
    }
}

proof fn lemma_sep_ascii(c: char)
    requires
        c == '-' || c == ' ' || c == ':',
    ensures
        ascii_bytes(seq![c]) == seq![c as u8],
        is_ascii_chars(seq![c]),
{
    assert(ascii_bytes(seq![c]) =~= seq![c as u8]);
}

proof fn lemma_stamp_bytes(t: Timestamp)
    requires
        t.wf(),
    ensures
        encode_utf8(t.text()) == stamp_bytes(t),
{
    let y = four_digits(t.year as int);
    let mo = two_digits(t.month as int);
    let d = two_digits(t.day as int);
    let h = two_digits(t.hour as int);
    let mi = two_digits(t.minute as int);
    let se = two_digits(t.second as int);
    lemma_four_ascii(t.year as int);
    lemma_two_ascii(t.month as int);
    lemma_two_ascii(t.day as int);
    lemma_two_ascii(t.hour as int);
    lemma_two_ascii(t.minute as int);
    lemma_two_ascii(t.second as int);
    lemma_sep_ascii('-');
    lemma_sep_ascii(' ');
    lemma_sep_ascii(':');
    let c1 = y + seq!['-'];
    lemma_ascii_concat(y, seq!['-']);
    let c2 = c1 + mo;
    lemma_ascii_concat(c1, mo);
    let c3 = c2 + seq!['-'];
    lemma_ascii_concat(c2, seq!['-']);
    let c4 = c3 + d;
    lemma_ascii_concat(c3, d);
    let c5 = c4 + seq![' '];
    lemma_ascii_concat(c4, seq![' ']);
    let c6 = c5 + h;
    lemma_ascii_concat(c5, h);
    let c7 = c6 + seq![':'];
    lemma_ascii_concat(c6, seq![':']);
    let c8 = c7 + mi;
    lemma_ascii_concat(c7, mi);
    let c9 = c8 + seq![':'];
    lemma_ascii_concat(c8, seq![':']);
    let c10 = c9 + se;
    lemma_ascii_concat(c9, se);
    assert(c10 == t.text());
    assert(ascii_bytes(c10) == stamp_bytes(t));
    is_ascii_chars_encode_utf8(c10);
    let e = encode_utf8(c10);
    assert(e =~= ascii_bytes(c10));
}

proof fn lemma_lt_shift(p: Seq<u8>, x: Seq<u8>, q: Seq<u8>, y: Seq<u8>, j: int)
    requires
        p.len() == q.len(),
        0 <= j,
    ensures
        bytes_lt_from(p + x, q + y, p.len() + j) == bytes_lt_from(x, y, j),
    decreases x.len() - j,
{
    if j < x.len() && j < y.len() && x[j] == y[j] {
        lemma_lt_shift(p, x, q, y, j + 1);
    }
}

proof fn lemma_lt_prefix(p: Seq<u8>, x: Seq<u8>, q: Seq<u8>, y: Seq<u8>, i: int)
    requires
        p.len() == q.len(),
        0 <= i <= p.len(),
    ensures
        bytes_lt_from(p + x, q + y, i) == if p.subrange(i, p.len() as int) != q.subrange(i, q.len() as int) {
            bytes_lt_from(p, q, i)
        } else {
            bytes_lt_from(x, y, 0)
        },
    decreases p.len() - i,
{
    if i == p.len() {
        lemma_lt_shift(p, x, q, y, 0);
        assert(p.subrange(i, p.len() as int) =~= q.subrange(i, q.len() as int));
    } else if p[i] != q[i] {
        assert(p.subrange(i, p.len() as int)[0] != q.subrange(i, q.len() as int)[0]);
    } else {
        lemma_lt_prefix(p, x, q, y, i + 1);
        assert(p.subrange(i, p.len() as int) =~= seq![p[i]] + p.subrange(i + 1, p.len() as int));
        assert(q.subrange(i, q.len() as int) =~= seq![q[i]] + q.subrange(i + 1, q.len() as int));
        if p.subrange(i + 1, p.len() as int) != q.subrange(i + 1, q.len() as int) {
            assert(p.subrange(i, p.len() as int).subrange(1, p.len() - i) =~= p.subrange(i + 1, p.len() as int));
            assert(q.subrange(i, q.len() as int).subrange(1, q.len() - i) =~= q.subrange(i + 1, q.len() as int));
        }
    }
}

/// Comparing two byte strings that start with blocks of one length: the
/// blocks decide, unless they are equal.
proof fn lemma_lt_concat(p: Seq<u8>, x: Seq<u8>, q: Seq<u8>, y: Seq<u8>)
    requires
        p.len() == q.len(),
    ensures
        bytes_lt_from(p + x, q + y, 0) == if p != q {
            bytes_lt_from(p, q, 0)
        } else {
            bytes_lt_from(x, y, 0)
        },
{
    lemma_lt_prefix(p, x, q, y, 0);
    assert(p.subrange(0, p.len() as int) =~= p);
    assert(q.subrange(0, q.len() as int) =~= q);
}

proof fn lemma_two_bytes(x: int, y: int)
    requires
        0 <= x < 100,
        0 <= y < 100,
    ensures
        (two_bytes(x) == two_bytes(y)) == (x == y),
        bytes_lt_from(two_bytes(x), two_bytes(y), 0) == (x < y),
{
    reveal_with_fuel(bytes_lt_from, 3);
    if two_bytes(x) == two_bytes(y) {
        assert(two_bytes(x)[0] == two_bytes(y)[0]);
        assert(two_bytes(x)[1] == two_bytes(y)[1]);
    }
}

proof fn lemma_four_halves(x: int)
    requires
        0 <= x < 10000,
    ensures
        four_bytes(x) == two_bytes(x / 100) + two_bytes(x % 100),
        x / 100 < 100,
{
    assert(x / 1000 % 10 == x / 100 / 10 % 10);
    assert(x / 10 % 10 == x % 100 / 10 % 10);
    assert(x % 10 == x % 100 % 10);
    assert(four_bytes(x) =~= two_bytes(x / 100) + two_bytes(x % 100));
}

proof fn lemma_four_bytes(x: int, y: int)
    requires
        0 <= x < 10000,
        0 <= y < 10000,
    ensures
        (four_bytes(x) == four_bytes(y)) == (x == y),
        bytes_lt_from(four_bytes(x), four_bytes(y), 0) == (x < y),
{
    lemma_four_halves(x);
    lemma_four_halves(y);
    lemma_two_bytes(x / 100, y / 100);
    lemma_two_bytes(x % 100, y % 100);
    lemma_lt_concat(two_bytes(x / 100), two_bytes(x % 100), two_bytes(y / 100), two_bytes(y % 100));
    if four_bytes(x) == four_bytes(y) {
        assert(four_bytes(x).subrange(0, 2) =~= two_bytes(x / 100));
        assert(four_bytes(y).subrange(0, 2) =~= two_bytes(y / 100));
        assert(four_bytes(x).subrange(2, 4) =~= two_bytes(x % 100));
        assert(four_bytes(y).subrange(2, 4) =~= two_bytes(y % 100));
    }
}

proof fn lemma_block(pa: Seq<u8>, xa: Seq<u8>, pb: Seq<u8>, xb: Seq<u8>)
    requires
        pa.len() == pb.len(),
        xa.len() == xb.len(),
    ensures
        (pa + xa == pb + xb) == (pa == pb && xa == xb),
        bytes_lt_from(pa + xa, pb + xb, 0) == if pa != pb {
            bytes_lt_from(pa, pb, 0)
        } else {
            bytes_lt_from(xa, xb, 0)
        },
{
    lemma_lt_concat(pa, xa, pb, xb);
    if pa + xa == pb + xb {
        assert((pa + xa).subrange(0, pa.len() as int) =~= pa);
        assert((pb + xb).subrange(0, pb.len() as int) =~= pb);
        assert((pa + xa).subrange(pa.len() as int, (pa + xa).len() as int) =~= xa);
        assert((pb + xb).subrange(pb.len() as int, (pb + xb).len() as int) =~= xb);
    }
}

pub open spec fn pre2(t: Timestamp) -> Seq<u8> {
    four_bytes(t.year as int) + seq![0x2du8] + two_bytes(t.month as int)
}

pub open spec fn pre4(t: Timestamp) -> Seq<u8> {
    pre2(t) + seq![0x2du8] + two_bytes(t.day as int)
}

pub open spec fn pre6(t: Timestamp) -> Seq<u8> {
    pre4(t) + seq![0x20u8] + two_bytes(t.hour as int)
}

pub open spec fn pre8(t: Timestamp) -> Seq<u8> {
    pre6(t) + seq![0x3au8] + two_bytes(t.minute as int)
}

/// One more field after a separator: equal when both parts are, and
/// ordered by the prefix unless it is equal.
proof fn lemma_field(pa: Seq<u8>, pb: Seq<u8>, sep: Seq<u8>, xa: int, xb: int)
    requires
        pa.len() == pb.len(),
        sep.len() == 1,
        0 <= xa < 100,
        0 <= xb < 100,
    ensures
        (pa + sep + two_bytes(xa) == pb + sep + two_bytes(xb)) == (pa == pb && xa == xb),
        bytes_lt_from(pa + sep + two_bytes(xa), pb + sep + two_bytes(xb), 0) == if pa != pb {
            bytes_lt_from(pa, pb, 0)
        } else {
            xa < xb
        },
{
    lemma_bytes_lt_irreflexive(sep, 0);
    lemma_block(pa, sep, pb, sep);
    lemma_block(pa + sep, two_bytes(xa), pb + sep, two_bytes(xb));
    lemma_two_bytes(xa, xb);
}

proof fn lemma_pre2(a: Timestamp, b: Timestamp)
    requires
        a.wf(),
        b.wf(),
    ensures
        (pre2(a) == pre2(b)) == (a.year == b.year && a.month == b.month),
        bytes_lt_from(pre2(a), pre2(b), 0) == if a.year != b.year {
            a.year < b.year
        } else {
            a.month < b.month
        },
{
    lemma_four_bytes(a.year as int, b.year as int);
    lemma_field(four_bytes(a.year as int), four_bytes(b.year as int), seq![0x2du8], a.month as int, b.month as int);
}

proof fn lemma_pre4(a: Timestamp, b: Timestamp)
    requires
        a.wf(),
        b.wf(),
    ensures
        (pre4(a) == pre4(b)) == (a.year == b.year && a.month == b.month && a.day == b.day),
        bytes_lt_from(pre4(a), pre4(b), 0) == if a.year != b.year || a.month != b.month {
            bytes_lt_from(pre2(a), pre2(b), 0)
        } else {
            a.day < b.day
        },
{
    lemma_pre2(a, b);
    lemma_field(pre2(a), pre2(b), seq![0x2du8], a.day as int, b.day as int);
}

proof fn lemma_pre6(a: Timestamp, b: Timestamp)
    requires
        a.wf(),
        b.wf(),
    ensures
        (pre6(a) == pre6(b)) == (a.year == b.year && a.month == b.month && a.day == b.day && a.hour == b.hour),
        bytes_lt_from(pre6(a), pre6(b), 0) == if a.year != b.year || a.month != b.month || a.day != b.day {
            bytes_lt_from(pre4(a), pre4(b), 0)
        } else {
            a.hour < b.hour
        },
{
    lemma_pre4(a, b);
    lemma_field(pre4(a), pre4(b), seq![0x20u8], a.hour as int, b.hour as int);
}

proof fn lemma_pre8(a: Timestamp, b: Timestamp)
    requires
        a.wf(),
        b.wf(),
    ensures
        (pre8(a) == pre8(b)) == (a.year == b.year && a.month == b.month && a.day == b.day && a.hour == b.hour
            && a.minute == b.minute),
        bytes_lt_from(pre8(a), pre8(b), 0) == if a.year != b.year || a.month != b.month || a.day != b.day
            || a.hour != b.hour {
            bytes_lt_from(pre6(a), pre6(b), 0)
        } else {
            a.minute < b.minute
        },
{
    lemma_pre6(a, b);
    lemma_field(pre6(a), pre6(b), seq![0x3au8], a.minute as int, b.minute as int);
}

/// Written time stamps sort by time: one comes before another in the
/// record's text order exactly when it is earlier.
#[verifier::rlimit(100)]
pub proof fn lemma_written_time_order(a: Timestamp, b: Timestamp)
    requires
        a.wf(),
        b.wf(),
    ensures
        text_lt(a.text(), b.text()) == time_lt(a, b),
{
    lemma_stamp_bytes(a);
    lemma_stamp_bytes(b);
    lemma_pre2(a, b);
    lemma_pre4(a, b);
    lemma_pre6(a, b);
    lemma_pre8(a, b);
    lemma_field(pre8(a), pre8(b), seq![0x3au8], a.second as int, b.second as int);
    assert(stamp_bytes(a) == pre8(a) + seq![0x3au8] + two_bytes(a.second as int));
    assert(stamp_bytes(b) == pre8(b) + seq![0x3au8] + two_bytes(b.second as int));
}

// ---- intervals ---------------------------------------------------------------

/// One interval of a ref's history: from `from_date` on, until `to_date` if
/// it is closed, the ref pointed at `sha`.
#[derive(Debug, Clone, PartialEq, Eq)]
pub struct Interval {
    pub name: String,
    pub tag: bool,
    pub from_date: String,
    pub to_date: Option<String>,
    pub sha: String,
}

pub struct IntervalView {
    pub name: Seq<char>,
    pub tag: bool,
    pub from: Seq<char>,
    pub to: Option<Seq<char>>,
    pub sha: Seq<char>,
}

impl View for Interval {
    type V = IntervalView;

    open spec fn view(&self) -> IntervalView {
        IntervalView {
            name: self.name@,
            tag: self.tag,
            from: self.from_date@,
            to: match self.to_date {
                Some(t) => Some(t@),
                None => None,
            },
            sha: self.sha@,
        }
    }
}

pub open spec fn rows_view(v: Seq<Interval>) -> Seq<IntervalView> {
    v.map_values(|r: Interval| r@)
}

impl IntervalView {
    pub open spec fn id(self) -> RefId {
        RefId { name: self.name, tag: self.tag }
    }

    /// The interval is still open and belongs to ref `id`.
    pub open spec fn is_open_of(self, id: RefId) -> bool {
        self.id() == id && self.to is None
    }
}

/// At most one open interval per ref.
pub open spec fn one_open(rows: Seq<IntervalView>) -> bool {
    forall|i: int, j: int|
        0 <= i < rows.len() && 0 <= j < rows.len() && i != j && (#[trigger] rows[i]).to is None
            && (#[trigger] rows[j]).to is None ==> rows[i].id() != rows[j].id()
}

/// No interval of ref `id` is open.
pub open spec fn none_open(rows: Seq<IntervalView>, id: RefId) -> bool {
    forall|i: int| 0 <= i < rows.len() ==> !(#[trigger] rows[i]).is_open_of(id)
}

/// Among the first `n` intervals, the open one of ref `id` that started
/// last (the first such one where several started at the same time).
pub open spec fn latest_open(rows: Seq<IntervalView>, id: RefId, n: int) -> Option<int>
    decreases n,
{
    if n <= 0 {
        None
    } else {
        let b = latest_open(rows, id, n - 1);
        if rows[n - 1].is_open_of(id) && (b matches Some(k) ==> text_lt(rows[k].from, rows[n - 1].from)) {
            Some(n - 1)
        } else {
            b
        }
    }
}

/// The intervals after closing the open interval of `id` at `date`: the one
/// that started last, if there are several; nothing if there is none.
pub open spec fn close_spec(rows: Seq<IntervalView>, id: RefId, date: Seq<char>) -> Seq<IntervalView> {
    match latest_open(rows, id, rows.len() as int) {
        Some(k) => rows.update(k, IntervalView { to: Some(date), ..rows[k] }),
        None => rows,
    }
}

pub proof fn lemma_latest_open(rows: Seq<IntervalView>, id: RefId, n: int)
    requires
        0 <= n <= rows.len(),
    ensures
        latest_open(rows, id, n) matches Some(k) ==> 0 <= k < n && rows[k].is_open_of(id),
        latest_open(rows, id, n) is None ==> forall|i: int| 0 <= i < n ==> !(#[trigger] rows[i]).is_open_of(id),
    decreases n,
{
    if n > 0 {
        lemma_latest_open(rows, id, n - 1);
    }
}

/// Closing keeps at most one open interval per ref, and leaves none open for the ref closed.
pub proof fn lemma_close_keeps_one_open(rows: Seq<IntervalView>, id: RefId, date: Seq<char>)
    requires
        one_open(rows),
    ensures
        one_open(close_spec(rows, id, date)),
        none_open(close_spec(rows, id, date), id),
        forall|other: RefId| none_open(rows, other) ==> none_open(close_spec(rows, id, date), other),
        close_spec(rows, id, date).len() == rows.len(),
{
    lemma_latest_open(rows, id, rows.len() as int);
    let r = close_spec(rows, id, date);
    assert forall|other: RefId| none_open(rows, other) implies none_open(r, other) by {
        assert forall|i: int| 0 <= i < r.len() implies !(#[trigger] r[i]).is_open_of(other) by {
            assert(!rows[i].is_open_of(other));
        }
    }
    assert forall|i: int| 0 <= i < r.len() implies !(#[trigger] r[i]).is_open_of(id) by {
        if let Some(k) = latest_open(rows, id, rows.len() as int) {
            if i != k {
                assert(rows[i].to is None ==> rows[i].id() != rows[k].id());
            }
        }
    }
}

/// The record of refs over time, as its rows.
pub struct History {
    pub rows: Vec<Interval>,
}

impl View for History {
    type V = Seq<IntervalView>;

    open spec fn view(&self) -> Seq<IntervalView> {
        rows_view(self.rows@)
    }
}

fn same_ref(row: &Interval, r: &Ref) -> (b: bool)
    ensures
        b == (row@.id() == r@),
{
    row.tag == r.tag && row.name == r.name
}

impl History {
    /// The index of the open interval of `r` that started last, if any.
    pub fn latest_open_row(&self, r: &Ref) -> (k: Option<usize>)
        ensures
            k is None <==> latest_open(self@, r@, self@.len() as int) is None,
            k matches Some(i) ==> latest_open(self@, r@, self@.len() as int) == Some(i as int),
    {
        let mut best: Option<usize> = None;
        let mut i: usize = 0;
        while i < self.rows.len()
            invariant
                0 <= i <= self.rows@.len(),
                self@.len() == self.rows@.len(),
                best is None <==> latest_open(self@, r@, i as int) is None,
                best matches Some(b) ==> latest_open(self@, r@, i as int) == Some(b as int),
            decreases self.rows@.len() - i,
        {
            proof { lemma_latest_open(self@, r@, i as int); }
            let row = &self.rows[i];
            assert(self@[i as int] == row@);
            if same_ref(row, r) && row.to_date.is_none() {
                let later = match best {
                    None => true,
                    Some(b) => text_less(self.rows[b].from_date.as_str(), row.from_date.as_str()),
                };
                if later {
                    best = Some(i);
                }
            }
            i = i + 1;
        }
        best
    }

    /// Closes the open interval of `r` at `date`: the one that started last,
    /// if there are several; nothing happens if there is none. Gives the
    /// index of the interval closed.
    pub fn close(&mut self, r: &Ref, date: &String) -> (k: Option<usize>)
        ensures
            final(self)@ == close_spec(old(self)@, r@, date@),
            k is None <==> latest_open(old(self)@, r@, old(self)@.len() as int) is None,
            k matches Some(i) ==> latest_open(old(self)@, r@, old(self)@.len() as int) == Some(i as int),
    {
        let k = self.latest_open_row(r);
        match k {
            Some(i) => {
                proof { lemma_latest_open(self@, r@, self@.len() as int); }
                assert(latest_open(old(self)@, r@, old(self)@.len() as int) == Some(i as int));
                let old_row = &self.rows[i];
                let row = Interval {
                    name: old_row.name.clone(),
                    tag: old_row.tag,
                    from_date: old_row.from_date.clone(),
                    to_date: Some(date.clone()),
                    sha: old_row.sha.clone(),
                };
                self.rows.set(i, row);
                assert(self.rows@[i as int]@ == IntervalView { to: Some(date@), ..old(self)@[i as int] });
                assert(self@ =~= close_spec(old(self)@, r@, date@));
            },
            None => {},
        }
        k
    }

    /// Opens an interval for `r` from `date` on, pointing at `sha`.
    pub fn open(&mut self, r: &Ref, date: &String, sha: &String)
        ensures
            final(self)@ == old(self)@.push(IntervalView { name: r@.name, tag: r@.tag, from: date@, to: None, sha: sha@ }),
    {
        let row = Interval {
            name: r.name.clone(),
            tag: r.tag,
            from_date: date.clone(),
            to_date: None,
            sha: sha.clone(),
        };
        self.rows.push(row);
        assert(self@ =~= old(self)@.push(IntervalView { name: r@.name, tag: r@.tag, from: date@, to: None, sha: sha@ }));
    }
}

} // verus!
