//! Parsing of the textual region list.
//!
//! The input is cut into segments at every `]` byte. Each segment is cleaned
//! (surrounding whitespace, then leading commas, whitespace and `[` are
//! stripped); empty segments are skipped; a remaining segment must start with
//! four comma-separated unsigned decimal fields, which become a rectangle.
//! The first offending segment is reported in a typed error.

use vstd::prelude::*;
use crate::rect::Rect;
use crate::seed::{all_digits, decimal_value};

verus! {

pub const RBRACKET: u8 = 0x5d;

pub const LBRACKET: u8 = 0x5b;

pub const COMMA: u8 = 0x2c;

/// ASCII whitespace: tab, line feed, vertical tab, form feed, carriage
/// return, space.
pub open spec fn is_ws(b: u8) -> bool {
    b == 0x09 || b == 0x0a || b == 0x0b || b == 0x0c || b == 0x0d || b == 0x20
}

/// Index of the first occurrence of `b` in `s`, or `s.len()` when absent.
pub open spec fn first_of(s: Seq<u8>, b: u8) -> int
    decreases s.len(),
{
    if s.len() == 0 {
        0
    } else if s[0] == b {
        0
    } else {
        1 + first_of(s.drop_first(), b)
    }
}

/// Length of the longest whitespace prefix of `s`.
pub open spec fn ws_prefix(s: Seq<u8>) -> int
    decreases s.len(),
{
    if s.len() > 0 && is_ws(s[0]) {
        1 + ws_prefix(s.drop_first())
    } else {
        0
    }
}

/// Length of the longest prefix of `s` made of the byte `b`.
pub open spec fn byte_prefix(s: Seq<u8>, b: u8) -> int
    decreases s.len(),
{
    if s.len() > 0 && s[0] == b {
        1 + byte_prefix(s.drop_first(), b)
    } else {
        0
    }
}

/// `s` without its trailing whitespace.
pub open spec fn trim_end_ws(s: Seq<u8>) -> Seq<u8>
    decreases s.len(),
{
    if s.len() > 0 && is_ws(s.last()) {
        trim_end_ws(s.drop_last())
    } else {
        s
    }
}

/// A segment after cleaning: surrounding whitespace, then every leading
/// comma, then leading whitespace again, then every leading `[` are removed.
pub open spec fn cleaned(s: Seq<u8>) -> Seq<u8> {
    let t1 = trim_end_ws(s.skip(ws_prefix(s)));
    let t2 = t1.skip(byte_prefix(t1, COMMA));
    let t3 = t2.skip(ws_prefix(t2));
    t3.skip(byte_prefix(t3, LBRACKET))
}

/// The value of one field: after trimming surrounding whitespace it must be a
/// non-empty run of decimal digits whose value fits in `usize`.
pub open spec fn field_value(f: Seq<u8>) -> Option<usize> {
    let t = trim_end_ws(f.skip(ws_prefix(f)));
    if t.len() == 0 || !all_digits(t) {
        None
    } else if decimal_value(t) > usize::MAX {
        None
    } else {
        Some(decimal_value(t) as usize)
    }
}

/// Why a region string was rejected, with the cleaned segment at fault.
pub enum RegionIssue {
    /// The segment has fewer than four comma-separated fields.
    MissingFields { segment: Seq<u8> },
    /// One of the four fields is not an unsigned decimal number.
    InvalidNumber { segment: Seq<u8> },
}

/// The rectangle read from one cleaned, non-empty segment: its first four
/// comma-separated fields are left, top, right and bottom; fields past the
/// fourth are ignored.
pub open spec fn segment_rect(seg: Seq<u8>) -> Result<Rect, RegionIssue> {
    let c1 = first_of(seg, COMMA);
    if c1 >= seg.len() {
        Err(RegionIssue::MissingFields { segment: seg })
    } else {
        let rest1 = seg.skip(c1 + 1);
        let c2 = first_of(rest1, COMMA);
        if c2 >= rest1.len() {
            Err(RegionIssue::MissingFields { segment: seg })
        } else {
            let rest2 = rest1.skip(c2 + 1);
            let c3 = first_of(rest2, COMMA);
            if c3 >= rest2.len() {
                Err(RegionIssue::MissingFields { segment: seg })
            } else {
                let rest3 = rest2.skip(c3 + 1);
                let c4 = first_of(rest3, COMMA);
                let f4 = if c4 >= rest3.len() {
                    rest3
                } else {
                    rest3.take(c4)
                };
                match (
                    field_value(seg.take(c1)),
                    field_value(rest1.take(c2)),
                    field_value(rest2.take(c3)),
                    field_value(f4),
                ) {
                    (Some(left), Some(top), Some(right), Some(bottom)) => Ok(
                        Rect { left, top, right, bottom },
                    ),
                    _ => Err(RegionIssue::InvalidNumber { segment: seg }),
                }
            }
        }
    }
}

/// The rectangles read from `s`: segments end at each `]`; cleaned-empty
/// segments are skipped; the first offending segment aborts with its issue.
pub open spec fn regions_of(s: Seq<u8>) -> Result<Seq<Rect>, RegionIssue>
    decreases s.len(),
{
    let k = first_of(s, RBRACKET);
    if 0 <= k && k < s.len() {
        let seg = cleaned(s.take(k));
        let rest = regions_of(s.skip(k + 1));
        if seg.len() == 0 {
            rest
        } else {
            match segment_rect(seg) {
                Ok(r) => match rest {
                    Ok(v) => Ok(seq![r] + v),
                    Err(e) => Err(e),
                },
                Err(e) => Err(e),
            }
        }
    } else {
        let seg = cleaned(s);
        if seg.len() == 0 {
            Ok(Seq::empty())
        } else {
            match segment_rect(seg) {
                Ok(r) => Ok(seq![r]),
                Err(e) => Err(e),
            }
        }
    }
}

/// A typed parse error carrying the cleaned text of the offending segment.
#[derive(Debug)]
pub enum ParseError {
    /// The segment has fewer than four comma-separated fields.
    MissingFields { segment: Vec<u8> },
    /// One of the four fields is not an unsigned decimal number.
    InvalidNumber { segment: Vec<u8> },
}

impl View for ParseError {
    type V = RegionIssue;

    open spec fn view(&self) -> RegionIssue {
        match self {
            ParseError::MissingFields { segment } => RegionIssue::MissingFields {
                segment: segment@,
            },
            ParseError::InvalidNumber { segment } => RegionIssue::InvalidNumber {
                segment: segment@,
            },
        }
    }
}

proof fn lemma_first_of_scan(s: Seq<u8>, b: u8, j: int)
    requires
        0 <= j <= s.len(),
        forall|i: int| 0 <= i < j ==> s[i] != b,
        j == s.len() || s[j] == b,
    ensures
        first_of(s, b) == j,
    decreases j,
{
    if j > 0 {
        lemma_first_of_scan(s.drop_first(), b, j - 1);
    }
}

proof fn lemma_ws_prefix_scan(s: Seq<u8>, j: int)
    requires
        0 <= j <= s.len(),
        forall|i: int| 0 <= i < j ==> is_ws(s[i]),
        j == s.len() || !is_ws(s[j]),
    ensures
        ws_prefix(s) == j,
    decreases j,
{
    if j > 0 {
        lemma_ws_prefix_scan(s.drop_first(), j - 1);
    }
}

proof fn lemma_byte_prefix_scan(s: Seq<u8>, b: u8, j: int)
    requires
        0 <= j <= s.len(),
        forall|i: int| 0 <= i < j ==> s[i] == b,
        j == s.len() || s[j] != b,
    ensures
        byte_prefix(s, b) == j,
    decreases j,
{
    if j > 0 {
        lemma_byte_prefix_scan(s.drop_first(), b, j - 1);
    }
}

proof fn lemma_trim_end_scan(s: Seq<u8>, j: int)
    requires
        0 <= j <= s.len(),
        forall|i: int| j <= i < s.len() ==> is_ws(s[i]),
        j == 0 || !is_ws(s[j - 1]),
    ensures
        trim_end_ws(s) == s.take(j),
    decreases s.len(),
{
    if s.len() > j {
        assert(is_ws(s.last()));
        lemma_trim_end_scan(s.drop_last(), j);
        assert(s.drop_last().take(j) =~= s.take(j));
    } else {
        assert(s.take(j) =~= s);
    }
}

/// Whether `b` is ASCII whitespace, as `is_ws` says.
fn is_ws_byte(b: u8) -> (r: bool)
    ensures
        r == is_ws(b),
{
    b == 0x09 || b == 0x0a || b == 0x0b || b == 0x0c || b == 0x0d || b == 0x20
}

/// Copies the bytes of `s` with indices in `[lo, hi)` into a fresh vector.
fn copy_range(s: &[u8], lo: usize, hi: usize) -> (r: Vec<u8>)
    requires
        lo <= hi <= s@.len(),
    ensures
        r@ == s@.subrange(lo as int, hi as int),
{
    let mut r: Vec<u8> = Vec::new();
    for i in lo..hi
        invariant
            lo <= i <= hi <= s@.len(),
            r@ == s@.subrange(lo as int, i as int),
    {
        r.push(s[i]);
        proof {
            assert(r@ =~= s@.subrange(lo as int, i + 1));
        }
    }
    r
}

/// Cleans one raw segment as `cleaned` describes.
fn clean_segment(seg: &Vec<u8>) -> (r: Vec<u8>)
    ensures
        r@ == cleaned(seg@),
{
    let n: usize = seg.len();
    let mut a: usize = 0;
    while a < n && is_ws_byte(seg[a])
        invariant
            0 <= a <= n,
            n == seg@.len(),
            forall|i: int| 0 <= i < a ==> is_ws(seg@[i]),
        decreases n - a,
    {
        a = a + 1;
    }
    proof {
        lemma_ws_prefix_scan(seg@, a as int);
    }
    let mut b: usize = n;
    while b > a && is_ws_byte(seg[b - 1])
        invariant
            a <= b <= n,
            n == seg@.len(),
            forall|i: int| b <= i < n ==> is_ws(seg@[i]),
        decreases b,
    {
        b = b - 1;
    }
    let ghost t1 = trim_end_ws(seg@.skip(a as int));
    proof {
        lemma_trim_end_scan(seg@.skip(a as int), b - a);
        assert(seg@.skip(a as int).take(b - a) =~= seg@.subrange(a as int, b as int));
        assert(t1 == seg@.subrange(a as int, b as int));
    }
    let mut a2: usize = a;
    while a2 < b && seg[a2] == 0x2c
        invariant
            a <= a2 <= b <= n,
            n == seg@.len(),
            forall|i: int| a <= i < a2 ==> seg@[i] == COMMA,
        decreases b - a2,
    {
        a2 = a2 + 1;
    }
    proof {
        lemma_byte_prefix_scan(t1, COMMA, a2 - a);
        assert(t1.skip(a2 - a) =~= seg@.subrange(a2 as int, b as int));
    }
    let ghost t2 = t1.skip(byte_prefix(t1, COMMA));
    let mut a3: usize = a2;
    while a3 < b && is_ws_byte(seg[a3])
        invariant
            a2 <= a3 <= b <= n,
            n == seg@.len(),
            forall|i: int| a2 <= i < a3 ==> is_ws(seg@[i]),
        decreases b - a3,
    {
        a3 = a3 + 1;
    }
    proof {
        lemma_ws_prefix_scan(t2, a3 - a2);
        assert(t2.skip(a3 - a2) =~= seg@.subrange(a3 as int, b as int));
    }
    let ghost t3 = t2.skip(ws_prefix(t2));
    let mut a4: usize = a3;
    while a4 < b && seg[a4] == 0x5b
        invariant
            a3 <= a4 <= b <= n,
            n == seg@.len(),
            forall|i: int| a3 <= i < a4 ==> seg@[i] == LBRACKET,
        decreases b - a4,
    {
        a4 = a4 + 1;
    }
    proof {
        lemma_byte_prefix_scan(t3, LBRACKET, a4 - a3);
        assert(t3.skip(a4 - a3) =~= seg@.subrange(a4 as int, b as int));
    }
    copy_range(seg.as_slice(), a4, b)
}

/// Reads one field of a cleaned segment, the bytes `[lo, hi)` of `seg`.
fn parse_field(seg: &Vec<u8>, lo: usize, hi: usize) -> (r: Option<usize>)
    requires
        lo <= hi <= seg@.len(),
    ensures
        r == field_value(seg@.subrange(lo as int, hi as int)),
{
    let ghost f = seg@.subrange(lo as int, hi as int);
    let mut a: usize = lo;
    while a < hi && is_ws_byte(seg[a])
        invariant
            lo <= a <= hi <= seg@.len(),
            forall|i: int| lo <= i < a ==> is_ws(seg@[i]),
        decreases hi - a,
    {
        a = a + 1;
    }
    proof {
        lemma_ws_prefix_scan(f, a - lo);
    }
    let mut b: usize = hi;
    while b > a && is_ws_byte(seg[b - 1])
        invariant
            a <= b <= hi,
            hi <= seg@.len(),
            forall|i: int| b <= i < hi ==> is_ws(seg@[i]),
        decreases b,
    {
        b = b - 1;
    }
    let ghost t = trim_end_ws(f.skip(a - lo));
    proof {
        lemma_trim_end_scan(f.skip(a - lo), b - a);
        assert(f.skip(a - lo).take(b - a) =~= seg@.subrange(a as int, b as int));
        assert(t == seg@.subrange(a as int, b as int));
    }
    if a == b {
        return None;
    }
    let mut res: u128 = 0;
    let mut i: usize = a;
    while i < b
        invariant
            lo <= a <= i <= b <= hi <= seg@.len(),
            a < b,
            t == seg@.subrange(a as int, b as int),
            ws_prefix(seg@.subrange(lo as int, hi as int)) == a - lo,
            t == trim_end_ws(seg@.subrange(lo as int, hi as int).skip(a - lo)),
            all_digits(t.take(i - a)),
            res == decimal_value(t.take(i - a)),
            res <= usize::MAX,
        decreases b - i,
    {
        let c = seg[i];
        if c < 0x30 || c > 0x39 {
            proof {
                assert(t[i - a] == seg@[i as int]);
                assert(!all_digits(t));
                assert(field_value(seg@.subrange(lo as int, hi as int)) == None::<usize>);
            }
            return None;
        }
        res = res * 10 + (c - 0x30) as u128;
        proof {
            assert(t.take(i - a + 1).drop_last() =~= t.take(i - a));
            assert(t.take(i - a + 1).last() == seg@[i as int]);
        }
        i = i + 1;
        if res > usize::MAX as u128 {
            proof {
                if all_digits(t) {
                    crate::seed::lemma_decimal_prefix_mono(t, i - a);
                }
                assert(field_value(seg@.subrange(lo as int, hi as int)) == None::<usize>);
            }
            return None;
        }
    }
    proof {
        assert(t.take(b - a) =~= t);
    }
    Some(res as usize)
}

/// Reads the rectangle of one cleaned, non-empty segment.
fn parse_segment(seg: &Vec<u8>) -> (r: Result<Rect, ParseError>)
    ensures
        match r {
            Ok(rect) => segment_rect(seg@) == Ok::<Rect, RegionIssue>(rect),
            Err(e) => segment_rect(seg@) == Err::<Rect, RegionIssue>(e@),
        },
{
    let n: usize = seg.len();
    let mut p1: usize = 0;
    while p1 < n && seg[p1] != 0x2c
        invariant
            0 <= p1 <= n,
            n == seg@.len(),
            forall|i: int| 0 <= i < p1 ==> seg@[i] != COMMA,
        decreases n - p1,
    {
        p1 = p1 + 1;
    }
    proof {
        lemma_first_of_scan(seg@, COMMA, p1 as int);
    }
    if p1 == n {
        let segc = copy_range(seg.as_slice(), 0, n);
        proof {
            assert(segc@ =~= seg@);
        }
        return Err(ParseError::MissingFields { segment: segc });
    }
    let ghost rest1 = seg@.skip(p1 + 1);
    let mut p2: usize = p1 + 1;
    while p2 < n && seg[p2] != 0x2c
        invariant
            p1 + 1 <= p2 <= n,
            n == seg@.len(),
            forall|i: int| p1 + 1 <= i < p2 ==> seg@[i] != COMMA,
        decreases n - p2,
    {
        p2 = p2 + 1;
    }
    proof {
        lemma_first_of_scan(rest1, COMMA, p2 - p1 - 1);
    }
    if p2 == n {
        let segc = copy_range(seg.as_slice(), 0, n);
        proof {
            assert(segc@ =~= seg@);
        }
        return Err(ParseError::MissingFields { segment: segc });
    }
    let ghost rest2 = rest1.skip(p2 - p1);
    let mut p3: usize = p2 + 1;
    while p3 < n && seg[p3] != 0x2c
        invariant
            p2 + 1 <= p3 <= n,
            n == seg@.len(),
            forall|i: int| p2 + 1 <= i < p3 ==> seg@[i] != COMMA,
        decreases n - p3,
    {
        p3 = p3 + 1;
    }
    proof {
        assert(forall|i: int| 0 <= i < p3 - p2 - 1 ==> rest2[i] == seg@[p2 + 1 + i]);
        lemma_first_of_scan(rest2, COMMA, p3 - p2 - 1);
    }
    if p3 == n {
        let segc = copy_range(seg.as_slice(), 0, n);
        proof {
            assert(segc@ =~= seg@);
        }
        return Err(ParseError::MissingFields { segment: segc });
    }
    let ghost rest3 = rest2.skip(p3 - p2);
    let mut p4: usize = p3 + 1;
    while p4 < n && seg[p4] != 0x2c
        invariant
            p3 + 1 <= p4 <= n,
            n == seg@.len(),
            forall|i: int| p3 + 1 <= i < p4 ==> seg@[i] != COMMA,
        decreases n - p4,
    {
        p4 = p4 + 1;
    }
    proof {
        assert(forall|i: int| 0 <= i < p4 - p3 - 1 ==> rest3[i] == seg@[p3 + 1 + i]);
        lemma_first_of_scan(rest3, COMMA, p4 - p3 - 1);
        assert(seg@.take(p1 as int) =~= seg@.subrange(0, p1 as int));
        assert(rest1.take(p2 - p1 - 1) =~= seg@.subrange(p1 + 1, p2 as int));
        assert(rest2.take(p3 - p2 - 1) =~= seg@.subrange(p2 + 1, p3 as int));
        if p4 < n {
            assert(rest3.take(p4 - p3 - 1) =~= seg@.subrange(p3 + 1, p4 as int));
        } else {
            assert(rest3 =~= seg@.subrange(p3 + 1, p4 as int));
        }
    }
    let v1 = parse_field(seg, 0, p1);
    let v2 = parse_field(seg, p1 + 1, p2);
    let v3 = parse_field(seg, p2 + 1, p3);
    let v4 = parse_field(seg, p3 + 1, p4);
    match (v1, v2, v3, v4) {
        (Some(left), Some(top), Some(right), Some(bottom)) => Ok(
            Rect { left, top, right, bottom },
        ),
        _ => {
            let segc = copy_range(seg.as_slice(), 0, n);
            proof {
                assert(segc@ =~= seg@);
            }
            Err(ParseError::InvalidNumber { segment: segc })
        },
    }
}

/// Parses a textual list of rectangles such as `[0,0,1920,100],[0,100,200,800]`.
///
/// Empty input yields an empty list. The error carries the cleaned text of
/// the first offending segment: one with fewer than four fields, or one whose
/// fields are not unsigned decimal numbers that fit the machine word.
pub fn parse_regions(s: &[u8]) -> (r: Result<Vec<Rect>, ParseError>)
    ensures
        match r {
            Ok(v) => regions_of(s@) == Ok::<Seq<Rect>, RegionIssue>(v@),
            Err(e) => regions_of(s@) == Err::<Seq<Rect>, RegionIssue>(e@),
        },
{
    let n: usize = s.len();
    let mut acc: Vec<Rect> = Vec::new();
    let mut start: usize = 0;
    proof {
        assert(s@.skip(0) =~= s@);
        if regions_of(s@) is Ok {
            assert(acc@ + regions_of(s@)->Ok_0 =~= regions_of(s@)->Ok_0);
        }
    }
    loop
        invariant
            0 <= start <= n,
            n == s@.len(),
            regions_of(s@) == match regions_of(s@.skip(start as int)) {
                Ok(v) => Ok::<Seq<Rect>, RegionIssue>(acc@ + v),
                Err(e) => Err::<Seq<Rect>, RegionIssue>(e),
            },
        decreases n - start,
    {
        let ghost suffix = s@.skip(start as int);
        let mut p: usize = start;
        while p < n && s[p] != 0x5d
            invariant
                start <= p <= n,
                n == s@.len(),
                forall|i: int| start <= i < p ==> s@[i] != RBRACKET,
            decreases n - p,
        {
            p = p + 1;
        }
        proof {
            assert(forall|i: int| 0 <= i < p - start ==> suffix[i] == s@[start + i]);
            lemma_first_of_scan(suffix, RBRACKET, p - start);
            if p < n {
                assert(suffix.take(p - start) =~= s@.subrange(start as int, p as int));
            } else {
                assert(suffix =~= s@.subrange(start as int, p as int));
            }
        }
        let raw = copy_range(s, start, p);
        let seg = clean_segment(&raw);
        if seg.len() > 0 {
            match parse_segment(&seg) {
                Ok(rect) => {
                    let ghost old_acc = acc@;
                    acc.push(rect);
                    proof {
                        if p < n {
                            assert(suffix.skip(p - start + 1) =~= s@.skip(p + 1));
                            let rest = regions_of(s@.skip(p + 1));
                            if rest is Ok {
                                assert(old_acc + (seq![rect] + rest->Ok_0) =~= acc@ + rest->Ok_0);
                            }
                        } else {
                            assert(old_acc + seq![rect] =~= acc@);
                        }
                    }
                },
                Err(e) => {
                    return Err(e);
                },
            }
        } else {
            proof {
                if p < n {
                    assert(suffix.skip(p - start + 1) =~= s@.skip(p + 1));
                } else {
                    assert(acc@ + Seq::<Rect>::empty() =~= acc@);
                }
            }
        }
        if p == n {
            return Ok(acc);
        }
        start = p + 1;
    }
}

} // verus!
