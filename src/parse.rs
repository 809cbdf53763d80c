//! Reading a range written as `start:end`.
use vstd::prelude::*;
use vstd::string::StringSliceAdditionalSpecFns;
use crate::boundary::SliceIdx;

verus! {

/// Why a range text was refused.
#[derive(Debug, Clone, Copy, PartialEq, Eq, Structural)]
pub enum RangeError {
    /// No `:`, or a side that is not an integer of the right size.
    InvalidRange,
    /// A `+N` end that leaves the range of offsets.
    RangeOverflow,
}

pub const COLON: u8 = 58u8;

pub const PLUS: u8 = 43u8;

pub const MINUS: u8 = 45u8;

pub open spec fn is_digit(b: u8) -> bool {
    48 <= b <= 57
}

/// One or more decimal digits.
pub open spec fn all_digits(t: Seq<u8>) -> bool {
    t.len() > 0 && forall|i: int| 0 <= i < t.len() ==> is_digit(#[trigger] t[i])
}

/// The number that the decimal digits `t` write.
pub open spec fn digits_value(t: Seq<u8>) -> int
    decreases t.len(),
{
    if t.len() == 0 {
        0
    } else {
        digits_value(t.drop_last()) * 10 + (t.last() - 48)
    }
}

/// Decimal digits whose value fits in a `usize`.
pub open spec fn digits_of(t: Seq<u8>) -> Option<int> {
    if all_digits(t) && digits_value(t) <= usize::MAX {
        Some(digits_value(t))
    } else {
        None
    }
}

/// A `usize` written in decimal, with an optional leading `+`.
pub open spec fn unsigned_of(t: Seq<u8>) -> Option<int> {
    if t.len() > 0 && t[0] == PLUS {
        digits_of(t.skip(1))
    } else {
        digits_of(t)
    }
}

/// An `isize` written in decimal, with an optional leading `+` or `-`.
pub open spec fn signed_of(t: Seq<u8>) -> Option<int> {
    if t.len() > 0 && t[0] == MINUS {
        match digits_of(t.skip(1)) {
            Some(v) => if -v >= isize::MIN {
                Some(-v)
            } else {
                None
            },
            None => None,
        }
    } else {
        match unsigned_of(t) {
            Some(v) => if v <= isize::MAX {
                Some(v)
            } else {
                None
            },
            None => None,
        }
    }
}

/// The boundary a signed offset stands for.
pub open spec fn idx_of(v: int) -> SliceIdx {
    if v >= 0 {
        SliceIdx::FromStart(v as usize)
    } else {
        SliceIdx::FromEnd((-v) as usize)
    }
}

/// Index of the first `:` in `t`, or its length when there is none.
pub open spec fn colon_pos(t: Seq<u8>) -> int
    decreases t.len(),
{
    if t.len() == 0 {
        0
    } else if t[0] == COLON {
        0
    } else {
        1 + colon_pos(t.skip(1))
    }
}

/// The start side: empty means the beginning.
pub open spec fn start_of(a: Seq<u8>) -> Option<SliceIdx> {
    if a.len() == 0 {
        Some(SliceIdx::FromStart(0))
    } else {
        match signed_of(a) {
            Some(v) => Some(idx_of(v)),
            None => None,
        }
    }
}

/// The end side, given the start: empty means the end of the input, and
/// `+N` means `N` units past the start.
pub open spec fn end_of(b: Seq<u8>, start: SliceIdx) -> Result<SliceIdx, RangeError> {
    if b.len() == 0 {
        Ok(SliceIdx::FromEnd(0))
    } else if b[0] == PLUS {
        match unsigned_of(b.skip(1)) {
            Some(k) => match start {
                SliceIdx::FromStart(m) => if m + k <= usize::MAX {
                    Ok(SliceIdx::FromStart((m + k) as usize))
                } else {
                    Err(RangeError::RangeOverflow)
                },
                SliceIdx::FromEnd(m) => if k <= m {
                    Ok(SliceIdx::FromEnd((m - k) as usize))
                } else {
                    Err(RangeError::RangeOverflow)
                },
            },
            None => Err(RangeError::InvalidRange),
        }
    } else {
        match signed_of(b) {
            Some(v) => Ok(idx_of(v)),
            None => Err(RangeError::InvalidRange),
        }
    }
}

/// The range that the text `t` writes.
pub open spec fn range_of(t: Seq<u8>) -> Result<(SliceIdx, SliceIdx), RangeError> {
    let k = colon_pos(t);
    if k >= t.len() {
        Err(RangeError::InvalidRange)
    } else {
        match start_of(t.take(k)) {
            None => Err(RangeError::InvalidRange),
            Some(s) => match end_of(t.skip(k + 1), s) {
                Ok(e) => Ok((s, e)),
                Err(x) => Err(x),
            },
        }
    }
}

proof fn lemma_digits_prefix(t: Seq<u8>, j: int)
    requires
        all_digits(t),
        0 <= j <= t.len(),
    ensures
        0 <= digits_value(t.take(j)) <= digits_value(t),
    decreases t.len(),
{
    if j == t.len() {
        assert(t.take(j) =~= t);
        lemma_digits_nonneg(t);
    } else {
        let d = t.drop_last();
        assert(d.take(j) =~= t.take(j));
        if d.len() > 0 {
            assert(forall|i: int| 0 <= i < d.len() ==> d[i] == t[i]);
            lemma_digits_prefix(d, j);
        } else {
            assert(t.take(j).len() == 0);
        }
        lemma_digits_nonneg(d);
        assert(is_digit(t[t.len() - 1]));
    }
}

proof fn lemma_digits_nonneg(t: Seq<u8>)
    requires
        forall|i: int| 0 <= i < t.len() ==> is_digit(#[trigger] t[i]),
    ensures
        digits_value(t) >= 0,
    decreases t.len(),
{
    if t.len() > 0 {
        let d = t.drop_last();
        assert(forall|i: int| 0 <= i < d.len() ==> d[i] == t[i]);
        lemma_digits_nonneg(d);
        assert(is_digit(t[t.len() - 1]));
    }
}

/// Reads `b[lo..hi]` as decimal digits.
fn parse_digits(b: &[u8], lo: usize, hi: usize) -> (r: Option<usize>)
    requires
        lo <= hi <= b@.len(),
    ensures
        r matches Some(v) ==> digits_of(b@.subrange(lo as int, hi as int)) == Some(v as int),
        r is None ==> digits_of(b@.subrange(lo as int, hi as int)) is None,
{
    let ghost t = b@.subrange(lo as int, hi as int);
    if lo == hi {
        return None;
    }
    let mut i: usize = lo;
    while i < hi
        invariant
            lo <= i <= hi <= b@.len(),
            t == b@.subrange(lo as int, hi as int),
            forall|j: int| 0 <= j < i - lo ==> is_digit(#[trigger] t[j]),
        decreases hi - i,
    {
        if !(48 <= b[i] && b[i] <= 57) {
            assert(!is_digit(t[i - lo]));
            return None;
        }
        i = i + 1;
    }
    assert(all_digits(t));
    let mut v: usize = 0;
    let mut i: usize = lo;
    proof {
        assert(t.take(0) =~= Seq::<u8>::empty());
    }
    while i < hi
        invariant
            lo <= i <= hi <= b@.len(),
            t == b@.subrange(lo as int, hi as int),
            all_digits(t),
            v == digits_value(t.take(i - lo)),
        decreases hi - i,
    {
        proof {
            assert(is_digit(t[i - lo]));
        }
        let d = (b[i] - 48) as usize;
        let ghost k = i - lo + 1;
        proof {
            assert(t.take(k).drop_last() =~= t.take(k - 1));
            assert(t.take(k).last() == b@[i as int]);
            lemma_digits_prefix(t, k);
        }
        match v.checked_mul(10) {
            Some(w) => match w.checked_add(d) {
                Some(x) => {
                    v = x;
                },
                None => {
                    return None;
                },
            },
            None => {
                proof {
                    assert(digits_value(t.take(k)) >= v * 10);
                }
                return None;
            },
        }
        i = i + 1;
    }
    proof {
        assert(t.take(hi - lo) =~= t);
    }
    Some(v)
}

/// Reads `b[lo..hi]` as a `usize`.
fn parse_unsigned(b: &[u8], lo: usize, hi: usize) -> (r: Option<usize>)
    requires
        lo <= hi <= b@.len(),
    ensures
        r matches Some(v) ==> unsigned_of(b@.subrange(lo as int, hi as int)) == Some(v as int),
        r is None ==> unsigned_of(b@.subrange(lo as int, hi as int)) is None,
{
    let ghost t = b@.subrange(lo as int, hi as int);
    if lo < hi && b[lo] == PLUS {
        proof {
            assert(t.skip(1) =~= b@.subrange(lo + 1, hi as int));
        }
        parse_digits(b, lo + 1, hi)
    } else {
        parse_digits(b, lo, hi)
    }
}

/// Reads `b[lo..hi]` as an `isize`.
fn parse_signed(b: &[u8], lo: usize, hi: usize) -> (r: Option<isize>)
    requires
        lo <= hi <= b@.len(),
    ensures
        r matches Some(v) ==> signed_of(b@.subrange(lo as int, hi as int)) == Some(v as int),
        r is None ==> signed_of(b@.subrange(lo as int, hi as int)) is None,
{
    let ghost t = b@.subrange(lo as int, hi as int);
    if lo < hi && b[lo] == MINUS {
        proof {
            assert(t.skip(1) =~= b@.subrange(lo + 1, hi as int));
        }
        match parse_digits(b, lo + 1, hi) {
            Some(mag) => {
                if mag <= isize::MAX as usize {
                    Some(-(mag as isize))
                } else if mag == isize::MAX as usize + 1 {
                    Some(isize::MIN)
                } else {
                    None
                }
            },
            None => None,
        }
    } else {
        match parse_unsigned(b, lo, hi) {
            Some(v) => {
                if v <= isize::MAX as usize {
                    Some(v as isize)
                } else {
                    None
                }
            },
            None => None,
        }
    }
}

/// Reads `b[lo..]` as the end side of a range whose start is `start`.
fn parse_end(b: &[u8], lo: usize, start: SliceIdx) -> (r: Result<SliceIdx, RangeError>)
    requires
        lo <= b@.len(),
    ensures
        r == end_of(b@.skip(lo as int), start),
{
    let n = b.len();
    let ghost t = b@.skip(lo as int);
    proof {
        assert(t =~= b@.subrange(lo as int, n as int));
    }
    if lo == n {
        return Ok(SliceIdx::FromEnd(0));
    }
    if b[lo] == PLUS {
        proof {
            assert(t.skip(1) =~= b@.subrange(lo + 1, n as int));
        }
        match parse_unsigned(b, lo + 1, n) {
            Some(k) => match start {
                SliceIdx::FromStart(m) => match m.checked_add(k) {
                    Some(e) => Ok(SliceIdx::FromStart(e)),
                    None => Err(RangeError::RangeOverflow),
                },
                SliceIdx::FromEnd(m) => {
                    if k <= m {
                        Ok(SliceIdx::FromEnd(m - k))
                    } else {
                        Err(RangeError::RangeOverflow)
                    }
                },
            },
            None => Err(RangeError::InvalidRange),
        }
    } else {
        match parse_signed(b, lo, n) {
            Some(v) => Ok(SliceIdx::from(v)),
            None => Err(RangeError::InvalidRange),
        }
    }
}

/// Reads a range written `start:end`. Either side may be empty (the
/// beginning, the end of the input) or a signed integer (negative values
/// count from the end); the end may also be `+N`, `N` units past the start.
pub fn parse_range(text: &str) -> (r: Result<(SliceIdx, SliceIdx), RangeError>)
    ensures
        r == range_of(text.spec_bytes()),
{
    let b = text.as_bytes();
    let n = b.len();
    let mut k: usize = 0;
    proof {
        assert(b@.skip(0) =~= b@);
    }
    while k < n && b[k] != COLON
        invariant
            k <= n == b@.len(),
            colon_pos(b@) == k + colon_pos(b@.skip(k as int)),
        decreases n - k,
    {
        proof {
            assert(b@.skip(k as int).skip(1) =~= b@.skip(k + 1));
        }
        k = k + 1;
    }
    if k == n {
        proof {
            assert(b@.skip(k as int).len() == 0);
        }
        return Err(RangeError::InvalidRange);
    }
    let start = if k == 0 {
        SliceIdx::FromStart(0)
    } else {
        proof {
            assert(b@.take(k as int) =~= b@.subrange(0, k as int));
        }
        match parse_signed(b, 0, k) {
            Some(v) => SliceIdx::from(v),
            None => {
                return Err(RangeError::InvalidRange);
            },
        }
    };
    proof {
        assert(b@.take(k as int).len() == k);
    }
    match parse_end(b, k + 1, start) {
        Ok(e) => Ok((start, e)),
        Err(x) => Err(x),
    }
}

} // verus!
