//! Properties that hold of every range and every input.
use vstd::prelude::*;
use crate::boundary::{SliceIdx, CountModeEnum, unit, LINE_DELIMITER};
use crate::semantics::{
    units,
    sel,
    slice_of,
    resolve,
    clamp,
    lemma_units_bounds,
    lemma_units_front,
    lemma_units_concat,
    tail_start,
    lemma_sel_empty,
    lemma_sel_front,
    lemma_sel_bytes,
};
use crate::fast_path::extent_of;

verus! {

/// Index of the first byte of `s` at unit position `k` or later (the
/// length of `s` when there is none). Counting lines, this is where line `k`
/// begins.
pub open spec fn unit_start(mode: CountModeEnum, s: Seq<u8>, k: int) -> int
    decreases s.len(),
{
    if k <= 0 || s.len() == 0 {
        0
    } else {
        1 + unit_start(mode, s.skip(1), k - unit(mode, s[0]))
    }
}

proof fn lemma_unit_start_bounds(mode: CountModeEnum, s: Seq<u8>, k1: int, k2: int)
    requires
        k1 <= k2,
    ensures
        0 <= unit_start(mode, s, k1) <= unit_start(mode, s, k2) <= s.len(),
    decreases s.len(),
{
    if s.len() > 0 {
        lemma_unit_start_bounds(mode, s.skip(1), k1 - unit(mode, s[0]), k2 - unit(mode, s[0]));
    }
}

/// From a first byte at or past `lo`, the selection is a prefix.
proof fn lemma_sel_prefix(mode: CountModeEnum, s: Seq<u8>, p: int, lo: int, hi: int)
    requires
        lo <= p,
    ensures
        0 <= unit_start(mode, s, hi - p) <= s.len(),
        sel(mode, s, p, lo, hi) == s.take(unit_start(mode, s, hi - p)),
    decreases s.len(),
{
    lemma_unit_start_bounds(mode, s, hi - p, hi - p);
    if hi <= p || s.len() == 0 {
        if hi <= p {
            lemma_sel_empty(mode, s, p, lo, hi);
        }
        assert(s.take(0) =~= Seq::<u8>::empty());
    } else {
        let t = s.skip(1);
        let u = unit(mode, s[0]);
        lemma_sel_front(mode, s, p, lo, hi);
        lemma_sel_prefix(mode, t, p + u, lo, hi);
        let x = unit_start(mode, t, hi - p - u);
        assert(seq![s[0]] + t.take(x) =~= s.take(1 + x));
    }
}

/// The selection is the substring between the starts of two unit positions.
proof fn lemma_sel_substring(mode: CountModeEnum, s: Seq<u8>, p: int, lo: int, hi: int)
    requires
        p <= lo <= hi,
    ensures
        0 <= unit_start(mode, s, lo - p) <= unit_start(mode, s, hi - p) <= s.len(),
        sel(mode, s, p, lo, hi) == s.subrange(
            unit_start(mode, s, lo - p),
            unit_start(mode, s, hi - p),
        ),
    decreases s.len(),
{
    lemma_unit_start_bounds(mode, s, lo - p, hi - p);
    if s.len() == 0 {
        assert(s.subrange(0, 0) =~= Seq::<u8>::empty());
    } else if lo == p {
        lemma_sel_prefix(mode, s, p, lo, hi);
        assert(s.take(unit_start(mode, s, hi - p)) =~= s.subrange(0, unit_start(mode, s, hi - p)));
    } else {
        let t = s.skip(1);
        let u = unit(mode, s[0]);
        lemma_sel_front(mode, s, p, lo, hi);
        lemma_sel_substring(mode, t, p + u, lo, hi);
        let a = unit_start(mode, t, lo - p - u);
        let b = unit_start(mode, t, hi - p - u);
        assert(t.subrange(a, b) =~= s.subrange(1 + a, 1 + b));
        assert(Seq::<u8>::empty() + t.subrange(a, b) =~= t.subrange(a, b));
    }
}

/// Counting bytes, the range `n:m` with `n <= m <= s.len()` gives exactly
/// the bytes `[n, m)` of the input.
pub proof fn law_bytes_from_start(s: Seq<u8>, n: usize, m: usize)
    requires
        n <= m <= s.len(),
    ensures
        slice_of(SliceIdx::FromStart(n), SliceIdx::FromStart(m), CountModeEnum::Byte, s)
            == s.subrange(n as int, m as int),
{
    lemma_sel_bytes(s, 0, n as int, m as int);
    if n == m {
        assert(s.subrange(n as int, m as int) =~= Seq::<u8>::empty());
    }
}

/// Counting lines, the range `n:m` with `n <= m` gives the input from the
/// start of line `n` to the start of line `m`: lines `[n, m)`, each with its
/// delimiter, a final line without one included when it lies in the range.
pub proof fn law_lines_from_start(s: Seq<u8>, n: usize, m: usize)
    requires
        n <= m,
    ensures
        0 <= unit_start(CountModeEnum::Line, s, n as int) <= unit_start(
            CountModeEnum::Line,
            s,
            m as int,
        ) <= s.len(),
        slice_of(SliceIdx::FromStart(n), SliceIdx::FromStart(m), CountModeEnum::Line, s)
            == s.subrange(
            unit_start(CountModeEnum::Line, s, n as int),
            unit_start(CountModeEnum::Line, s, m as int),
        ),
{
    lemma_sel_substring(CountModeEnum::Line, s, 0, n as int, m as int);
}

/// The bytes that copying the extent of the fast path yields from `s`.
pub open spec fn fast_output(start: SliceIdx, end: SliceIdx, s: Seq<u8>) -> Seq<u8> {
    match extent_of(start, end, s.len() as int) {
        Some((off, n)) => s.subrange(off, off + n),
        None => Seq::empty(),
    }
}

/// Counting bytes, copying the extent of the fast path gives what the
/// streaming engine gives, for every range and every input.
pub proof fn law_fast_path_agrees(start: SliceIdx, end: SliceIdx, s: Seq<u8>)
    ensures
        slice_of(start, end, CountModeEnum::Byte, s) == fast_output(start, end, s),
{
    let mode = CountModeEnum::Byte;
    let (w, lo, hi) = resolve(start, end, mode, s);
    lemma_units_bounds(mode, s);
    lemma_units_bounds(mode, w);
    lemma_sel_bytes(w, 0, lo, hi);
    let l = s.len() as int;
    match start {
        SliceIdx::FromStart(n) => match end {
            SliceIdx::FromStart(m) => {
            },
            SliceIdx::FromEnd(m) => {
                if n < l {
                    let c = clamp(hi, w.len() as int);
                    if 0 < c {
                        assert(w.subrange(0, c) =~= s.subrange(n as int, n + c));
                    }
                }
            },
        },
        SliceIdx::FromEnd(n) => {
        },
    }
}

/// Whenever the resolved start position is at or past the resolved end
/// position, the output is empty.
pub proof fn law_empty_range(start: SliceIdx, end: SliceIdx, mode: CountModeEnum, s: Seq<u8>)
    requires
        resolve(start, end, mode, s).1 >= resolve(start, end, mode, s).2,
    ensures
        slice_of(start, end, mode, s) == Seq::<u8>::empty(),
{
    let (w, lo, hi) = resolve(start, end, mode, s);
    lemma_sel_empty(mode, w, 0, lo, hi);
}

/// The input runs to the start of its last unit position when it is empty
/// or ends with a byte that completes a unit.
proof fn lemma_unit_start_total(mode: CountModeEnum, s: Seq<u8>)
    requires
        s.len() == 0 || unit(mode, s.last()) == 1,
    ensures
        unit_start(mode, s, units(mode, s)) == s.len(),
    decreases s.len(),
{
    if s.len() > 0 {
        lemma_units_bounds(mode, s.drop_last());
        lemma_units_front(mode, s);
        let t = s.skip(1);
        if t.len() > 0 {
            assert(t.last() == s.last());
        }
        lemma_unit_start_total(mode, t);
    }
}

/// The range `-n:` gives the last `n` units of the input: from the start of
/// unit position `units - n` to the start of position `units` (counting
/// lines, a final line without a delimiter is no unit and is left out). On
/// an input with fewer than `n` units it gives everything up to position
/// `units`: the whole input when that ends with a unit.
pub proof fn law_trailing_units(n: usize, mode: CountModeEnum, s: Seq<u8>)
    ensures
        0 <= unit_start(mode, s, tail_start(mode, s, n as int)) <= unit_start(
            mode,
            s,
            units(mode, s),
        ) <= s.len(),
        units(mode, s) >= n ==> slice_of(SliceIdx::FromEnd(n), SliceIdx::FromEnd(0), mode, s)
            == s.subrange(
            unit_start(mode, s, units(mode, s) - n),
            unit_start(mode, s, units(mode, s)),
        ),
        units(mode, s) < n ==> slice_of(SliceIdx::FromEnd(n), SliceIdx::FromEnd(0), mode, s)
            == s.take(unit_start(mode, s, units(mode, s))),
        s.len() == 0 || unit(mode, s.last()) == 1 ==> unit_start(mode, s, units(mode, s))
            == s.len(),
{
    let t = units(mode, s);
    let lo = tail_start(mode, s, n as int);
    lemma_units_bounds(mode, s);
    lemma_sel_substring(mode, s, 0, lo, t);
    assert(unit_start(mode, s, 0) == 0);
    if t < n {
        assert(s.subrange(0, unit_start(mode, s, t)) =~= s.take(unit_start(mode, s, t)));
    }
    if s.len() == 0 || unit(mode, s.last()) == 1 {
        lemma_unit_start_total(mode, s);
    }
}

/// Counting bytes, the range `-n:` gives the last `n` bytes, or the whole
/// input when it is shorter than `n`.
pub proof fn law_trailing_bytes(n: usize, s: Seq<u8>)
    ensures
        slice_of(SliceIdx::FromEnd(n), SliceIdx::FromEnd(0), CountModeEnum::Byte, s) == if s.len()
            >= n {
            s.skip(s.len() - n)
        } else {
            s
        },
{
    lemma_units_bounds(CountModeEnum::Byte, s);
    let (w, lo, hi) = resolve(SliceIdx::FromEnd(n), SliceIdx::FromEnd(0), CountModeEnum::Byte, s);
    lemma_sel_bytes(s, 0, lo, hi);
    if s.len() >= n {
        assert(s.subrange(s.len() - n, s.len() as int) =~= s.skip(s.len() - n));
        if n == 0 {
            assert(s.skip(s.len() - n) =~= Seq::<u8>::empty());
        }
    } else {
        assert(s.subrange(0, s.len() as int) =~= s);
        if s.len() == 0 {
            assert(s =~= Seq::<u8>::empty());
        }
    }
}

/// A line: one or more bytes, none of them a delimiter but perhaps the last.
pub open spec fn is_line(a: Seq<u8>) -> bool {
    a.len() > 0 && forall|i: int| 0 <= i < a.len() - 1 ==> a[i] != LINE_DELIMITER
}

/// `ls` cuts an input into lines: each ends with a delimiter, except
/// perhaps the last.
pub open spec fn is_line_split(ls: Seq<Seq<u8>>) -> bool {
    forall|i: int|
        0 <= i < ls.len() ==> is_line(#[trigger] ls[i]) && (i < ls.len() - 1 ==> ls[i].last()
            == LINE_DELIMITER)
}

/// Past a line that ends with a delimiter, or past the last line, unit
/// positions start one line later.
proof fn lemma_unit_start_past_line(a: Seq<u8>, b: Seq<u8>, k: int)
    requires
        is_line(a),
        a.last() == LINE_DELIMITER || b.len() == 0,
        k >= 1,
    ensures
        unit_start(CountModeEnum::Line, a + b, k) == a.len() + unit_start(
            CountModeEnum::Line,
            b,
            k - 1,
        ),
    decreases a.len(),
{
    let mode = CountModeEnum::Line;
    let a1 = a.skip(1);
    assert((a + b).skip(1) =~= a1 + b);
    assert((a + b)[0] == a[0]);
    if a1.len() == 0 {
        assert(a.last() == a[0]);
        assert(a1 + b =~= b);
        if a[0] != LINE_DELIMITER {
            assert(b.len() == 0);
            assert(unit_start(mode, b, k) == 0);
        }
        assert(unit_start(mode, a + b, k) == 1 + unit_start(mode, a1 + b, k - unit(mode, a[0])));
    } else {
        assert(a[0] != LINE_DELIMITER);
        assert(a1.last() == a.last());
        assert forall|i: int| 0 <= i < a1.len() - 1 implies a1[i] != LINE_DELIMITER by {
            assert(a1[i] == a[i + 1]);
        }
        lemma_unit_start_past_line(a1, b, k);
    }
}

/// Between the starts of lines `n` and `m` lie exactly lines `[n, m)`.
proof fn lemma_lines_between(ls: Seq<Seq<u8>>, n: int, m: int)
    requires
        is_line_split(ls),
        0 <= n <= m,
    ensures
        0 <= unit_start(CountModeEnum::Line, ls.flatten(), n) <= unit_start(
            CountModeEnum::Line,
            ls.flatten(),
            m,
        ) <= ls.flatten().len(),
        ls.flatten().subrange(
            unit_start(CountModeEnum::Line, ls.flatten(), n),
            unit_start(CountModeEnum::Line, ls.flatten(), m),
        ) == ls.subrange(
            if n < ls.len() {
                n
            } else {
                ls.len() as int
            },
            if m < ls.len() {
                m
            } else {
                ls.len() as int
            },
        ).flatten(),
    decreases ls.len(),
{
    let mode = CountModeEnum::Line;
    let s = ls.flatten();
    lemma_unit_start_bounds(mode, s, n, m);
    let n1 = if n < ls.len() {
        n
    } else {
        ls.len() as int
    };
    let m1 = if m < ls.len() {
        m
    } else {
        ls.len() as int
    };
    if ls.len() == 0 {
        assert(s.subrange(0, 0) =~= ls.subrange(0, 0).flatten());
    } else {
        let a = ls[0];
        let r = ls.drop_first();
        let rs = r.flatten();
        assert(s == a + rs);
        assert(is_line(a));
        assert(is_line_split(r)) by {
            assert forall|i: int| 0 <= i < r.len() implies is_line(#[trigger] r[i]) && (i < r.len()
                - 1 ==> r[i].last() == LINE_DELIMITER) by {
                assert(r[i] == ls[i + 1]);
            }
        }
        if r.len() > 0 {
            assert(a.last() == LINE_DELIMITER);
        } else {
            assert(rs =~= Seq::<u8>::empty());
        }
        if m == 0 {
            assert(s.subrange(0, 0) =~= ls.subrange(0, 0).flatten());
        } else if n == 0 {
            lemma_unit_start_past_line(a, rs, m);
            lemma_lines_between(r, 0, m - 1);
            let y = unit_start(mode, rs, m - 1);
            assert(s.subrange(0, a.len() + y) =~= a + rs.subrange(0, y));
            assert(ls.subrange(0, m1).drop_first() =~= r.subrange(0, m1 - 1));
            assert(ls.subrange(0, m1)[0] == a);
        } else {
            lemma_unit_start_past_line(a, rs, n);
            lemma_unit_start_past_line(a, rs, m);
            lemma_lines_between(r, n - 1, m - 1);
            let x = unit_start(mode, rs, n - 1);
            let y = unit_start(mode, rs, m - 1);
            assert(s.subrange(a.len() + x, a.len() + y) =~= rs.subrange(x, y));
            assert(ls.subrange(n1, m1) =~= r.subrange(n1 - 1, m1 - 1));
        }
    }
}

/// Counting lines, the range `n:m` with `n <= m` gives lines `[n, m)` of
/// any cutting of the input into lines, each with its delimiter, and a
/// final line without one when it lies in the range.
pub proof fn law_lines_as_list(s: Seq<u8>, ls: Seq<Seq<u8>>, n: usize, m: usize)
    requires
        is_line_split(ls),
        ls.flatten() == s,
        n <= m,
    ensures
        slice_of(SliceIdx::FromStart(n), SliceIdx::FromStart(m), CountModeEnum::Line, s)
            == ls.subrange(
            if n < ls.len() {
                n as int
            } else {
                ls.len() as int
            },
            if m < ls.len() {
                m as int
            } else {
                ls.len() as int
            },
        ).flatten(),
{
    law_lines_from_start(s, n, m);
    lemma_lines_between(ls, n as int, m as int);
}

/// A line holds one unit when it ends with a delimiter, else none.
proof fn lemma_units_of_line(a: Seq<u8>)
    requires
        forall|i: int| 0 <= i < a.len() ==> a[i] != LINE_DELIMITER,
    ensures
        units(CountModeEnum::Line, a) == 0,
    decreases a.len(),
{
    if a.len() > 0 {
        lemma_units_of_line(a.drop_last());
    }
}

/// Lines that all end with a delimiter hold one unit each.
proof fn lemma_units_of_lines(ls: Seq<Seq<u8>>)
    requires
        is_line_split(ls),
        ls.len() > 0 ==> ls.last().last() == LINE_DELIMITER,
    ensures
        units(CountModeEnum::Line, ls.flatten()) == ls.len(),
    decreases ls.len(),
{
    if ls.len() > 0 {
        let a = ls[0];
        let r = ls.drop_first();
        assert(is_line(a));
        assert(a.last() == LINE_DELIMITER);
        lemma_units_of_line(a.drop_last());
        assert(is_line_split(r)) by {
            assert forall|i: int| 0 <= i < r.len() implies is_line(#[trigger] r[i]) && (i < r.len()
                - 1 ==> r[i].last() == LINE_DELIMITER) by {
                assert(r[i] == ls[i + 1]);
            }
        }
        if r.len() > 0 {
            assert(r.last() == ls.last());
        }
        lemma_units_of_lines(r);
        lemma_units_concat(CountModeEnum::Line, a, r.flatten());
    }
}

/// Counting lines on an input that ends with a delimiter, the range `-n:`
/// gives the last `n` lines of its cutting into lines, or all of them when
/// there are fewer than `n`.
pub proof fn law_trailing_lines_as_list(s: Seq<u8>, ls: Seq<Seq<u8>>, n: usize)
    requires
        is_line_split(ls),
        ls.flatten() == s,
        s.len() == 0 || s.last() == LINE_DELIMITER,
    ensures
        slice_of(SliceIdx::FromEnd(n), SliceIdx::FromEnd(0), CountModeEnum::Line, s) == ls.skip(
            if ls.len() > n {
                ls.len() - n
            } else {
                0
            },
        ).flatten(),
{
    let mode = CountModeEnum::Line;
    if ls.len() > 0 {
        let r = ls.drop_last();
        assert(ls =~= r.push(ls.last()));
        r.lemma_flatten_push(ls.last());
        assert(ls.last().len() > 0);
        assert(s.last() == ls.last().last());
    } else {
        assert(s =~= Seq::<u8>::empty());
    }
    lemma_units_of_lines(ls);
    law_trailing_units(n, mode, s);
    let lo = tail_start(mode, s, n as int);
    lemma_lines_between(ls, lo, ls.len() as int);
    assert(ls.subrange(lo, ls.len() as int) =~= ls.skip(lo));
    if units(mode, s) < n {
        assert(s.take(unit_start(mode, s, units(mode, s))) =~= s.subrange(
            0,
            unit_start(mode, s, units(mode, s)),
        ));
    }
}

} // verus!
