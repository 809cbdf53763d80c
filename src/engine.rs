//! The streaming slice engine: a state machine fed one byte at a time, which
//! keeps at most a trailing window of the input in memory.
use vstd::prelude::*;
use std::collections::VecDeque;
use crate::boundary::{SliceIdx, CountModeEnum, unit};
use crate::semantics::{
    units,
    sel,
    slice_of,
    skip_raw,
    tail_start,
    lemma_units_bounds,
    lemma_units_concat,
    lemma_units_front,
    lemma_sel_concat,
    lemma_sel_empty,
    lemma_sel_none_before,
    lemma_sel_all,
    lemma_sel_front,
};

verus! {

/// The bytes the engine has written once it has read the prefix `s`: all the
/// output known so far for a start-anchored start, nothing for an end-anchored
/// one (whose output waits for the end of the input).
pub open spec fn streamed(start: SliceIdx, end: SliceIdx, mode: CountModeEnum, s: Seq<u8>) -> Seq<
    u8,
> {
    match start {
        SliceIdx::FromStart(_) => slice_of(start, end, mode, s),
        SliceIdx::FromEnd(_) => Seq::empty(),
    }
}

/// Whether, after the prefix `s`, no further input can change the output:
/// both bounds count from the start, and the end bound is reached or lies
/// at or before the start bound.
pub open spec fn settled(start: SliceIdx, end: SliceIdx, mode: CountModeEnum, s: Seq<u8>) -> bool {
    match start {
        SliceIdx::FromStart(n) => match end {
            SliceIdx::FromStart(m) => n >= m || units(mode, s) >= m,
            SliceIdx::FromEnd(_) => false,
        },
        SliceIdx::FromEnd(_) => false,
    }
}

/// `e` is the first index of `s` from which at most `n` units remain.
pub open spec fn is_tail_cut(mode: CountModeEnum, s: Seq<u8>, e: int, n: int) -> bool {
    &&& 0 <= e <= s.len()
    &&& units(mode, s.skip(e)) <= n
    &&& e > 0 ==> units(mode, s.skip(e - 1)) > n
}

/// `window` is the shortest suffix of `r` holding at most `limit` units, and
/// `wu` counts its units.
pub open spec fn window_ok(
    mode: CountModeEnum,
    window: Seq<u8>,
    wu: int,
    r: Seq<u8>,
    limit: int,
) -> bool {
    &&& window.len() <= r.len()
    &&& window == r.skip(r.len() - window.len())
    &&& is_tail_cut(mode, r, r.len() - window.len(), limit)
    &&& wu == units(mode, window)
}

/// The units of a prefix and of the rest add up to those of the whole.
proof fn lemma_units_split(mode: CountModeEnum, s: Seq<u8>, e: int)
    requires
        0 <= e <= s.len(),
    ensures
        units(mode, s) == units(mode, s.take(e)) + units(mode, s.skip(e)),
{
    assert(s =~= s.take(e) + s.skip(e));
    lemma_units_concat(mode, s.take(e), s.skip(e));
}

/// Before the cut, the input is exactly what a start-anchored start with an
/// end-anchored end `m` selects.
proof fn lemma_cut_head(mode: CountModeEnum, r: Seq<u8>, e: int, m: int)
    requires
        is_tail_cut(mode, r, e, m),
    ensures
        sel(mode, r, 0, 0, units(mode, r) - m) == r.take(e),
{
    let hd = r.take(e);
    let tl = r.skip(e);
    assert(r =~= hd + tl);
    lemma_sel_concat(mode, hd, tl, 0, 0, units(mode, r) - m);
    lemma_units_split(mode, r, e);
    lemma_sel_empty(mode, tl, units(mode, hd), 0, units(mode, r) - m);
    if e > 0 {
        lemma_units_split(mode, r, e - 1);
        assert(hd.drop_last() =~= r.take(e - 1));
    }
    lemma_sel_all(mode, hd, 0, 0, units(mode, r) - m);
    assert(sel(mode, r, 0, 0, units(mode, r) - m) =~= r.take(e));
}

/// Past the cut, the window begins at the tail start, and what an
/// end-anchored start `n` selects lies in the window alone.
proof fn lemma_cut_tail(mode: CountModeEnum, s: Seq<u8>, e: int, n: int, hi: int)
    requires
        is_tail_cut(mode, s, e, n),
        n >= 0,
    ensures
        units(mode, s.take(e)) == tail_start(mode, s, n),
        sel(mode, s, 0, tail_start(mode, s, n), hi) == sel(
            mode,
            s.skip(e),
            tail_start(mode, s, n),
            tail_start(mode, s, n),
            hi,
        ),
{
    let hd = s.take(e);
    let tl = s.skip(e);
    let lo = tail_start(mode, s, n);
    lemma_units_split(mode, s, e);
    assert(s =~= hd + tl);
    if e == 0 {
        assert(units(mode, hd) == 0);
        assert(hd.len() == 0);
        assert(sel(mode, hd, 0, lo, hi) =~= Seq::<u8>::empty());
    } else {
        let t1 = s.skip(e - 1);
        lemma_units_front(mode, t1);
        assert(t1.skip(1) =~= tl);
        lemma_units_split(mode, s, e - 1);
        lemma_units_bounds(mode, hd);
        lemma_units_bounds(mode, s.take(e - 1));
        assert(hd.drop_last() =~= s.take(e - 1));
        lemma_sel_none_before(mode, hd, 0, lo, hi);
    }
    lemma_sel_concat(mode, hd, tl, 0, lo, hi);
    assert(sel(mode, s, 0, lo, hi) =~= sel(mode, tl, lo, lo, hi));
}

/// Whether unit position `cursor` lies before the end bound that `end`
/// resolves to, once the input has ended with a window that begins at unit
/// position `lo` and holds `wu` units (so that the input holds `lo + wu`).
fn below_end(end: SliceIdx, wu: usize, lo: usize, cursor: usize) -> (r: bool)
    requires
        lo <= cursor,
    ensures
        r == (cursor < match end {
            SliceIdx::FromStart(m) => m as int,
            SliceIdx::FromEnd(m) => lo + wu - m,
        }),
{
    match end {
        SliceIdx::FromStart(m) => cursor < m,
        SliceIdx::FromEnd(m) => m <= wu && cursor - lo < wu - m,
    }
}

/// Streaming state of one range over one input.
pub struct SliceStream {
    start: SliceIdx,
    end: SliceIdx,
    mode: CountModeEnum,
    /// Both bounds from the start: units read so far. Start from the start and
    /// end from the end: raw bytes skipped so far. Start from the end: units
    /// that left the window.
    pos: usize,
    window: VecDeque<u8>,
    window_units: usize,
    seen: Ghost<Seq<u8>>,
}

impl SliceStream {
    /// The start boundary of the range.
    pub closed spec fn range_start(&self) -> SliceIdx {
        self.start
    }

    /// The end boundary of the range.
    pub closed spec fn range_end(&self) -> SliceIdx {
        self.end
    }

    /// The counting mode.
    pub closed spec fn count_mode(&self) -> CountModeEnum {
        self.mode
    }

    /// The input read so far.
    pub closed spec fn seen(&self) -> Seq<u8> {
        self.seen@
    }

    /// Bytes of the input the engine has written so far.
    pub open spec fn written(&self) -> Seq<u8> {
        streamed(self.range_start(), self.range_end(), self.count_mode(), self.seen())
    }

    /// The state agrees with the input read so far.
    pub closed spec fn wf(&self) -> bool {
        let s = self.seen@;
        &&& s.len() <= usize::MAX
        &&& match self.start {
            SliceIdx::FromStart(n) => match self.end {
                SliceIdx::FromStart(m) => {
                    &&& self.pos == units(self.mode, s)
                    &&& self.window@.len() == 0
                },
                SliceIdx::FromEnd(m) => {
                    &&& self.pos <= n
                    &&& self.pos < n ==> s.len() == self.pos && self.window@.len() == 0
                        && self.window_units == 0
                    &&& self.pos == n ==> s.len() >= n && window_ok(
                        self.mode,
                        self.window@,
                        self.window_units as int,
                        s.skip(n as int),
                        m as int,
                    )
                },
            },
            SliceIdx::FromEnd(n) => {
                &&& window_ok(self.mode, self.window@, self.window_units as int, s, n as int)
                &&& self.pos == units(self.mode, s.take(s.len() - self.window@.len()))
            },
        }
    }

    /// A fresh state for the range `start:end`, before any input.
    pub fn new(start: SliceIdx, end: SliceIdx, mode: CountModeEnum) -> (r: SliceStream)
        ensures
            r.wf(),
            r.range_start() == start,
            r.range_end() == end,
            r.count_mode() == mode,
            r.seen() == Seq::<u8>::empty(),
    {
        let r = SliceStream {
            start,
            end,
            mode,
            pos: 0,
            window: VecDeque::new(),
            window_units: 0,
            seen: Ghost(Seq::empty()),
        };
        proof {
            let s = Seq::<u8>::empty();
            assert(s.skip(0) =~= s);
            assert(s.take(0) =~= s);
        }
        r
    }

    /// Pushes `c` onto the window of the suffix `r`, then takes bytes off its
    /// front while it holds more than `limit` units. Bytes taken off are
    /// written to `out` when `emit` holds; otherwise their units go to `pos`.
    fn slide(
        &mut self,
        c: u8,
        limit: usize,
        emit: bool,
        out: &mut Vec<u8>,
        r: Ghost<Seq<u8>>,
    )
        requires
            window_ok(
                old(self).mode,
                old(self).window@,
                old(self).window_units as int,
                r@,
                limit as int,
            ),
            r@.len() < usize::MAX,
            !emit ==> old(self).pos == units(
                old(self).mode,
                r@.take(r@.len() - old(self).window@.len()),
            ),
        ensures
            window_ok(
                final(self).mode,
                final(self).window@,
                final(self).window_units as int,
                r@.push(c),
                limit as int,
            ),
            final(self).start == old(self).start,
            final(self).end == old(self).end,
            final(self).mode == old(self).mode,
            final(self).seen == old(self).seen,
            final(self).window@.len() <= old(self).window@.len() + 1,
            emit ==> final(self).pos == old(self).pos,
            emit ==> final(out)@ == old(out)@ + r@.push(c).subrange(
                r@.len() - old(self).window@.len(),
                r@.len() + 1 - final(self).window@.len(),
            ),
            !emit ==> final(out)@ == old(out)@,
            !emit ==> final(self).pos == units(
                final(self).mode,
                r@.push(c).take(r@.len() + 1 - final(self).window@.len()),
            ),
    {
        let ghost r0 = r@;
        let ghost r1 = r@.push(c);
        let ghost e0 = r0.len() - self.window@.len();
        let ghost out0 = out@;
        proof {
            lemma_units_bounds(self.mode, r1);
            lemma_units_split(self.mode, r1, e0);
            lemma_units_bounds(self.mode, r1.take(e0));
            assert(r1.skip(e0) =~= self.window@.push(c));
            assert(self.window@.push(c).drop_last() =~= self.window@);
            if e0 > 0 {
                assert(r1.skip(e0 - 1) =~= r0.skip(e0 - 1).push(c));
                assert(r0.skip(e0 - 1).push(c).drop_last() =~= r0.skip(e0 - 1));
            }
            assert(r1.take(e0) =~= r0.take(e0));
        }
        self.window.push_back(c);
        self.window_units = self.window_units + self.mode.count(c);
        while self.window_units > limit
            invariant
                self.start == old(self).start,
                self.end == old(self).end,
                self.mode == old(self).mode,
                self.seen == old(self).seen,
                r1 == r@.push(c),
                self.window@.len() <= r1.len(),
                0 <= e0 <= r1.len() - self.window@.len(),
                self.window@ == r1.skip(r1.len() - self.window@.len()),
                self.window_units == units(self.mode, self.window@),
                r1.len() - self.window@.len() > 0 ==> units(
                    self.mode,
                    r1.skip(r1.len() - self.window@.len() - 1),
                ) > limit,
                units(self.mode, r1) <= usize::MAX,
                emit ==> self.pos == old(self).pos,
                emit ==> out@ == out0 + r1.subrange(e0, r1.len() - self.window@.len()),
                !emit ==> out@ == out0,
                !emit ==> self.pos == units(self.mode, r1.take(r1.len() - self.window@.len())),
            decreases self.window@.len(),
        {
            let ghost j = r1.len() - self.window@.len();
            proof {
                lemma_units_split(self.mode, r1, j);
                lemma_units_split(self.mode, r1, j + 1);
                lemma_units_bounds(self.mode, self.window@);
            }
            let front = self.window.pop_front().unwrap();
            proof {
                assert(front == r1[j]);
                lemma_units_front(self.mode, r1.skip(j));
                assert(r1.skip(j).skip(1) =~= r1.skip(j + 1));
                assert(r1.take(j + 1) =~= r1.take(j).push(front));
                assert(r1.take(j + 1).drop_last() =~= r1.take(j));
            }
            let v = self.mode.count(front);
            self.window_units = self.window_units - v;
            if emit {
                out.push(front);
                proof {
                    assert(r1.subrange(e0, j + 1) =~= r1.subrange(e0, j).push(front));
                }
            } else {
                self.pos = self.pos + v;
            }
        }
    }

    /// Reads the next input byte `c`, appending to `out` the bytes that
    /// become known to be part of the output.
    pub fn push(&mut self, c: u8, out: &mut Vec<u8>)
        requires
            old(self).wf(),
            old(self).seen().len() < usize::MAX,
        ensures
            final(self).wf(),
            final(self).range_start() == old(self).range_start(),
            final(self).range_end() == old(self).range_end(),
            final(self).count_mode() == old(self).count_mode(),
            final(self).seen() == old(self).seen().push(c),
            final(out)@.len() >= old(out)@.len(),
            final(out)@.take(old(out)@.len() as int) == old(out)@,
            final(self).written() == old(self).written() + final(out)@.skip(
                old(out)@.len() as int,
            ),
    {
        let ghost s0 = self.seen@;
        let ghost s1 = s0.push(c);
        let ghost out0 = out@;
        proof {
            assert(s1.drop_last() =~= s0);
            lemma_units_bounds(self.mode, s1);
        }
        match self.start {
            SliceIdx::FromStart(n) => match self.end {
                SliceIdx::FromStart(m) => {
                    if n <= self.pos && self.pos < m {
                        out.push(c);
                    }
                    self.pos = self.pos + self.mode.count(c);
                    self.seen = Ghost(s1);
                    proof {
                        assert(s1.last() == c);
                    }
                },
                SliceIdx::FromEnd(m) => {
                    if self.pos < n {
                        self.pos = self.pos + 1;
                        self.seen = Ghost(s1);
                        proof {
                            assert(skip_raw(s1, n as int) =~= Seq::<u8>::empty());
                            assert(skip_raw(s0, n as int) =~= Seq::<u8>::empty());
                            if self.pos == n {
                                let e = Seq::<u8>::empty();
                                assert(s1.skip(n as int) =~= e);
                                assert(e.skip(0) =~= e);
                                assert(self.window@ =~= e);
                                assert(units(self.mode, e) == 0);
                            }
                        }
                    } else {
                        let ghost r0 = s0.skip(n as int);
                        let ghost e0 = r0.len() - self.window@.len();
                        self.slide(c, m, true, out, Ghost(r0));
                        self.seen = Ghost(s1);
                        proof {
                            let r1 = r0.push(c);
                            let e1 = r1.len() - self.window@.len();
                            assert(s1.skip(n as int) =~= r1);
                            assert(skip_raw(s0, n as int) =~= r0);
                            assert(skip_raw(s1, n as int) =~= r1);
                            lemma_cut_head(self.mode, r0, e0, m as int);
                            lemma_cut_head(self.mode, r1, e1, m as int);
                            assert(r1.take(e1) =~= r0.take(e0) + r1.subrange(e0, e1));
                        }
                    }
                },
            },
            SliceIdx::FromEnd(n) => {
                self.slide(c, n, false, out, Ghost(s0));
                self.seen = Ghost(s1);
            },
        }
        proof {
            assert(out@.take(out0.len() as int) =~= out0);
        }
    }

    /// Whether the output is complete whatever input follows, so that
    /// reading may stop.
    pub fn is_done(&self) -> (r: bool)
        requires
            self.wf(),
        ensures
            r == settled(self.range_start(), self.range_end(), self.count_mode(), self.seen()),
            r ==> forall|ext: Seq<u8>|
                #[trigger] slice_of(
                    self.range_start(),
                    self.range_end(),
                    self.count_mode(),
                    self.seen() + ext,
                ) == self.written(),
    {
        match self.start {
            SliceIdx::FromStart(n) => match self.end {
                SliceIdx::FromStart(m) => {
                    let r = n >= m || self.pos >= m;
                    proof {
                        if r {
                            let s = self.seen@;
                            assert forall|ext: Seq<u8>|
                                #[trigger] slice_of(self.start, self.end, self.mode, s + ext)
                                    == self.written() by {
                                lemma_sel_concat(self.mode, s, ext, 0, n as int, m as int);
                                lemma_sel_empty(
                                    self.mode,
                                    ext,
                                    units(self.mode, s),
                                    n as int,
                                    m as int,
                                );
                                assert(sel(self.mode, s + ext, 0, n as int, m as int) =~= sel(
                                    self.mode,
                                    s,
                                    0,
                                    n as int,
                                    m as int,
                                ));
                            }
                        }
                    }
                    r
                },
                SliceIdx::FromEnd(_) => false,
            },
            SliceIdx::FromEnd(_) => false,
        }
    }

    /// Ends the input, appending to `out` the rest of the output.
    pub fn finish(self, out: &mut Vec<u8>)
        requires
            self.wf(),
        ensures
            final(out)@ == old(out)@ + slice_of(
                self.range_start(),
                self.range_end(),
                self.count_mode(),
                self.seen(),
            ).skip(self.written().len() as int),
    {
        let ghost out0 = out@;
        let ghost s = self.seen@;
        match self.start {
            SliceIdx::FromStart(_) => {
                proof {
                    let whole = slice_of(self.start, self.end, self.mode, s);
                    assert(whole.skip(whole.len() as int) =~= Seq::<u8>::empty());
                    assert(out0 + Seq::<u8>::empty() =~= out0);
                }
            },
            SliceIdx::FromEnd(n) => {
                let ghost w0 = self.window@;
                let ghost lo = tail_start(self.mode, s, n as int);
                let ghost hi = match self.end {
                    SliceIdx::FromStart(m) => m as int,
                    SliceIdx::FromEnd(m) => units(self.mode, s) - m,
                };
                proof {
                    lemma_cut_tail(self.mode, s, s.len() - w0.len(), n as int, hi);
                    lemma_units_bounds(self.mode, s);
                    lemma_units_split(self.mode, s, s.len() - w0.len());
                    assert(w0.take(0) =~= Seq::<u8>::empty());
                    assert(w0.skip(0) =~= w0);
                }
                let mode = self.mode;
                let end = self.end;
                let lo_x = self.pos;
                let wu = self.window_units;
                let mut window = self.window;
                let mut cursor: usize = self.pos;
                let mut go = below_end(end, wu, lo_x, cursor);
                while go && window.len() > 0
                    invariant
                        lo == lo_x as int,
                        lo_x <= cursor,
                        window@.len() <= w0.len(),
                        window@ == w0.skip(w0.len() - window@.len()),
                        out@ == out0 + w0.take(w0.len() - window@.len()),
                        cursor == lo + units(mode, w0.take(w0.len() - window@.len())),
                        lo + units(mode, w0) <= usize::MAX,
                        sel(mode, w0, lo, lo, hi) == w0.take(w0.len() - window@.len()) + sel(
                            mode,
                            window@,
                            cursor as int,
                            lo,
                            hi,
                        ),
                        go == (cursor < hi),
                        hi == match end {
                            SliceIdx::FromStart(m) => m as int,
                            SliceIdx::FromEnd(m) => lo + wu - m,
                        },
                    decreases window@.len(),
                {
                    let ghost k = w0.len() - window@.len();
                    proof {
                        lemma_sel_front(mode, window@, cursor as int, lo, hi);
                        lemma_units_split(mode, w0, k + 1);
                        lemma_units_bounds(mode, w0.skip(k + 1));
                    }
                    let c = window.pop_front().unwrap();
                    proof {
                        assert(c == w0[k]);
                        assert(w0.take(k + 1) =~= w0.take(k).push(c));
                        assert(w0.take(k + 1).drop_last() =~= w0.take(k));
                        assert(window@ =~= w0.skip(k + 1));
                        assert(w0.take(k) + (seq![c] + sel(
                            mode,
                            window@,
                            cursor + unit(mode, c),
                            lo,
                            hi,
                        )) =~= w0.take(k + 1) + sel(mode, window@, cursor + unit(mode, c), lo, hi));
                    }
                    out.push(c);
                    cursor = cursor + mode.count(c);
                    go = below_end(end, wu, lo_x, cursor);
                }
                proof {
                    if !go {
                        lemma_sel_empty(mode, window@, cursor as int, lo, hi);
                    } else {
                        assert(window@.len() == 0);
                        assert(sel(mode, window@, cursor as int, lo, hi) =~= Seq::<u8>::empty());
                    }
                    assert(w0.take(w0.len() - window@.len()) + Seq::<u8>::empty() =~= w0.take(
                        w0.len() - window@.len(),
                    ));
                    assert(slice_of(self.start, self.end, mode, s).skip(0) =~= slice_of(
                        self.start,
                        self.end,
                        mode,
                        s,
                    ));
                }
            },
        }
    }
}

} // verus!

verus! {

/// Runs the range `start:end` over the whole of `input`, reading no further
/// than the output needs.
pub fn slice_stream_wrapper(
    start: SliceIdx,
    end: SliceIdx,
    input: &[u8],
    mode: CountModeEnum,
) -> (r: Vec<u8>)
    ensures
        r@ == slice_of(start, end, mode, input@),
{
    let mut st = SliceStream::new(start, end, mode);
    let mut out: Vec<u8> = Vec::new();
    let mut k: usize = 0;
    let mut done = st.is_done();
    proof {
        assert(input@.take(0) =~= Seq::<u8>::empty());
    }
    while k < input.len() && !done
        invariant
            st.wf(),
            st.range_start() == start,
            st.range_end() == end,
            st.count_mode() == mode,
            k <= input@.len(),
            st.seen() == input@.take(k as int),
            out@ == st.written(),
            start is FromEnd ==> !done,
            done ==> forall|ext: Seq<u8>|
                #[trigger] slice_of(start, end, mode, st.seen() + ext) == st.written(),
        decreases input@.len() - k,
    {
        let ghost out0 = out@;
        st.push(input[k], &mut out);
        proof {
            assert(input@.take(k + 1) =~= input@.take(k as int).push(input@[k as int]));
            assert(out@ =~= out0 + out@.skip(out0.len() as int));
        }
        k = k + 1;
        done = st.is_done();
    }
    let ghost seen = st.seen();
    let ghost written = st.written();
    let ghost out0 = out@;
    st.finish(&mut out);
    proof {
        let rest = input@.skip(k as int);
        assert(input@ =~= seen + rest);
        if done {
            assert(slice_of(start, end, mode, seen + rest) == written);
        }
        if k == input@.len() {
            assert(seen =~= input@);
        }
        match start {
            SliceIdx::FromStart(_) => {
                let whole = slice_of(start, end, mode, seen);
                assert(whole.skip(whole.len() as int) =~= Seq::<u8>::empty());
                assert(out@ =~= written);
                if !done {
                    assert(k == input@.len());
                }
            },
            SliceIdx::FromEnd(_) => {
                assert(!done);
                assert(out@ =~= slice_of(start, end, mode, seen));
            },
        }
    }
    out
}

} // verus!
