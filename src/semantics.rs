//! The meaning of a range over a whole input, and the facts about it that
//! the engine and the laws rest on.
use vstd::prelude::*;
use crate::boundary::{SliceIdx, CountModeEnum, unit};

verus! {

/// Units completed by the bytes of `s`.
pub open spec fn units(mode: CountModeEnum, s: Seq<u8>) -> int
    decreases s.len(),
{
    if s.len() == 0 {
        0
    } else {
        units(mode, s.drop_last()) + unit(mode, s.last())
    }
}

/// The bytes of `s` whose unit position lies in `[lo, hi)`, in order. The
/// first byte of `s` stands at position `p`; every other byte stands at `p`
/// plus the units completed by the bytes before it.
pub open spec fn sel(mode: CountModeEnum, s: Seq<u8>, p: int, lo: int, hi: int) -> Seq<u8>
    decreases s.len(),
{
    if s.len() == 0 {
        Seq::empty()
    } else {
        let q = p + units(mode, s.drop_last());
        sel(mode, s.drop_last(), p, lo, hi) + if lo <= q && q < hi {
            seq![s.last()]
        } else {
            Seq::empty()
        }
    }
}

/// What is left of `s` once its first `n` bytes are skipped.
pub open spec fn skip_raw(s: Seq<u8>, n: int) -> Seq<u8> {
    if s.len() <= n {
        Seq::empty()
    } else {
        s.skip(n)
    }
}

/// Unit position at which the last `n` units of `s` begin (0 when `s` has
/// fewer than `n` units).
pub open spec fn tail_start(mode: CountModeEnum, s: Seq<u8>, n: int) -> int {
    if units(mode, s) > n {
        units(mode, s) - n
    } else {
        0
    }
}

/// A range resolved against the whole input `s`: the bytes it is counted
/// over, and the bounds `[lo, hi)` of the unit positions it selects there.
/// With a start-anchored start and an end-anchored end, the start offset
/// skips raw bytes, whatever the counting mode.
pub open spec fn resolve(start: SliceIdx, end: SliceIdx, mode: CountModeEnum, s: Seq<u8>) -> (
    Seq<u8>,
    int,
    int,
) {
    match start {
        SliceIdx::FromStart(n) => match end {
            SliceIdx::FromStart(m) => (s, n as int, m as int),
            SliceIdx::FromEnd(m) => {
                let r = skip_raw(s, n as int);
                (r, 0, units(mode, r) - m)
            },
        },
        SliceIdx::FromEnd(n) => {
            let lo = tail_start(mode, s, n as int);
            match end {
                SliceIdx::FromStart(m) => (s, lo, m as int),
                SliceIdx::FromEnd(m) => (s, lo, units(mode, s) - m),
            }
        },
    }
}

/// The output of the range `start:end` on the whole input `s`.
pub open spec fn slice_of(start: SliceIdx, end: SliceIdx, mode: CountModeEnum, s: Seq<u8>) -> Seq<
    u8,
> {
    let (w, lo, hi) = resolve(start, end, mode, s);
    sel(mode, w, 0, lo, hi)
}

pub proof fn lemma_units_bounds(mode: CountModeEnum, s: Seq<u8>)
    ensures
        0 <= units(mode, s) <= s.len(),
        mode == CountModeEnum::Byte ==> units(mode, s) == s.len(),
    decreases s.len(),
{
    if s.len() > 0 {
        lemma_units_bounds(mode, s.drop_last());
    }
}

pub proof fn lemma_units_concat(mode: CountModeEnum, a: Seq<u8>, b: Seq<u8>)
    ensures
        units(mode, a + b) == units(mode, a) + units(mode, b),
    decreases b.len(),
{
    if b.len() == 0 {
        assert(a + b =~= a);
    } else {
        assert((a + b).drop_last() =~= a + b.drop_last());
        lemma_units_concat(mode, a, b.drop_last());
    }
}

/// The units of `s` are those of its first byte and those of the rest.
pub proof fn lemma_units_front(mode: CountModeEnum, s: Seq<u8>)
    requires
        s.len() > 0,
    ensures
        units(mode, s) == unit(mode, s[0]) + units(mode, s.skip(1)),
{
    assert(s =~= s.take(1) + s.skip(1));
    lemma_units_concat(mode, s.take(1), s.skip(1));
    assert(s.take(1).drop_last() =~= Seq::<u8>::empty());
    assert(units(mode, s.take(1).drop_last()) == 0);
    assert(s.take(1).last() == s[0]);
}

pub proof fn lemma_sel_concat(
    mode: CountModeEnum,
    a: Seq<u8>,
    b: Seq<u8>,
    p: int,
    lo: int,
    hi: int,
)
    ensures
        sel(mode, a + b, p, lo, hi) == sel(mode, a, p, lo, hi) + sel(
            mode,
            b,
            p + units(mode, a),
            lo,
            hi,
        ),
    decreases b.len(),
{
    if b.len() == 0 {
        assert(a + b =~= a);
        assert(sel(mode, a, p, lo, hi) + sel(mode, b, p + units(mode, a), lo, hi) =~= sel(
            mode,
            a,
            p,
            lo,
            hi,
        ));
    } else {
        assert((a + b).drop_last() =~= a + b.drop_last());
        lemma_sel_concat(mode, a, b.drop_last(), p, lo, hi);
        lemma_units_concat(mode, a, b.drop_last());
        assert(sel(mode, a + b, p, lo, hi) =~= sel(mode, a, p, lo, hi) + sel(
            mode,
            b,
            p + units(mode, a),
            lo,
            hi,
        ));
    }
}

/// Nothing is selected when every position is at or past `hi`, or when the
/// bounds are empty.
pub proof fn lemma_sel_empty(mode: CountModeEnum, s: Seq<u8>, p: int, lo: int, hi: int)
    requires
        hi <= p || hi <= lo,
    ensures
        sel(mode, s, p, lo, hi) == Seq::<u8>::empty(),
    decreases s.len(),
{
    if s.len() > 0 {
        lemma_units_bounds(mode, s.drop_last());
        lemma_sel_empty(mode, s.drop_last(), p, lo, hi);
        assert(sel(mode, s, p, lo, hi) =~= Seq::<u8>::empty());
    }
}

/// Nothing is selected when the last byte stands before `lo`.
pub proof fn lemma_sel_none_before(mode: CountModeEnum, s: Seq<u8>, p: int, lo: int, hi: int)
    requires
        s.len() > 0 ==> p + units(mode, s.drop_last()) < lo,
    ensures
        sel(mode, s, p, lo, hi) == Seq::<u8>::empty(),
    decreases s.len(),
{
    if s.len() > 0 {
        let d = s.drop_last();
        if d.len() > 0 {
            lemma_units_bounds(mode, seq![d.last()]);
            assert(d =~= d.drop_last() + seq![d.last()]);
            lemma_units_concat(mode, d.drop_last(), seq![d.last()]);
        }
        lemma_sel_none_before(mode, d, p, lo, hi);
        assert(sel(mode, s, p, lo, hi) =~= Seq::<u8>::empty());
    }
}

/// Everything is selected when the first byte is at or past `lo` and the
/// last byte stands before `hi`.
pub proof fn lemma_sel_all(mode: CountModeEnum, s: Seq<u8>, p: int, lo: int, hi: int)
    requires
        lo <= p,
        s.len() > 0 ==> p + units(mode, s.drop_last()) < hi,
    ensures
        sel(mode, s, p, lo, hi) == s,
    decreases s.len(),
{
    if s.len() > 0 {
        let d = s.drop_last();
        lemma_units_bounds(mode, d);
        if d.len() > 0 {
            lemma_units_bounds(mode, seq![d.last()]);
            assert(d =~= d.drop_last() + seq![d.last()]);
            lemma_units_concat(mode, d.drop_last(), seq![d.last()]);
        }
        lemma_sel_all(mode, d, p, lo, hi);
        assert(sel(mode, s, p, lo, hi) =~= s);
    }
}

/// The selection seen from the front: the first byte, then the rest.
pub proof fn lemma_sel_front(mode: CountModeEnum, s: Seq<u8>, p: int, lo: int, hi: int)
    requires
        s.len() > 0,
    ensures
        sel(mode, s, p, lo, hi) == (if lo <= p && p < hi {
            seq![s[0]]
        } else {
            Seq::<u8>::empty()
        }) + sel(mode, s.skip(1), p + unit(mode, s[0]), lo, hi),
{
    assert(s =~= s.take(1) + s.skip(1));
    lemma_sel_concat(mode, s.take(1), s.skip(1), p, lo, hi);
    assert(s.take(1).drop_last() =~= Seq::<u8>::empty());
    assert(sel(mode, s.take(1).drop_last(), p, lo, hi) =~= Seq::<u8>::empty());
    if lo <= p && p < hi {
        assert(sel(mode, s.take(1), p, lo, hi) =~= seq![s[0]]);
    } else {
        assert(sel(mode, s.take(1), p, lo, hi) =~= Seq::<u8>::empty());
    }
}

/// Clamps `x` into `[0, len]`.
pub open spec fn clamp(x: int, len: int) -> int {
    if x < 0 {
        0
    } else if x > len {
        len
    } else {
        x
    }
}

/// Counting bytes, a selection is a plain substring.
pub proof fn lemma_sel_bytes(s: Seq<u8>, p: int, lo: int, hi: int)
    ensures
        sel(CountModeEnum::Byte, s, p, lo, hi) == (if clamp(lo - p, s.len() as int) < clamp(
            hi - p,
            s.len() as int,
        ) {
            s.subrange(clamp(lo - p, s.len() as int), clamp(hi - p, s.len() as int))
        } else {
            Seq::<u8>::empty()
        }),
    decreases s.len(),
{
    if s.len() > 0 {
        let d = s.drop_last();
        lemma_units_bounds(CountModeEnum::Byte, d);
        lemma_sel_bytes(d, p, lo, hi);
        let a = clamp(lo - p, s.len() as int);
        let b = clamp(hi - p, s.len() as int);
        if a < b {
            assert(sel(CountModeEnum::Byte, s, p, lo, hi) =~= s.subrange(a, b));
        } else {
            assert(sel(CountModeEnum::Byte, s, p, lo, hi) =~= Seq::<u8>::empty());
        }
    }
}

} // verus!
