//! A device as a step from frame to frame.
//!
//! A device that works one frame at a time is a step, which takes its state
//! and a frame to its state, and an output, which takes them to a frame. What
//! it makes of a range is the fold of the two, stated here once.

use vstd::prelude::*;

verus! {

/// The state after `count` frames of `l` and `r` from `start` on.
pub open spec fn after_frames<E, S>(
    step: spec_fn(E, S, S) -> E,
    state: E,
    l: Seq<S>,
    r: Seq<S>,
    start: int,
    count: int,
) -> E
    decreases count,
{
    if count <= 0 {
        state
    } else {
        step(
            after_frames(step, state, l, r, start, count - 1),
            l[start + count - 1],
            r[start + count - 1],
        )
    }
}

/// The left channel with `start..end` rendered.
pub open spec fn left_of<E, S>(
    step: spec_fn(E, S, S) -> E,
    out: spec_fn(E, S, S) -> (S, S),
    state: E,
    l: Seq<S>,
    r: Seq<S>,
    start: int,
    end: int,
) -> Seq<S> {
    Seq::new(
        l.len(),
        |i: int|
            if start <= i < end {
                out(after_frames(step, state, l, r, start, i - start), l[i], r[i]).0
            } else {
                l[i]
            },
    )
}

/// The right channel with `start..end` rendered.
pub open spec fn right_of<E, S>(
    step: spec_fn(E, S, S) -> E,
    out: spec_fn(E, S, S) -> (S, S),
    state: E,
    l: Seq<S>,
    r: Seq<S>,
    start: int,
    end: int,
) -> Seq<S> {
    Seq::new(
        r.len(),
        |i: int|
            if start <= i < end {
                out(after_frames(step, state, l, r, start, i - start), l[i], r[i]).1
            } else {
                r[i]
            },
    )
}

/// Before the first frame nothing is rendered.
pub proof fn lemma_nothing_rendered<E, S>(
    step: spec_fn(E, S, S) -> E,
    out: spec_fn(E, S, S) -> (S, S),
    state: E,
    l: Seq<S>,
    r: Seq<S>,
    start: int,
)
    ensures
        left_of(step, out, state, l, r, start, start) == l,
        right_of(step, out, state, l, r, start, start) == r,
{
    assert(left_of(step, out, state, l, r, start, start) =~= l);
    assert(right_of(step, out, state, l, r, start, start) =~= r);
}

/// One more frame.
pub proof fn lemma_frame_rendered<E, S>(
    step: spec_fn(E, S, S) -> E,
    out: spec_fn(E, S, S) -> (S, S),
    state: E,
    l: Seq<S>,
    r: Seq<S>,
    start: int,
    at: int,
)
    requires
        0 <= start <= at < l.len(),
        l.len() == r.len(),
    ensures
        ({
            let here = after_frames(step, state, l, r, start, at - start);
            let done_l = left_of(step, out, state, l, r, start, at);
            let done_r = right_of(step, out, state, l, r, start, at);
            &&& done_l.len() == l.len()
            &&& done_r.len() == r.len()
            &&& done_l[at] == l[at]
            &&& done_r[at] == r[at]
            &&& after_frames(step, state, l, r, start, at + 1 - start) == step(here, l[at], r[at])
            &&& left_of(step, out, state, l, r, start, at + 1) == done_l.update(
                at,
                out(here, l[at], r[at]).0,
            )
            &&& right_of(step, out, state, l, r, start, at + 1) == done_r.update(
                at,
                out(here, l[at], r[at]).1,
            )
        }),
{
    let here = after_frames(step, state, l, r, start, at - start);
    assert(left_of(step, out, state, l, r, start, at + 1) =~= left_of(
        step,
        out,
        state,
        l,
        r,
        start,
        at,
    ).update(at, out(here, l[at], r[at]).0));
    assert(right_of(step, out, state, l, r, start, at + 1) =~= right_of(
        step,
        out,
        state,
        l,
        r,
        start,
        at,
    ).update(at, out(here, l[at], r[at]).1));
}

/// A device reads only the frames it renders.
pub proof fn lemma_reads_its_frames<E, S>(
    step: spec_fn(E, S, S) -> E,
    state: E,
    l: Seq<S>,
    r: Seq<S>,
    other_l: Seq<S>,
    other_r: Seq<S>,
    start: int,
    count: int,
)
    requires
        0 <= count,
        forall|i: int| start <= i < start + count ==> #[trigger] l[i] == other_l[i],
        forall|i: int| start <= i < start + count ==> #[trigger] r[i] == other_r[i],
    ensures
        after_frames(step, state, l, r, start, count) == after_frames(
            step,
            state,
            other_l,
            other_r,
            start,
            count,
        ),
    decreases count,
{
    if count > 0 {
        lemma_reads_its_frames(step, state, l, r, other_l, other_r, start, count - 1);
        assert(l[start + count - 1] == other_l[start + count - 1]);
        assert(r[start + count - 1] == other_r[start + count - 1]);
    }
}

/// However a range is cut, a device that is a step ends it in the same state.
pub proof fn frames_in_pieces_are_frames<E, S>(
    step: spec_fn(E, S, S) -> E,
    state: E,
    l: Seq<S>,
    r: Seq<S>,
    start: int,
    first: int,
    second: int,
)
    requires
        0 <= first,
        0 <= second,
    ensures
        after_frames(step, state, l, r, start, first + second) == after_frames(
            step,
            after_frames(step, state, l, r, start, first),
            l,
            r,
            start + first,
            second,
        ),
    decreases second,
{
    if second > 0 {
        frames_in_pieces_are_frames(step, state, l, r, start, first, second - 1);
    }
}

/// However a range is cut, a device that is a step leaves the same audio in
/// it: rendering does not depend on where the host or an event splits a block.
pub proof fn rendering_in_pieces_is_rendering<E, S>(
    step: spec_fn(E, S, S) -> E,
    out: spec_fn(E, S, S) -> (S, S),
    state: E,
    l: Seq<S>,
    r: Seq<S>,
    start: int,
    middle: int,
    end: int,
)
    requires
        0 <= start <= middle <= end <= l.len(),
        l.len() == r.len(),
    ensures
        ({
            let half_l = left_of(step, out, state, l, r, start, middle);
            let half_r = right_of(step, out, state, l, r, start, middle);
            let half = after_frames(step, state, l, r, start, middle - start);
            &&& left_of(step, out, half, half_l, half_r, middle, end) == left_of(
                step,
                out,
                state,
                l,
                r,
                start,
                end,
            )
            &&& right_of(step, out, half, half_l, half_r, middle, end) == right_of(
                step,
                out,
                state,
                l,
                r,
                start,
                end,
            )
            &&& after_frames(step, half, half_l, half_r, middle, end - middle) == after_frames(
                step,
                state,
                l,
                r,
                start,
                end - start,
            )
        }),
{
    let half_l = left_of(step, out, state, l, r, start, middle);
    let half_r = right_of(step, out, state, l, r, start, middle);
    let half = after_frames(step, state, l, r, start, middle - start);
    assert forall|count: int| 0 <= count <= end - middle implies #[trigger] after_frames(
        step,
        half,
        half_l,
        half_r,
        middle,
        count,
    ) == after_frames(step, state, l, r, start, middle - start + count) by {
        lemma_reads_its_frames(step, half, half_l, half_r, l, r, middle, count);
        frames_in_pieces_are_frames(step, state, l, r, start, middle - start, count);
    }
    assert(left_of(step, out, half, half_l, half_r, middle, end) =~= left_of(
        step,
        out,
        state,
        l,
        r,
        start,
        end,
    ));
    assert(right_of(step, out, half, half_l, half_r, middle, end) =~= right_of(
        step,
        out,
        state,
        l,
        r,
        start,
        end,
    ));
    assert(after_frames(step, half, half_l, half_r, middle, end - middle) == after_frames(
        step,
        state,
        l,
        r,
        start,
        middle - start + (end - middle),
    ));
}

} // verus!
