//! Laws of the overlap step over whole streams of windows and timeouts.

use vstd::prelude::*;

use crate::steps::overlap::{
    lemma_gap_drain, lemma_halves_rejoin, overlap_drain, overlap_pull, pull_allowed, ready_view,
    wait_pull, StateView,
};
use crate::window::{first_half, second_half, zeros, Sample, Status, TimeWindow, WindowView};

verus! {

/// The time of the window that precedes the rest of a stream with no timeout
/// in between, if there is one
pub open spec fn pending_time(pending: Option<WindowView>) -> Option<u64> {
    match pending {
        Some(p) => Some(p.time),
        None => None,
    }
}

/// The state that holds the second half `pending` of a window, or the idle
/// state
pub open spec fn pending_state(pending: Option<WindowView>) -> StateView {
    match pending {
        Some(p) => StateView::Overlap { previous_half: p },
        None => StateView::Idle,
    }
}

/// `stream` holds windows of `2 * half` samples, and a window that directly
/// follows another (no timeout in between) is at least two half-windows later;
/// `prev` is the time of the window directly before the stream, if any
pub open spec fn separated_windows(half: nat, stream: Seq<Status<TimeWindow>>, prev: Option<u64>) -> bool
    decreases stream.len(),
{
    if stream.len() == 0 {
        true
    } else {
        match stream[0] {
            Status::Timeout => separated_windows(half, stream.drop_first(), None),
            Status::Ready(w) => {
                &&& w.samples@.len() == 2 * half
                &&& (prev matches Some(t) ==> w.time >= t + 2)
                &&& separated_windows(half, stream.drop_first(), Some(w.time))
            },
        }
    }
}

/// The windows of `stream`, concatenated, with `(d - 2) * half` zero samples
/// between two windows `d` half-windows apart that no timeout separates, and
/// nothing between windows that a timeout separates
pub open spec fn windows_with_gaps(half: nat, stream: Seq<Status<TimeWindow>>, prev: Option<u64>) -> Seq<
    Sample,
>
    decreases stream.len(),
{
    if stream.len() == 0 {
        seq![]
    } else {
        match stream[0] {
            Status::Timeout => windows_with_gaps(half, stream.drop_first(), None),
            Status::Ready(w) => {
                let gap = match prev {
                    Some(t) => zeros(((w.time - t - 2) * half) as nat),
                    None => seq![],
                };
                gap + w@.samples + windows_with_gaps(half, stream.drop_first(), Some(w.time))
            },
        }
    }
}

/// An upper bound on the calls of `Overlap::next` it takes to drain `stream`,
/// the last of them returning `None`
pub open spec fn drain_calls(stream: Seq<Status<TimeWindow>>, prev: Option<u64>) -> nat
    decreases stream.len(),
{
    if stream.len() == 0 {
        if prev is Some {
            2
        } else {
            1
        }
    } else {
        match stream[0] {
            Status::Timeout => (if prev is Some {
                1nat
            } else {
                0nat
            }) + drain_calls(stream.drop_first(), None),
            Status::Ready(w) => (match prev {
                Some(t) => (w.time - t) as nat,
                None => 1nat,
            }) + drain_calls(stream.drop_first(), Some(w.time)),
        }
    }
}

/// Waiting for a window takes no more items than the stream holds, and all
/// of them when no window comes
pub proof fn lemma_wait_pull_bounds(stream: Seq<Status<TimeWindow>>)
    ensures
        wait_pull(stream).0 <= stream.len(),
        wait_pull(stream).1 is None ==> wait_pull(stream).0 == stream.len(),
        wait_pull(stream).1 is Some ==> wait_pull(stream).0 >= 1,
    decreases stream.len(),
{
    if stream.len() > 0 {
        lemma_wait_pull_bounds(stream.drop_first());
    }
}

/// In the idle state a leading timeout changes nothing: it is skipped
proof fn lemma_idle_skips_timeout<F: Fn(Sample, Sample) -> Sample>(
    adder: F,
    window_size: nat,
    stream: Seq<Status<TimeWindow>>,
    calls: nat,
)
    requires
        stream.len() > 0,
        stream[0] is Timeout,
    ensures
        overlap_drain(adder, window_size, StateView::Idle, stream, calls) == overlap_drain(
            adder,
            window_size,
            StateView::Idle,
            stream.drop_first(),
            calls,
        ),
{
    let rest = stream.drop_first();
    if calls > 0 {
        let p = overlap_pull(adder, window_size, StateView::Idle, rest);
        lemma_wait_pull_bounds(rest);
        assert(wait_pull(stream) == (wait_pull(rest).0 + 1, wait_pull(rest).1));
        assert(overlap_pull(adder, window_size, StateView::Idle, stream) == (p.0 + 1, p.1, p.2));
        assert(stream.skip(p.0 + 1int) =~= rest.skip(p.0 as int));
    }
}

/// From the idle state, or with the second half `pending` of a window still to
/// come, draining a stream of separated windows produces that half and then
/// the windows with their gaps
proof fn lemma_drain_separated<F: Fn(Sample, Sample) -> Sample>(
    adder: F,
    window_size: nat,
    pending: Option<WindowView>,
    stream: Seq<Status<TimeWindow>>,
    calls: nat,
)
    requires
        separated_windows(window_size / 2, stream, pending_time(pending)),
        pending matches Some(p) ==> p.samples.len() == window_size / 2,
        calls >= drain_calls(stream, pending_time(pending)),
    ensures
        overlap_drain(adder, window_size, pending_state(pending), stream, calls) == (match pending {
            Some(p) => p.samples,
            None => Seq::empty(),
        }) + windows_with_gaps(window_size / 2, stream, pending_time(pending)),
    decreases stream.len(),
{
    let h = window_size / 2;
    let nothing = Seq::<Sample>::empty();
    let empty = Seq::<Status<TimeWindow>>::empty();
    let st = pending_state(pending);
    let prefix = match pending {
        Some(p) => p.samples,
        None => nothing,
    };
    assert(empty.skip(0) =~= empty);
    if stream.len() == 0 {
        assert(stream =~= empty);
        assert(overlap_drain(adder, window_size, StateView::Idle, empty, (calls - 1) as nat)
            == nothing);
        match pending {
            Some(p) => {
                assert(overlap_pull(adder, window_size, st, stream) == (
                    0nat,
                    StateView::Idle,
                    Some(p),
                ));
                assert(p.samples + nothing =~= p.samples);
            },
            None => {
                assert(overlap_drain(adder, window_size, st, empty, calls) == nothing);
            },
        }
        assert(prefix + nothing =~= prefix);
    } else {
        let rest = stream.drop_first();
        assert(stream.skip(1) =~= rest);
        match stream[0] {
            Status::Timeout => {
                lemma_drain_separated(adder, window_size, None, rest, (calls - (if pending is Some {
                    1nat
                } else {
                    0nat
                })) as nat);
                match pending {
                    Some(p) => {
                        assert(overlap_pull(adder, window_size, st, stream) == (
                            1nat,
                            StateView::Idle,
                            Some(p),
                        ));
                    },
                    None => {
                        lemma_idle_skips_timeout(adder, window_size, stream, calls);
                        assert(nothing + windows_with_gaps(h, rest, None) =~= windows_with_gaps(
                            h,
                            rest,
                            None,
                        ));
                    },
                }
            },
            Status::Ready(w) => {
                let after = StateView::Overlap { previous_half: second_half(w@) };
                lemma_halves_rejoin(w@);
                assert(second_half(w@).samples.len() == h);
                let tail = windows_with_gaps(h, rest, Some(w.time));
                match pending {
                    None => {
                        lemma_drain_separated(
                            adder,
                            window_size,
                            Some(second_half(w@)),
                            rest,
                            (calls - 1) as nat,
                        );
                        assert(wait_pull(stream) == (1nat, Some(w@)));
                        assert(overlap_pull(adder, window_size, st, stream) == (
                            1nat,
                            after,
                            Some(first_half(w@)),
                        ));
                        assert(first_half(w@).samples + (second_half(w@).samples + tail)
                            =~= nothing + (nothing + w@.samples + tail));
                    },
                    Some(p) => {
                        let d = w.time - p.time;
                        if d == 2 {
                            lemma_drain_separated(
                                adder,
                                window_size,
                                Some(second_half(w@)),
                                rest,
                                (calls - 1) as nat,
                            );
                            let joined = p.samples + first_half(w@).samples;
                            assert(overlap_pull(adder, window_size, st, stream) == (
                                1nat,
                                after,
                                Some(WindowView { time: p.time, samples: joined }),
                            ));
                            assert((w.time - p.time - 2) * h == 0) by (nonlinear_arith)
                                requires
                                    w.time - p.time == 2,
                            ;
                            assert(zeros(((w.time - p.time - 2) * h) as nat) =~= nothing);
                            assert(joined + (second_half(w@).samples + tail) =~= p.samples + (
                            zeros(((w.time - p.time - 2) * h) as nat) + w@.samples + tail));
                        } else {
                            let n = (d - 2) as u64;
                            let gap = StateView::Gap { remaining_half_windows: n, next_window: w@ };
                            assert(overlap_pull(adder, window_size, st, stream) == (
                                1nat,
                                gap,
                                Some(p),
                            ));
                            lemma_gap_drain(adder, window_size, n, w@, rest, (calls - 1) as nat);
                            lemma_drain_separated(
                                adder,
                                window_size,
                                Some(second_half(w@)),
                                rest,
                                (calls - 1 - n - 1) as nat,
                            );
                            let zs = zeros((n * h) as nat);
                            assert(p.samples + (zs + first_half(w@).samples + (second_half(
                                w@,
                            ).samples + tail)) =~= p.samples + (zs + w@.samples + tail));
                        }
                    },
                }
            },
        }
    }
}

/// Windows separated by timeouts, or at least two half-windows apart, come
/// out unchanged and in order: where no timeout separates two windows `d`
/// half-windows apart, `(d - 2) * window_size / 2` zero samples lie between
/// them; where a timeout does, nothing lies between them, whatever their
/// times
pub proof fn lemma_windows_with_timeouts<F: Fn(Sample, Sample) -> Sample>(
    adder: F,
    window_size: nat,
    stream: Seq<Status<TimeWindow>>,
    calls: nat,
)
    requires
        separated_windows(window_size / 2, stream, None),
        calls >= drain_calls(stream, None),
    ensures
        overlap_drain(adder, window_size, StateView::Idle, stream, calls) == windows_with_gaps(
            window_size / 2,
            stream,
            None,
        ),
{
    lemma_drain_separated(adder, window_size, None, stream, calls);
    assert(Seq::<Sample>::empty() + windows_with_gaps(window_size / 2, stream, None)
        =~= windows_with_gaps(window_size / 2, stream, None));
}

/// The half-windows that up to `calls` successive calls of `Overlap::next`
/// return, from state `state` with the items `stream` still to come; stops at
/// the first `None`
pub open spec fn overlap_halves<F: Fn(Sample, Sample) -> Sample>(
    adder: F,
    window_size: nat,
    state: StateView,
    stream: Seq<Status<TimeWindow>>,
    calls: nat,
) -> Seq<WindowView>
    decreases calls,
{
    if calls == 0 {
        seq![]
    } else {
        let pulled = overlap_pull(adder, window_size, state, stream);
        match pulled.2 {
            None => seq![],
            Some(w) => seq![w] + overlap_halves(
                adder,
                window_size,
                pulled.1,
                stream.skip(pulled.0 as int),
                (calls - 1) as nat,
            ),
        }
    }
}

/// Whether `stream` holds a window
pub open spec fn has_window(stream: Seq<Status<TimeWindow>>) -> bool {
    exists|i: int| 0 <= i < stream.len() && (#[trigger] stream[i]) is Ready
}

/// `stream` with only the timeouts that matter: one timeout between two
/// windows that at least one timeout separates, and none before the first
/// window, after the last, or in a run. `after_window` says whether the item
/// just before the stream is a window.
pub open spec fn separating_timeouts(stream: Seq<Status<TimeWindow>>, after_window: bool) -> Seq<
    Status<TimeWindow>,
>
    decreases stream.len(),
{
    if stream.len() == 0 {
        seq![]
    } else {
        let rest = stream.drop_first();
        match stream[0] {
            Status::Timeout => if after_window && has_window(rest) {
                seq![Status::Timeout] + separating_timeouts(rest, false)
            } else {
                separating_timeouts(rest, false)
            },
            Status::Ready(_) => seq![stream[0]] + separating_timeouts(rest, true),
        }
    }
}

/// A stream without windows keeps no timeout
proof fn lemma_no_window_no_timeouts(stream: Seq<Status<TimeWindow>>, after_window: bool)
    requires
        !has_window(stream),
    ensures
        separating_timeouts(stream, after_window) == Seq::<Status<TimeWindow>>::empty(),
    decreases stream.len(),
{
    if stream.len() > 0 {
        let rest = stream.drop_first();
        assert(!(stream[0] is Ready));
        assert(!has_window(rest)) by {
            if has_window(rest) {
                let i = choose|i: int| 0 <= i < rest.len() && (#[trigger] rest[i]) is Ready;
                assert(stream[i + 1] is Ready);
            }
        }
        lemma_no_window_no_timeouts(rest, false);
    }
}

/// From the idle state, waiting on a stream and on its separating timeouts
/// finds the same window, and leaves streams that again correspond
proof fn lemma_wait_separating(stream: Seq<Status<TimeWindow>>)
    ensures
        ({
            let kept = separating_timeouts(stream, false);
            let w1 = wait_pull(stream);
            let w2 = wait_pull(kept);
            &&& w1.1 == w2.1
            &&& w1.0 <= stream.len()
            &&& w2.0 <= kept.len()
            &&& separating_timeouts(stream.skip(w1.0 as int), w1.1 is Some) == kept.skip(w2.0 as int)
        }),
    decreases stream.len(),
{
    let kept = separating_timeouts(stream, false);
    let empty = Seq::<Status<TimeWindow>>::empty();
    if stream.len() == 0 {
        assert(kept =~= empty);
        assert(stream.skip(0) =~= stream);
        assert(empty.skip(0) =~= empty);
    } else {
        let rest = stream.drop_first();
        lemma_wait_separating(rest);
        match stream[0] {
            Status::Timeout => {
                let w = wait_pull(rest);
                assert(stream.skip(w.0 + 1int) =~= rest.skip(w.0 as int));
            },
            Status::Ready(_) => {
                assert(stream.skip(1) =~= rest);
                assert(kept.drop_first() =~= separating_timeouts(rest, true));
                assert(kept.skip(1) =~= separating_timeouts(rest, true));
            },
        }
    }
}

/// One call of `Overlap::next` gives the same result on a stream and on its
/// separating timeouts, and leaves streams that again correspond
proof fn lemma_step_separating<F: Fn(Sample, Sample) -> Sample>(
    adder: F,
    window_size: nat,
    state: StateView,
    stream: Seq<Status<TimeWindow>>,
)
    ensures
        ({
            let kept = separating_timeouts(stream, !(state is Idle));
            let p1 = overlap_pull(adder, window_size, state, stream);
            let p2 = overlap_pull(adder, window_size, state, kept);
            &&& p1.1 == p2.1
            &&& p1.2 == p2.2
            &&& p1.0 <= stream.len()
            &&& p2.0 <= kept.len()
            &&& separating_timeouts(stream.skip(p1.0 as int), !(p1.1 is Idle)) == kept.skip(
                p2.0 as int,
            )
        }),
{
    let kept = separating_timeouts(stream, !(state is Idle));
    let empty = Seq::<Status<TimeWindow>>::empty();
    assert(stream.skip(0) =~= stream);
    assert(kept.skip(0) =~= kept);
    match state {
        StateView::Idle => {
            lemma_wait_separating(stream);
        },
        StateView::Overlap { previous_half } => {
            if stream.len() == 0 {
                assert(kept =~= empty);
            } else {
                let rest = stream.drop_first();
                assert(stream.skip(1) =~= rest);
                match stream[0] {
                    Status::Timeout => {
                        if has_window(rest) {
                            assert(kept.drop_first() =~= separating_timeouts(rest, false));
                            assert(kept.skip(1) =~= separating_timeouts(rest, false));
                        } else {
                            lemma_no_window_no_timeouts(rest, false);
                            assert(kept =~= empty);
                        }
                    },
                    Status::Ready(_) => {
                        assert(kept.skip(1) =~= separating_timeouts(rest, true));
                    },
                }
            }
        },
        StateView::Gap { .. } => {},
    }
}

/// Successive calls of `Overlap::next` give the same half-windows on a stream
/// and on its separating timeouts
proof fn lemma_halves_separating<F: Fn(Sample, Sample) -> Sample>(
    adder: F,
    window_size: nat,
    state: StateView,
    stream: Seq<Status<TimeWindow>>,
    calls: nat,
)
    ensures
        overlap_halves(adder, window_size, state, stream, calls) == overlap_halves(
            adder,
            window_size,
            state,
            separating_timeouts(stream, !(state is Idle)),
            calls,
        ),
    decreases calls,
{
    if calls > 0 {
        let kept = separating_timeouts(stream, !(state is Idle));
        let p1 = overlap_pull(adder, window_size, state, stream);
        let p2 = overlap_pull(adder, window_size, state, kept);
        lemma_step_separating(adder, window_size, state, stream);
        lemma_halves_separating(
            adder,
            window_size,
            p1.1,
            stream.skip(p1.0 as int),
            (calls - 1) as nat,
        );
    }
}

/// Timeouts before the first window, after the last, and beyond the first of
/// a run have no effect: two sources with the same windows in the same order,
/// where a timeout lies between two consecutive windows in one exactly when
/// one lies between them in the other (the same separating timeouts), give
/// the same half-windows on every call
pub proof fn lemma_extra_timeouts_change_nothing<F: Fn(Sample, Sample) -> Sample>(
    adder: F,
    window_size: nat,
    stream1: Seq<Status<TimeWindow>>,
    stream2: Seq<Status<TimeWindow>>,
    calls: nat,
)
    requires
        separating_timeouts(stream1, false) == separating_timeouts(stream2, false),
    ensures
        overlap_halves(adder, window_size, StateView::Idle, stream1, calls) == overlap_halves(
            adder,
            window_size,
            StateView::Idle,
            stream2,
            calls,
        ),
{
    lemma_halves_separating(adder, window_size, StateView::Idle, stream1, calls);
    lemma_halves_separating(adder, window_size, StateView::Idle, stream2, calls);
}

/// The state and the items still to come after `calls` successive calls of
/// `Overlap::next`
pub open spec fn overlap_after<F: Fn(Sample, Sample) -> Sample>(
    adder: F,
    window_size: nat,
    state: StateView,
    stream: Seq<Status<TimeWindow>>,
    calls: nat,
) -> (StateView, Seq<Status<TimeWindow>>)
    decreases calls,
{
    if calls == 0 {
        (state, stream)
    } else {
        let pulled = overlap_pull(adder, window_size, state, stream);
        overlap_after(adder, window_size, pulled.1, stream.skip(pulled.0 as int), (calls - 1) as nat)
    }
}

/// Every window of `stream` has `window_size` samples, and a window that
/// directly follows another (no timeout in between) is later
pub open spec fn ordered_windows(window_size: nat, stream: Seq<Status<TimeWindow>>) -> bool {
    &&& forall|i: int|
        0 <= i < stream.len() && (#[trigger] stream[i]) is Ready ==> ready_view(
            stream[i],
        ).samples.len() == window_size
    &&& forall|i: int, j: int|
        0 <= i && j == i + 1 && j < stream.len() && (#[trigger] stream[i]) is Ready
            && (#[trigger] stream[j]) is Ready ==> ready_view(stream[i]).time < ready_view(
            stream[j],
        ).time
}

/// The window found by waiting is the last item taken
proof fn lemma_wait_pull_last(stream: Seq<Status<TimeWindow>>)
    ensures
        wait_pull(stream).1 matches Some(v) ==> {
            &&& 1 <= wait_pull(stream).0 <= stream.len()
            &&& stream[wait_pull(stream).0 - 1] is Ready
            &&& ready_view(stream[wait_pull(stream).0 - 1]) == v
        },
    decreases stream.len(),
{
    if stream.len() > 0 {
        let rest = stream.drop_first();
        lemma_wait_pull_last(rest);
    }
}

/// What remains of an ordered stream is ordered
proof fn lemma_ordered_skip(window_size: nat, stream: Seq<Status<TimeWindow>>, m: int)
    requires
        ordered_windows(window_size, stream),
        0 <= m <= stream.len(),
    ensures
        ordered_windows(window_size, stream.skip(m)),
{
    let rest = stream.skip(m);
    assert forall|i: int| 0 <= i < rest.len() && (#[trigger] rest[i]) is Ready implies ready_view(
        rest[i],
    ).samples.len() == window_size by {
        assert(rest[i] == stream[i + m]);
    }
    assert forall|i: int, j: int|
        0 <= i && j == i + 1 && j < rest.len() && (#[trigger] rest[i]) is Ready
            && (#[trigger] rest[j]) is Ready implies ready_view(rest[i]).time < ready_view(
        rest[j],
    ).time by {
        assert(rest[i] == stream[i + m]);
        assert(rest[j] == stream[j + m]);
    }
}

/// The states in which every call is allowed on an ordered stream of windows
/// of `2 * half` samples: a stored half has `half` samples and a stored
/// window `2 * half`, and a window that comes next is later than either
pub open spec fn steady(half: nat, state: StateView, stream: Seq<Status<TimeWindow>>) -> bool {
    &&& ordered_windows(2 * half, stream)
    &&& match state {
        StateView::Idle => true,
        StateView::Overlap { previous_half } => {
            &&& previous_half.samples.len() == half
            &&& stream.len() > 0 && stream[0] is Ready ==> ready_view(stream[0]).time
                > previous_half.time
        },
        StateView::Gap { next_window, .. } => {
            &&& next_window.samples.len() == 2 * half
            &&& stream.len() > 0 && stream[0] is Ready ==> ready_view(stream[0]).time
                > next_window.time
        },
    }
}

/// A steady state allows the next call and leads to a steady state
proof fn lemma_steady_step<F: Fn(Sample, Sample) -> Sample>(
    adder: F,
    window_size: nat,
    state: StateView,
    stream: Seq<Status<TimeWindow>>,
)
    requires
        window_size == 2 * (window_size / 2),
        steady(window_size / 2, state, stream),
    ensures
        pull_allowed(state, stream),
        ({
            let pulled = overlap_pull(adder, window_size, state, stream);
            &&& pulled.0 <= stream.len()
            &&& steady(window_size / 2, pulled.1, stream.skip(pulled.0 as int))
        }),
{
    let h = window_size / 2;
    let pulled = overlap_pull(adder, window_size, state, stream);
    assert(stream.skip(0) =~= stream);
    if stream.len() > 0 && stream[0] is Ready {
        assert(ready_view(stream[0]).samples.len() == 2 * h);
    }
    match state {
        StateView::Idle => {
            lemma_wait_pull_bounds(stream);
            lemma_wait_pull_last(stream);
            let w = wait_pull(stream);
            lemma_ordered_skip(2 * h, stream, w.0 as int);
            if let Some(v) = w.1 {
                let k = w.0 - 1;
                assert(ready_view(stream[k]).samples.len() == 2 * h);
                if w.0 < stream.len() && stream.skip(w.0 as int)[0] is Ready {
                    assert(stream.skip(w.0 as int)[0] == stream[k + 1]);
                    assert(ready_view(stream[k]).time < ready_view(stream[k + 1]).time);
                }
            }
        },
        StateView::Overlap { previous_half } => {
            if stream.len() > 0 {
                lemma_ordered_skip(2 * h, stream, 1);
                if stream.len() > 1 && stream.skip(1)[0] is Ready && stream[0] is Ready {
                    assert(stream.skip(1)[0] == stream[1]);
                    assert(ready_view(stream[0]).time < ready_view(stream[1]).time);
                }
            }
        },
        StateView::Gap { .. } => {},
    }
}

/// On a source whose windows all have `window_size` samples (an even number)
/// and whose windows are each later than a window directly before them, every
/// call of `Overlap::next` from the start is allowed: the step never meets a
/// window that is not later than the stored half, nor an overlap of halves of
/// different lengths
pub proof fn lemma_every_call_allowed<F: Fn(Sample, Sample) -> Sample>(
    adder: F,
    window_size: nat,
    stream: Seq<Status<TimeWindow>>,
    calls: nat,
)
    requires
        window_size == 2 * (window_size / 2),
        ordered_windows(window_size, stream),
    ensures
        ({
            let reached = overlap_after(adder, window_size, StateView::Idle, stream, calls);
            &&& pull_allowed(reached.0, reached.1)
            &&& steady(window_size / 2, reached.0, reached.1)
        }),
    decreases calls,
{
    if calls == 0 {
        lemma_steady_step(adder, window_size, StateView::Idle, stream);
    } else {
        lemma_every_call_allowed(adder, window_size, stream, (calls - 1) as nat);
        let before = overlap_after(adder, window_size, StateView::Idle, stream, (calls - 1) as nat);
        lemma_steady_step(adder, window_size, before.0, before.1);
        lemma_after_last(adder, window_size, StateView::Idle, stream, (calls - 1) as nat);
        let pulled = overlap_pull(adder, window_size, before.0, before.1);
        lemma_steady_step(adder, window_size, pulled.1, before.1.skip(pulled.0 as int));
    }
}

/// One more call after `calls` calls is one step from where they left off
proof fn lemma_after_last<F: Fn(Sample, Sample) -> Sample>(
    adder: F,
    window_size: nat,
    state: StateView,
    stream: Seq<Status<TimeWindow>>,
    calls: nat,
)
    ensures
        ({
            let before = overlap_after(adder, window_size, state, stream, calls);
            let pulled = overlap_pull(adder, window_size, before.0, before.1);
            overlap_after(adder, window_size, state, stream, calls + 1) == (
                pulled.1,
                before.1.skip(pulled.0 as int),
            )
        }),
    decreases calls,
{
    let pulled = overlap_pull(adder, window_size, state, stream);
    let next = stream.skip(pulled.0 as int);
    if calls > 0 {
        lemma_after_last(adder, window_size, pulled.1, next, (calls - 1) as nat);
        assert(overlap_after(adder, window_size, state, stream, calls + 1) == overlap_after(
            adder,
            window_size,
            pulled.1,
            next,
            calls,
        ));
    } else {
        assert(overlap_after(adder, window_size, pulled.1, next, 0) == (pulled.1, next));
    }
}

/// Once `Overlap::next` returns `None` (with the source obeying the iterator
/// laws), it is idle with nothing left to take, and every later call returns
/// `None` again
pub proof fn lemma_exhausted_stays<F: Fn(Sample, Sample) -> Sample>(
    adder: F,
    window_size: nat,
    state: StateView,
    stream: Seq<Status<TimeWindow>>,
)
    requires
        overlap_pull(adder, window_size, state, stream).2 is None,
    ensures
        ({
            let pulled = overlap_pull(adder, window_size, state, stream);
            let left = stream.skip(pulled.0 as int);
            &&& pulled.1 is Idle
            &&& left.len() == 0
            &&& overlap_pull(adder, window_size, pulled.1, left) == (0nat, StateView::Idle, None::<
                WindowView,
            >)
        }),
{
    lemma_wait_pull_bounds(stream);
    let pulled = overlap_pull(adder, window_size, state, stream);
    let left = stream.skip(pulled.0 as int);
    assert(left.len() == 0);
    assert(left =~= Seq::<Status<TimeWindow>>::empty());
}

} // verus!
