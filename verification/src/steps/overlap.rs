//! The overlap step

use vstd::prelude::*;
use vstd::std_specs::iter::IteratorSpec;

use crate::window::{first_half, second_half, zeros, Sample, Status, TimeWindow, WindowView};

verus! {

/// The sample that `adder` returns for `a` and `b`
pub open spec fn sum_of<F: Fn(Sample, Sample) -> Sample>(adder: F, a: Sample, b: Sample) -> Sample {
    choose|r: Sample| call_ensures(adder, (a, b), r)
}

/// `adder` can be called on any two samples and always gives the same result
/// for the same samples
pub open spec fn adder_ok<F: Fn(Sample, Sample) -> Sample>(adder: F) -> bool {
    &&& forall|a: Sample, b: Sample| #[trigger] call_requires(adder, (a, b))
    &&& forall|a: Sample, b: Sample, r: Sample|
        #[trigger] call_ensures(adder, (a, b), r) ==> r == sum_of(adder, a, b)
}

/// Element-wise sums of `a` with the first `a.len()` samples of `b`
pub open spec fn overlap_sum<F: Fn(Sample, Sample) -> Sample>(
    adder: F,
    a: Seq<Sample>,
    b: Seq<Sample>,
) -> Seq<Sample> {
    Seq::new(a.len(), |i: int| sum_of(adder, a[i], b[i]))
}

/// Modifies `first_second_half` by adding to each element the corresponding value from the first
/// half of `second`
pub fn overlap_windows<F: Fn(Sample, Sample) -> Sample>(
    first_second_half: &mut TimeWindow,
    second: &TimeWindow,
    adder: &F,
)
    requires
        old(first_second_half).samples@.len() == second.samples@.len() / 2,
        adder_ok(*adder),
    ensures
        final(first_second_half).time == old(first_second_half).time,
        final(first_second_half).samples@ == overlap_sum(
            *adder,
            old(first_second_half).samples@,
            second.samples@,
        ),
        final(first_second_half).samples@.len() == old(first_second_half).samples@.len(),
        forall|i: int|
            0 <= i < old(first_second_half).samples@.len() ==> #[trigger] final(first_second_half).samples@[i]
                == sum_of(*adder, old(first_second_half).samples@[i], second.samples@[i]),
{
    let n = first_second_half.samples.len();
    let mut i: usize = 0;
    while i < n
        invariant
            n == first_second_half.samples@.len(),
            n == old(first_second_half).samples@.len(),
            n <= second.samples@.len(),
            adder_ok(*adder),
            first_second_half.time == old(first_second_half).time,
            i <= n,
            forall|j: int|
                0 <= j < i ==> #[trigger] first_second_half.samples@[j] == sum_of(
                    *adder,
                    old(first_second_half).samples@[j],
                    second.samples@[j],
                ),
            forall|j: int|
                i <= j < n ==> #[trigger] first_second_half.samples@[j]
                    == old(first_second_half).samples@[j],
        decreases n - i,
    {
        let v = adder(first_second_half.samples[i], second.samples[i]);
        first_second_half.samples[i] = v;
        i = i + 1;
    }
    assert(first_second_half.samples@ =~= overlap_sum(
        *adder,
        old(first_second_half).samples@,
        second.samples@,
    ));
}

/// Overlap states
pub enum State {
    /// Nothing happening
    Idle,
    /// Producing a gap between windows
    Gap {
        /// Number of half-windows to produce before the next window (may be zero)
        remaining_half_windows: u64,
        /// The next data window (full-length)
        next_window: TimeWindow,
    },
    /// Producing overlapped windows
    Overlap {
        /// The second half of the previous window (the first half has already been produced)
        previous_half: TimeWindow,
    },
}

/// The mathematical content of a `State`
pub enum StateView {
    Idle,
    Gap { remaining_half_windows: u64, next_window: WindowView },
    Overlap { previous_half: WindowView },
}

impl View for State {
    type V = StateView;

    open spec fn view(&self) -> StateView {
        match self {
            State::Idle => StateView::Idle,
            State::Gap { remaining_half_windows, next_window } => StateView::Gap {
                remaining_half_windows: *remaining_half_windows,
                next_window: next_window@,
            },
            State::Overlap { previous_half } => StateView::Overlap { previous_half: previous_half@ },
        }
    }
}

/// What waiting for a window does with the items `stream` that the source
/// will produce: timeouts are skipped, and the first window (or the end of the
/// stream) ends the wait. Gives the number of items taken and the window.
pub open spec fn wait_pull(stream: Seq<Status<TimeWindow>>) -> (nat, Option<WindowView>)
    decreases stream.len(),
{
    if stream.len() == 0 {
        (0, None)
    } else {
        match stream[0] {
            Status::Timeout => {
                let rest = wait_pull(stream.drop_first());
                (rest.0 + 1, rest.1)
            },
            Status::Ready(w) => (1, Some(w@)),
        }
    }
}

/// The half-window of zeros produced for each half-window of a gap
pub open spec fn gap_half(time: u64, window_size: nat) -> WindowView {
    WindowView { time, samples: zeros(window_size / 2) }
}

/// What one call of `Overlap::next` does, from state `state`, with the items
/// `stream` that the source will produce: the number of items it takes, the
/// state it leaves, and the half-window it returns (`None` when the source
/// has ended and nothing is pending).
pub open spec fn overlap_pull<F: Fn(Sample, Sample) -> Sample>(
    adder: F,
    window_size: nat,
    state: StateView,
    stream: Seq<Status<TimeWindow>>,
) -> (nat, StateView, Option<WindowView>) {
    match state {
        StateView::Idle => {
            let waited = wait_pull(stream);
            match waited.1 {
                None => (waited.0, StateView::Idle, None),
                Some(w) => (
                    waited.0,
                    StateView::Overlap { previous_half: second_half(w) },
                    Some(first_half(w)),
                ),
            }
        },
        StateView::Overlap { previous_half } => {
            if stream.len() == 0 {
                (0, StateView::Idle, Some(previous_half))
            } else {
                match stream[0] {
                    Status::Timeout => (1, StateView::Idle, Some(previous_half)),
                    Status::Ready(w) => {
                        let difference = w@.time - previous_half.time;
                        if difference == 1 {
                            (
                                1,
                                StateView::Overlap { previous_half: second_half(w@) },
                                Some(
                                    WindowView {
                                        time: previous_half.time,
                                        samples: overlap_sum(
                                            adder,
                                            previous_half.samples,
                                            w@.samples,
                                        ),
                                    },
                                ),
                            )
                        } else if difference == 2 {
                            (
                                1,
                                StateView::Overlap { previous_half: second_half(w@) },
                                Some(
                                    WindowView {
                                        time: previous_half.time,
                                        samples: previous_half.samples + first_half(w@).samples,
                                    },
                                ),
                            )
                        } else {
                            (
                                1,
                                StateView::Gap {
                                    remaining_half_windows: (difference - 2) as u64,
                                    next_window: w@,
                                },
                                Some(previous_half),
                            )
                        }
                    },
                }
            }
        },
        StateView::Gap { remaining_half_windows, next_window } => {
            if remaining_half_windows == 0 {
                (
                    0,
                    StateView::Overlap { previous_half: second_half(next_window) },
                    Some(first_half(next_window)),
                )
            } else {
                (
                    0,
                    StateView::Gap {
                        remaining_half_windows: (remaining_half_windows - 1) as u64,
                        next_window,
                    },
                    Some(gap_half(next_window.time, window_size)),
                )
            }
        },
    }
}

/// The inputs on which one call of `Overlap::next` has a defined result: a
/// window that follows a stored half-window has a later time, and when the
/// times differ by one (overlap), the stored half is half as long as the new
/// window
pub open spec fn pull_allowed(state: StateView, stream: Seq<Status<TimeWindow>>) -> bool {
    match state {
        StateView::Overlap { previous_half } => stream.len() > 0 ==> match stream[0] {
            Status::Ready(w) => {
                &&& w.time > previous_half.time
                &&& w.time - previous_half.time == 1 ==> previous_half.samples.len()
                    == w.samples@.len() / 2
            },
            Status::Timeout => true,
        },
        _ => true,
    }
}

/// An iterator adapter that overlaps windows
///
/// This implementation includes gaps between samples. Due to timestamp overflow, gaps longer than
/// about 10 seconds cannot be represented.
pub struct Overlap<I> {
    /// Inner iterator
    pub inner: I,
    /// Window size, samples
    pub window_size: usize,
    /// Current state
    pub state: State,
}

impl<I> Overlap<I> {
    /// Creates an overlap iterator for the provided window size
    pub fn new(inner: I, window_size: usize) -> (r: Overlap<I>)
        ensures
            r.inner == inner,
            r.window_size == window_size,
            r.state@ == StateView::Idle,
    {
        Overlap { inner, window_size, state: State::Idle }
    }

    /// Whether the inner source obeys the iterator laws and has a measure
    /// that each item it produces decreases, so that it eventually ends
    pub open spec fn source_ends(&self) -> bool where I: Iterator {
        self.inner.obeys_prophetic_iter_laws() && self.inner.decrease() is Some
    }

    /// Repeatedly calls self.inner.next(), ignoring any timeouts
    pub fn wait_for_next_window(&mut self) -> (r: Option<TimeWindow>)
        where I: Iterator<Item = Status<TimeWindow>>,
        requires
            old(self).source_ends(),
        ensures
            final(self).window_size == old(self).window_size,
            final(self).state == old(self).state,
            final(self).source_ends(),
            ({
                let waited = wait_pull(old(self).inner.remaining());
                &&& final(self).inner.remaining() == old(self).inner.remaining().skip(waited.0 as int)
                &&& match r {
                    None => waited.1 is None,
                    Some(w) => waited.1 == Some(w@),
                }
            }),
    {
        let ghost orig = self.inner.remaining();
        let ghost mut taken: nat = 0;
        loop
            invariant
                self.source_ends(),
                self.window_size == old(self).window_size,
                self.state == old(self).state,
                orig == old(self).inner.remaining(),
                taken <= orig.len(),
                self.inner.remaining() == orig.skip(taken as int),
                wait_pull(orig) == (
                    taken + wait_pull(self.inner.remaining()).0,
                    wait_pull(self.inner.remaining()).1,
                ),
            decreases self.inner.decrease()->0,
        {
            match self.inner.next() {
                None => {
                    return None;
                },
                Some(Status::Timeout) => {
                    proof {
                        assert(orig.skip(taken as int).drop_first() =~= orig.skip(taken + 1int));
                        taken = taken + 1;
                    }
                },
                Some(Status::Ready(new_window)) => {
                    proof {
                        assert(orig.skip(taken as int).drop_first() =~= orig.skip(taken + 1int));
                    }
                    return Some(new_window);
                },
            }
        }
    }

    /// Returns the next half-window of overlapped output, adding overlapping
    /// samples with `adder`; `None` when the source has ended and nothing is
    /// pending
    pub fn next<F: Fn(Sample, Sample) -> Sample>(&mut self, adder: &F) -> (r: Option<TimeWindow>)
        where I: Iterator<Item = Status<TimeWindow>>,
        requires
            old(self).source_ends(),
            adder_ok(*adder),
            pull_allowed(old(self).state@, old(self).inner.remaining()),
        ensures
            final(self).window_size == old(self).window_size,
            final(self).source_ends(),
            ({
                let pulled = overlap_pull(
                    *adder,
                    old(self).window_size as nat,
                    old(self).state@,
                    old(self).inner.remaining(),
                );
                &&& final(self).inner.remaining() == old(self).inner.remaining().skip(pulled.0 as int)
                &&& final(self).state@ == pulled.1
                &&& match r {
                    None => pulled.2 is None,
                    Some(w) => pulled.2 == Some(w@),
                }
            }),
    {
        let mut old_state = State::Idle;
        core::mem::swap(&mut old_state, &mut self.state);
        match old_state {
            State::Idle => {
                let new_window = match self.wait_for_next_window() {
                    Some(w) => w,
                    None => {
                        return None;
                    },
                };
                // Produce the first half of the new window, store the second half
                let first_half = TimeWindow::new(new_window.time(), new_window.first_half());
                self.state = State::Overlap { previous_half: new_window.into_second_half() };
                Some(first_half)
            },
            State::Overlap { previous_half } => {
                let mut previous_half = previous_half;
                let ghost cur = self.inner.remaining();
                let new_window = match self.inner.next() {
                    None => {
                        // Produce previous half
                        self.state = State::Idle;
                        return Some(previous_half);
                    },
                    Some(Status::Timeout) => {
                        self.state = State::Idle;
                        proof {
                            assert(cur.drop_first() =~= cur.skip(1));
                        }
                        return Some(previous_half);
                    },
                    Some(Status::Ready(new_window)) => new_window,
                };
                proof {
                    assert(cur.drop_first() =~= cur.skip(1));
                }
                // Check for a gap between the previous window and the new one
                let time_difference = new_window.time() - previous_half.time();
                if time_difference == 1 {
                    // Difference 1: Overlap
                    overlap_windows(&mut previous_half, &new_window, adder);
                    // Store the second half of new_window
                    self.state = State::Overlap { previous_half: new_window.into_second_half() };
                    // Produce overlapped half-window
                    Some(previous_half)
                } else if time_difference == 2 {
                    // Difference 2: Adjacent
                    // Produce the previous half, followed by the first half of new_window
                    let previous_time = previous_half.time();
                    let mut samples = previous_half.into_samples();
                    let mut rest = new_window.first_half();
                    samples.append(&mut rest);
                    // Store the second half of new_window
                    self.state = State::Overlap { previous_half: new_window.into_second_half() };
                    Some(TimeWindow::new(previous_time, samples))
                } else {
                    // Difference n >= 3: a gap of n - 2 half-windows
                    let gap_half_windows = time_difference - 2;
                    self.state = State::Gap {
                        remaining_half_windows: gap_half_windows,
                        next_window: new_window,
                    };
                    // Produce the previous half-window
                    Some(previous_half)
                }
            },
            State::Gap { remaining_half_windows, next_window } => {
                proof {
                    assert(old(self).inner.remaining().skip(0) =~= old(self).inner.remaining());
                }
                if remaining_half_windows == 0 {
                    // Produce the first half of next_window, store the rest
                    let first_half = TimeWindow::new(next_window.time(), next_window.first_half());
                    let second_half = next_window.into_second_half();
                    self.state = State::Overlap { previous_half: second_half };
                    Some(first_half)
                } else {
                    // Produce a half-window of zeros, decrement
                    let half_window = TimeWindow::new(
                        next_window.time(),
                        zero_samples(self.window_size / 2),
                    );
                    self.state = State::Gap {
                        remaining_half_windows: remaining_half_windows - 1,
                        next_window,
                    };
                    Some(half_window)
                }
            },
        }
    }
}

/// Returns `n` zero samples
pub fn zero_samples(n: usize) -> (r: Vec<Sample>)
    ensures
        r@ == zeros(n as nat),
{
    let mut out: Vec<Sample> = Vec::new();
    let mut i: usize = 0;
    while i < n
        invariant
            i <= n,
            out@ == zeros(i as nat),
        decreases n - i,
    {
        out.push(Sample::zero());
        i = i + 1;
        assert(out@ =~= zeros(i as nat));
    }
    out
}

/// The samples of the half-windows that up to `calls` successive calls of
/// `Overlap::next` return, from state `state` with the items `stream` still
/// to come from the source, concatenated; stops at the first `None`
pub open spec fn overlap_drain<F: Fn(Sample, Sample) -> Sample>(
    adder: F,
    window_size: nat,
    state: StateView,
    stream: Seq<Status<TimeWindow>>,
    calls: nat,
) -> Seq<Sample>
    decreases calls,
{
    if calls == 0 {
        seq![]
    } else {
        let pulled = overlap_pull(adder, window_size, state, stream);
        match pulled.2 {
            None => seq![],
            Some(w) => w.samples + overlap_drain(
                adder,
                window_size,
                pulled.1,
                stream.skip(pulled.0 as int),
                (calls - 1) as nat,
            ),
        }
    }
}

/// The two halves of a window, put back together, are the window
pub proof fn lemma_halves_rejoin(w: WindowView)
    ensures
        first_half(w).samples + second_half(w).samples == w.samples,
{
    assert(first_half(w).samples + second_half(w).samples =~= w.samples);
}

/// Runs of zeros join into longer runs
pub(crate) proof fn lemma_zeros_join(a: nat, b: nat)
    ensures
        zeros(a) + zeros(b) == zeros(a + b),
{
    assert(zeros(a) + zeros(b) =~= zeros(a + b));
}

/// From a gap of `n` half-windows before window `w`, with nothing more to
/// come from the source, the output is `n` half-windows of zeros followed
/// by `w`
proof fn lemma_gap_then_window<F: Fn(Sample, Sample) -> Sample>(
    adder: F,
    window_size: nat,
    n: u64,
    w: WindowView,
    calls: nat,
)
    requires
        calls >= n + 3,
    ensures
        overlap_drain(
            adder,
            window_size,
            StateView::Gap { remaining_half_windows: n, next_window: w },
            seq![],
            calls,
        ) == zeros((n * (window_size / 2)) as nat) + w.samples,
    decreases n,
{
    let empty = Seq::<Status<TimeWindow>>::empty();
    let nothing = Seq::<Sample>::empty();
    let h = window_size / 2;
    let gap = StateView::Gap { remaining_half_windows: n, next_window: w };
    assert(empty.skip(0) =~= empty);
    if n == 0 {
        let st = StateView::Overlap { previous_half: second_half(w) };
        lemma_halves_rejoin(w);
        assert(overlap_drain(adder, window_size, StateView::Idle, empty, (calls - 2) as nat)
            == nothing);
        assert(overlap_pull(adder, window_size, st, empty) == (
            0nat,
            StateView::Idle,
            Some(second_half(w)),
        ));
        assert(overlap_drain(adder, window_size, st, empty, (calls - 1) as nat)
            == second_half(w).samples + nothing);
        assert(overlap_pull(adder, window_size, gap, empty) == (0nat, st, Some(first_half(w))));
        assert(overlap_drain(adder, window_size, gap, empty, calls) == first_half(w).samples
            + overlap_drain(adder, window_size, st, empty, (calls - 1) as nat));
        assert(zeros(0) + w.samples =~= first_half(w).samples + (second_half(w).samples
            + nothing));
    } else {
        let next = StateView::Gap { remaining_half_windows: (n - 1) as u64, next_window: w };
        lemma_gap_then_window(adder, window_size, (n - 1) as u64, w, (calls - 1) as nat);
        assert(overlap_pull(adder, window_size, gap, empty) == (
            0nat,
            next,
            Some(gap_half(w.time, window_size)),
        ));
        assert(overlap_drain(adder, window_size, gap, empty, calls) == zeros(h)
            + overlap_drain(adder, window_size, next, empty, (calls - 1) as nat));
        lemma_zeros_join(h, ((n - 1) * h) as nat);
        assert(h + (n - 1) * h == n * h) by (nonlinear_arith);
        assert(zeros(h) + (zeros(((n - 1) * h) as nat) + w.samples) =~= zeros(h) + zeros(
            ((n - 1) * h) as nat,
        ) + w.samples);
    }
}

/// A single window that is followed by the end of the source comes out
/// unchanged, as its first half and then its second half
pub proof fn lemma_single_window<F: Fn(Sample, Sample) -> Sample>(
    adder: F,
    window_size: nat,
    w: TimeWindow,
)
    ensures
        overlap_drain(adder, window_size, StateView::Idle, seq![Status::Ready(w)], 3)
            == w@.samples,
{
    let stream = seq![Status::Ready(w)];
    let empty = Seq::<Status<TimeWindow>>::empty();
    let nothing = Seq::<Sample>::empty();
    let st = StateView::Overlap { previous_half: second_half(w@) };
    assert(stream.drop_first() =~= empty);
    assert(stream.skip(1) =~= empty);
    assert(empty.skip(0) =~= empty);
    lemma_halves_rejoin(w@);
    assert(overlap_drain(adder, window_size, StateView::Idle, empty, 1) == nothing);
    assert(overlap_pull(adder, window_size, st, empty) == (0nat, StateView::Idle, Some(second_half(w@))));
    assert(overlap_drain(adder, window_size, st, empty, 2) == second_half(w@).samples + nothing);
    assert(wait_pull(stream) == (1nat, Some(w@)));
    assert(overlap_pull(adder, window_size, StateView::Idle, stream) == (1nat, st, Some(first_half(w@))));
    assert(overlap_drain(adder, window_size, StateView::Idle, stream, 3) == first_half(w@).samples + overlap_drain(adder, window_size, st, empty, 2));
    assert(first_half(w@).samples + (second_half(w@).samples + nothing) =~= w@.samples);
}

/// Two windows whose times differ by `d >= 2` half-windows come out in
/// order, with `d - 2` half-windows of zeros (`window_size / 2` samples each)
/// between them: adjacent windows are concatenated, and later ones are
/// separated by a gap
pub proof fn lemma_two_windows_with_gap<F: Fn(Sample, Sample) -> Sample>(
    adder: F,
    window_size: nat,
    w1: TimeWindow,
    w2: TimeWindow,
)
    requires
        w2.time >= w1.time + 2,
    ensures
        overlap_drain(
            adder,
            window_size,
            StateView::Idle,
            seq![Status::Ready(w1), Status::Ready(w2)],
            (w2.time - w1.time + 3) as nat,
        ) == w1@.samples + zeros(((w2.time - w1.time - 2) * (window_size / 2)) as nat)
            + w2@.samples,
{
    let stream = seq![Status::Ready(w1), Status::Ready(w2)];
    let rest = seq![Status::Ready(w2)];
    let empty = Seq::<Status<TimeWindow>>::empty();
    let nothing = Seq::<Sample>::empty();
    let d = w2.time - w1.time;
    let calls = (d + 3) as nat;
    let zs = zeros(((d - 2) * (window_size / 2)) as nat);
    assert(stream.drop_first() =~= rest);
    assert(stream.skip(1) =~= rest);
    assert(rest.drop_first() =~= empty);
    assert(rest.skip(1) =~= empty);
    assert(empty.skip(0) =~= empty);
    lemma_halves_rejoin(w1@);
    lemma_halves_rejoin(w2@);
    let st1 = StateView::Overlap { previous_half: second_half(w1@) };
    assert(wait_pull(stream) == (1nat, Some(w1@)));
    assert(overlap_pull(adder, window_size, StateView::Idle, stream) == (
        1nat,
        st1,
        Some(first_half(w1@)),
    ));
    assert(overlap_drain(adder, window_size, StateView::Idle, stream, calls) == first_half(
        w1@,
    ).samples + overlap_drain(adder, window_size, st1, rest, (calls - 1) as nat));
    if d == 2 {
        let st2 = StateView::Overlap { previous_half: second_half(w2@) };
        assert(overlap_drain(adder, window_size, StateView::Idle, empty, (calls - 3) as nat)
            == nothing);
        assert(overlap_pull(adder, window_size, st2, empty) == (
            0nat,
            StateView::Idle,
            Some(second_half(w2@)),
        ));
        assert(overlap_drain(adder, window_size, st2, empty, (calls - 2) as nat) == second_half(
            w2@,
        ).samples + nothing);
        let joined = second_half(w1@).samples + first_half(w2@).samples;
        assert(overlap_pull(adder, window_size, st1, rest) == (
            1nat,
            st2,
            Some(WindowView { time: w1.time, samples: joined }),
        ));
        assert(overlap_drain(adder, window_size, st1, rest, (calls - 1) as nat) == joined
            + overlap_drain(adder, window_size, st2, empty, (calls - 2) as nat));
        assert((d - 2) * (window_size / 2) == 0) by (nonlinear_arith)
            requires
                d == 2,
        ;
        assert(zs =~= nothing);
        assert(first_half(w1@).samples + (joined + (second_half(w2@).samples + nothing))
            =~= w1@.samples + zs + w2@.samples);
    } else {
        let gap = StateView::Gap { remaining_half_windows: (d - 2) as u64, next_window: w2@ };
        assert(overlap_pull(adder, window_size, st1, rest) == (
            1nat,
            gap,
            Some(second_half(w1@)),
        ));
        assert(overlap_drain(adder, window_size, st1, rest, (calls - 1) as nat) == second_half(
            w1@,
        ).samples + overlap_drain(adder, window_size, gap, empty, (calls - 2) as nat));
        lemma_gap_then_window(adder, window_size, (d - 2) as u64, w2@, (calls - 2) as nat);
        assert(first_half(w1@).samples + (second_half(w1@).samples + (zs + w2@.samples))
            =~= w1@.samples + zs + w2@.samples);
    }
}

/// Two windows one half-window apart overlap: the output is the first half
/// of the first window, then its second half added sample by sample to the
/// first half of the second window, then the second half of the second window
pub proof fn lemma_two_windows_overlap<F: Fn(Sample, Sample) -> Sample>(
    adder: F,
    window_size: nat,
    w1: TimeWindow,
    w2: TimeWindow,
)
    requires
        w2.time == w1.time + 1,
    ensures
        overlap_drain(
            adder,
            window_size,
            StateView::Idle,
            seq![Status::Ready(w1), Status::Ready(w2)],
            4,
        ) == first_half(w1@).samples + overlap_sum(adder, second_half(w1@).samples, w2@.samples)
            + second_half(w2@).samples,
{
    let stream = seq![Status::Ready(w1), Status::Ready(w2)];
    let rest = seq![Status::Ready(w2)];
    let empty = Seq::<Status<TimeWindow>>::empty();
    assert(stream.drop_first() =~= rest);
    assert(stream.skip(1) =~= rest);
    assert(rest.skip(1) =~= empty);
    assert(empty.skip(0) =~= empty);
    let sum = overlap_sum(adder, second_half(w1@).samples, w2@.samples);
    let st1 = StateView::Overlap { previous_half: second_half(w1@) };
    let st2 = StateView::Overlap { previous_half: second_half(w2@) };
    assert(overlap_drain(adder, window_size, StateView::Idle, empty, 1) == Seq::<Sample>::empty());
    assert(overlap_pull(adder, window_size, st2, empty) == (0nat, StateView::Idle, Some(second_half(w2@))));
    assert(overlap_drain(adder, window_size, st2, empty, 2) == second_half(w2@).samples + Seq::<Sample>::empty());
    assert(overlap_pull(adder, window_size, st1, rest) == (
        1nat,
        st2,
        Some(WindowView { time: w1.time, samples: sum }),
    ));
    assert(overlap_drain(adder, window_size, st1, rest, 3) == sum + overlap_drain(adder, window_size, st2, empty, 2));
    assert(wait_pull(stream) == (1nat, Some(w1@)));
    assert(overlap_pull(adder, window_size, StateView::Idle, stream) == (1nat, st1, Some(first_half(w1@))));
    assert(overlap_drain(adder, window_size, StateView::Idle, stream, 4) == first_half(w1@).samples + overlap_drain(adder, window_size, st1, rest, 3));
    assert(second_half(w2@).samples + Seq::<Sample>::empty() =~= second_half(w2@).samples);
    assert(first_half(w1@).samples + (sum + second_half(w2@).samples) =~= first_half(w1@).samples + sum + second_half(w2@).samples);
}

/// A timeout between two windows flushes the first one: both come out
/// unchanged and nothing is overlapped, whatever their times
pub proof fn lemma_timeout_flushes<F: Fn(Sample, Sample) -> Sample>(
    adder: F,
    window_size: nat,
    w1: TimeWindow,
    w2: TimeWindow,
)
    ensures
        overlap_drain(
            adder,
            window_size,
            StateView::Idle,
            seq![Status::Ready(w1), Status::Timeout, Status::Ready(w2)],
            5,
        ) == w1@.samples + w2@.samples,
{
    let stream = seq![Status::Ready(w1), Status::Timeout, Status::Ready(w2)];
    let s1 = seq![Status::Timeout, Status::Ready(w2)];
    let s2 = seq![Status::Ready(w2)];
    let empty = Seq::<Status<TimeWindow>>::empty();
    let nothing = Seq::<Sample>::empty();
    assert(stream.drop_first() =~= s1);
    assert(stream.skip(1) =~= s1);
    assert(s1.skip(1) =~= s2);
    assert(s2.drop_first() =~= empty);
    assert(s2.skip(1) =~= empty);
    assert(empty.skip(0) =~= empty);
    lemma_halves_rejoin(w1@);
    lemma_halves_rejoin(w2@);
    let st1 = StateView::Overlap { previous_half: second_half(w1@) };
    let st3 = StateView::Overlap { previous_half: second_half(w2@) };
    assert(overlap_drain(adder, window_size, StateView::Idle, empty, 1) == nothing);
    assert(overlap_pull(adder, window_size, st3, empty) == (0nat, StateView::Idle, Some(second_half(w2@))));
    assert(overlap_drain(adder, window_size, st3, empty, 2) == second_half(w2@).samples + nothing);
    assert(wait_pull(s2) == (1nat, Some(w2@)));
    assert(overlap_pull(adder, window_size, StateView::Idle, s2) == (1nat, st3, Some(first_half(w2@))));
    assert(overlap_drain(adder, window_size, StateView::Idle, s2, 3) == first_half(w2@).samples + overlap_drain(adder, window_size, st3, empty, 2));
    assert(overlap_pull(adder, window_size, st1, s1) == (1nat, StateView::Idle, Some(second_half(w1@))));
    assert(overlap_drain(adder, window_size, st1, s1, 4) == second_half(w1@).samples + overlap_drain(adder, window_size, StateView::Idle, s2, 3));
    assert(wait_pull(stream) == (1nat, Some(w1@)));
    assert(overlap_pull(adder, window_size, StateView::Idle, stream) == (1nat, st1, Some(first_half(w1@))));
    assert(overlap_drain(adder, window_size, StateView::Idle, stream, 5) == first_half(w1@).samples + overlap_drain(adder, window_size, st1, s1, 4));
    assert(first_half(w1@).samples + (second_half(w1@).samples + (first_half(w2@).samples + (
    second_half(w2@).samples + nothing))) =~= w1@.samples + w2@.samples);
}

/// The window of an item known to be one (an empty window for a timeout)
pub open spec fn ready_view(item: Status<TimeWindow>) -> WindowView {
    match item {
        Status::Ready(w) => w@,
        Status::Timeout => WindowView { time: 0, samples: Seq::empty() },
    }
}

/// The windows of a stream of items known to be windows
pub open spec fn ready_views(stream: Seq<Status<TimeWindow>>) -> Seq<WindowView> {
    stream.map_values(|item: Status<TimeWindow>| ready_view(item))
}

/// `stream` holds no timeouts, only windows of `2 * half` samples, with
/// times that increase along the stream and are all later than `after`
pub open spec fn increasing_windows(stream: Seq<Status<TimeWindow>>, half: nat, after: int) -> bool {
    &&& forall|i: int|
        0 <= i < stream.len() ==> {
            &&& #[trigger] stream[i] is Ready
            &&& ready_view(stream[i]).samples.len() == 2 * half
            &&& ready_view(stream[i]).time > after
        }
    &&& forall|i: int, j: int|
        0 <= i < j < stream.len() ==> ready_view(#[trigger] stream[i]).time < ready_view(
            #[trigger] stream[j],
        ).time
}

/// Places window `w` onto the signal `acc`, which starts at time `start_time`,
/// at sample position `(w.time - start_time) * half`: where `w` meets the end
/// of the signal, the samples are added with `adder`; where it lies past the
/// end, the space between is filled with zeros
pub open spec fn place_window<F: Fn(Sample, Sample) -> Sample>(
    adder: F,
    half: nat,
    start_time: u64,
    acc: Seq<Sample>,
    w: WindowView,
) -> Seq<Sample> {
    let start = (w.time - start_time) * half;
    if acc.len() > start {
        acc.take(start) + overlap_sum(adder, acc.skip(start), w.samples) + w.samples.skip(
            acc.len() - start,
        )
    } else {
        acc + zeros((start - acc.len()) as nat) + w.samples
    }
}

/// The overlap-add of `windows` onto the signal `acc`: each window placed in
/// turn at its time, counted in half-windows of `half` samples
pub open spec fn overlap_add<F: Fn(Sample, Sample) -> Sample>(
    adder: F,
    half: nat,
    start_time: u64,
    acc: Seq<Sample>,
    windows: Seq<WindowView>,
) -> Seq<Sample>
    decreases windows.len(),
{
    if windows.len() == 0 {
        acc
    } else {
        overlap_add(
            adder,
            half,
            start_time,
            place_window(adder, half, start_time, acc, windows[0]),
            windows.drop_first(),
        )
    }
}

/// A gap of `n` half-windows before `w` produces `n` half-windows of zeros and
/// then the first half of `w`, taking no items from the source
pub(crate) proof fn lemma_gap_drain<F: Fn(Sample, Sample) -> Sample>(
    adder: F,
    window_size: nat,
    n: u64,
    w: WindowView,
    stream: Seq<Status<TimeWindow>>,
    calls: nat,
)
    requires
        calls >= n + 1,
    ensures
        overlap_drain(
            adder,
            window_size,
            StateView::Gap { remaining_half_windows: n, next_window: w },
            stream,
            calls,
        ) == zeros((n * (window_size / 2)) as nat) + first_half(w).samples + overlap_drain(
            adder,
            window_size,
            StateView::Overlap { previous_half: second_half(w) },
            stream,
            (calls - n - 1) as nat,
        ),
    decreases n,
{
    let h = window_size / 2;
    let gap = StateView::Gap { remaining_half_windows: n, next_window: w };
    let after = StateView::Overlap { previous_half: second_half(w) };
    assert(stream.skip(0) =~= stream);
    if n == 0 {
        assert(overlap_pull(adder, window_size, gap, stream) == (0nat, after, Some(first_half(w))));
        assert(zeros(0) + first_half(w).samples =~= first_half(w).samples);
    } else {
        let next = StateView::Gap { remaining_half_windows: (n - 1) as u64, next_window: w };
        lemma_gap_drain(adder, window_size, (n - 1) as u64, w, stream, (calls - 1) as nat);
        assert(overlap_pull(adder, window_size, gap, stream) == (
            0nat,
            next,
            Some(gap_half(w.time, window_size)),
        ));
        lemma_zeros_join(h, ((n - 1) * h) as nat);
        assert(h + (n - 1) * h == n * h) by (nonlinear_arith);
        let rest = overlap_drain(adder, window_size, after, stream, (calls - n - 1) as nat);
        assert(zeros(h) + (zeros(((n - 1) * h) as nat) + first_half(w).samples + rest) =~= zeros(
            (n * h) as nat,
        ) + first_half(w).samples + rest);
    }
}

/// With the second half `pending` of a window still to be produced, and the
/// signal so far `acc` ending in it, draining the remaining windows produces
/// the rest of their overlap-add
proof fn lemma_drain_from_pending<F: Fn(Sample, Sample) -> Sample>(
    adder: F,
    window_size: nat,
    start_time: u64,
    acc: Seq<Sample>,
    pending: WindowView,
    stream: Seq<Status<TimeWindow>>,
    calls: nat,
)
    requires
        start_time <= pending.time,
        acc.len() == (pending.time - start_time + 2) * (window_size / 2),
        pending.samples.len() == window_size / 2,
        acc.skip(acc.len() - window_size / 2) == pending.samples,
        increasing_windows(stream, window_size / 2, pending.time as int),
        stream.len() > 0 ==> calls >= ready_view(stream.last()).time - pending.time + 2,
        calls >= 2,
    ensures
        overlap_add(adder, window_size / 2, start_time, acc, ready_views(stream)) == acc.take(
            acc.len() - window_size / 2,
        ) + overlap_drain(
            adder,
            window_size,
            StateView::Overlap { previous_half: pending },
            stream,
            calls,
        ),
    decreases stream.len(),
{
    let h = window_size / 2;
    let len = acc.len();
    let st = StateView::Overlap { previous_half: pending };
    let views = ready_views(stream);
    let empty = Seq::<Status<TimeWindow>>::empty();
    assert(empty.skip(0) =~= empty);
    assert(len >= 2 * h) by (nonlinear_arith)
        requires
            len == (pending.time - start_time + 2) * h,
            start_time <= pending.time,
    ;
    assert(acc =~= acc.take(len - h) + acc.skip(len - h));
    if stream.len() == 0 {
        assert(views =~= Seq::<WindowView>::empty());
        assert(stream =~= empty);
        assert(overlap_drain(adder, window_size, StateView::Idle, empty, (calls - 1) as nat)
            == Seq::<Sample>::empty());
        assert(overlap_pull(adder, window_size, st, stream) == (
            0nat,
            StateView::Idle,
            Some(pending),
        ));
        assert(pending.samples + Seq::<Sample>::empty() =~= pending.samples);
    } else {
        let item = stream[0];
        let w = ready_view(item);
        let rest = stream.drop_first();
        assert(stream.skip(1) =~= rest);
        assert(views.drop_first() =~= ready_views(rest));
        assert(views[0] == w);
        let d = w.time - pending.time;
        assert(d >= 1);
        assert(w.samples.len() == 2 * h);
        let start = (w.time - start_time) * h;
        assert(start == len + (d - 2) * h) by (nonlinear_arith)
            requires
                start == (w.time - start_time) * h,
                len == (pending.time - start_time + 2) * h,
                d == w.time - pending.time,
        ;
        let after = StateView::Overlap { previous_half: second_half(w) };
        assert(second_half(w).samples == w.samples.skip(h as int));
        assert(first_half(w).samples == w.samples.take(h as int));
        assert(increasing_windows(rest, h, w.time as int)) by {
            assert forall|i: int| 0 <= i < rest.len() implies {
                &&& #[trigger] rest[i] is Ready
                &&& ready_view(rest[i]).samples.len() == 2 * h
                &&& ready_view(rest[i]).time > w.time as int
            } by {
                assert(rest[i] == stream[i + 1]);
                assert(ready_view(stream[0]).time < ready_view(stream[i + 1]).time);
            }
            assert forall|i: int, j: int| 0 <= i < j < rest.len() implies ready_view(
                #[trigger] rest[i],
            ).time < ready_view(#[trigger] rest[j]).time by {
                assert(rest[i] == stream[i + 1]);
                assert(rest[j] == stream[j + 1]);
            }
        }
        if rest.len() > 0 {
            assert(rest.last() == stream.last());
            assert(ready_view(stream.last()).time >= w.time) by {
                if stream.len() > 1 {
                    assert(ready_view(stream[0]).time < ready_view(stream[stream.len() - 1]).time);
                }
            }
        }
        assert(stream.len() > 0 ==> ready_view(stream.last()).time >= w.time) by {
            if stream.len() > 1 {
                assert(ready_view(stream[0]).time < ready_view(stream[stream.len() - 1]).time);
            }
        }
        if d == 1 {
            let sum = overlap_sum(adder, pending.samples, w.samples);
            assert(start == len - h) by (nonlinear_arith)
                requires
                    start == len + (d - 2) * h,
                    d == 1,
            ;
            assert(acc.skip(start) == pending.samples);
            let acc2 = acc.take(len - h) + sum + second_half(w).samples;
            assert(place_window(adder, h, start_time, acc, w) == acc2);
            assert(acc2.len() == (w.time - start_time + 2) * h) by (nonlinear_arith)
                requires
                    acc2.len() == len + h,
                    len == (pending.time - start_time + 2) * h,
                    w.time == pending.time + 1,
            ;
            assert(acc2.skip(acc2.len() - h) =~= second_half(w).samples);
            assert(acc2.take(acc2.len() - h) =~= acc.take(len - h) + sum);
            lemma_drain_from_pending(
                adder,
                window_size,
                start_time,
                acc2,
                second_half(w),
                rest,
                (calls - 1) as nat,
            );
            assert(overlap_pull(adder, window_size, st, stream) == (
                1nat,
                after,
                Some(WindowView { time: pending.time, samples: sum }),
            ));
            let tail = overlap_drain(adder, window_size, after, rest, (calls - 1) as nat);
            assert(acc.take(len - h) + sum + tail =~= acc.take(len - h) + (sum + tail));
        } else if d == 2 {
            assert(start == len) by (nonlinear_arith)
                requires
                    start == len + (d - 2) * h,
                    d == 2,
            ;
            let acc2 = acc + w.samples;
            assert(zeros(0) =~= Seq::<Sample>::empty());
            assert(place_window(adder, h, start_time, acc, w) =~= acc2);
            assert(acc2.len() == (w.time - start_time + 2) * h) by (nonlinear_arith)
                requires
                    acc2.len() == len + 2 * h,
                    len == (pending.time - start_time + 2) * h,
                    w.time == pending.time + 2,
            ;
            assert(acc2.skip(acc2.len() - h) =~= second_half(w).samples);
            let joined = pending.samples + first_half(w).samples;
            assert(acc2.take(acc2.len() - h) =~= acc.take(len - h) + joined);
            lemma_drain_from_pending(
                adder,
                window_size,
                start_time,
                acc2,
                second_half(w),
                rest,
                (calls - 1) as nat,
            );
            assert(overlap_pull(adder, window_size, st, stream) == (
                1nat,
                after,
                Some(WindowView { time: pending.time, samples: joined }),
            ));
            let tail = overlap_drain(adder, window_size, after, rest, (calls - 1) as nat);
            assert(acc.take(len - h) + joined + tail =~= acc.take(len - h) + (joined + tail));
        } else {
            let n = (d - 2) as u64;
            let zs = zeros((n * h) as nat);
            assert(start >= len) by (nonlinear_arith)
                requires
                    start == len + (d - 2) * h,
                    d >= 3,
            ;
            let acc2 = acc + zs + w.samples;
            assert(place_window(adder, h, start_time, acc, w) =~= acc2);
            assert(acc2.len() == (w.time - start_time + 2) * h) by (nonlinear_arith)
                requires
                    acc2.len() == len + (d - 2) * h + 2 * h,
                    len == (pending.time - start_time + 2) * h,
                    w.time == pending.time + d,
            ;
            assert(acc2.skip(acc2.len() - h) =~= second_half(w).samples);
            assert(acc2.take(acc2.len() - h) =~= acc.take(len - h) + pending.samples + zs
                + first_half(w).samples);
            let gap = StateView::Gap { remaining_half_windows: n, next_window: w };
            assert(overlap_pull(adder, window_size, st, stream) == (1nat, gap, Some(pending)));
            lemma_gap_drain(adder, window_size, n, w, rest, (calls - 1) as nat);
            lemma_drain_from_pending(
                adder,
                window_size,
                start_time,
                acc2,
                second_half(w),
                rest,
                (calls - 1 - n - 1) as nat,
            );
            let tail = overlap_drain(adder, window_size, after, rest, (calls - 1 - n - 1) as nat);
            assert(acc.take(len - h) + pending.samples + zs + first_half(w).samples + tail
                =~= acc.take(len - h) + (pending.samples + (zs + first_half(w).samples + tail)));
        }
    }
}

/// The overlap step computes the overlap-add of its windows: for a source of
/// windows of `window_size` samples (an even number) with increasing times
/// and no timeouts, the half-windows it produces, concatenated, are the
/// windows placed at `time * window_size / 2` samples, added where two of them
/// overlap and separated by zeros where they leave a gap
pub proof fn lemma_overlap_adds_windows<F: Fn(Sample, Sample) -> Sample>(
    adder: F,
    window_size: nat,
    stream: Seq<Status<TimeWindow>>,
)
    requires
        stream.len() > 0,
        increasing_windows(stream, window_size / 2, -1),
    ensures
        overlap_drain(
            adder,
            window_size,
            StateView::Idle,
            stream,
            (ready_view(stream.last()).time - ready_view(stream[0]).time + 3) as nat,
        ) == overlap_add(
            adder,
            window_size / 2,
            ready_view(stream[0]).time,
            Seq::empty(),
            ready_views(stream),
        ),
{
    let h = window_size / 2;
    let w0 = ready_view(stream[0]);
    let t0 = w0.time;
    let calls = (ready_view(stream.last()).time - t0 + 3) as nat;
    let rest = stream.drop_first();
    let views = ready_views(stream);
    if stream.len() > 1 {
        assert(ready_view(stream[0]).time < ready_view(stream[stream.len() - 1]).time);
    }
    assert(stream.skip(1) =~= rest);
    assert(views.drop_first() =~= ready_views(rest));
    assert(views[0] == w0);
    assert(w0.samples.len() == 2 * h);
    let st = StateView::Overlap { previous_half: second_half(w0) };
    match stream[0] {
        Status::Ready(w) => {
            assert(wait_pull(stream) == (1nat, Some(w@)));
        },
        Status::Timeout => {},
    }
    assert(overlap_pull(adder, window_size, StateView::Idle, stream) == (
        1nat,
        st,
        Some(first_half(w0)),
    ));
    let acc0 = w0.samples;
    assert(zeros(0) =~= Seq::<Sample>::empty());
    assert(place_window(adder, h, t0, Seq::empty(), w0) =~= acc0);
    assert(acc0.len() == (t0 - t0 + 2) * h);
    assert(acc0.skip(acc0.len() - h) =~= second_half(w0).samples);
    assert(acc0.take(acc0.len() - h) =~= first_half(w0).samples);
    assert(increasing_windows(rest, h, t0 as int)) by {
        assert forall|i: int| 0 <= i < rest.len() implies {
            &&& #[trigger] rest[i] is Ready
            &&& ready_view(rest[i]).samples.len() == 2 * h
            &&& ready_view(rest[i]).time > t0 as int
        } by {
            assert(rest[i] == stream[i + 1]);
            assert(ready_view(stream[0]).time < ready_view(stream[i + 1]).time);
        }
        assert forall|i: int, j: int| 0 <= i < j < rest.len() implies ready_view(
            #[trigger] rest[i],
        ).time < ready_view(#[trigger] rest[j]).time by {
            assert(rest[i] == stream[i + 1]);
            assert(rest[j] == stream[j + 1]);
        }
    }
    if rest.len() > 0 {
        assert(rest.last() == stream.last());
    }
    lemma_drain_from_pending(adder, window_size, t0, acc0, second_half(w0), rest, (calls - 1) as nat);
}

/// Overlapping adds every pair: the `i`-th sample of an overlap sum is what
/// `adder` gives for the `i`-th samples of the two halves, for every `i`
/// below the length of the first, whatever the values (zeros included)
pub proof fn lemma_overlap_sum_adds_each_pair<F: Fn(Sample, Sample) -> Sample>(
    adder: F,
    a: Seq<Sample>,
    b: Seq<Sample>,
)
    ensures
        overlap_sum(adder, a, b).len() == a.len(),
        forall|i: int|
            0 <= i < a.len() ==> #[trigger] overlap_sum(adder, a, b)[i] == sum_of(adder, a[i], b[i]),
{
}

/// When a window arrives one half-window after the stored half, the step
/// returns the stored half's time with, at each position `i` of the stored
/// half, the sum that `adder` gives for the stored sample and sample `i` of
/// the new window, and keeps the new window's second half
pub proof fn lemma_overlap_step_adds<F: Fn(Sample, Sample) -> Sample>(
    adder: F,
    window_size: nat,
    previous_half: WindowView,
    stream: Seq<Status<TimeWindow>>,
)
    requires
        stream.len() > 0,
        stream[0] is Ready,
        ready_view(stream[0]).time == previous_half.time + 1,
    ensures
        ({
            let w = ready_view(stream[0]);
            let pulled = overlap_pull(
                adder,
                window_size,
                StateView::Overlap { previous_half },
                stream,
            );
            &&& pulled.0 == 1
            &&& pulled.1 == StateView::Overlap { previous_half: second_half(w) }
            &&& pulled.2 matches Some(out) && {
                &&& out.time == previous_half.time
                &&& out.samples.len() == previous_half.samples.len()
                &&& forall|i: int|
                    0 <= i < previous_half.samples.len() ==> #[trigger] out.samples[i] == sum_of(
                        adder,
                        previous_half.samples[i],
                        w.samples[i],
                    )
            }
        }),
{
}

} // verus!
