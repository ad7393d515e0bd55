//! Bin filtering

use vstd::prelude::*;
use vstd::std_specs::iter::IteratorSpec;

use crate::bins::BinRange;
use crate::window::{Sample, Status, Window, WindowView};

verus! {

/// Whether any bin of `bins` at an index in `range` is non-zero
pub open spec fn range_active(range: BinRange, bins: Seq<Sample>) -> bool {
    exists|k: int| range.start <= k < range.end && !(#[trigger] bins[k]).is_zero_spec()
}

/// How far the bins move towards the start of the window: the middle of the
/// range minus half the FFT size (negative: they move towards the end)
pub open spec fn shift(range: BinRange, fft_size: u16) -> int {
    range.middle_spec() - (fft_size / 2) as int
}

/// Number of bins in a filtered window: the FFT size, or the window length if
/// that is smaller
pub open spec fn filtered_len(fft_size: u16, len: int) -> int {
    if (fft_size as int) < len {
        fft_size as int
    } else {
        len
    }
}

/// The bin of the input window that lands at output position `j`: the
/// window is rotated by `shift` positions, wrapping around
pub open spec fn source_index(range: BinRange, fft_size: u16, len: int, j: int) -> int {
    (j + shift(range, fft_size)) % len
}

/// The window that filtering `w` produces: bins outside `range` become zero,
/// the window is rotated so that the middle of the range lands at half the
/// FFT size, and only the first `fft_size` bins are kept
pub open spec fn filtered(range: BinRange, fft_size: u16, w: WindowView) -> WindowView {
    let len = w.samples.len() as int;
    WindowView {
        time: w.time,
        samples: Seq::new(
            filtered_len(fft_size, len) as nat,
            |j: int|
                {
                    let k = source_index(range, fft_size, len, j);
                    if range.start <= k < range.end {
                        w.samples[k]
                    } else {
                        Sample::zero_spec()
                    }
                },
        ),
    }
}

/// The windows that a filter for `range` and `fft_size` can handle: the range
/// lies inside the window and, where the window has an active bin in the
/// range, the middle fits in an `i16` and the rotation does not exceed the
/// window length
pub open spec fn window_accepted(range: BinRange, fft_size: u16, w: WindowView) -> bool {
    &&& range.end <= w.samples.len()
    &&& range_active(range, w.samples) ==> {
        &&& range.middle_spec() <= 0x7fff
        &&& shift(range, fft_size) < 0 ==> -shift(range, fft_size) <= w.samples.len()
    }
}

/// `x % m` for `x` in `-m..2 * m`
proof fn lemma_mod_near(x: int, m: int)
    requires
        m > 0,
        -m <= x < 2 * m,
    ensures
        x % m == (if x < 0 {
            x + m
        } else if x < m {
            x
        } else {
            x - m
        }),
{
    if x < 0 {
        vstd::arithmetic::div_mod::lemma_mod_add_multiples_vanish(x, m);
        vstd::arithmetic::div_mod::lemma_small_mod((x + m) as nat, m as nat);
    } else if x < m {
        vstd::arithmetic::div_mod::lemma_small_mod(x as nat, m as nat);
    } else {
        vstd::arithmetic::div_mod::lemma_mod_sub_multiples_vanish(x, m);
        vstd::arithmetic::div_mod::lemma_small_mod((x - m) as nat, m as nat);
    }
}

/// Returns true if any value at an index within the provided bin range is non-zero
pub fn matches_range(range: &BinRange, bins: &[Sample]) -> (r: bool)
    requires
        range.start <= range.end <= bins@.len(),
    ensures
        r == range_active(*range, bins@),
        r <==> exists|k: int| range.start <= k < range.end && !(#[trigger] bins@[k]).is_zero_spec(),
{
    let end = range.end as usize;
    let mut k = range.start as usize;
    while k < end
        invariant
            range.start <= k <= end,
            end == range.end,
            end <= bins@.len(),
            forall|i: int| range.start <= i < k ==> (#[trigger] bins@[i]).is_zero_spec(),
        decreases end - k,
    {
        if !bins[k].is_zero() {
            return true;
        }
        k = k + 1;
    }
    false
}

/// Filters windows and applies an offset to bin indices
pub struct FilterBins {
    /// Bin range to map from
    bins: BinRange,
    /// Bins get mapped into a region of the same size as `bins`, at the
    /// center of `0..fft_size`
    fft_size: u16,
}

impl FilterBins {
    #[verifier::type_invariant]
    spec fn valid(self) -> bool {
        &&& self.bins.start <= self.bins.end
        &&& self.bins.size_spec() <= self.fft_size
    }

    /// The bin range this filter keeps
    pub closed spec fn range(self) -> BinRange {
        self.bins
    }

    /// The number of bins of a filtered window
    pub closed spec fn fft_size_spec(self) -> u16 {
        self.fft_size
    }

    /// Creates a filter for `bins`, with filtered windows of `fft_size` bins
    pub fn new(bins: BinRange, fft_size: u16) -> (r: FilterBins)
        requires
            bins.start <= bins.end,
            bins.size_spec() <= fft_size,
        ensures
            r.range() == bins,
            r.fft_size_spec() == fft_size,
    {
        FilterBins { bins, fft_size }
    }

    /// Returns true if this filter can handle `window` (see `window_accepted`)
    pub fn accepts(&self, window: &Window) -> (r: bool)
        ensures
            r == window_accepted(self.range(), self.fft_size_spec(), window@),
            ({
                let range = self.range();
                let len = window.bins@.len() as int;
                let offset = range.start + (range.end - range.start) / 2 - (
                self.fft_size_spec() / 2) as int;
                range.end <= len && range.start + (range.end - range.start) / 2 <= 0x7fff && (
                offset < 0 ==> -offset <= len) ==> r
            }),
    {
        proof {
            use_type_invariant(self);
        }
        let len = window.bins.len();
        if (self.bins.end as usize) > len {
            return false;
        }
        if !matches_range(&self.bins, window.bins.as_slice()) {
            return true;
        }
        let middle = self.bins.middle();
        let half = self.fft_size / 2;
        middle <= 0x7fff && (middle >= half || ((half - middle) as usize) <= len)
    }

    /// Filters a window and moves the bins to new positions in the window
    ///
    /// Returns None if the window contains no active bins in this filter's bin range
    pub fn filter_window(&mut self, window: Window) -> (r: Option<Window>)
        requires
            window_accepted(old(self).range(), old(self).fft_size_spec(), window@),
        ensures
            *final(self) == *old(self),
            r is Some <==> range_active(old(self).range(), window@.samples),
            r is Some <==> exists|k: int|
                old(self).range().start <= k < old(self).range().end && !(
                #[trigger] window.bins@[k]).is_zero_spec(),
            r matches Some(f) ==> f@ == filtered(old(self).range(), old(self).fft_size_spec(), window@),
    {
        proof {
            use_type_invariant(&*self);
        }
        let len = window.bins.len();
        if !matches_range(&self.bins, window.bins.as_slice()) {
            return None;
        }
        let start = self.bins.start as usize;
        let end = self.bins.end as usize;
        let middle = self.bins.middle() as usize;
        let half = (self.fft_size / 2) as usize;
        let ghost off = shift(self.bins, self.fft_size);
        assert(start < end) by {
            let k = choose|k: int| start <= k < end && !(#[trigger] window.bins@[k]).is_zero_spec();
        }
        // Rotation to the left, normalized into 0..len
        let rot: usize = if middle >= half {
            middle - half
        } else {
            let d = half - middle;
            if d == len {
                0
            } else {
                len - d
            }
        };
        assert(rot < len);
        assert(off == rot || off == rot - len);
        let n: usize = if (self.fft_size as usize) < len {
            self.fft_size as usize
        } else {
            len
        };
        let mut out: Vec<Sample> = Vec::new();
        let mut j: usize = 0;
        while j < n
            invariant
                n == filtered_len(self.fft_size, len as int),
                n <= len,
                len == window.bins@.len(),
                rot < len,
                off == shift(self.bins, self.fft_size),
                off == rot || off == rot - len,
                start == self.bins.start,
                end == self.bins.end,
                j <= n,
                out@.len() == j,
                forall|i: int|
                    0 <= i < j ==> #[trigger] out@[i] == filtered(self.bins, self.fft_size, window@).samples[i],
            decreases n - j,
        {
            let k: usize = if j < len - rot {
                rot + j
            } else {
                j - (len - rot)
            };
            proof {
                lemma_mod_near(j + off, len as int);
                assert(k == source_index(self.bins, self.fft_size, len as int, j as int));
            }
            let v = if start <= k && k < end {
                window.bins[k]
            } else {
                Sample::zero()
            };
            out.push(v);
            j = j + 1;
        }
        let r = Window { time: window.time, bins: out };
        assert(r@.samples =~= filtered(self.bins, self.fft_size, window@).samples);
        Some(r)
    }
}

/// The view of an item that a window source or filter produces
pub open spec fn item_view(item: Option<Status<Window>>) -> Option<Status<WindowView>> {
    match item {
        None => None,
        Some(Status::Timeout) => Some(Status::Timeout),
        Some(Status::Ready(w)) => Some(Status::Ready(w@)),
    }
}

/// What one call of `FilterBinsIter::next` does with the items `stream` that
/// the inner source will produce: how many it takes and what it returns.
/// Timeouts pass through, windows without an active bin are skipped, and the
/// first window with one is returned filtered.
pub open spec fn filter_pull(range: BinRange, fft_size: u16, stream: Seq<Status<Window>>) -> (
    nat,
    Option<Status<WindowView>>,
)
    decreases stream.len(),
{
    if stream.len() == 0 {
        (0, None)
    } else {
        match stream[0] {
            Status::Timeout => (1, Some(Status::Timeout)),
            Status::Ready(w) => if range_active(range, w@.samples) {
                (1, Some(Status::Ready(filtered(range, fft_size, w@))))
            } else {
                let rest = filter_pull(range, fft_size, stream.drop_first());
                (rest.0 + 1, rest.1)
            },
        }
    }
}

/// Whether every window that one call of `FilterBinsIter::next` takes from
/// `stream` is accepted by the filter
pub open spec fn pull_accepted(range: BinRange, fft_size: u16, stream: Seq<Status<Window>>) -> bool
    decreases stream.len(),
{
    if stream.len() == 0 {
        true
    } else {
        match stream[0] {
            Status::Timeout => true,
            Status::Ready(w) => window_accepted(range, fft_size, w@) && (range_active(
                range,
                w@.samples,
            ) || pull_accepted(range, fft_size, stream.drop_first())),
        }
    }
}

/// An iterator adapter that filters bins of windows
pub struct FilterBinsIter<I> {
    /// Inner iterator
    pub inner: I,
    /// Filter
    pub filter: FilterBins,
}

impl<I> FilterBinsIter<I> {
    /// Creates a window-bin-filtering iterator adapter
    pub fn new(inner: I, bins: BinRange, fft_size: u16) -> (r: FilterBinsIter<I>)
        requires
            bins.start <= bins.end,
            bins.size_spec() <= fft_size,
        ensures
            r.inner == inner,
            r.filter.range() == bins,
            r.filter.fft_size_spec() == fft_size,
    {
        FilterBinsIter { inner, filter: FilterBins::new(bins, fft_size) }
    }

    /// Whether the inner source obeys the iterator laws and has a measure
    /// that each item it produces decreases, so that it eventually ends
    pub open spec fn source_ends(&self) -> bool where I: Iterator {
        self.inner.obeys_prophetic_iter_laws() && self.inner.decrease() is Some
    }

    /// Returns the next timeout or filtered window, skipping windows that
    /// have no active bin in the filter's range; `None` when the source ends
    pub fn next(&mut self) -> (r: Option<Status<Window>>)
        where I: Iterator<Item = Status<Window>>,
        requires
            old(self).source_ends(),
            pull_accepted(
                old(self).filter.range(),
                old(self).filter.fft_size_spec(),
                old(self).inner.remaining(),
            ),
        ensures
            final(self).filter == old(self).filter,
            final(self).source_ends(),
            ({
                let pulled = filter_pull(
                    old(self).filter.range(),
                    old(self).filter.fft_size_spec(),
                    old(self).inner.remaining(),
                );
                &&& final(self).inner.remaining() == old(self).inner.remaining().skip(pulled.0 as int)
                &&& item_view(r) == pulled.1
            }),
    {
        let ghost range = self.filter.range();
        let ghost fft_size = self.filter.fft_size_spec();
        let ghost orig = self.inner.remaining();
        let ghost mut taken: nat = 0;
        loop
            invariant
                self.source_ends(),
                self.filter == old(self).filter,
                range == self.filter.range(),
                fft_size == self.filter.fft_size_spec(),
                orig == old(self).inner.remaining(),
                taken <= orig.len(),
                self.inner.remaining() == orig.skip(taken as int),
                pull_accepted(range, fft_size, self.inner.remaining()),
                filter_pull(range, fft_size, orig) == (
                    taken + filter_pull(range, fft_size, self.inner.remaining()).0,
                    filter_pull(range, fft_size, self.inner.remaining()).1,
                ),
            decreases self.inner.decrease()->0,
        {
            let ghost cur = self.inner.remaining();
            let item = self.inner.next();
            match item {
                None => {
                    return None;
                },
                Some(Status::Timeout) => {
                    proof {
                        assert(orig.skip(taken as int).skip(1) =~= orig.skip(taken + 1int));
                    }
                    return Some(Status::Timeout);
                },
                Some(Status::Ready(window)) => {
                    proof {
                        assert(cur[0] == Status::Ready(window));
                        assert(orig.skip(taken as int).drop_first() =~= orig.skip(taken + 1int));
                        taken = taken + 1;
                    }
                    if let Some(filtered) = self.filter.filter_window(window) {
                        return Some(Status::Ready(filtered));
                    }
                },
            }
        }
    }
}

/// The first output position of the centered region: `fft_size / 2 - size / 2`
pub open spec fn center_start(range: BinRange, fft_size: u16) -> int {
    (fft_size / 2) as int - range.size_spec() / 2
}

/// Filtering keeps the bins of the range in order and centers them in the
/// output: bin `k` of the range lands at position
/// `k - start + fft_size / 2 - size / 2`, which lies in `0..fft_size`, and
/// every other output bin is zero. This holds for every window at least
/// `fft_size` bins long that contains the range.
pub proof fn lemma_filter_centers_range(range: BinRange, fft_size: u16, w: WindowView)
    requires
        range.start <= range.end,
        range.size_spec() <= fft_size,
        fft_size <= w.samples.len(),
        range.end <= w.samples.len(),
    ensures
        filtered(range, fft_size, w).samples.len() == fft_size,
        filtered(range, fft_size, w).time == w.time,
        forall|k: int|
            #![trigger w.samples[k]]
            range.start <= k < range.end ==> {
                &&& 0 <= k - range.start + center_start(range, fft_size) < fft_size
                &&& filtered(range, fft_size, w).samples[k - range.start + center_start(
                    range,
                    fft_size,
                )] == w.samples[k]
            },
        forall|j: int|
            0 <= j < fft_size && !(center_start(range, fft_size) <= j < center_start(range, fft_size)
                + range.size_spec()) ==> #[trigger] filtered(range, fft_size, w).samples[j]
                == Sample::zero_spec(),
{
    let len = w.samples.len() as int;
    let f = filtered(range, fft_size, w);
    assert forall|k: int| #![trigger w.samples[k]] range.start <= k < range.end implies {
        &&& 0 <= k - range.start + center_start(range, fft_size) < fft_size
        &&& f.samples[k - range.start + center_start(range, fft_size)] == w.samples[k]
    } by {
        let j = k - range.start + center_start(range, fft_size);
        assert(j + shift(range, fft_size) == k);
        lemma_mod_near(k, len);
    }
    assert forall|j: int|
        0 <= j < fft_size && !(center_start(range, fft_size) <= j < center_start(range, fft_size)
            + range.size_spec()) implies #[trigger] f.samples[j] == Sample::zero_spec() by {
        let x = j + shift(range, fft_size);
        lemma_mod_near(x, len);
    }
}

/// Everything that a `FilterBinsIter` yields from `stream`, in order: each
/// timeout, and each window with an active bin in the range, filtered;
/// windows without an active bin are dropped
pub open spec fn filter_all(range: BinRange, fft_size: u16, stream: Seq<Status<Window>>) -> Seq<
    Status<WindowView>,
>
    decreases stream.len(),
{
    if stream.len() == 0 {
        seq![]
    } else {
        let rest = filter_all(range, fft_size, stream.drop_first());
        match stream[0] {
            Status::Timeout => seq![Status::Timeout] + rest,
            Status::Ready(w) => if range_active(range, w@.samples) {
                seq![Status::Ready(filtered(range, fft_size, w@))] + rest
            } else {
                rest
            },
        }
    }
}

/// One call of `FilterBinsIter::next` takes at least one item unless the
/// stream is exhausted, and never more than the stream holds
pub proof fn lemma_filter_pull_bounds(range: BinRange, fft_size: u16, stream: Seq<Status<Window>>)
    ensures
        filter_pull(range, fft_size, stream).0 <= stream.len(),
        filter_pull(range, fft_size, stream).1 is Some ==> filter_pull(range, fft_size, stream).0 >= 1,
        filter_pull(range, fft_size, stream).1 is None <==> filter_pull(range, fft_size, stream).0
            == stream.len() && filter_all(range, fft_size, stream).len() == 0,
    decreases stream.len(),
{
    if stream.len() > 0 {
        lemma_filter_pull_bounds(range, fft_size, stream.drop_first());
    }
}

/// The outputs of calling `FilterBinsIter::next` on `stream` again and again
/// until it returns `None`
pub open spec fn filter_outputs(range: BinRange, fft_size: u16, stream: Seq<Status<Window>>) -> Seq<
    Status<WindowView>,
>
    decreases stream.len(),
{
    let pulled = filter_pull(range, fft_size, stream);
    if pulled.1 is Some && 1 <= pulled.0 <= stream.len() {
        seq![pulled.1->0] + filter_outputs(range, fft_size, stream.skip(pulled.0 as int))
    } else {
        seq![]
    }
}

/// Draining a `FilterBinsIter` yields exactly the timeouts and the filtered
/// active windows of its source, in their order, and nothing else
pub proof fn lemma_filter_drains_stream(range: BinRange, fft_size: u16, stream: Seq<Status<Window>>)
    ensures
        filter_outputs(range, fft_size, stream) == filter_all(range, fft_size, stream),
    decreases stream.len(),
{
    lemma_filter_pull_bounds(range, fft_size, stream);
    if stream.len() > 0 {
        let rest = stream.drop_first();
        lemma_filter_drains_stream(range, fft_size, rest);
        lemma_filter_pull_bounds(range, fft_size, rest);
        match stream[0] {
            Status::Timeout => {
                assert(stream.skip(1) =~= rest);
            },
            Status::Ready(w) => {
                if range_active(range, w@.samples) {
                    assert(stream.skip(1) =~= rest);
                } else {
                    let p = filter_pull(range, fft_size, rest);
                    if p.1 is Some {
                        assert(stream.skip(p.0 + 1int) =~= rest.skip(p.0 as int));
                    }
                }
            },
        }
    }
}

/// Once `FilterBinsIter::next` returns `None` (with the source obeying the
/// iterator laws), the source has nothing left, and every later call returns
/// `None` again
pub proof fn lemma_filter_exhausted_stays(range: BinRange, fft_size: u16, stream: Seq<Status<Window>>)
    requires
        filter_pull(range, fft_size, stream).1 is None,
    ensures
        ({
            let left = stream.skip(filter_pull(range, fft_size, stream).0 as int);
            &&& left.len() == 0
            &&& filter_pull(range, fft_size, left) == (0nat, None::<Status<WindowView>>)
        }),
{
    lemma_filter_pull_bounds(range, fft_size, stream);
}

/// A range is active in a window exactly when some bin `k` with
/// `start <= k < end` is non-zero: a non-zero bin anywhere in the range makes
/// it active, and a range whose bins are all zero is not
pub proof fn lemma_active_iff_nonzero_bin(range: BinRange, bins: Seq<Sample>)
    ensures
        range_active(range, bins) <==> exists|k: int|
            range.start <= k < range.end && !(#[trigger] bins[k]).is_zero_spec(),
        forall|k: int|
            range.start <= k < range.end && !(#[trigger] bins[k]).is_zero_spec() ==> range_active(
                range,
                bins,
            ),
        (forall|k: int| range.start <= k < range.end ==> (#[trigger] bins[k]).is_zero_spec())
            ==> !range_active(range, bins),
{
}

/// Every window that filtering handles without failing is accepted: the
/// range lies inside the window, the middle fits in an `i16`, and a move of
/// the bins towards the end (negative offset) is no longer than the window.
/// A move towards the start is never refused, however far the centered bins
/// end up from the end of the window.
pub proof fn lemma_handled_windows_accepted(range: BinRange, fft_size: u16, w: WindowView)
    requires
        range.end <= w.samples.len(),
        range.start + (range.end - range.start) / 2 <= 0x7fff,
        ({
            let offset = range.start + (range.end - range.start) / 2 - (fft_size / 2) as int;
            offset < 0 ==> -offset <= w.samples.len()
        }),
    ensures
        window_accepted(range, fft_size, w),
{
}

/// For every window that contains the range, however short: the filtered
/// window keeps the window's time, has `fft_size` bins or the window's
/// length if that is smaller, and bin `k` of the range lands at position
/// `k - start + fft_size / 2 - size / 2` whenever that position is kept
pub proof fn lemma_filter_keeps_range_bins(range: BinRange, fft_size: u16, w: WindowView)
    requires
        range.start <= range.end <= w.samples.len(),
        range.size_spec() <= fft_size,
    ensures
        filtered(range, fft_size, w).time == w.time,
        filtered(range, fft_size, w).samples.len() == (if (fft_size as int) < w.samples.len() {
            fft_size as int
        } else {
            w.samples.len() as int
        }),
        forall|k: int|
            #![trigger w.samples[k]]
            range.start <= k < range.end ==> {
                let j = k - range.start + (fft_size / 2) as int - (range.end - range.start) / 2;
                &&& 0 <= j
                &&& j < filtered(range, fft_size, w).samples.len() ==> filtered(
                    range,
                    fft_size,
                    w,
                ).samples[j] == w.samples[k]
            },
{
    let len = w.samples.len() as int;
    assert forall|k: int| #![trigger w.samples[k]] range.start <= k < range.end implies {
        let j = k - range.start + (fft_size / 2) as int - (range.end - range.start) / 2;
        &&& 0 <= j
        &&& j < filtered(range, fft_size, w).samples.len() ==> filtered(
            range,
            fft_size,
            w,
        ).samples[j] == w.samples[k]
    } by {
        let j = k - range.start + (fft_size / 2) as int - (range.end - range.start) / 2;
        assert(j + shift(range, fft_size) == k);
        lemma_mod_near(k, len);
    }
}

} // verus!
