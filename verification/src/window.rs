//! Samples and windows of samples.

use vstd::prelude::*;

verus! {

/// One complex sample, held as the IEEE-754 single-precision bit patterns of
/// its real and imaginary parts.
#[derive(Clone, Copy, Debug, PartialEq, Eq)]
pub struct Sample {
    /// Bits of the real part
    pub re: u32,
    /// Bits of the imaginary part
    pub im: u32,
}

/// Whether the bit pattern `bits` encodes a zero (positive or negative)
pub open spec fn is_zero_bits(bits: u32) -> bool {
    bits == 0 || bits == 0x8000_0000
}

impl Sample {
    /// A sample is zero when both of its parts are +0.0 or -0.0
    pub open spec fn is_zero_spec(self) -> bool {
        is_zero_bits(self.re) && is_zero_bits(self.im)
    }

    /// The sample 0 + 0i, both parts +0.0
    pub open spec fn zero_spec() -> Sample {
        Sample { re: 0, im: 0 }
    }

    /// Creates a sample from the bit patterns of its two parts
    pub fn from_bits(re: u32, im: u32) -> (r: Sample)
        ensures
            r.re == re,
            r.im == im,
    {
        Sample { re, im }
    }

    /// Returns the sample 0 + 0i
    pub fn zero() -> (r: Sample)
        ensures
            r == Sample::zero_spec(),
            r.is_zero_spec(),
    {
        Sample { re: 0, im: 0 }
    }

    /// Returns true if both parts of this sample are zero
    pub fn is_zero(&self) -> (r: bool)
        ensures
            r == self.is_zero_spec(),
    {
        (self.re == 0 || self.re == 0x8000_0000) && (self.im == 0 || self.im == 0x8000_0000)
    }
}

/// The result of waiting for an item from a source that may time out
#[derive(Clone, Debug, PartialEq)]
pub enum Status<T> {
    /// An item arrived
    Ready(T),
    /// Nothing arrived before the timeout
    Timeout,
}

/// The mathematical content of a window: its time and its samples
pub struct WindowView {
    pub time: u64,
    pub samples: Seq<Sample>,
}

/// The first `len / 2` samples of a window, with the window's time
pub open spec fn first_half(w: WindowView) -> WindowView {
    WindowView { time: w.time, samples: w.samples.take((w.samples.len() / 2) as int) }
}

/// The samples of a window from `len / 2` on, with the window's time
pub open spec fn second_half(w: WindowView) -> WindowView {
    WindowView { time: w.time, samples: w.samples.skip((w.samples.len() / 2) as int) }
}

/// A sequence of `n` zero samples
pub open spec fn zeros(n: nat) -> Seq<Sample> {
    Seq::new(n, |i: int| Sample::zero_spec())
}

/// A window of time-domain samples with a time stamp counted in half-windows
#[derive(Clone, Debug, PartialEq)]
pub struct TimeWindow {
    /// Time of this window
    pub time: u64,
    /// Samples
    pub samples: Vec<Sample>,
}

impl View for TimeWindow {
    type V = WindowView;

    open spec fn view(&self) -> WindowView {
        WindowView { time: self.time, samples: self.samples@ }
    }
}

impl TimeWindow {
    /// Creates a window from a time and samples
    pub fn new(time: u64, samples: Vec<Sample>) -> (r: TimeWindow)
        ensures
            r.time == time,
            r.samples@ == samples@,
    {
        TimeWindow { time, samples }
    }

    /// Returns the time of this window
    pub fn time(&self) -> (r: u64)
        ensures
            r == self.time,
    {
        self.time
    }

    /// Returns the number of samples
    pub fn len(&self) -> (r: usize)
        ensures
            r == self.samples@.len(),
    {
        self.samples.len()
    }

    /// Returns a copy of the first `len / 2` samples
    pub fn first_half(&self) -> (r: Vec<Sample>)
        ensures
            r@ == first_half(self@).samples,
    {
        let half = self.samples.len() / 2;
        let mut out: Vec<Sample> = Vec::new();
        let mut i: usize = 0;
        while i < half
            invariant
                half == self.samples@.len() / 2,
                i <= half,
                out@ == self.samples@.take(i as int),
            decreases half - i,
        {
            out.push(self.samples[i]);
            i = i + 1;
            assert(out@ =~= self.samples@.take(i as int));
        }
        out
    }

    /// Consumes this window and returns a window with the same time holding
    /// the samples from `len / 2` on
    pub fn into_second_half(self) -> (r: TimeWindow)
        ensures
            r@ == second_half(self@),
    {
        let len = self.samples.len();
        let half = len / 2;
        let mut out: Vec<Sample> = Vec::new();
        let mut i: usize = half;
        while i < len
            invariant
                len == self.samples@.len(),
                half == len / 2,
                half <= i <= len,
                out@ == self.samples@.subrange(half as int, i as int),
            decreases len - i,
        {
            out.push(self.samples[i]);
            i = i + 1;
            assert(out@ =~= self.samples@.subrange(half as int, i as int));
        }
        assert(out@ =~= self.samples@.skip(half as int));
        TimeWindow { time: self.time, samples: out }
    }

    /// Consumes this window and returns its samples
    pub fn into_samples(self) -> (r: Vec<Sample>)
        ensures
            r@ == self.samples@,
    {
        self.samples
    }
}

/// A window of frequency bins in logical order, with a time stamp
#[derive(Clone, Debug, PartialEq)]
pub struct Window {
    /// Time of this window
    pub time: u64,
    /// Frequency bins
    pub bins: Vec<Sample>,
}

impl View for Window {
    type V = WindowView;

    open spec fn view(&self) -> WindowView {
        WindowView { time: self.time, samples: self.bins@ }
    }
}

impl Window {
    /// Creates a window of `size` zero bins
    pub fn new_logical(time: u64, size: usize) -> (r: Window)
        ensures
            r.time == time,
            r.bins@ == zeros(size as nat),
    {
        let mut bins: Vec<Sample> = Vec::new();
        let mut i: usize = 0;
        while i < size
            invariant
                i <= size,
                bins@ == zeros(i as nat),
            decreases size - i,
        {
            bins.push(Sample::zero());
            i = i + 1;
            assert(bins@ =~= zeros(i as nat));
        }
        Window { time, bins }
    }

    /// Returns the number of bins
    pub fn len(&self) -> (r: usize)
        ensures
            r == self.bins@.len(),
    {
        self.bins.len()
    }

    /// Keeps only the first `size` bins (all of them if there are fewer)
    pub fn truncate_bins(&mut self, size: usize)
        ensures
            final(self).time == old(self).time,
            final(self).bins@ == old(self).bins@.take(
                if size < old(self).bins@.len() { size as int } else { old(self).bins@.len() as int },
            ),
    {
        self.bins.truncate(size);
        assert(self.bins@ =~= old(self).bins@.take(
            if size < old(self).bins@.len() { size as int } else { old(self).bins@.len() as int },
        ));
    }
}

/// A sample is zero exactly when each part is +0.0 (bits 0) or -0.0 (only
/// the sign bit set); the zero sample has all bits clear
pub proof fn lemma_zero_samples(s: Sample)
    ensures
        s.is_zero_spec() <==> ((s.re == 0 || s.re == 0x8000_0000) && (s.im == 0 || s.im
            == 0x8000_0000)),
        Sample::zero_spec().re == 0 && Sample::zero_spec().im == 0,
{
}

/// A run of `n` zeros holds `n` samples, each with all bits clear
pub proof fn lemma_zeros_are_zero(n: nat)
    ensures
        zeros(n).len() == n,
        forall|i: int| 0 <= i < n ==> #[trigger] zeros(n)[i] == (Sample { re: 0, im: 0 }),
{
}

/// The first half of a window holds its first `len / 2` samples and the
/// second half the rest, both keeping the window's time
pub proof fn lemma_halves_of_window(w: WindowView)
    ensures
        first_half(w).time == w.time,
        second_half(w).time == w.time,
        first_half(w).samples.len() == w.samples.len() / 2,
        second_half(w).samples.len() == w.samples.len() - w.samples.len() / 2,
        forall|i: int|
            0 <= i < w.samples.len() / 2 ==> #[trigger] first_half(w).samples[i] == w.samples[i],
        forall|i: int|
            0 <= i < w.samples.len() - w.samples.len() / 2 ==> #[trigger] second_half(w).samples[i]
                == w.samples[i + w.samples.len() / 2],
{
}

} // verus!
