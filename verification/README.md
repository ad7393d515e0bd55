# reconstruct

Verified steps of a signal-reconstruction pipeline, written in Verus.

- `src/window.rs`: samples (complex values held as IEEE-754 bit patterns),
  time windows and windows of frequency bins.
- `src/bins.rs`: ranges of frequency bins.
- `src/steps/filter_bins.rs`: keeps the bins of a range, centers them in a
  window of the FFT size, and drops windows without an active bin.
- `src/steps/overlap.rs`: turns a stream of windows into half-windows,
  adding overlapping halves and filling gaps with zeros.
- `src/steps/overlap_laws.rs`: laws of the overlap step over whole streams
  with timeouts: windows and gaps, extra timeouts, calls that are always
  allowed, and staying exhausted.
- `app/lib.rs`: `Iterator` adapters over `num_complex` values around the
  verified steps, including the floating-point addition of samples.
