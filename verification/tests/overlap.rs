use num_complex::Complex32;
use num_traits::Zero;
use reconstruct::steps::overlap::{overlap_windows, zero_samples, Overlap, State};
use reconstruct::window::{Sample, Status, TimeWindow};

fn sample(v: Complex32) -> Sample {
    Sample::from_bits(v.re.to_bits(), v.im.to_bits())
}

fn complex(s: Sample) -> Complex32 {
    Complex32::new(f32::from_bits(s.re), f32::from_bits(s.im))
}

fn add(a: Sample, b: Sample) -> Sample {
    sample(complex(a) + complex(b))
}

fn window(time: u64, samples: &[Complex32]) -> TimeWindow {
    TimeWindow::new(time, samples.iter().copied().map(sample).collect())
}

fn check_iter<I>(window_size: usize, windows: I, expected: &[Complex32])
where
    I: IntoIterator<Item = Status<TimeWindow>>,
{
    let mut overlap = Overlap::new(windows.into_iter(), window_size);
    let mut result: Vec<Complex32> = Vec::new();
    while let Some(half) = overlap.next(&add) {
        result.extend(half.samples.iter().copied().map(complex));
    }
    assert_eq!(&*result, expected);
}

#[test]
fn test_one_window() {
    let samples = vec![
        Complex32::new(1.0, 2.0),
        Complex32::new(0.2, 0.05),
        Complex32::new(127.0, 6.21),
        Complex32::new(-0.3, -9.2),
    ];
    let windows = std::iter::once(window(0, &samples));
    check_iter(4, windows.map(Status::Ready), &samples);
}

#[test]
fn test_two_windows_no_gap() {
    let samples1 = vec![
        Complex32::new(1.0, 2.0),
        Complex32::new(0.2, 0.05),
        Complex32::new(127.0, 6.21),
        Complex32::new(-0.3, -9.2),
    ];

    let samples2 = vec![
        Complex32::new(5.0, 6.0),
        Complex32::new(3.2, 127.05),
        Complex32::new(6.0, 9.26),
        Complex32::new(-2.3, -16.2),
    ];
    // Middle two samples overlap
    let expected_samples = vec![
        Complex32::new(1.0, 2.0),
        Complex32::new(0.2, 0.05),
        Complex32::new(127.0 + 5.0, 6.21 + 6.0),
        Complex32::new(-0.3 + 3.2, -9.2 + 127.05),
        Complex32::new(6.0, 9.26),
        Complex32::new(-2.3, -16.2),
    ];

    let windows = vec![window(0, &samples1), window(1, &samples2)];
    check_iter(4, windows.into_iter().map(Status::Ready), &expected_samples);
}

#[test]
fn test_two_windows_timeout() {
    let samples1 = vec![
        Complex32::new(1.0, 2.0),
        Complex32::new(0.2, 0.05),
        Complex32::new(127.0, 6.21),
        Complex32::new(-0.3, -9.2),
    ];

    let samples2 = vec![
        Complex32::new(5.0, 6.0),
        Complex32::new(3.2, 127.05),
        Complex32::new(6.0, 9.26),
        Complex32::new(-2.3, -16.2),
    ];
    // No overlap because of timeout
    let expected_samples = vec![
        Complex32::new(1.0, 2.0),
        Complex32::new(0.2, 0.05),
        Complex32::new(127.0, 6.21),
        Complex32::new(-0.3, -9.2),
        Complex32::new(5.0, 6.0),
        Complex32::new(3.2, 127.05),
        Complex32::new(6.0, 9.26),
        Complex32::new(-2.3, -16.2),
    ];

    let windows = vec![
        Status::Ready(window(0, &samples1)),
        Status::Timeout,
        Status::Ready(window(1, &samples2)),
    ];
    check_iter(4, windows, &expected_samples);
}

fn two_windows(time2: u64) -> [TimeWindow; 2] {
    [
        window(1, &[Complex32::new(1.0, 1.0), Complex32::new(0.0, 2.0)]),
        window(time2, &[Complex32::new(7.0, 8.0), Complex32::new(9.0, 10.0)]),
    ]
}

#[test]
fn gap_adjacent() {
    // Windows with a time difference of 2 get concatenated together without a gap
    let windows = two_windows(3);
    let expected = [
        Complex32::new(1.0, 1.0),
        Complex32::new(0.0, 2.0),
        Complex32::new(7.0, 8.0),
        Complex32::new(9.0, 10.0),
    ];
    check_iter(2, windows.iter().cloned().map(Status::Ready), &expected);
}

#[test]
fn gap_one_half() {
    // Windows with a time difference of 3 are separated by a half-window gap
    let windows = two_windows(4);
    let expected = [
        Complex32::new(1.0, 1.0),
        Complex32::new(0.0, 2.0),
        Complex32::zero(), // gap
        Complex32::new(7.0, 8.0),
        Complex32::new(9.0, 10.0),
    ];
    check_iter(2, windows.iter().cloned().map(Status::Ready), &expected);
}

#[test]
fn gap_two_half() {
    // Windows with a time difference of 4 are separated by a full-window gap
    let windows = two_windows(5);
    let expected = [
        Complex32::new(1.0, 1.0),
        Complex32::new(0.0, 2.0),
        Complex32::zero(), // gap
        Complex32::zero(), // gap
        Complex32::new(7.0, 8.0),
        Complex32::new(9.0, 10.0),
    ];
    check_iter(2, windows.iter().cloned().map(Status::Ready), &expected);
}

#[test]
fn gap_three_half() {
    // Windows with a time difference of 5 are separated by a 1.5-window gap
    let windows = two_windows(6);
    let expected = [
        Complex32::new(1.0, 1.0),
        Complex32::new(0.0, 2.0),
        Complex32::zero(), // gap
        Complex32::zero(), // gap
        Complex32::zero(), // gap
        Complex32::new(7.0, 8.0),
        Complex32::new(9.0, 10.0),
    ];
    check_iter(2, windows.iter().cloned().map(Status::Ready), &expected);
}

// Further cases

#[test]
fn leading_timeouts_are_skipped() {
    let samples = [Complex32::new(1.0, 0.0), Complex32::new(2.0, 0.0)];
    let items = vec![Status::Timeout, Status::Timeout, Status::Ready(window(9, &samples))];
    check_iter(2, items, &samples);
}

#[test]
fn empty_source_gives_nothing() {
    let mut overlap = Overlap::new(Vec::<Status<TimeWindow>>::new().into_iter(), 4);
    assert!(overlap.next(&add).is_none());
    assert!(overlap.next(&add).is_none());
    assert!(matches!(overlap.state, State::Idle));
}

#[test]
fn half_windows_keep_their_times() {
    let items = vec![
        Status::Ready(window(5, &[Complex32::new(1.0, 0.0), Complex32::new(2.0, 0.0)])),
        Status::Ready(window(8, &[Complex32::new(3.0, 0.0), Complex32::new(4.0, 0.0)])),
    ];
    let mut overlap = Overlap::new(items.into_iter(), 2);
    let times: Vec<u64> = std::iter::from_fn(|| overlap.next(&add)).map(|w| w.time).collect();
    // first half, previous half, one gap half (time of the next window), first half, second half
    assert_eq!(times, vec![5, 5, 8, 8, 8]);
}

#[test]
fn state_after_gap_window() {
    let items = vec![
        Status::Ready(window(0, &[Complex32::new(1.0, 0.0), Complex32::new(2.0, 0.0)])),
        Status::Ready(window(7, &[Complex32::new(3.0, 0.0), Complex32::new(4.0, 0.0)])),
    ];
    let mut overlap = Overlap::new(items.into_iter(), 2);
    overlap.next(&add);
    overlap.next(&add);
    match &overlap.state {
        State::Gap { remaining_half_windows, next_window } => {
            assert_eq!(*remaining_half_windows, 5);
            assert_eq!(next_window.time, 7);
        }
        _ => panic!("expected a gap"),
    }
}

#[test]
fn overlap_windows_adds_first_half() {
    let mut first = window(3, &[Complex32::new(1.0, 2.0), Complex32::new(3.0, 4.0)]);
    let second = window(
        4,
        &[
            Complex32::new(10.0, 20.0),
            Complex32::new(30.0, 40.0),
            Complex32::new(50.0, 60.0),
            Complex32::new(70.0, 80.0),
        ],
    );
    overlap_windows(&mut first, &second, &add);
    assert_eq!(first.time, 3);
    let values: Vec<Complex32> = first.samples.iter().copied().map(complex).collect();
    assert_eq!(values, vec![Complex32::new(11.0, 22.0), Complex32::new(33.0, 44.0)]);
}

#[test]
fn wait_skips_timeouts_only() {
    let items = vec![Status::Timeout, Status::Ready(window(2, &[Complex32::new(1.0, 0.0)])), Status::Timeout];
    let mut overlap = Overlap::new(items.into_iter(), 2);
    let w = overlap.wait_for_next_window().unwrap();
    assert_eq!(w.time, 2);
    assert!(overlap.wait_for_next_window().is_none());
}

#[test]
fn zero_samples_are_zero() {
    let zeros = zero_samples(3);
    assert_eq!(zeros.len(), 3);
    assert!(zeros.iter().all(|z| z.is_zero() && complex(*z) == Complex32::zero()));
}

#[test]
fn odd_window_halves() {
    // A window of 3 samples splits into 1 + 2
    let items = vec![Status::Ready(window(0, &[
        Complex32::new(1.0, 0.0),
        Complex32::new(2.0, 0.0),
        Complex32::new(3.0, 0.0),
    ]))];
    let mut overlap = Overlap::new(items.into_iter(), 3);
    assert_eq!(overlap.next(&add).unwrap().samples.len(), 1);
    assert_eq!(overlap.next(&add).unwrap().samples.len(), 2);
    assert!(overlap.next(&add).is_none());
}

#[test]
fn output_is_overlap_add_of_windows() {
    // Windows of 4 samples at times 0, 1, 3 and 6 (in half-windows of 2 samples)
    // land at sample positions 0, 2, 6 and 12
    let w = |time: u64, base: f32| {
        window(time, &[
            Complex32::new(base, 0.0),
            Complex32::new(base + 1.0, 0.0),
            Complex32::new(base + 2.0, 0.0),
            Complex32::new(base + 3.0, 0.0),
        ])
    };
    let items = vec![w(0, 10.0), w(1, 20.0), w(3, 30.0), w(6, 40.0)];
    let expected: Vec<Complex32> = [
        10.0, 11.0, 12.0 + 20.0, 13.0 + 21.0, 22.0, 23.0, 30.0, 31.0, 32.0, 33.0, 0.0, 0.0, 40.0, 41.0,
        42.0, 43.0,
    ]
    .iter()
    .map(|&re| Complex32::new(re, 0.0))
    .collect();
    check_iter(4, items.into_iter().map(Status::Ready), &expected);
}

#[test]
fn windows_separated_by_timeouts_and_gaps() {
    let a = [Complex32::new(1.0, 0.0), Complex32::new(2.0, 0.0)];
    let b = [Complex32::new(3.0, 0.0), Complex32::new(4.0, 0.0)];
    let c = [Complex32::new(5.0, 0.0), Complex32::new(6.0, 0.0)];
    // A timeout separates the first two windows, whatever their times; the last
    // two are 3 half-windows apart, so one zero half-window lies between them
    let items = vec![
        Status::Ready(window(1, &a)),
        Status::Timeout,
        Status::Ready(window(1, &b)),
        Status::Ready(window(4, &c)),
        Status::Timeout,
        Status::Timeout,
    ];
    let expected = [a[0], a[1], b[0], b[1], Complex32::zero(), c[0], c[1]];
    check_iter(2, items, &expected);
}

#[test]
fn extra_timeouts_change_nothing() {
    let a = [Complex32::new(1.0, 0.0), Complex32::new(2.0, 0.0)];
    let b = [Complex32::new(3.0, 0.0), Complex32::new(4.0, 0.0)];
    let c = [Complex32::new(5.0, 0.0), Complex32::new(6.0, 0.0)];
    let plain = vec![
        Status::Ready(window(0, &a)),
        Status::Timeout,
        Status::Ready(window(1, &b)),
        Status::Ready(window(2, &c)),
    ];
    let padded = vec![
        Status::Timeout,
        Status::Timeout,
        Status::Ready(window(0, &a)),
        Status::Timeout,
        Status::Timeout,
        Status::Timeout,
        Status::Ready(window(1, &b)),
        Status::Ready(window(2, &c)),
        Status::Timeout,
    ];
    let halves = |items: Vec<Status<TimeWindow>>| {
        let mut overlap = Overlap::new(items.into_iter(), 2);
        std::iter::from_fn(move || overlap.next(&add)).collect::<Vec<TimeWindow>>()
    };
    let out = halves(plain);
    assert_eq!(out, halves(padded));
    assert_eq!(out.len(), 5);
}

#[test]
fn exhausted_overlap_stays_exhausted() {
    let items = vec![Status::Ready(window(0, &[Complex32::new(1.0, 0.0), Complex32::new(2.0, 0.0)]))];
    let mut overlap = Overlap::new(items.into_iter(), 2);
    assert!(overlap.next(&add).is_some());
    assert!(overlap.next(&add).is_some());
    assert!(overlap.next(&add).is_none());
    assert!(overlap.next(&add).is_none());
    assert!(matches!(overlap.state, State::Idle));
}
