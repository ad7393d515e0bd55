use num_complex::Complex32;
use reconstruct::bins::BinRange;
use reconstruct::steps::filter_bins::{matches_range, FilterBins, FilterBinsIter};
use reconstruct::window::{Sample, Status, Window};

fn sample(v: Complex32) -> Sample {
    Sample::from_bits(v.re.to_bits(), v.im.to_bits())
}

fn check_windows(bins: BinRange, fft_size: u16, input: Window, expected: Option<Window>) {
    let mut filter = FilterBins::new(bins, fft_size);
    let actual_window = filter.filter_window(input);
    if actual_window != expected {
        println!("Expected: {:?}", expected);
        println!("Actual:   {:?}", actual_window);
        panic!("Windows don't match");
    }
}

#[test]
fn test_windows_out_of_range() {
    let mut window = Window::new_logical(0, 2048);
    // Put some things in the lower half
    window.bins[0] = sample(Complex32::new(3.0, 4.0));
    window.bins[1023] = sample(Complex32::new(5.0, 6.0));
    let bins = BinRange::from(1024..2047);
    let fft_size = 1024;
    check_windows(bins, fft_size, window, None);
}

#[test]
fn test_windows_one_bin() {
    let mut window = Window::new_logical(0, 2048);
    // Put some things in the lower half
    window.bins[0] = sample(Complex32::new(3.0, 4.0));
    window.bins[1023] = sample(Complex32::new(5.0, 6.0));

    let expected = {
        let mut expected = Window::new_logical(0, 1);
        expected.bins[0] = sample(Complex32::new(5.0, 6.0));
        expected
    };

    let bins = BinRange::from(1023..1024);
    let fft_size = 1;
    check_windows(bins, fft_size, window, Some(expected));
}

fn short_window() -> Window {
    let mut window = Window::new_logical(0, 8);
    // Put some things in the middle
    window.bins[3] = sample(Complex32::new(3.0, 4.0));
    window.bins[4] = sample(Complex32::new(5.0, 6.0));
    // Put some things just inside the middle 4
    window.bins[5] = sample(Complex32::new(7.0, 8.0));
    // Put some things just outside the middle 4
    window.bins[6] = sample(Complex32::new(33.0, 621.0));
    window.bins[7] = sample(Complex32::new(44.0, 45.0));
    // Put something at the start
    window.bins[0] = sample(Complex32::new(1.0, 2.0));
    window
}

#[test]
fn test_windows_centered_short() {
    // Keep the 4 bins in the middle of the 8
    let bins = BinRange::from(2..6);
    let fft_size = 4;
    let window = short_window();
    let expected = {
        let mut expected = Window::new_logical(0, 4);
        // Those two nonzero values should stay at the center
        expected.bins[1] = sample(Complex32::new(3.0, 4.0));
        expected.bins[2] = sample(Complex32::new(5.0, 6.0));
        // The one other nonzero thing should be at the end
        expected.bins[3] = sample(Complex32::new(7.0, 8.0));
        expected
    };
    check_windows(bins, fft_size, window, Some(expected));
}

#[test]
fn test_windows_centered_short_larger_fft() {
    // Keep the 4 bins in the middle of the 8
    let bins = BinRange::from(2..6);
    // Since the FFT size is 8, the resulting window should have size 8 but should only include
    // the 4 selected bins
    let fft_size = 8;
    let window = short_window();
    let expected = {
        let mut expected = Window::new_logical(0, 8);
        // Those two nonzero values should stay at the center
        expected.bins[3] = sample(Complex32::new(3.0, 4.0));
        expected.bins[4] = sample(Complex32::new(5.0, 6.0));
        // The one other nonzero thing should be at the end
        expected.bins[5] = sample(Complex32::new(7.0, 8.0));
        expected
    };
    check_windows(bins, fft_size, window, Some(expected));
}

#[test]
fn test_windows_centered() {
    // Keep the 1024 bins in the middle of the 2048
    let bins = BinRange::from(512..1536);
    let fft_size = 1024;
    let window = {
        let mut window = Window::new_logical(0, 2048);
        // Put some things in the middle
        window.bins[1023] = sample(Complex32::new(3.0, 4.0));
        window.bins[1024] = sample(Complex32::new(5.0, 6.0));
        // Put some things at the ends
        window.bins[0] = sample(Complex32::new(1.0, 2.0));
        window.bins[2047] = sample(Complex32::new(9.0, 10.0));
        window
    };
    let expected = {
        let mut expected = Window::new_logical(0, 1024);
        // Those two nonzero values should stay at the center
        expected.bins[511] = sample(Complex32::new(3.0, 4.0));
        expected.bins[512] = sample(Complex32::new(5.0, 6.0));
        expected
    };
    check_windows(bins, fft_size, window, Some(expected));
}

#[test]
fn test_large_fft_before_start() {
    // 50 bins centered at 15 would run past the beginning of the FFT, but this should
    // still work.
    let bins = BinRange::from(10..20);
    let fft_size = 50u16;
    let window = {
        let mut window = Window::new_logical(0, 512);
        window.bins[9] = sample(Complex32::new(0.0, 9.0));
        // These will show up in the output
        for i in 10..20 {
            window.bins[i] = sample(Complex32::new(0.0, i as f32));
        }
        // These will not show up in the output
        window.bins[20] = sample(Complex32::new(0.0, 20.0));
        window
    };
    let expected = {
        let mut expected = Window::new_logical(0, fft_size.into());
        // Bins 10..20 become 20..30
        for i in 10..20 {
            expected.bins[i + 10] = sample(Complex32::new(0.0, i as f32));
        }
        expected
    };
    check_windows(bins, fft_size, window, Some(expected));
}

// Further cases

#[test]
fn negative_zero_is_not_active() {
    let mut window = Window::new_logical(7, 8);
    window.bins[3] = sample(Complex32::new(-0.0, 0.0));
    window.bins[4] = sample(Complex32::new(0.0, -0.0));
    assert!(!matches_range(&BinRange::new(2, 6), &window.bins));
    check_windows(BinRange::from(2..6), 4, window, None);
}

#[test]
fn empty_range_never_matches() {
    let mut window = Window::new_logical(0, 8);
    window.bins[3] = sample(Complex32::new(1.0, 0.0));
    assert!(!matches_range(&BinRange::new(3, 3), &window.bins));
    assert!(matches_range(&BinRange::new(3, 4), &window.bins));
    check_windows(BinRange::from(3..3), 4, window, None);
}

#[test]
fn filtered_window_keeps_time() {
    let mut window = Window::new_logical(42, 8);
    window.bins[4] = sample(Complex32::new(1.0, 1.0));
    let mut filter = FilterBins::new(BinRange::from(4..5), 2);
    let out = filter.filter_window(window).unwrap();
    assert_eq!(out.time, 42);
    assert_eq!(out.bins.len(), 2);
    // The single bin lands at fft_size / 2 - size / 2 = 1
    assert_eq!(out.bins[1], sample(Complex32::new(1.0, 1.0)));
    assert_eq!(out.bins[0], Sample::zero());
}

#[test]
fn rotation_right_wraps_from_the_end() {
    // Range 0..2 centered in 8 bins: the bins move 3 positions towards the end,
    // and nothing from outside the range comes back at the front
    let mut window = Window::new_logical(0, 8);
    window.bins[0] = sample(Complex32::new(1.0, 0.0));
    window.bins[1] = sample(Complex32::new(2.0, 0.0));
    window.bins[7] = sample(Complex32::new(9.0, 0.0));
    let mut expected = Window::new_logical(0, 8);
    expected.bins[3] = sample(Complex32::new(1.0, 0.0));
    expected.bins[4] = sample(Complex32::new(2.0, 0.0));
    check_windows(BinRange::from(0..2), 8, window, Some(expected));
}

#[test]
fn accepts_checks_window_size_and_rotation() {
    let filter = FilterBins::new(BinRange::from(0..2), 8);
    // Range runs past the end of the window
    assert!(!filter.accepts(&Window::new_logical(0, 1)));
    // No active bin: accepted whatever the rotation would be
    assert!(filter.accepts(&Window::new_logical(0, 2)));
    // Active bin, rotation of 3 exceeds a window of 2 bins
    let mut short = Window::new_logical(0, 2);
    short.bins[0] = sample(Complex32::new(1.0, 0.0));
    assert!(!filter.accepts(&short));
    let mut long = Window::new_logical(0, 8);
    long.bins[0] = sample(Complex32::new(1.0, 0.0));
    assert!(filter.accepts(&long));
}

#[test]
fn iterator_passes_timeouts_and_skips_inactive_windows() {
    let mut active = Window::new_logical(3, 8);
    active.bins[4] = sample(Complex32::new(1.0, 2.0));
    let inactive = Window::new_logical(2, 8);
    let items = vec![
        Status::Ready(inactive),
        Status::Timeout,
        Status::Ready(Window::new_logical(4, 8)),
        Status::Ready(active),
    ];
    let mut iter = FilterBinsIter::new(items.into_iter(), BinRange::from(4..5), 2);
    assert_eq!(iter.next(), Some(Status::Timeout));
    let filtered = match iter.next() {
        Some(Status::Ready(w)) => w,
        other => panic!("unexpected {:?}", other),
    };
    assert_eq!(filtered.time, 3);
    assert_eq!(filtered.bins, vec![Sample::zero(), sample(Complex32::new(1.0, 2.0))]);
    assert_eq!(iter.next(), None);
    assert_eq!(iter.next(), None);
}

#[test]
fn center_law_on_concrete_window() {
    // Range 100..110 in a 1000-bin window, fft 64: bin k lands at k - 100 + 32 - 5
    let mut window = Window::new_logical(0, 1000);
    for k in 90..120 {
        window.bins[k] = sample(Complex32::new(k as f32, 1.0));
    }
    let mut filter = FilterBins::new(BinRange::from(100..110), 64);
    let out = filter.filter_window(window).unwrap();
    assert_eq!(out.bins.len(), 64);
    for j in 0..64 {
        if (27..37).contains(&j) {
            assert_eq!(out.bins[j], sample(Complex32::new((j + 73) as f32, 1.0)));
        } else {
            assert_eq!(out.bins[j], Sample::zero());
        }
    }
}

#[test]
fn bin_range_middle_and_size() {
    let range = BinRange::from(1023..1024);
    assert_eq!(range.start(), 1023);
    assert_eq!(range.end(), 1024);
    assert_eq!(range.size(), 1);
    assert_eq!(range.middle(), 1023);
    assert_eq!(BinRange::new(2, 7).middle(), 4);
    assert_eq!(BinRange::new(65534, 65535).middle(), 65534);
}
