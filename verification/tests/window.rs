use reconstruct::window::{Sample, TimeWindow, Window};

#[test]
fn zero_detection_uses_both_signs() {
    assert!(Sample::zero().is_zero());
    assert!(Sample::from_bits(0x8000_0000, 0).is_zero());
    assert!(Sample::from_bits(0, 0x8000_0000).is_zero());
    // 1.0 in the real part
    assert!(!Sample::from_bits(0x3f80_0000, 0).is_zero());
    // NaN is not zero
    assert!(!Sample::from_bits(0x7fc0_0000, 0).is_zero());
    // The smallest subnormal is not zero
    assert!(!Sample::from_bits(0, 1).is_zero());
}

#[test]
fn window_halves() {
    let samples: Vec<Sample> = (0..5).map(|i| Sample::from_bits(i, 0)).collect();
    let w = TimeWindow::new(4, samples.clone());
    assert_eq!(w.time(), 4);
    assert_eq!(w.len(), 5);
    assert_eq!(w.first_half(), samples[..2].to_vec());
    let second = w.into_second_half();
    assert_eq!(second.time(), 4);
    assert_eq!(second.into_samples(), samples[2..].to_vec());
}

#[test]
fn logical_window_truncation() {
    let mut w = Window::new_logical(1, 6);
    assert_eq!(w.len(), 6);
    w.truncate_bins(10);
    assert_eq!(w.len(), 6);
    w.truncate_bins(2);
    assert_eq!(w.bins, vec![Sample::zero(); 2]);
    assert_eq!(w.time, 1);
}
