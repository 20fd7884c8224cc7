use rtc_trial::window::SampleWindow;

#[test]
fn pairs_wait_for_the_next_sample() {
    let mut w: SampleWindow<i32> = SampleWindow::new();
    assert_eq!(w.pair_at(0), None);
    w.extend(&[10]);
    assert_eq!(w.pair_at(0), None);
    w.extend(&[11, 12]);
    assert_eq!(w.pair_at(0), Some((10, 11)));
    assert_eq!(w.pair_at(1), Some((11, 12)));
    assert_eq!(w.pair_at(2), None);
    assert_eq!(w.pair_at(usize::MAX), None);
}

#[test]
fn discard_forgets_what_was_passed() {
    let mut w: SampleWindow<i32> = SampleWindow::new();
    w.extend(&[10, 11, 12, 13]);
    assert_eq!(w.discard(2), 2);
    assert_eq!(w.pair_at(0), Some((12, 13)));
    assert_eq!(w.discard(5), 2);
    assert_eq!(w.pair_at(0), None);
    w.extend(&[14, 15]);
    assert_eq!(w.pair_at(0), Some((14, 15)));
    assert_eq!(w.discard(0), 0);
    assert_eq!(w.pair_at(0), Some((14, 15)));
}

/// A linear resampler over the window.
fn resample(src_rate: u32, dst_rate: u32, input: &[f32]) -> Vec<f32> {
    let mut window = SampleWindow::new();
    let step = src_rate as f64 / dst_rate as f64;
    let mut pos = 0.0f64;
    let mut out = Vec::new();
    window.extend(input);
    while let Some((a, b)) = window.pair_at(pos as usize) {
        let frac = (pos - (pos as usize) as f64) as f32;
        out.push(a * (1.0 - frac) + b * frac);
        pos += step;
    }
    window.discard(pos as usize);
    out
}

#[test]
fn resampler_identity() {
    let out = resample(48000, 48000, &[0.0, 0.25, 0.5, 0.75, 1.0]);
    // one sample is held back for interpolation; the rest pass through
    assert_eq!(out, vec![0.0, 0.25, 0.5, 0.75]);
}

#[test]
fn resampler_ratio() {
    let input = vec![0.5f32; 44100];
    let out = resample(44100, 48000, &input);
    let expected = 48000usize;
    assert!(
        (out.len() as i64 - expected as i64).unsigned_abs() < 10,
        "expected ~{expected} samples, got {}",
        out.len()
    );
    assert!(out.iter().all(|&s| (s - 0.5).abs() < 1e-6));
}
