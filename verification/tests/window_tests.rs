use wavemark::window::SampleWindow;

/// Frame index of `t` seconds at `rate`, as the player rounds it.
fn to_frame(t: f64, rate: u32) -> usize {
    if t <= 0.0 {
        0
    } else {
        (t * rate as f64).round() as usize
    }
}

fn collect(w: &mut SampleWindow, samples: &[f32]) -> Vec<f32> {
    let mut out = Vec::new();
    while let Some(i) = w.next_index() {
        out.push(samples[i]);
    }
    out
}

/// 4 frames of stereo at 4 Hz.
fn clip() -> Vec<f32> {
    (0..8).map(|i| i as f32).collect()
}

fn window(samples: &[f32], channels: usize, rate: u32, from: f64, to: f64) -> SampleWindow {
    SampleWindow::new(samples.len(), channels, to_frame(from, rate), to_frame(to, rate))
}

#[test]
fn window_snaps_to_frames_and_stops_at_the_end() {
    let c = clip();
    let mut w = window(&c, 2, 4, 0.25, 0.75);
    assert_eq!(w.start, 2);
    assert_eq!(w.end, 6);
    assert_eq!(w.channels, 2);
    assert_eq!(w.remaining(), 4);
    assert_eq!(collect(&mut w, &c), vec![2.0, 3.0, 4.0, 5.0]);
}

#[test]
fn total_duration_is_the_window_not_the_file() {
    let c = clip();
    let w = window(&c, 2, 4, 0.25, 0.75);
    // 2 frames at 4 Hz = 0.5 s, not the file's 1.0 s.
    assert_eq!(w.frames() as f64 / 4.0, 0.5);
}

#[test]
fn seek_is_relative_to_the_window_start() {
    let c = clip();
    let mut w = window(&c, 2, 4, 0.25, 0.75);
    w.seek(to_frame(0.25, 4));
    assert_eq!(collect(&mut w, &c), vec![4.0, 5.0]);
}

#[test]
fn seek_past_the_end_saturates() {
    let c = clip();
    let mut w = window(&c, 2, 4, 0.0, 1.0);
    w.seek(to_frame(99.0, 4));
    assert_eq!(w.pos, w.end);
    assert!(w.next_index().is_none());
}

#[test]
fn mono_clip_works_and_negative_windows_clamp() {
    let c = vec![0.5_f32, -0.5, 0.25];
    let mut w = window(&c, 1, 3, -5.0, 0.5);
    assert_eq!(w.start, 0);
    assert_eq!(collect(&mut w, &c), vec![0.5, -0.5]);
}

// ---- further cases ----

#[test]
fn window_beyond_the_buffer_is_cut_back() {
    let mut w = SampleWindow::new(8, 2, 3, 100);
    assert_eq!((w.start, w.end), (6, 8));
    let mut w2 = SampleWindow::new(8, 2, 10, 1);
    assert_eq!((w2.start, w2.end), (8, 8), "a window ending before it starts is empty");
    assert!(w2.next_index().is_none());
    assert_eq!(w.next_index(), Some(6));
    assert_eq!(w.remaining(), 1);
}
