use wavemark::dsp;
use wavemark::dsp::{cut_points, even_cuts, frame_count, remove_frames, slice_and_split, split_into};

/// Frame index of `t` seconds at `rate`, as the command line rounds it.
fn frame_of(t: f64, rate: u32) -> Option<usize> {
    if t.is_finite() && t > 0.0 {
        Some(((t * rate as f64).round() as i64).max(0) as usize)
    } else {
        None
    }
}

#[test]
fn split_into_even_parts() {
    let s: Vec<f32> = (0..10).map(|i| i as f32).collect();
    let parts = split_into(&s, 3);
    assert_eq!(parts.len(), 3);
    assert_eq!(parts[0].len(), 3);
    assert_eq!(parts[2].len(), 4, "remainder lands in the last part");
}

#[test]
fn concat_joins() {
    let a = vec![1.0_f32, 2.0];
    let b = vec![3.0_f32];
    assert_eq!(dsp::concat(&[&a, &b]), vec![1.0, 2.0, 3.0]);
}

#[test]
fn cut_points_dedups_and_bounds() {
    let frames: Vec<usize> = [2.0, 1.0, 1.0, 99.0, -1.0].iter().filter_map(|t| frame_of(*t, 10)).collect();
    let pts = cut_points(&frames, 100);
    assert_eq!(pts, vec![10, 20]);
}

#[test]
fn slice_and_split_respects_channels() {
    // 4 frames of stereo = 8 samples.
    let s: Vec<f32> = (0..8).map(|i| i as f32).collect();
    let segs = slice_and_split(&s, 2, 0, 4, &[2]);
    assert_eq!(segs.len(), 2);
    assert_eq!(segs[0], vec![0.0, 1.0, 2.0, 3.0]);
    assert_eq!(segs[1], vec![4.0, 5.0, 6.0, 7.0]);
}

// ---- further cases ----

#[test]
fn split_edge_cases() {
    let s: Vec<i32> = (0..3).collect();
    assert!(split_into(&s, 0).is_empty());
    let empty: Vec<i32> = Vec::new();
    assert!(split_into(&empty, 4).is_empty());
    let parts = split_into(&s, 5);
    assert_eq!(parts, vec![&[0][..], &[1][..], &[2][..]], "one part per sample when short");
    let parts = split_into(&s, 1);
    assert_eq!(parts, vec![&[0, 1, 2][..]]);
}

#[test]
fn split_then_join_gives_the_buffer_back() {
    let s: Vec<i32> = (0..17).collect();
    for n in 1..20 {
        let parts = split_into(&s, n);
        assert_eq!(dsp::concat(&parts), s, "n={n}");
    }
}

#[test]
fn concat_of_nothing_is_empty() {
    let parts: [&[u8]; 0] = [];
    assert!(dsp::concat(&parts).is_empty());
}

#[test]
fn slice_and_split_without_cuts_is_one_segment() {
    let s: Vec<i32> = (0..12).collect();
    let segs = slice_and_split(&s, 3, 1, 3, &[]);
    assert_eq!(segs, vec![vec![3, 4, 5, 6, 7, 8]]);
}

#[test]
fn slice_and_split_clamps_and_skips_empty_cuts() {
    let s: Vec<i32> = (0..8).collect();
    // Cuts beyond the body and repeated cuts give no empty segments.
    let segs = slice_and_split(&s, 2, 1, 10, &[1, 1, 50]);
    assert_eq!(segs, vec![vec![2, 3], vec![4, 5, 6, 7]]);
    // Zero channels counts as one.
    let segs = slice_and_split(&s, 0, 2, 5, &[1]);
    assert_eq!(segs, vec![vec![2], vec![3, 4]]);
}

#[test]
fn segments_rejoin_to_the_body() {
    let s: Vec<i32> = (0..30).collect();
    let segs = slice_and_split(&s, 2, 2, 14, &[3, 7, 9]);
    let refs: Vec<&[i32]> = segs.iter().map(|v| v.as_slice()).collect();
    assert_eq!(dsp::concat(&refs), (4..28).collect::<Vec<i32>>());
}

#[test]
fn frame_count_divides_by_channels() {
    assert_eq!(frame_count(10, 2), 5);
    assert_eq!(frame_count(11, 2), 5);
    assert_eq!(frame_count(11, 0), 0);
}

#[test]
fn remove_frames_splices_out_the_range() {
    let s: Vec<i32> = (0..10).collect();
    assert_eq!(remove_frames(&s, 2, 1, 3), vec![0, 1, 6, 7, 8, 9]);
    assert_eq!(remove_frames(&s, 1, 0, 10), Vec::<i32>::new());
    assert_eq!(remove_frames(&s, 1, 4, 4), s);
}

#[test]
fn even_cuts_step_through_the_frames() {
    assert_eq!(even_cuts(10, 3), vec![3, 6]);
    assert_eq!(even_cuts(100, 4), vec![25, 50, 75]);
    assert_eq!(even_cuts(100, 1), Vec::<usize>::new());
    assert_eq!(even_cuts(100, 0), Vec::<usize>::new(), "no parts counts as one");
    assert_eq!(even_cuts(2, 5), Vec::<usize>::new(), "more parts than frames: no cuts");
}

#[test]
fn cut_points_sorted_unique_inside() {
    let pts = cut_points(&vec![5, 0, 3, 9, 3, 12, 1], 9);
    assert_eq!(pts, vec![1, 3, 5]);
    assert!(cut_points(&Vec::new(), 9).is_empty());
}

#[test]
fn cut_then_reinsert_restores_the_buffer() {
    let s: Vec<i32> = (0..12).collect();
    let (ch, a, b) = (3, 1, 3);
    let cut = remove_frames(&s, ch, a, b);
    assert_eq!(cut.len(), s.len() - (b - a) * ch);
    let mut back = cut[..a * ch].to_vec();
    back.extend_from_slice(&s[a * ch..b * ch]);
    back.extend_from_slice(&cut[a * ch..]);
    assert_eq!(back, s);
}
