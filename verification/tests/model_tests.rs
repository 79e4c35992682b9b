use wavemark::model::{
    first_overlapping, resolve_patch_range, step_target, usable_ids, Annotation, AnnotationPatch,
    PatchEnd, Session, TimeRange,
    FINITE_KEY_MAX, SESSION_VERSION,
};
use wavemark::{MergeReport, Rejection};

/// The time key of `x` seconds: order-preserving, zero for both zeros.
fn key(x: f64) -> i64 {
    let b = x.to_bits();
    if b >> 63 == 0 {
        b as i64
    } else {
        -((b & 0x7FFF_FFFF_FFFF_FFFF) as i64)
    }
}

/// The seconds a time key stands for.
fn secs(k: i64) -> f64 {
    if k >= 0 {
        f64::from_bits(k as u64)
    } else {
        -f64::from_bits(k.unsigned_abs())
    }
}

/// The key of the latest end a range may have in audio of `duration` seconds.
fn limit(duration: f64) -> i64 {
    key(duration + 0.001)
}

fn no_end() -> PatchEnd {
    PatchEnd { seconds: None, typed: None, typed_key: None }
}

fn at(x: f64) -> PatchEnd {
    PatchEnd { seconds: Some(key(x)), typed: None, typed_key: None }
}

/// An end typed as text, read the way the command line reads it.
fn typed(text: &str) -> PatchEnd {
    PatchEnd { seconds: None, typed: Some(text.to_string()), typed_key: parse_ts(text).map(key) }
}

fn patch(start: f64, end: f64) -> AnnotationPatch {
    AnnotationPatch { id: None, start: at(start), end: at(end), text: None, tags: None, color: None }
}

/// The words of a refusal, as the command line puts them.
fn reason(r: &Rejection, duration: f64) -> String {
    match r.range {
        Some(x) => format!("range {:.3}..{:.3} invalid for duration {:.3}", secs(x.start), secs(x.end), duration),
        None => r.reason.clone(),
    }
}

fn session(duration: f64) -> Session {
    Session::new("clip.wav".to_string(), key(duration), 48_000, 1)
}

/// Reads a typed timestamp the way the command line does.
fn parse_ts(s: &str) -> Option<f64> {
    let fields = wavemark::time::timestamp_fields(s)?;
    let nums: Vec<f64> = fields
        .iter()
        .map(|p| p.parse::<f64>())
        .collect::<Result<_, _>>()
        .ok()?;
    match nums.len() {
        1 => Some(nums[0]),
        2 => Some(nums[0] * 60.0 + nums[1]),
        3 => Some(nums[0] * 3600.0 + nums[1] * 60.0 + nums[2]),
        _ => None,
    }
}

#[test]
fn range_normalizes_order() {
    let r = TimeRange::new(key(10.0), key(3.0));
    assert_eq!(secs(r.start), 3.0);
    assert_eq!(secs(r.end), 10.0);
    assert!((secs(r.end) - secs(r.start) - 7.0).abs() < f64::EPSILON);
}

#[test]
fn range_overlap_and_contains() {
    let a = TimeRange::new(key(0.0), key(5.0));
    let b = TimeRange::new(key(4.0), key(9.0));
    assert!(a.overlaps(&b));
    assert!(a.contains(key(4.0)));
    assert!(!a.contains(key(5.0))); // half-open
}

#[test]
fn sidecar_path_is_adjacent() {
    let p = Session::sidecar_path("/a/clip.wav");
    assert_eq!(p, "/a/clip.wav.wavemark.json");
}

#[test]
fn merge_creates_then_updates_by_id() {
    let mut s = session(30.0);

    let (r1, rej1) = s.merge_patches(&vec![patch(1.0, 2.0)], limit(30.0));
    assert_eq!(r1.created, 1);
    assert_eq!(r1.updated, 0);
    assert!(rej1.is_empty());
    let id = s.annotations[0].id.clone();

    let mut p = patch(1.0, 2.5);
    p.id = Some(id.clone());
    let (r2, _) = s.merge_patches(&vec![p], limit(30.0));
    assert_eq!(r2.updated, 1, "same id should update, not create");
    assert_eq!(s.annotations.len(), 1);
    assert!((secs(s.annotations[0].range.end) - 2.5).abs() < f64::EPSILON);

    let mut p = patch(1.0, 2.5);
    p.id = Some(id);
    let (r3, _) = s.merge_patches(&vec![p], limit(30.0));
    assert_eq!(r3.unchanged, 1, "identical patch is a no-op");
}

#[test]
fn merge_rejects_out_of_range_without_aborting_batch() {
    let mut s = session(10.0);
    let patches = vec![
        patch(1.0, 2.0),
        patch(50.0, 60.0),
        patch(3.0, 4.0),
    ];
    let (r, rej) = s.merge_patches(&patches, limit(10.0));
    assert_eq!(r.created, 2);
    assert_eq!(r.rejected, 1);
    assert_eq!(rej.len(), 1);
    assert_eq!(rej[0].index, 1);
    assert_eq!(reason(&rej[0], 10.0), "range 50.000..60.000 invalid for duration 10.000");
    assert_eq!(s.annotations.len(), 2, "good rows survive a bad one");
}

#[test]
fn merge_accepts_formatted_timestamps() {
    let mut s = session(30.0);
    let p = AnnotationPatch { start: typed("0:01.500"), end: typed("0:02.250"), ..patch(0.0, 0.0) };
    let (r, rej) = s.merge_patches(&vec![p], limit(30.0));
    assert!(rej.is_empty(), "{rej:?}");
    assert_eq!(r.created, 1);
    assert!((secs(s.annotations[0].range.start) - 1.5).abs() < f64::EPSILON);
    assert!((secs(s.annotations[0].range.end) - 2.25).abs() < f64::EPSILON);
}

#[test]
fn merge_sorts_by_start_time() {
    let mut s = session(30.0);
    s.merge_patches(&vec![patch(9.0, 10.0), patch(1.0, 2.0), patch(5.0, 6.0)], limit(30.0));
    let starts: Vec<f64> = s.annotations.iter().map(|a| secs(a.range.start)).collect();
    assert_eq!(starts, vec![1.0, 5.0, 9.0]);
}

#[test]
fn retain_ids_prunes() {
    let mut s = session(30.0);
    s.merge_patches(&vec![patch(1.0, 2.0), patch(3.0, 4.0)], limit(30.0));
    let keep: Vec<String> = vec![s.annotations[0].id.clone()];
    assert_eq!(s.retain_ids(&keep), 1);
    assert_eq!(s.annotations.len(), 1);
}

#[test]
fn validate_flags_impossible_ranges() {
    let mut s = session(10.0);
    s.add_annotation(Annotation::new(TimeRange::new(key(1.0), key(2.0)), "ok".to_string()));
    let a = Annotation::new(TimeRange::new(key(5.0), key(99.0)), "too long".to_string());
    s.add_annotation(a);
    let exceeds: Vec<String> = s
        .annotations
        .iter()
        .map(|a| format!("range {}..{} exceeds duration {:.3}", secs(a.range.start), secs(a.range.end), 10.0))
        .collect();
    let bad = s.validate(limit(10.0), &exceeds);
    assert_eq!(bad.len(), 1);
    assert!(bad[0].reason.contains("exceeds duration"));
}

// ---- further cases ----

#[test]
fn new_session_is_empty_and_current() {
    let s = session(12.5);
    assert_eq!(s.version, SESSION_VERSION);
    assert_eq!(s.audio_path, "clip.wav");
    assert_eq!(secs(s.duration), 12.5);
    assert_eq!(s.sample_rate, 48_000);
    assert_eq!(s.channels, 1);
    assert!(s.annotations.is_empty());
    assert!(s.last_selection.is_none());
}

#[test]
fn time_keys_order_like_seconds() {
    let xs = [-3.5, -0.0, 0.0, 1e-9, 0.25, 1.0, 75.0, 3661.5, 1e300];
    for a in xs {
        for b in xs {
            assert_eq!(a < b, key(a) < key(b), "{a} {b}");
            assert_eq!(a == b, key(a) == key(b), "{a} {b}");
        }
        assert!(key(a).abs() <= FINITE_KEY_MAX);
    }
    assert!(key(f64::INFINITY) > FINITE_KEY_MAX);
    assert!(key(f64::NAN).abs() > FINITE_KEY_MAX);
}

#[test]
fn range_dragged_backwards_is_the_same_range() {
    assert_eq!(TimeRange::new(key(7.0), key(2.0)), TimeRange::new(key(2.0), key(7.0)));
}

#[test]
fn empty_and_clamped_ranges() {
    let r = TimeRange::new(key(3.0), key(3.0));
    assert!(r.is_empty());
    assert!(!r.contains(key(3.0)));
    let c = TimeRange::new(key(-2.0), key(50.0)).clamp_to(key(10.0));
    assert_eq!(c, TimeRange::new(0, key(10.0)));
}

#[test]
fn new_annotation_has_a_uuid() {
    let a = Annotation::new(TimeRange::new(key(1.0), key(2.0)), "hello".to_string());
    assert_eq!(a.id.chars().count(), 36);
    for (i, c) in a.id.chars().enumerate() {
        if [8, 13, 18, 23].contains(&i) {
            assert_eq!(c, '-');
        } else {
            assert!(c.is_ascii_hexdigit(), "{}", a.id);
        }
    }
    let b = Annotation::new(TimeRange::new(key(1.0), key(2.0)), "hello".to_string());
    assert_ne!(a.id, b.id);
    assert_eq!(a.text, "hello");
    assert!(a.tags.is_empty());
    assert!(a.color.is_none());
    assert!(!a.created_at.is_empty());
}

#[test]
fn with_tags_replaces_tags_only() {
    let a = Annotation::new(TimeRange::new(key(1.0), key(2.0)), "x".to_string());
    let id = a.id.clone();
    let b = a.with_tags(vec!["t1".to_string(), "t2".to_string()]);
    assert_eq!(b.tags, vec!["t1".to_string(), "t2".to_string()]);
    assert_eq!(b.id, id);
    assert_eq!(b.text, "x");
}

#[test]
fn removed_id_is_gone_and_added_id_is_found() {
    let mut s = session(30.0);
    let a = Annotation::new(TimeRange::new(key(1.0), key(2.0)), "a".to_string());
    let id = a.id.clone();
    s.add_annotation(a);
    s.add_annotation(Annotation::new(TimeRange::new(key(3.0), key(4.0)), "b".to_string()));
    assert_eq!(s.annotation(&id).unwrap().text, "a");
    assert!(s.remove_annotation(&id));
    assert!(s.annotation(&id).is_none());
    assert_eq!(s.annotations.len(), 1);
    assert!(!s.remove_annotation(&id));
}

#[test]
fn merge_creates_with_the_given_id_and_fields() {
    let mut s = session(30.0);
    let mut p = patch(2.0, 1.0);
    p.id = Some("mark-1".to_string());
    p.text = Some("hello".to_string());
    p.tags = Some(vec!["x".to_string()]);
    p.color = Some("red".to_string());
    let (r, rej) = s.merge_patches(&vec![p], limit(30.0));
    assert_eq!(r, MergeReport { created: 1, updated: 0, unchanged: 0, rejected: 0 });
    assert!(rej.is_empty());
    let a = &s.annotations[0];
    assert_eq!(a.id, "mark-1");
    assert_eq!(a.range, TimeRange::new(key(1.0), key(2.0)));
    assert_eq!(a.text, "hello");
    assert_eq!(a.tags, vec!["x".to_string()]);
    assert_eq!(a.color.as_deref(), Some("red"));
}

#[test]
fn blank_id_creates_a_fresh_one() {
    let mut s = session(30.0);
    let mut p = patch(1.0, 2.0);
    p.id = Some("   ".to_string());
    s.merge_patches(&vec![p], limit(30.0));
    assert_eq!(s.annotations[0].id.chars().count(), 36);
}

#[test]
fn unreadable_range_is_refused_with_its_reason() {
    let mut s = session(30.0);
    let mut p = patch(1.0, 2.0);
    p.start = no_end();
    let (r, rej) = s.merge_patches(&vec![p, patch(3.0, 4.0)], limit(30.0));
    assert_eq!(r.rejected, 1);
    assert_eq!(r.created, 1);
    assert_eq!(rej[0].index, 0);
    assert_eq!(rej[0].reason, "patch has no start (start_sec or start)");
}

#[test]
fn empty_negative_and_infinite_ranges_are_refused() {
    let mut s = session(30.0);
    let mut inf = patch(1.0, 2.0);
    inf.end = at(f64::INFINITY);
    let (r, rej) = s.merge_patches(
        &vec![patch(2.0, 2.0), patch(-1.0, 2.0), inf, patch(29.0, 30.0005)],
        limit(30.0),
    );
    assert_eq!(r.rejected, 3);
    assert_eq!(r.created, 1, "the tolerance past the end is allowed");
    let idx: Vec<usize> = rej.iter().map(|x| x.index).collect();
    assert_eq!(idx, vec![0, 1, 2]);
    assert_eq!(reason(&rej[1], 30.0), "range -1.000..2.000 invalid for duration 30.000");
    assert_eq!(rej[1].range, Some(TimeRange::new(key(-1.0), key(2.0))));
}

#[test]
fn updating_only_text_keeps_tags_and_color() {
    let mut s = session(30.0);
    let mut p = patch(1.0, 2.0);
    p.id = Some("m".to_string());
    p.tags = Some(vec!["keep".to_string()]);
    p.color = Some("blue".to_string());
    s.merge_patches(&vec![p], limit(30.0));
    let mut q = patch(1.0, 2.0);
    q.id = Some("m".to_string());
    q.text = Some("new".to_string());
    let (r, _) = s.merge_patches(&vec![q], limit(30.0));
    assert_eq!(r.updated, 1);
    let a = &s.annotations[0];
    assert_eq!(a.text, "new");
    assert_eq!(a.tags, vec!["keep".to_string()]);
    assert_eq!(a.color.as_deref(), Some("blue"));
}

#[test]
fn refused_row_changes_nothing() {
    let mut s = session(10.0);
    s.merge_patches(&vec![patch(1.0, 2.0)], limit(10.0));
    let before: Vec<(String, TimeRange)> =
        s.annotations.iter().map(|a| (a.id.clone(), a.range)).collect();
    let (r, rej) = s.merge_patches(&vec![patch(50.0, 60.0)], limit(10.0));
    assert!(!r.is_noop(), "nothing would change");
    assert_eq!(rej.len(), 1);
    let after: Vec<(String, TimeRange)> =
        s.annotations.iter().map(|a| (a.id.clone(), a.range)).collect();
    assert_eq!(before, after);
}

#[test]
fn echoing_the_annotations_back_is_a_noop() {
    let mut s = session(30.0);
    s.merge_patches(&vec![patch(1.0, 2.0), patch(3.0, 4.0)], limit(30.0));
    let echo: Vec<AnnotationPatch> = s
        .annotations
        .iter()
        .map(|a| AnnotationPatch {
            id: Some(a.id.clone()),
            start: PatchEnd { seconds: Some(a.range.start), typed: None, typed_key: None },
            end: PatchEnd { seconds: Some(a.range.end), typed: None, typed_key: None },
            text: Some(a.text.clone()),
            tags: Some(a.tags.clone()),
            color: a.color.clone(),
        })
        .collect();
    let (r, rej) = s.merge_patches(&echo, limit(30.0));
    assert!(!r.is_noop());
    assert_eq!(r.unchanged, 2);
    assert!(rej.is_empty());
}

#[test]
fn sort_is_stable_and_orders_by_start_then_end() {
    let mut s = session(30.0);
    for (a, b, t) in [(5.0, 9.0, "c"), (1.0, 3.0, "a"), (5.0, 6.0, "b"), (5.0, 9.0, "d")] {
        s.add_annotation(Annotation::new(TimeRange::new(key(a), key(b)), t.to_string()));
    }
    s.sort_annotations();
    let texts: Vec<String> = s.annotations.iter().map(|a| a.text.clone()).collect();
    assert_eq!(texts, vec!["a", "b", "c", "d"]);
    s.sort_annotations();
    let again: Vec<String> = s.annotations.iter().map(|a| a.text.clone()).collect();
    assert_eq!(again, texts, "sorting sorted marks changes nothing");
}

#[test]
fn usable_ids_skips_missing_and_blank() {
    let mut a = patch(1.0, 2.0);
    a.id = Some("x".to_string());
    let mut b = patch(1.0, 2.0);
    b.id = Some(" \t".to_string());
    let c = patch(1.0, 2.0);
    let mut d = patch(1.0, 2.0);
    d.id = Some(" y ".to_string());
    assert_eq!(usable_ids(&vec![a, b, c, d]), vec!["x".to_string(), " y ".to_string()]);
}

#[test]
fn prune_keeps_only_named_annotations() {
    let mut s = session(30.0);
    let mut a = patch(1.0, 2.0);
    a.id = Some("keep".to_string());
    s.merge_patches(&vec![a, patch(3.0, 4.0)], limit(30.0));
    let mut again = patch(1.0, 2.0);
    again.id = Some("keep".to_string());
    let (r, rej, dropped) = s.merge_and_prune(&vec![again], limit(30.0));
    assert_eq!(dropped, 1);
    assert_eq!(r.unchanged, 1);
    assert!(rej.is_empty());
    assert_eq!(s.annotations.len(), 1);
    assert_eq!(s.annotations[0].id, "keep");
}

#[test]
fn prune_keeps_what_the_document_creates() {
    let mut s = session(30.0);
    s.merge_patches(&vec![patch(5.0, 6.0)], limit(30.0));
    let (r, _, dropped) = s.merge_and_prune(&vec![patch(1.0, 2.0)], limit(30.0));
    assert_eq!(r.created, 1);
    assert_eq!(dropped, 1, "the mark the document leaves out goes");
    assert_eq!(s.annotations.len(), 1);
    assert_eq!(s.annotations[0].range, TimeRange::new(key(1.0), key(2.0)));
}

#[test]
fn moving_just_the_end() {
    let mut s = session(30.0);
    let mut a = Annotation::new(TimeRange::new(key(1.0), key(2.0)), "x".to_string());
    a.id = "a1".to_string();
    s.add_annotation(a);
    let p = AnnotationPatch { id: Some("a1".to_string()), start: no_end(), end: at(3.0), ..patch(0.0, 0.0) };
    let (r, rej) = s.merge_patches(&vec![p], limit(30.0));
    assert_eq!(r.updated, 1);
    assert_eq!(r.rejected, 0);
    assert!(rej.is_empty());
    assert_eq!(s.annotations.len(), 1);
    assert_eq!(s.annotations[0].range, TimeRange::new(key(1.0), key(3.0)));
    assert_eq!(s.annotations[0].text, "x");
}

#[test]
fn a_new_mark_needs_both_ends() {
    let mut s = session(30.0);
    let p = AnnotationPatch { end: no_end(), ..patch(1.0, 0.0) };
    let (r, rej) = s.merge_patches(&vec![p], limit(30.0));
    assert_eq!(r.rejected, 1);
    assert_eq!(rej[0].reason, "patch has no end (end_sec or end)");
    assert!(rej[0].range.is_none());
}

#[test]
fn range_reading_rules() {
    let existing = Some(TimeRange::new(key(1.0), key(2.0)));
    // Seconds win over typed text.
    let p = AnnotationPatch {
        start: PatchEnd { seconds: Some(key(4.0)), typed: Some("0:09".to_string()), typed_key: Some(key(9.0)) },
        ..patch(0.0, 5.0)
    };
    assert_eq!(resolve_patch_range(&p, None), Ok(TimeRange::new(key(4.0), key(5.0))));
    // Typed text that is not a timestamp is refused, quoted.
    let p = AnnotationPatch { start: typed("soon"), ..patch(0.0, 5.0) };
    assert_eq!(resolve_patch_range(&p, existing), Err("unparseable start \"soon\"".to_string()));
    // A missing start keeps the existing one, or is refused with none.
    let p = AnnotationPatch { start: no_end(), ..patch(0.0, 0.5) };
    assert_eq!(resolve_patch_range(&p, existing), Ok(TimeRange::new(key(0.5), key(1.0))));
    assert_eq!(resolve_patch_range(&p, None), Err("patch has no start (start_sec or start)".to_string()));
}

#[test]
fn add_marks_tags_each_span_and_sorts() {
    let mut s = session(30.0);
    s.add_annotation(Annotation::new(TimeRange::new(key(4.0), key(5.0)), "user".to_string()));
    s.add_marks(&vec![(key(8.0), key(9.0)), (key(2.0), key(1.0))], "auto:silence");
    assert_eq!(s.annotations.len(), 3);
    let ranges: Vec<TimeRange> = s.annotations.iter().map(|a| a.range).collect();
    assert_eq!(
        ranges,
        vec![
            TimeRange::new(key(1.0), key(2.0)),
            TimeRange::new(key(4.0), key(5.0)),
            TimeRange::new(key(8.0), key(9.0)),
        ]
    );
    assert_eq!(s.annotations[0].tags, vec!["auto:silence".to_string()]);
    let stamp: Vec<char> = s.annotations[0].created_at.chars().collect();
    let n = stamp.len();
    assert!(n >= 25 && stamp[n - 3] == ':' && (stamp[n - 6] == '+' || stamp[n - 6] == '-'));
    assert!(chrono::DateTime::parse_from_rfc3339(&s.annotations[0].created_at).is_ok());
    assert_eq!(s.annotations[0].text, "");
    assert!(s.annotations[1].tags.is_empty());
}

#[test]
fn step_target_walks_and_wraps() {
    let mut s = session(30.0);
    for (a, b) in [(1.0, 2.0), (5.0, 6.0), (9.0, 10.0)] {
        s.add_annotation(Annotation::new(TimeRange::new(key(a), key(b)), String::new()));
    }
    let at = |t: f64| (key(t + 0.001), key(t - 0.001));
    let (after, before) = at(1.0);
    assert_eq!(step_target(&s.annotations, true, after, before), Some(1));
    assert_eq!(step_target(&s.annotations, false, after, before), Some(2), "wraps to the last");
    let (after, before) = at(9.0);
    assert_eq!(step_target(&s.annotations, true, after, before), Some(0), "wraps to the first");
    assert_eq!(step_target(&s.annotations, false, after, before), Some(1));
    assert_eq!(step_target(&Vec::new(), true, 0, 0), None);
}

#[test]
fn first_overlapping_finds_the_earliest() {
    let mut s = session(30.0);
    for (a, b) in [(1.0, 2.0), (5.0, 8.0), (6.0, 7.0)] {
        s.add_annotation(Annotation::new(TimeRange::new(key(a), key(b)), String::new()));
    }
    let sel = TimeRange::new(key(6.5), key(6.6));
    assert_eq!(first_overlapping(&s.annotations, &sel), Some(1));
    let gap = TimeRange::new(key(2.0), key(5.0));
    assert_eq!(first_overlapping(&s.annotations, &gap), None, "half-open ends do not touch");
}

#[test]
fn report_totals_and_noop() {
    let r = MergeReport { created: 1, updated: 2, unchanged: 3, rejected: 4 };
    assert_eq!(r.total(), 10);
    assert!(r.is_noop(), "this merge changes the file");
    assert!(!MergeReport { created: 0, updated: 0, unchanged: 5, rejected: 1 }.is_noop());
    assert!(MergeReport { created: 0, updated: 1, unchanged: 0, rejected: 0 }.is_noop());
    assert_eq!(MergeReport::empty(), MergeReport::default());
    assert_eq!(MergeReport::empty().total(), 0);
    let rej = Rejection { index: 3, reason: "empty range".to_string(), range: None };
    assert_eq!(rej.index, 3);
}

#[test]
fn validate_reports_each_kind_of_fault() {
    let mut s = session(10.0);
    for (a, b) in [(1.0, 2.0), (3.0, 3.0), (f64::NEG_INFINITY, 2.0), (-1.0, 2.0)] {
        let mut ann = Annotation::new(TimeRange::new(0, 0), String::new());
        ann.range = TimeRange { start: key(a), end: key(b) };
        s.add_annotation(ann);
    }
    let exceeds: Vec<String> = (0..4).map(|i| format!("outside {i}")).collect();
    let bad = s.validate(limit(10.0), &exceeds);
    let got: Vec<(usize, String)> = bad.into_iter().map(|r| (r.index, r.reason)).collect();
    assert_eq!(
        got,
        vec![
            (1, "empty range".to_string()),
            (2, "range is not finite".to_string()),
            (3, "outside 3".to_string()),
        ]
    );
}
