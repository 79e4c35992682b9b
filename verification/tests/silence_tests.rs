use wavemark::silence::runs;

const LOUD: f32 = 0.5;
const QUIET: f32 = 0.0001;

/// Whether a bucket's level is at or below -50 dBFS (digital silence counts).
fn silent(rms: f32) -> bool {
    let db = if rms <= 0.0 { f32::NEG_INFINITY } else { 20.0 * rms.log10() };
    !db.is_finite() || db <= -50.0
}

#[test]
fn finds_the_gap_between_two_words() {
    // 1s loud, 1s quiet, 1s loud @ 10 buckets/sec.
    let mut v = vec![LOUD; 10];
    v.extend(vec![QUIET; 10]);
    v.extend(vec![LOUD; 10]);
    let quiet: Vec<bool> = v.iter().map(|r| silent(*r)).collect();
    let gaps = runs(&quiet);
    assert_eq!(gaps, vec![(10, 20)], "{gaps:?}");
    assert!((gaps[0].0 as f64 / 10.0 - 1.0).abs() < 1e-6);
    assert!((gaps[0].1 as f64 / 10.0 - 2.0).abs() < 1e-6);
    let loud: Vec<bool> = v.iter().map(|r| !silent(*r)).collect();
    let sounds = runs(&loud);
    assert_eq!(sounds.len(), 2, "{sounds:?}");
}

#[test]
fn digital_silence_counts_as_silence() {
    let quiet: Vec<bool> = [0.0_f32; 10].iter().map(|r| silent(*r)).collect();
    assert_eq!(runs(&quiet).len(), 1);
    let loud: Vec<bool> = quiet.iter().map(|b| !b).collect();
    assert_eq!(runs(&loud).len(), 0);
}

#[test]
fn empty_peaks_yield_nothing() {
    assert!(runs(&Vec::new()).is_empty());
}

// ---- further cases ----

#[test]
fn runs_are_maximal_and_cover_every_match() {
    let f = vec![true, true, false, true, false, false, true];
    assert_eq!(runs(&f), vec![(0, 2), (3, 4), (6, 7)]);
    assert_eq!(runs(&vec![false, false]), vec![]);
    assert_eq!(runs(&vec![true; 5]), vec![(0, 5)]);
}
