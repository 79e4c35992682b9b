//! The wavemark data model: time ranges, annotations and the session that
//! holds them, with the merge that brings an agent's edits back in.
//!
//! Times are held as *time keys*: integers that stand for instants in seconds
//! and are ordered, and equal, exactly as those instants are. The key of a
//! finite time lies within `[-FINITE_KEY_MAX, FINITE_KEY_MAX]`; any key outside
//! stands for a time that is not finite. Zero seconds has the key `0`, times
//! before it have negative keys and times after it positive ones. Every rule
//! of the model (ordering, containment, overlap, validity) is a comparison of
//! times, and so a comparison of keys.
use vstd::prelude::*;
use crate::report::{MergeReport, Rejection};
use crate::names::SESSION_EXT;
use crate::text::{append_str, chars_of, string_of, trim, trimmed, views, Strip};

verus! {

/// The largest key of a finite time.
pub const FINITE_KEY_MAX: i64 = 0x7FEF_FFFF_FFFF_FFFF;

/// Schema version of the session file. Bump on breaking changes.
pub const SESSION_VERSION: u32 = 1;

/// Whether `k` is the key of a finite time.
pub open spec fn finite_key(k: i64) -> bool {
    -FINITE_KEY_MAX <= k <= FINITE_KEY_MAX
}

/// A half-open time range `[start, end)`, given by the keys of its ends.
/// Built through `new`, it has `start <= end`.
#[derive(Debug, Clone, Copy, PartialEq, Eq, Structural)]
pub struct TimeRange {
    pub start: i64,
    pub end: i64,
}

/// The range between two instants, whichever of them comes first.
pub open spec fn span_of(a: i64, b: i64) -> TimeRange {
    TimeRange { start: if a <= b { a } else { b }, end: if a <= b { b } else { a } }
}

/// A range that is fit to be an annotation: both ends finite, not before
/// zero, not past `limit` (the key of the audio's duration plus its
/// tolerance), and not empty.
pub open spec fn range_fits(r: TimeRange, limit: i64) -> bool {
    &&& finite_key(r.start)
    &&& finite_key(r.end)
    &&& 0 <= r.start
    &&& r.end <= limit
    &&& r.start < r.end
}

impl TimeRange {
    /// The range between `a` and `b`; a range dragged right to left comes out
    /// the same as one dragged left to right.
    pub fn new(a: i64, b: i64) -> (r: TimeRange)
        ensures
            r == span_of(a, b),
    {
        if a <= b {
            TimeRange { start: a, end: b }
        } else {
            TimeRange { start: b, end: a }
        }
    }

    /// Whether the instant `t` lies in the half-open range.
    pub fn contains(&self, t: i64) -> (b: bool)
        ensures
            b == (self.start <= t && t < self.end),
    {
        self.start <= t && t < self.end
    }

    /// Whether the two ranges share an instant.
    pub fn overlaps(&self, other: &TimeRange) -> (b: bool)
        ensures
            b == (self.start < other.end && other.start < self.end),
    {
        self.start < other.end && other.start < self.end
    }

    /// Whether the range holds no instant (its duration is zero).
    pub fn is_empty(&self) -> (b: bool)
        ensures
            b == (self.end <= self.start),
    {
        self.end <= self.start
    }

    /// This range clamped into `[0, max]`.
    pub fn clamp_to(&self, max: i64) -> (r: TimeRange)
        requires
            0 <= max,
        ensures
            r == span_of(clamp_key(self.start, max), clamp_key(self.end, max)),
    {
        let s = if self.start < 0 { 0 } else if self.start > max { max } else { self.start };
        let e = if self.end < 0 { 0 } else if self.end > max { max } else { self.end };
        TimeRange::new(s, e)
    }
}

/// `k` moved into `[0, max]`.
pub open spec fn clamp_key(k: i64, max: i64) -> i64 {
    if k < 0 { 0 } else if k > max { max } else { k }
}

// ---- annotations --------------------------------------------------------------

/// Whether `c` is a lowercase hexadecimal digit.
pub open spec fn lower_hex_digit(c: char) -> bool {
    ('0' <= c && c <= '9') || ('a' <= c && c <= 'f')
}

/// `id` has the shape of a hyphenated UUID: 36 characters, hyphens at
/// positions 8, 13, 18 and 23, lowercase hexadecimal digits elsewhere.
pub open spec fn uuid_shaped(id: Seq<char>) -> bool {
    &&& id.len() == 36
    &&& forall|i: int| 0 <= i < 36 ==> (#[trigger] id[i] == '-') == (i == 8 || i == 13 || i == 18 || i == 23)
    &&& forall|i: int| 0 <= i < 36 && i != 8 && i != 13 && i != 18 && i != 23 ==> lower_hex_digit(#[trigger] id[i])
}

/// Makes a fresh identifier: `uuid::Uuid::new_v4()`, rendered by its
/// `Display` (`to_string`, which formats it hyphenated in lowercase).
/// Trusted: the contract claims only the shape that the crate's formatter
/// gives every UUID; the value itself is random.
#[verifier::external_body]
fn new_uuid() -> (id: String)
    ensures
        uuid_shaped(id@),
{
    uuid::Uuid::new_v4().to_string()
}

/// `s` has the shape of an RFC 3339 date and time with a numeric offset:
/// a year of at least four characters, then `-MM-DDTHH:MM:SS`, optional
/// fractional seconds, and `+HH:MM` or `-HH:MM`.
pub open spec fn rfc3339_shaped(s: Seq<char>) -> bool {
    exists|p: int| #![trigger s[p]]
        4 <= p && p + 21 <= s.len() && s[p] == '-' && s[p + 3] == '-' && s[p + 6] == 'T'
            && s[p + 9] == ':' && s[p + 12] == ':'
            && (s[s.len() - 6] == '+' || s[s.len() - 6] == '-') && s[s.len() - 3] == ':'
}

/// The current local time as RFC 3339 text: `chrono::Local::now()`, rendered
/// by `to_rfc3339`. Trusted: the contract claims only the shape chrono's
/// RFC 3339 writer gives every date and time; the value depends on the clock
/// and the time zone.
#[verifier::external_body]
fn local_now_rfc3339() -> (stamp: String)
    ensures
        rfc3339_shaped(stamp@),
{
    chrono::Local::now().to_rfc3339()
}

/// A user annotation bound to an exact audio range.
#[derive(Debug, Clone)]
pub struct Annotation {
    /// Stable, opaque id (a random UUID by default).
    pub id: String,
    pub range: TimeRange,
    pub text: String,
    pub tags: Vec<String>,
    /// Optional color token, used by the GUI only.
    pub color: Option<String>,
    /// RFC 3339 creation timestamp (local time).
    pub created_at: String,
}

/// What an annotation holds, as plain values.
pub struct AnnotationView {
    pub id: Seq<char>,
    pub range: TimeRange,
    pub text: Seq<char>,
    pub tags: Seq<Seq<char>>,
    pub color: Option<Seq<char>>,
    pub created_at: Seq<char>,
}

/// The view of an optional string.
pub open spec fn opt_view(o: Option<String>) -> Option<Seq<char>> {
    match o {
        Some(s) => Some(s@),
        None => None,
    }
}

impl View for Annotation {
    type V = AnnotationView;

    open spec fn view(&self) -> AnnotationView {
        AnnotationView {
            id: self.id@,
            range: self.range,
            text: self.text@,
            tags: views(self.tags@),
            color: opt_view(self.color),
            created_at: self.created_at@,
        }
    }
}

/// The views of a sequence of annotations.
pub open spec fn ann_views(s: Seq<Annotation>) -> Seq<AnnotationView> {
    s.map_values(|a: Annotation| a@)
}

impl Annotation {
    /// A new annotation over `range` with a fresh id, no tags, no color, and
    /// the current time as its creation stamp.
    pub fn new(range: TimeRange, text: String) -> (a: Annotation)
        ensures
            a.range == range,
            a.text@ == text@,
            a.tags@.len() == 0,
            a.color is None,
            uuid_shaped(a.id@),
            rfc3339_shaped(a.created_at@),
    {
        Annotation {
            id: new_uuid(),
            range,
            text,
            tags: Vec::new(),
            color: None,
            created_at: local_now_rfc3339(),
        }
    }

    /// This annotation with `tags` in place of its tags.
    pub fn with_tags(self, tags: Vec<String>) -> (a: Annotation)
        ensures
            a@ == (AnnotationView { tags: views(tags@), ..self@ }),
    {
        Annotation { tags, ..self }
    }
}


// ---- the session ---------------------------------------------------------------

/// The session: the audio's metadata and every annotation made on it. The
/// on-disk `.wavemark.json` sidecar is a rendering of this.
#[derive(Debug, Clone)]
pub struct Session {
    /// Schema version.
    pub version: u32,
    /// Path to the audio file, as the user gave it.
    pub audio_path: String,
    /// Key of the audio's duration.
    pub duration: i64,
    pub sample_rate: u32,
    pub channels: u16,
    pub annotations: Vec<Annotation>,
    /// The last selection the user made, even if it has no annotation yet.
    pub last_selection: Option<TimeRange>,
}

/// Annotations whose id is not `id`, in their order.
pub open spec fn without_id(s: Seq<AnnotationView>, id: Seq<char>) -> Seq<AnnotationView> {
    s.filter(|a: AnnotationView| a.id != id)
}

/// Annotations whose id is one of `keep`, in their order.
pub open spec fn with_ids_in(s: Seq<AnnotationView>, keep: Seq<Seq<char>>) -> Seq<AnnotationView> {
    s.filter(|a: AnnotationView| keep.contains(a.id))
}

/// Index of the first annotation whose id is `id`.
pub open spec fn first_with_id(s: Seq<AnnotationView>, id: Seq<char>) -> Option<int>
    decreases s.len(),
{
    if s.len() == 0 {
        None
    } else if s[0].id == id {
        Some(0)
    } else {
        match first_with_id(s.drop_first(), id) {
            Some(k) => Some(k + 1),
            None => None,
        }
    }
}

pub proof fn lemma_first_with_id_in(s: Seq<AnnotationView>, id: Seq<char>)
    ensures
        first_with_id(s, id) matches Some(k) ==> 0 <= k < s.len() && s[k].id == id
            && forall|j: int| 0 <= j < k ==> (#[trigger] s[j]).id != id,
        first_with_id(s, id) is None ==> forall|j: int| 0 <= j < s.len() ==> (#[trigger] s[j]).id != id,
    decreases s.len(),
{
    if s.len() > 0 {
        let t = s.drop_first();
        lemma_first_with_id_in(t, id);
        if s[0].id != id {
            match first_with_id(t, id) {
                Some(k) => {
                    assert(s[k + 1] == t[k]);
                    assert forall|j: int| 0 <= j < k + 1 implies (#[trigger] s[j]).id != id by {
                        if j > 0 {
                            assert(s[j] == t[j - 1]);
                        }
                    }
                },
                None => {
                    assert forall|j: int| 0 <= j < s.len() implies (#[trigger] s[j]).id != id by {
                        if j > 0 {
                            assert(s[j] == t[j - 1]);
                        }
                    }
                },
            }
        }
    }
}

proof fn lemma_first_with_id(s: Seq<AnnotationView>, id: Seq<char>, i: int)
    requires
        0 <= i <= s.len(),
        forall|k: int| 0 <= k < i ==> (#[trigger] s[k]).id != id,
    ensures
        i < s.len() && s[i].id == id ==> first_with_id(s, id) == Some(i),
        i == s.len() ==> first_with_id(s, id) is None,
    decreases i,
{
    if i > 0 {
        let t = s.drop_first();
        assert forall|k: int| 0 <= k < i - 1 implies (#[trigger] t[k]).id != id by {
            assert(t[k] == s[k + 1]);
        }
        assert(s[0].id != id);
        lemma_first_with_id(t, id, i - 1);
    }
}

proof fn lemma_filter_push<A>(s: Seq<A>, pred: spec_fn(A) -> bool, x: A)
    ensures
        s.push(x).filter(pred) == (if pred(x) { s.filter(pred).push(x) } else { s.filter(pred) }),
{
    reveal(Seq::filter);
    assert(s.push(x).drop_last() == s);
}

fn same_string(a: &String, b: &String) -> (r: bool)
    ensures
        r == (a@ == b@),
{
    a.eq(b)
}

impl Session {
    /// A session for the audio at `audio_path`, with no annotations yet.
    pub fn new(audio_path: String, duration: i64, sample_rate: u32, channels: u16) -> (s: Session)
        ensures
            s.version == SESSION_VERSION,
            s.audio_path@ == audio_path@,
            s.duration == duration,
            s.sample_rate == sample_rate,
            s.channels == channels,
            s.annotations@.len() == 0,
            s.last_selection is None,
    {
        Session {
            version: SESSION_VERSION,
            audio_path,
            duration,
            sample_rate,
            channels,
            annotations: Vec::new(),
            last_selection: None,
        }
    }

    /// The sidecar path for an audio file: its path with `.wavemark.json`
    /// appended (`song.wav` gives `song.wav.wavemark.json`).
    pub fn sidecar_path(audio_path: &str) -> (p: String)
        ensures
            p@ == audio_path@ + seq!['.'] + SESSION_EXT@,
    {
        let mut out = chars_of(audio_path);
        out.push('.');
        let ext = chars_of(SESSION_EXT);
        let ghost before = out@;
        let mut i: usize = 0;
        while i < ext.len()
            invariant
                i <= ext@.len(),
                ext@ == SESSION_EXT@,
                out@ == before + ext@.take(i as int),
            decreases ext.len() - i,
        {
            out.push(ext[i]);
            assert(ext@.take(i + 1) == ext@.take(i as int).push(ext@[i as int]));
            i += 1;
        }
        assert(ext@.take(ext@.len() as int) == ext@);
        string_of(&out)
    }

    /// Appends `ann` and hands it back.
    pub fn add_annotation(&mut self, ann: Annotation) -> (added: &Annotation)
        ensures
            final(self).annotations@ == old(self).annotations@.push(ann),
            *added == ann,
            final(self).version == old(self).version,
            final(self).audio_path == old(self).audio_path,
            final(self).duration == old(self).duration,
            final(self).sample_rate == old(self).sample_rate,
            final(self).channels == old(self).channels,
            final(self).last_selection == old(self).last_selection,
    {
        self.annotations.push(ann);
        let n = self.annotations.len();
        &self.annotations[n - 1]
    }

    /// Removes every annotation whose id is `id`. True when one was removed.
    pub fn remove_annotation(&mut self, id: &str) -> (removed: bool)
        ensures
            ann_views(final(self).annotations@) == without_id(ann_views(old(self).annotations@), id@),
            removed == (exists|k: int| 0 <= k < old(self).annotations@.len()
                && (#[trigger] old(self).annotations@[k]).id@ == id@),
            final(self).version == old(self).version,
            final(self).audio_path == old(self).audio_path,
            final(self).duration == old(self).duration,
            final(self).sample_rate == old(self).sample_rate,
            final(self).channels == old(self).channels,
            final(self).last_selection == old(self).last_selection,
    {
        let key = id.to_owned();
        let mut taken: Vec<Annotation> = Vec::new();
        std::mem::swap(&mut taken, &mut self.annotations);
        let ghost before = taken@;
        let ghost pred = |a: AnnotationView| a.id != id@;
        let mut kept: Vec<Annotation> = Vec::new();
        let mut removed = false;
        for a in it: taken
            invariant
                it.seq() == before,
                key@ == id@,
                pred == (|a: AnnotationView| a.id != id@),
                ann_views(kept@) == ann_views(before.take(it.index() as int)).filter(pred),
                removed == (exists|k: int| 0 <= k < it.index() && (#[trigger] before[k]).id@ == id@),
        {
            let ghost i = it.index();
            proof {
                assert(ann_views(before.take(i + 1)).drop_last() == ann_views(before.take(i as int)));
                assert(ann_views(before.take(i + 1)).last() == a@);
            }
            let ghost prev = kept@;
            if same_string(&a.id, &key) {
                removed = true;
                assert(ann_views(before.take(i + 1)).filter(pred) == ann_views(before.take(i as int)).filter(pred)) by {
                    assert(ann_views(before.take(i + 1)) =~= ann_views(before.take(i as int)).push(a@));
                    lemma_filter_push(ann_views(before.take(i as int)), pred, a@);
                    assert(a@.id == a.id@);
                    assert(pred(a@) == (a@.id != id@));
                }
            } else {
                kept.push(a);
                assert(ann_views(kept@) == ann_views(prev).push(a@));
                assert(ann_views(before.take(i + 1)).filter(pred) == ann_views(before.take(i as int)).filter(pred).push(a@)) by {
                    assert(ann_views(before.take(i + 1)) =~= ann_views(before.take(i as int)).push(a@));
                    lemma_filter_push(ann_views(before.take(i as int)), pred, a@);
                    assert(a@.id == a.id@);
                    assert(pred(a@) == (a@.id != id@));
                }
            }
        }
        assert(before.take(before.len() as int) == before);
        self.annotations = kept;
        removed
    }

    /// The first annotation whose id is `id`.
    pub fn annotation(&self, id: &str) -> (found: Option<&Annotation>)
        ensures
            match first_with_id(ann_views(self.annotations@), id@) {
                Some(k) => found == Some(&self.annotations@[k]),
                None => found is None,
            },
    {
        let key = id.to_owned();
        let n = self.annotations.len();
        let mut i: usize = 0;
        while i < n
            invariant
                n == self.annotations@.len(),
                i <= n,
                key@ == id@,
                forall|k: int| 0 <= k < i ==> (#[trigger] ann_views(self.annotations@)[k]).id != id@,
            decreases n - i,
        {
            if same_string(&self.annotations[i].id, &key) {
                proof {
                    lemma_first_with_id(ann_views(self.annotations@), id@, i as int);
                }
                return Some(&self.annotations[i]);
            }
            i += 1;
        }
        proof {
            lemma_first_with_id(ann_views(self.annotations@), id@, i as int);
        }
        None
    }

    /// Keeps only the annotations whose id is in `keep`; returns how many
    /// were dropped.
    pub fn retain_ids(&mut self, keep: &Vec<String>) -> (dropped: usize)
        ensures
            ann_views(final(self).annotations@) == with_ids_in(ann_views(old(self).annotations@), views(keep@)),
            dropped == old(self).annotations@.len() - final(self).annotations@.len(),
            final(self).version == old(self).version,
            final(self).audio_path == old(self).audio_path,
            final(self).duration == old(self).duration,
            final(self).sample_rate == old(self).sample_rate,
            final(self).channels == old(self).channels,
            final(self).last_selection == old(self).last_selection,
    {
        let mut taken: Vec<Annotation> = Vec::new();
        std::mem::swap(&mut taken, &mut self.annotations);
        let ghost before = taken@;
        let ghost pred = |a: AnnotationView| views(keep@).contains(a.id);
        assert(before.len() == taken.len());
        let mut kept: Vec<Annotation> = Vec::new();
        let mut dropped: usize = 0;
        for a in it: taken
            invariant
                it.seq() == before,
                pred == (|a: AnnotationView| views(keep@).contains(a.id)),
                ann_views(kept@) == ann_views(before.take(it.index() as int)).filter(pred),
                dropped + kept@.len() == it.index(),
                before.len() <= usize::MAX,
        {
            let ghost i = it.index();
            proof {
                assert(ann_views(before.take(i + 1)).drop_last() == ann_views(before.take(i as int)));
                assert(ann_views(before.take(i + 1)).last() == a@);
            }
            let ghost prev = kept@;
            if contains_string(keep, &a.id) {
                kept.push(a);
                assert(ann_views(kept@) == ann_views(prev).push(a@));
                assert(ann_views(before.take(i + 1)).filter(pred) == ann_views(before.take(i as int)).filter(pred).push(a@)) by {
                    assert(ann_views(before.take(i + 1)) =~= ann_views(before.take(i as int)).push(a@));
                    lemma_filter_push(ann_views(before.take(i as int)), pred, a@);
                }
            } else {
                dropped += 1;
                assert(ann_views(before.take(i + 1)).filter(pred) == ann_views(before.take(i as int)).filter(pred)) by {
                    assert(ann_views(before.take(i + 1)) =~= ann_views(before.take(i as int)).push(a@));
                    lemma_filter_push(ann_views(before.take(i as int)), pred, a@);
                }
            }
        }
        assert(before.take(before.len() as int) == before);
        self.annotations = kept;
        dropped
    }
}

/// Whether some string of `set` reads as `s`.
fn contains_string(set: &Vec<String>, s: &String) -> (r: bool)
    ensures
        r == views(set@).contains(s@),
{
    let n = set.len();
    let mut i: usize = 0;
    while i < n
        invariant
            n == set@.len(),
            i <= n,
            forall|k: int| 0 <= k < i ==> (#[trigger] set@[k])@ != s@,
        decreases n - i,
    {
        if same_string(&set[i], s) {
            assert(views(set@)[i as int] == s@);
            return true;
        }
        i += 1;
    }
    assert forall|k: int| 0 <= k < views(set@).len() implies views(set@)[k] != s@ by {
        assert(views(set@)[k] == set@[k]@);
    }
    false
}


// ---- ordering by time -----------------------------------------------------------

/// `a` comes no later than `b`: earlier start, or the same start and an end
/// no later.
pub open spec fn time_le(a: AnnotationView, b: AnnotationView) -> bool {
    a.range.start < b.range.start || (a.range.start == b.range.start && a.range.end <= b.range.end)
}

/// `x` inserted into `s` after every element that comes no later than it,
/// looking from the back.
pub open spec fn insert_by_time(s: Seq<AnnotationView>, x: AnnotationView) -> Seq<AnnotationView>
    decreases s.len(),
{
    if s.len() == 0 {
        seq![x]
    } else if time_le(s.last(), x) {
        s.push(x)
    } else {
        insert_by_time(s.drop_last(), x).push(s.last())
    }
}

/// The stable sort of `s` by start time, ties broken by end time: annotations
/// that tie keep their relative order.
pub open spec fn sort_by_time(s: Seq<AnnotationView>) -> Seq<AnnotationView>
    decreases s.len(),
{
    if s.len() == 0 {
        s
    } else {
        insert_by_time(sort_by_time(s.drop_last()), s.last())
    }
}

/// Every annotation of `s` comes no later than the ones after it.
pub open spec fn sorted_by_time(s: Seq<AnnotationView>) -> bool {
    forall|i: int, j: int| 0 <= i < j < s.len() ==> time_le(#[trigger] s[i], #[trigger] s[j])
}

proof fn lemma_insert_at(s: Seq<AnnotationView>, x: AnnotationView, p: int)
    requires
        0 <= p <= s.len(),
        forall|k: int| p <= k < s.len() ==> !time_le(#[trigger] s[k], x),
        p == 0 || time_le(s[p - 1], x),
    ensures
        insert_by_time(s, x) == s.insert(p, x),
    decreases s.len(),
{
    if s.len() == 0 {
        assert(s.insert(p, x) =~= seq![x]);
    } else if p == s.len() {
        assert(s.insert(p, x) =~= s.push(x));
    } else {
        assert(!time_le(s.last(), x));
        let t = s.drop_last();
        assert forall|k: int| p <= k < t.len() implies !time_le(#[trigger] t[k], x) by {
            assert(t[k] == s[k]);
        }
        if p > 0 {
            assert(t[p - 1] == s[p - 1]);
        }
        lemma_insert_at(t, x, p);
        assert(t.insert(p, x).push(s.last()) =~= s.insert(p, x));
    }
}

proof fn lemma_insert_len_multiset(s: Seq<AnnotationView>, x: AnnotationView)
    ensures
        insert_by_time(s, x).len() == s.len() + 1,
        insert_by_time(s, x).to_multiset() =~= s.to_multiset().insert(x),
    decreases s.len(),
{
    broadcast use vstd::seq_lib::group_to_multiset_ensures;
    if s.len() > 0 && !time_le(s.last(), x) {
        let t = s.drop_last();
        lemma_insert_len_multiset(t, x);
        assert(t.push(s.last()) == s);
    }
}

/// Sorting by time only reorders: the same annotations, as many times each.
pub proof fn lemma_sort_by_time_permutes(s: Seq<AnnotationView>)
    ensures
        sort_by_time(s).len() == s.len(),
        sort_by_time(s).to_multiset() =~= s.to_multiset(),
    decreases s.len(),
{
    broadcast use vstd::seq_lib::group_to_multiset_ensures;
    if s.len() > 0 {
        let t = s.drop_last();
        lemma_sort_by_time_permutes(t);
        lemma_insert_len_multiset(sort_by_time(t), s.last());
        assert(t.push(s.last()) == s);
    }
}

proof fn lemma_insert_bounded(s: Seq<AnnotationView>, x: AnnotationView, b: AnnotationView)
    requires
        forall|j: int| 0 <= j < s.len() ==> time_le(#[trigger] s[j], b),
        time_le(x, b),
    ensures
        forall|j: int| 0 <= j < insert_by_time(s, x).len() ==> time_le(#[trigger] insert_by_time(s, x)[j], b),
    decreases s.len(),
{
    lemma_insert_len_multiset(s, x);
    if s.len() > 0 && !time_le(s.last(), x) {
        let t = s.drop_last();
        assert forall|j: int| 0 <= j < t.len() implies time_le(#[trigger] t[j], b) by {
            assert(t[j] == s[j]);
        }
        lemma_insert_bounded(t, x, b);
        lemma_insert_len_multiset(t, x);
        assert forall|j: int| 0 <= j < insert_by_time(s, x).len() implies time_le(#[trigger] insert_by_time(s, x)[j], b) by {
            if j < insert_by_time(t, x).len() {
                assert(insert_by_time(s, x)[j] == insert_by_time(t, x)[j]);
            } else {
                assert(insert_by_time(s, x)[j] == s[s.len() - 1]);
            }
        }
    }
}

proof fn lemma_insert_sorted(s: Seq<AnnotationView>, x: AnnotationView)
    requires
        sorted_by_time(s),
    ensures
        sorted_by_time(insert_by_time(s, x)),
    decreases s.len(),
{
    lemma_insert_len_multiset(s, x);
    if s.len() == 0 {
    } else if time_le(s.last(), x) {
        let r = s.push(x);
        assert forall|i: int, j: int| 0 <= i < j < r.len() implies time_le(#[trigger] r[i], #[trigger] r[j]) by {
            if j == s.len() {
                if i < s.len() - 1 {
                    assert(time_le(s[i], s[s.len() - 1]));
                }
            } else {
                assert(r[i] == s[i] && r[j] == s[j]);
            }
        }
    } else {
        let t = s.drop_last();
        let l = s.last();
        assert(sorted_by_time(t)) by {
            assert forall|i: int, j: int| 0 <= i < j < t.len() implies time_le(#[trigger] t[i], #[trigger] t[j]) by {
                assert(t[i] == s[i] && t[j] == s[j]);
            }
        }
        lemma_insert_sorted(t, x);
        assert forall|j: int| 0 <= j < t.len() implies time_le(#[trigger] t[j], l) by {
            assert(t[j] == s[j]);
        }
        lemma_insert_bounded(t, x, l);
        lemma_insert_len_multiset(t, x);
        let it = insert_by_time(t, x);
        let r = insert_by_time(s, x);
        assert(r == it.push(l));
        assert forall|i: int, j: int| 0 <= i < j < r.len() implies time_le(#[trigger] r[i], #[trigger] r[j]) by {
            if j == it.len() {
                assert(r[i] == it[i]);
            } else {
                assert(r[i] == it[i] && r[j] == it[j]);
            }
        }
    }
}

/// Sorting by time gives annotations in time order.
pub proof fn lemma_sort_by_time_sorted(s: Seq<AnnotationView>)
    ensures
        sorted_by_time(sort_by_time(s)),
    decreases s.len(),
{
    if s.len() > 0 {
        lemma_sort_by_time_sorted(s.drop_last());
        lemma_insert_sorted(sort_by_time(s.drop_last()), s.last());
    }
}

fn time_le_exec(a: &Annotation, b: &Annotation) -> (r: bool)
    ensures
        r == time_le(a@, b@),
{
    a.range.start < b.range.start || (a.range.start == b.range.start && a.range.end <= b.range.end)
}

impl Session {
    /// Sorts the annotations by start time, ties broken by end time, keeping
    /// the relative order of full ties (a stable sort). Called before saving,
    /// so the file is the same whatever order the marks were added in.
    pub fn sort_annotations(&mut self)
        ensures
            ann_views(final(self).annotations@) == sort_by_time(ann_views(old(self).annotations@)),
            forall|i: int, j: int| 0 <= i < j < final(self).annotations@.len() ==>
                (#[trigger] final(self).annotations@[i]).range.start <= (#[trigger] final(self).annotations@[j]).range.start
                && (final(self).annotations@[i].range.start == final(self).annotations@[j].range.start
                    ==> final(self).annotations@[i].range.end <= final(self).annotations@[j].range.end),
            final(self).version == old(self).version,
            final(self).audio_path == old(self).audio_path,
            final(self).duration == old(self).duration,
            final(self).sample_rate == old(self).sample_rate,
            final(self).channels == old(self).channels,
            final(self).last_selection == old(self).last_selection,
    {
        let mut taken: Vec<Annotation> = Vec::new();
        std::mem::swap(&mut taken, &mut self.annotations);
        let ghost before = taken@;
        let mut out: Vec<Annotation> = Vec::new();
        for a in it: taken
            invariant
                it.seq() == before,
                ann_views(out@) == sort_by_time(ann_views(before.take(it.index() as int))),
        {
            let ghost i = it.index();
            let mut p: usize = out.len();
            while p > 0 && !time_le_exec(&out[p - 1], &a)
                invariant
                    p <= out@.len(),
                    forall|k: int| p <= k < out@.len() ==> !time_le(#[trigger] ann_views(out@)[k], a@),
                decreases p,
            {
                p -= 1;
            }
            let ghost prev = ann_views(out@);
            proof {
                lemma_insert_at(prev, a@, p as int);
                assert(ann_views(before.take(i + 1)).drop_last() =~= ann_views(before.take(i as int)));
                assert(ann_views(before.take(i + 1)).last() == a@);
            }
            out.insert(p, a);
            assert(ann_views(out@) =~= prev.insert(p as int, a@));
        }
        assert(before.take(before.len() as int) == before);
        proof {
            lemma_sort_orders_by_start_then_end(ann_views(before));
            assert forall|i: int, j: int| 0 <= i < j < out@.len() implies
                (#[trigger] out@[i]).range.start <= (#[trigger] out@[j]).range.start
                && (out@[i].range.start == out@[j].range.start ==> out@[i].range.end <= out@[j].range.end) by {
                assert(ann_views(out@)[i] == out@[i]@ && ann_views(out@)[j] == out@[j]@);
            }
        }
        self.annotations = out;
    }
}


// ---- merge: an agent's edits coming back ------------------------------------------

/// One end of a patch's range, as the patch gave it: in seconds (as a time
/// key), as typed text (`M:SS.mmm`, or plain seconds) together with the key
/// that text reads as (none when it is not a timestamp), or not at all.
#[derive(Debug)]
pub struct PatchEnd {
    pub seconds: Option<i64>,
    pub typed: Option<String>,
    pub typed_key: Option<i64>,
}

/// What a patch end holds, as plain values.
pub struct PatchEndView {
    pub seconds: Option<i64>,
    pub typed: Option<Seq<char>>,
    pub typed_key: Option<i64>,
}

impl View for PatchEnd {
    type V = PatchEndView;

    open spec fn view(&self) -> PatchEndView {
        PatchEndView { seconds: self.seconds, typed: opt_view(self.typed), typed_key: self.typed_key }
    }
}

/// What an annotation coming back from an agent may carry. Every field is
/// optional, so an agent can patch just the text, or move just one end.
#[derive(Debug)]
pub struct AnnotationPatch {
    /// The annotation to update. Absent or blank: create a new one.
    pub id: Option<String>,
    pub start: PatchEnd,
    pub end: PatchEnd,
    pub text: Option<String>,
    pub tags: Option<Vec<String>>,
    pub color: Option<String>,
}

/// What a patch holds, as plain values.
pub struct PatchView {
    pub id: Option<Seq<char>>,
    pub start: PatchEndView,
    pub end: PatchEndView,
    pub text: Option<Seq<char>>,
    pub tags: Option<Seq<Seq<char>>>,
    pub color: Option<Seq<char>>,
}

impl View for AnnotationPatch {
    type V = PatchView;

    open spec fn view(&self) -> PatchView {
        PatchView {
            id: opt_view(self.id),
            start: self.start@,
            end: self.end@,
            text: opt_view(self.text),
            tags: match self.tags {
                Some(t) => Some(views(t@)),
                None => None,
            },
            color: opt_view(self.color),
        }
    }
}

/// The views of a sequence of patches.
pub open spec fn patch_views(s: Seq<AnnotationPatch>) -> Seq<PatchView> {
    s.map_values(|p: AnnotationPatch| p@)
}

impl View for Rejection {
    type V = (usize, Seq<char>, Option<TimeRange>);

    open spec fn view(&self) -> (usize, Seq<char>, Option<TimeRange>) {
        (self.index, self.reason@, self.range)
    }
}

/// The views of a sequence of rejections.
pub open spec fn rejection_views(s: Seq<Rejection>) -> Seq<(usize, Seq<char>, Option<TimeRange>)> {
    s.map_values(|r: Rejection| r@)
}

// What `format!("{s:?}")` gives for a text (`<str as Debug>::fmt`): the text
// in double quotes, with escapes chosen by Unicode tables.
pub uninterp spec fn debug_quoted(s: Seq<char>) -> Seq<char>;

/// Renders `s` as `format!("{s:?}")` does. Trusted: the contract only names
/// the result (`debug_quoted`), leaving the escaping rules to the standard
/// library.
#[verifier::external_body]
fn quoted(s: &str) -> (q: String)
    ensures
        q@ == debug_quoted(s@),
{
    format!("{s:?}")
}

/// The refusal for a patch that gives no `side` of its range.
pub open spec fn missing_end_note(side: Seq<char>) -> Seq<char> {
    "patch has no "@ + side + " ("@ + side + "_sec or "@ + side + ")"@
}

/// The refusal for a `side` typed as text that is not a timestamp.
pub open spec fn unparseable_note(side: Seq<char>, typed: Seq<char>) -> Seq<char> {
    "unparseable "@ + side + " "@ + debug_quoted(typed)
}

/// The key of one end of a patch's range: its seconds when given, else its
/// typed text read as a timestamp, else `fallback` (the end of the
/// annotation being updated). The reason why not, when there is none.
pub open spec fn end_resolved(e: PatchEndView, side: Seq<char>, fallback: Option<i64>) -> Result<i64, Seq<char>> {
    match e.seconds {
        Some(v) => Ok(v),
        None => match e.typed {
            Some(t) => match e.typed_key {
                Some(k) => Ok(k),
                None => Err(unparseable_note(side, t)),
            },
            None => match fallback {
                Some(x) => Ok(x),
                None => Err(missing_end_note(side)),
            },
        },
    }
}

/// The range a patch asks for, its ends in either order, when it updates
/// an annotation over `existing` (none: it creates one). A missing end keeps
/// the existing one; the start is read before the end.
pub open spec fn range_resolved(p: PatchView, existing: Option<TimeRange>) -> Result<TimeRange, Seq<char>> {
    let fs = match existing { Some(r) => Some(r.start), None => None };
    let fe = match existing { Some(r) => Some(r.end), None => None };
    match end_resolved(p.start, "start"@, fs) {
        Err(e) => Err(e),
        Ok(a) => match end_resolved(p.end, "end"@, fe) {
            Err(e) => Err(e),
            Ok(b) => Ok(span_of(a, b)),
        },
    }
}

/// A result whose error is a `String`, by the view of that string.
pub open spec fn result_view<T>(r: Result<T, String>) -> Result<T, Seq<char>> {
    match r {
        Ok(v) => Ok(v),
        Err(e) => Err(e@),
    }
}

/// The id a patch refers to: its id when that holds more than white space.
pub open spec fn usable_id(id: Option<Seq<char>>) -> Option<Seq<char>> {
    match id {
        Some(s) => if trim(s, Strip::Whitespace).len() > 0 { Some(s) } else { None },
        None => None,
    }
}

/// Whether applying `p` (with range `r`) to `a` changes anything.
pub open spec fn patch_changes(a: AnnotationView, r: TimeRange, p: PatchView) -> bool {
    ||| a.range != r
    ||| (p.text matches Some(t) && t != a.text)
    ||| (p.tags matches Some(t) && t != a.tags)
    ||| (p.color matches Some(c) && Some(c) != a.color)
}

/// `a` with `p` applied: the new range, and each field the patch carries.
pub open spec fn patched(a: AnnotationView, r: TimeRange, p: PatchView) -> AnnotationView {
    AnnotationView {
        id: a.id,
        range: r,
        text: match p.text { Some(t) => t, None => a.text },
        tags: match p.tags { Some(t) => t, None => a.tags },
        color: match p.color { Some(c) => Some(c), None => a.color },
        created_at: a.created_at,
    }
}

/// The annotation a patch creates, given the fresh id and creation stamp
/// made for it. The patch's own id wins over the fresh one when usable.
pub open spec fn created_from(r: TimeRange, p: PatchView, fresh: (Seq<char>, Seq<char>)) -> AnnotationView {
    AnnotationView {
        id: match usable_id(p.id) { Some(id) => id, None => fresh.0 },
        range: r,
        text: match p.text { Some(t) => t, None => Seq::empty() },
        tags: match p.tags { Some(t) => t, None => Seq::empty() },
        color: p.color,
        created_at: fresh.1,
    }
}

/// Where a merge stands after some patches: the annotations, the counters,
/// the refusals so far, and how many fresh ids have been drawn.
pub struct MergeState {
    pub anns: Seq<AnnotationView>,
    pub report: MergeReport,
    pub rejections: Seq<(usize, Seq<char>, Option<TimeRange>)>,
    pub used: nat,
}

/// The index of the annotation that patch `p` updates: the first one
/// carrying its usable id.
pub open spec fn target_of(anns: Seq<AnnotationView>, p: PatchView) -> Option<int> {
    match usable_id(p.id) {
        Some(id) => first_with_id(anns, id),
        None => None,
    }
}

/// The range of the annotation that patch `p` updates, if any.
pub open spec fn existing_range(anns: Seq<AnnotationView>, p: PatchView) -> Option<TimeRange> {
    match target_of(anns, p) {
        Some(k) => Some(anns[k].range),
        None => None,
    }
}

/// The merge state after patch `p`, at position `i`, is applied to `st`.
/// A refusal for a range that does not fit carries that range and leaves
/// the wording to the caller, since it quotes seconds.
pub open spec fn merge_step(
    st: MergeState,
    p: PatchView,
    i: usize,
    limit: i64,
    fresh: Seq<(Seq<char>, Seq<char>)>,
) -> MergeState {
    let rep = st.report;
    match range_resolved(p, existing_range(st.anns, p)) {
        Err(e) => MergeState {
            report: MergeReport { rejected: (rep.rejected + 1) as usize, ..rep },
            rejections: st.rejections.push((i, e, None)),
            ..st
        },
        Ok(r) => {
            if !range_fits(r, limit) {
                MergeState {
                    report: MergeReport { rejected: (rep.rejected + 1) as usize, ..rep },
                    rejections: st.rejections.push((i, Seq::empty(), Some(r))),
                    ..st
                }
            } else {
                match target_of(st.anns, p) {
                    Some(k) => {
                        let a = st.anns[k];
                        MergeState {
                            anns: st.anns.update(k, patched(a, r, p)),
                            report: if patch_changes(a, r, p) {
                                MergeReport { updated: (rep.updated + 1) as usize, ..rep }
                            } else {
                                MergeReport { unchanged: (rep.unchanged + 1) as usize, ..rep }
                            },
                            ..st
                        }
                    },
                    None => MergeState {
                        anns: st.anns.push(created_from(r, p, fresh[st.used as int])),
                        report: MergeReport { created: (rep.created + 1) as usize, ..rep },
                        used: st.used + 1,
                        ..st
                    },
                }
            }
        },
    }
}

/// The merge state after the first `n` patches are applied in order to
/// `anns`, the `k`-th created annotation getting `fresh[k]`.
pub open spec fn merge_upto(
    anns: Seq<AnnotationView>,
    patches: Seq<PatchView>,
    limit: i64,
    fresh: Seq<(Seq<char>, Seq<char>)>,
    n: nat,
) -> MergeState
    decreases n,
{
    if n == 0 {
        MergeState {
            anns,
            report: MergeReport { created: 0, updated: 0, unchanged: 0, rejected: 0 },
            rejections: Seq::empty(),
            used: 0,
        }
    } else {
        merge_step(
            merge_upto(anns, patches, limit, fresh, (n - 1) as nat),
            patches[n - 1],
            (n - 1) as usize,
            limit,
            fresh,
        )
    }
}

/// The merge never draws more fresh ids than it has created annotations, and
/// its counters add up to the number of patches applied.
pub proof fn lemma_merge_counts(
    anns: Seq<AnnotationView>,
    patches: Seq<PatchView>,
    limit: i64,
    fresh: Seq<(Seq<char>, Seq<char>)>,
    n: nat,
)
    requires
        n <= usize::MAX,
    ensures
        merge_upto(anns, patches, limit, fresh, n).used == merge_upto(anns, patches, limit, fresh, n).report.created,
        merge_upto(anns, patches, limit, fresh, n).report.spec_total() == n,
        merge_upto(anns, patches, limit, fresh, n).rejections.len() == merge_upto(anns, patches, limit, fresh, n).report.rejected,
        merge_upto(anns, patches, limit, fresh, n).anns.len() == anns.len() + merge_upto(anns, patches, limit, fresh, n).report.created,
    decreases n,
{
    if n > 0 {
        lemma_merge_counts(anns, patches, limit, fresh, (n - 1) as nat);
        let st = merge_upto(anns, patches, limit, fresh, (n - 1) as nat);
        if let Some(id) = usable_id(patches[n - 1].id) {
            lemma_first_with_id_in(st.anns, id);
        }
    }
}

/// The first `n` steps of a merge only read the fresh ids they draw, so
/// fresh lists that agree on those give the same state.
proof fn lemma_merge_fresh_prefix(
    anns: Seq<AnnotationView>,
    patches: Seq<PatchView>,
    limit: i64,
    f1: Seq<(Seq<char>, Seq<char>)>,
    f2: Seq<(Seq<char>, Seq<char>)>,
    n: nat,
)
    requires
        n <= usize::MAX,
        merge_upto(anns, patches, limit, f1, n).used <= f1.len(),
        f1.len() <= f2.len(),
        forall|k: int| 0 <= k < f1.len() ==> f1[k] == f2[k],
    ensures
        merge_upto(anns, patches, limit, f1, n) == merge_upto(anns, patches, limit, f2, n),
    decreases n,
{
    if n > 0 {
        lemma_merge_counts(anns, patches, limit, f1, (n - 1) as nat);
        lemma_merge_counts(anns, patches, limit, f1, n);
        lemma_merge_fresh_prefix(anns, patches, limit, f1, f2, (n - 1) as nat);
    }
}


/// The refusals, report and annotations that merging `patches` into `anns`
/// gives, with `fresh` supplying the new annotations' ids and stamps.
pub open spec fn merge_outcome(
    anns: Seq<AnnotationView>,
    patches: Seq<PatchView>,
    limit: i64,
    fresh: Seq<(Seq<char>, Seq<char>)>,
    final_anns: Seq<AnnotationView>,
    report: MergeReport,
    rejections: Seq<(usize, Seq<char>, Option<TimeRange>)>,
) -> bool {
    let st = merge_upto(anns, patches, limit, fresh, patches.len());
    &&& final_anns == sort_by_time(st.anns)
    &&& report == st.report
    &&& rejections == st.rejections
    &&& fresh.len() == st.used
    &&& forall|k: int| 0 <= k < fresh.len() ==> uuid_shaped((#[trigger] fresh[k]).0) && rfc3339_shaped(fresh[k].1)
}

/// Merging `patches` into `anns` can give exactly these annotations, report
/// and refusals, for some fresh ids and stamps drawn along the way.
pub open spec fn merged(
    anns: Seq<AnnotationView>,
    patches: Seq<PatchView>,
    limit: i64,
    final_anns: Seq<AnnotationView>,
    report: MergeReport,
    rejections: Seq<(usize, Seq<char>, Option<TimeRange>)>,
) -> bool {
    exists|fresh: Seq<(Seq<char>, Seq<char>)>| #[trigger] merge_outcome(anns, patches, limit, fresh, final_anns, report, rejections)
}

fn usable_id_exec(id: &Option<String>) -> (r: Option<&String>)
    ensures
        match usable_id(opt_view(*id)) {
            Some(v) => r matches Some(s) && s@ == v,
            None => r is None,
        },
{
    match id {
        Some(s) => {
            let t = trimmed(&chars_of(s.as_str()), Strip::Whitespace);
            if t.len() > 0 { Some(s) } else { None }
        },
        None => None,
    }
}

fn find_id(anns: &Vec<Annotation>, id: &String) -> (r: Option<usize>)
    ensures
        match first_with_id(ann_views(anns@), id@) {
            Some(k) => r matches Some(j) && j == k,
            None => r is None,
        },
{
    let n = anns.len();
    let mut i: usize = 0;
    while i < n
        invariant
            n == anns@.len(),
            i <= n,
            forall|k: int| 0 <= k < i ==> (#[trigger] ann_views(anns@)[k]).id != id@,
        decreases n - i,
    {
        if same_string(&anns[i].id, id) {
            proof {
                lemma_first_with_id(ann_views(anns@), id@, i as int);
            }
            return Some(i);
        }
        i += 1;
    }
    proof {
        lemma_first_with_id(ann_views(anns@), id@, i as int);
    }
    None
}

fn clone_opt_string(o: &Option<String>) -> (r: Option<String>)
    ensures
        opt_view(r) == opt_view(*o),
{
    match o {
        Some(s) => Some(s.clone()),
        None => None,
    }
}

fn clone_strings(v: &Vec<String>) -> (r: Vec<String>)
    ensures
        views(r@) == views(v@),
{
    let mut out: Vec<String> = Vec::new();
    let n = v.len();
    let mut i: usize = 0;
    while i < n
        invariant
            n == v@.len(),
            i <= n,
            views(out@) == views(v@.take(i as int)),
        decreases n - i,
    {
        out.push(v[i].clone());
        assert(views(v@.take(i + 1)) =~= views(v@.take(i as int)).push(v@[i as int]@));
        assert(views(out@) =~= views(v@.take(i as int)).push(v@[i as int]@));
        i += 1;
    }
    assert(v@.take(n as int) == v@);
    out
}

fn strings_equal(a: &Vec<String>, b: &Vec<String>) -> (r: bool)
    ensures
        r == (views(a@) == views(b@)),
{
    if a.len() != b.len() {
        assert(views(a@).len() != views(b@).len());
        return false;
    }
    let n = a.len();
    let mut i: usize = 0;
    while i < n
        invariant
            n == a@.len(),
            n == b@.len(),
            i <= n,
            forall|k: int| 0 <= k < i ==> (#[trigger] a@[k])@ == b@[k]@,
        decreases n - i,
    {
        if !same_string(&a[i], &b[i]) {
            assert(views(a@)[i as int] != views(b@)[i as int]);
            return false;
        }
        i += 1;
    }
    assert(views(a@) =~= views(b@)) by {
        assert forall|k: int| 0 <= k < n implies views(a@)[k] == views(b@)[k] by {
            assert(a@[k]@ == b@[k]@);
        }
    }
    true
}

fn same_opt_string(a: &Option<String>, b: &Option<String>) -> (r: bool)
    ensures
        r == (opt_view(*a) == opt_view(*b)),
{
    match (a, b) {
        (Some(x), Some(y)) => same_string(x, y),
        (None, None) => true,
        _ => false,
    }
}

fn range_fits_exec(r: &TimeRange, limit: i64) -> (b: bool)
    ensures
        b == range_fits(*r, limit),
{
    -FINITE_KEY_MAX <= r.start && r.start <= FINITE_KEY_MAX && -FINITE_KEY_MAX <= r.end
        && r.end <= FINITE_KEY_MAX && 0 <= r.start && r.end <= limit && r.start < r.end
}

fn resolve_end(e: &PatchEnd, side: &str, fallback: Option<i64>) -> (r: Result<i64, String>)
    ensures
        result_view(r) == end_resolved(e@, side@, fallback),
{
    match e.seconds {
        Some(v) => Ok(v),
        None => match &e.typed {
            Some(t) => match e.typed_key {
                Some(k) => Ok(k),
                None => {
                    let mut out = chars_of("unparseable ");
                    append_str(&mut out, side);
                    append_str(&mut out, " ");
                    let q = quoted(t.as_str());
                    append_str(&mut out, q.as_str());
                    Err(string_of(&out))
                },
            },
            None => match fallback {
                Some(x) => Ok(x),
                None => {
                    let mut out = chars_of("patch has no ");
                    append_str(&mut out, side);
                    append_str(&mut out, " (");
                    append_str(&mut out, side);
                    append_str(&mut out, "_sec or ");
                    append_str(&mut out, side);
                    append_str(&mut out, ")");
                    Err(string_of(&out))
                },
            },
        },
    }
}

/// The range patch `p` asks for when it updates an annotation over
/// `existing` (none when it creates one): each end from its seconds, else
/// from its typed text, else the existing end; the reason why not when an end
/// cannot be had.
pub fn resolve_patch_range(p: &AnnotationPatch, existing: Option<TimeRange>) -> (r: Result<TimeRange, String>)
    ensures
        result_view(r) == range_resolved(p@, existing),
{
    let fs = match existing { Some(x) => Some(x.start), None => None };
    let fe = match existing { Some(x) => Some(x.end), None => None };
    match resolve_end(&p.start, "start", fs) {
        Err(e) => Err(e),
        Ok(a) => match resolve_end(&p.end, "end", fe) {
            Err(e) => Err(e),
            Ok(b) => Ok(TimeRange::new(a, b)),
        },
    }
}

impl Session {
    /// The merge, before sorting, with the fresh ids and stamps it drew.
    fn merge_in_order(&mut self, patches: &Vec<AnnotationPatch>, limit: i64)
        -> (res: (MergeReport, Vec<Rejection>, Ghost<Seq<(Seq<char>, Seq<char>)>>))
        ensures
            ann_views(final(self).annotations@)
                == merge_upto(ann_views(old(self).annotations@), patch_views(patches@), limit, res.2@, patches@.len()).anns,
            res.0 == merge_upto(ann_views(old(self).annotations@), patch_views(patches@), limit, res.2@, patches@.len()).report,
            rejection_views(res.1@)
                == merge_upto(ann_views(old(self).annotations@), patch_views(patches@), limit, res.2@, patches@.len()).rejections,
            res.2@.len() == merge_upto(ann_views(old(self).annotations@), patch_views(patches@), limit, res.2@, patches@.len()).used,
            forall|k: int| 0 <= k < res.2@.len() ==> uuid_shaped((#[trigger] res.2@[k]).0) && rfc3339_shaped(res.2@[k].1),
            final(self).version == old(self).version,
            final(self).audio_path == old(self).audio_path,
            final(self).duration == old(self).duration,
            final(self).sample_rate == old(self).sample_rate,
            final(self).channels == old(self).channels,
            final(self).last_selection == old(self).last_selection,
    {
        let ghost anns0 = ann_views(self.annotations@);
        let ghost pv = patch_views(patches@);
        let ghost mut fresh: Seq<(Seq<char>, Seq<char>)> = Seq::empty();
        let mut report = MergeReport::empty();
        let mut rejections: Vec<Rejection> = Vec::new();
        let n = patches.len();
        let mut i: usize = 0;
        while i < n
            invariant
                n == patches@.len(),
                i <= n,
                pv == patch_views(patches@),
                ann_views(self.annotations@) == merge_upto(anns0, pv, limit, fresh, i as nat).anns,
                report == merge_upto(anns0, pv, limit, fresh, i as nat).report,
                rejection_views(rejections@) == merge_upto(anns0, pv, limit, fresh, i as nat).rejections,
                fresh.len() == merge_upto(anns0, pv, limit, fresh, i as nat).used,
                forall|k: int| 0 <= k < fresh.len() ==> uuid_shaped((#[trigger] fresh[k]).0) && rfc3339_shaped(fresh[k].1),
                self.version == old(self).version,
                self.audio_path == old(self).audio_path,
                self.duration == old(self).duration,
                self.sample_rate == old(self).sample_rate,
                self.channels == old(self).channels,
                self.last_selection == old(self).last_selection,
            decreases n - i,
        {
            let p = &patches[i];
            let ghost st = merge_upto(anns0, pv, limit, fresh, i as nat);
            proof {
                lemma_merge_counts(anns0, pv, limit, fresh, i as nat);
                assert(pv[i as int] == p@);
                assert(merge_upto(anns0, pv, limit, fresh, (i + 1) as nat) == merge_step(st, p@, i, limit, fresh));
            }
            let uid = usable_id_exec(&p.id);
            let found = match uid {
                Some(id) => {
                    proof {
                        lemma_first_with_id_in(st.anns, id@);
                    }
                    find_id(&self.annotations, id)
                },
                None => None,
            };
            assert(found matches Some(k) ==> target_of(st.anns, p@) == Some(k as int));
            assert(found is None ==> target_of(st.anns, p@) is None);
            let existing = match found {
                Some(k) => Some(self.annotations[k].range),
                None => None,
            };
            assert(existing == existing_range(st.anns, p@));
            match resolve_patch_range(p, existing) {
                Err(e) => {
                    report.rejected = report.rejected + 1;
                    rejections.push(Rejection { index: i, reason: e, range: None });
                    assert(rejection_views(rejections@) =~= st.rejections.push((i, e@, None)));
                },
                Ok(r) => {
                    if !range_fits_exec(&r, limit) {
                        report.rejected = report.rejected + 1;
                        rejections.push(Rejection { index: i, reason: String::new(), range: Some(r) });
                        assert(rejection_views(rejections@) =~= st.rejections.push((i, Seq::empty(), Some(r))));
                    } else {
                        match found {
                            Some(k) => {
                                let old_a = self.annotations.remove(k);
                                let ghost av = old_a@;
                                assert(av == st.anns[k as int]);
                                let changed = !(old_a.range.start == r.start && old_a.range.end == r.end)
                                    || (match &p.text { Some(t) => !same_string(t, &old_a.text), None => false })
                                    || (match &p.tags { Some(t) => !strings_equal(t, &old_a.tags), None => false })
                                    || (match &p.color {
                                        Some(c) => !same_opt_string(&p.color, &old_a.color),
                                        None => false,
                                    });
                                assert(changed == patch_changes(av, r, p@));
                                let Annotation { id, range: _, text, tags, color, created_at } = old_a;
                                let new_text = match &p.text { Some(t) => t.clone(), None => text };
                                let new_tags = match &p.tags { Some(t) => clone_strings(t), None => tags };
                                let new_color = match &p.color { Some(c) => Some(c.clone()), None => color };
                                let new_a = Annotation {
                                    id,
                                    range: r,
                                    text: new_text,
                                    tags: new_tags,
                                    color: new_color,
                                    created_at,
                                };
                                assert(new_a@ == patched(av, r, p@));
                                self.annotations.insert(k, new_a);
                                assert(ann_views(self.annotations@) =~= st.anns.update(k as int, patched(av, r, p@)));
                                if changed {
                                    report.updated = report.updated + 1;
                                } else {
                                    report.unchanged = report.unchanged + 1;
                                }
                            },
                            None => {
                                let text = match &p.text { Some(t) => t.clone(), None => String::new() };
                                let mut a = Annotation::new(r, text);
                                let ghost made = (a.id@, a.created_at@);
                                if let Some(t) = &p.tags {
                                    a.tags = clone_strings(t);
                                }
                                if p.color.is_some() {
                                    a.color = clone_opt_string(&p.color);
                                }
                                if let Some(id) = uid {
                                    a.id = id.clone();
                                }
                                proof {
                                    let f2 = fresh.push(made);
                                    lemma_merge_fresh_prefix(anns0, pv, limit, fresh, f2, i as nat);
                                    fresh = f2;
                                }
                                assert(a@.tags =~= created_from(r, p@, made).tags);
                                assert(a@.text =~= created_from(r, p@, made).text);
                                assert(a@.id =~= created_from(r, p@, made).id);
                                assert(a@.color == created_from(r, p@, made).color);
                                assert(a@ == created_from(r, p@, made));
                                let ghost prev = self.annotations@;
                                self.annotations.push(a);
                                assert(ann_views(self.annotations@) =~= ann_views(prev).push(a@));
                                report.created = report.created + 1;
                                assert(merge_upto(anns0, pv, limit, fresh, (i + 1) as nat) == merge_step(merge_upto(anns0, pv, limit, fresh, i as nat), pv[i as int], i, limit, fresh));
                            },
                        }
                    }
                },
            }
            i += 1;
        }
        (report, rejections, Ghost(fresh))
    }

    /// Applies an agent's patches in order. A patch whose usable id names an
    /// existing annotation updates it: its range, where an end the patch does
    /// not give keeps the annotation's, and each field the patch carries. Any
    /// other patch creates a new annotation and must give both ends. A patch
    /// whose range cannot be read, or does not fit `limit` (the key of the
    /// audio's duration plus its tolerance), is refused on its own without
    /// stopping the batch. The annotations end sorted by time.
    pub fn merge_patches(&mut self, patches: &Vec<AnnotationPatch>, limit: i64) -> (res: (MergeReport, Vec<Rejection>))
        ensures
            merged(
                ann_views(old(self).annotations@),
                patch_views(patches@),
                limit,
                ann_views(final(self).annotations@),
                res.0,
                rejection_views(res.1@),
            ),
            res.0.spec_total() == patches@.len(),
            res.0.rejected == res.1@.len(),
            final(self).annotations@.len() == old(self).annotations@.len() + res.0.created,
            final(self).version == old(self).version,
            final(self).audio_path == old(self).audio_path,
            final(self).duration == old(self).duration,
            final(self).sample_rate == old(self).sample_rate,
            final(self).channels == old(self).channels,
            final(self).last_selection == old(self).last_selection,
    {
        let ghost anns0 = ann_views(self.annotations@);
        let ghost pv = patch_views(patches@);
        let n = patches.len();
        let (report, rejections, fresh) = self.merge_in_order(patches, limit);
        proof {
            lemma_merge_counts(anns0, pv, limit, fresh@, n as nat);
            lemma_sort_by_time_permutes(ann_views(self.annotations@));
        }
        self.sort_annotations();
        assert(merge_outcome(anns0, pv, limit, fresh@, ann_views(self.annotations@), report, rejection_views(rejections@)));
        (report, rejections)
    }
}


// ---- validation -------------------------------------------------------------------

/// Why `r` cannot stand as an annotation's range, if it cannot: an end that
/// is not finite, a range reaching before zero or past `limit` (reported
/// with `exceeds`, rendered by the caller since it quotes seconds), or an
/// empty range.
pub open spec fn range_fault(r: TimeRange, limit: i64, exceeds: Seq<char>) -> Option<Seq<char>> {
    if !finite_key(r.start) || !finite_key(r.end) {
        Some("range is not finite"@)
    } else if r.start < 0 || r.end > limit {
        Some(exceeds)
    } else if r.end <= r.start {
        Some("empty range"@)
    } else {
        None
    }
}

/// The refusals for the first `n` annotations, in order.
pub open spec fn validation(anns: Seq<AnnotationView>, limit: i64, notes: Seq<Seq<char>>, n: nat) -> Seq<(usize, Seq<char>, Option<TimeRange>)>
    decreases n,
{
    if n == 0 {
        Seq::empty()
    } else {
        let prev = validation(anns, limit, notes, (n - 1) as nat);
        match range_fault(anns[n - 1].range, limit, notes[n - 1]) {
            Some(reason) => prev.push(((n - 1) as usize, reason, None)),
            None => prev,
        }
    }
}

impl Session {
    /// Refuses every annotation whose range is not finite, reaches outside
    /// `[0, limit]`, or is empty. `exceeds[i]` is the refusal text for the
    /// `i`-th annotation reaching outside. Callers decide whether to bail.
    pub fn validate(&self, limit: i64, exceeds: &Vec<String>) -> (out: Vec<Rejection>)
        requires
            exceeds@.len() == self.annotations@.len(),
        ensures
            rejection_views(out@) == validation(ann_views(self.annotations@), limit, views(exceeds@), self.annotations@.len() as nat),
    {
        let ghost anns = ann_views(self.annotations@);
        let ghost notes = views(exceeds@);
        let mut out: Vec<Rejection> = Vec::new();
        let n = self.annotations.len();
        let mut i: usize = 0;
        while i < n
            invariant
                n == self.annotations@.len(),
                n == exceeds@.len(),
                anns == ann_views(self.annotations@),
                notes == views(exceeds@),
                i <= n,
                rejection_views(out@) == validation(anns, limit, notes, i as nat),
            decreases n - i,
        {
            let r = self.annotations[i].range;
            assert(anns[i as int].range == r);
            assert(notes[i as int] == exceeds@[i as int]@);
            let ghost prev = rejection_views(out@);
            if !(-FINITE_KEY_MAX <= r.start && r.start <= FINITE_KEY_MAX && -FINITE_KEY_MAX <= r.end && r.end <= FINITE_KEY_MAX) {
                out.push(Rejection { index: i, reason: "range is not finite".to_owned(), range: None });
                assert(rejection_views(out@) =~= prev.push((i, "range is not finite"@, None)));
            } else if r.start < 0 || r.end > limit {
                out.push(Rejection { index: i, reason: exceeds[i].clone(), range: None });
                assert(rejection_views(out@) =~= prev.push((i, notes[i as int], None)));
            } else if r.end <= r.start {
                out.push(Rejection { index: i, reason: "empty range".to_owned(), range: None });
                assert(rejection_views(out@) =~= prev.push((i, "empty range"@, None)));
            }
            i += 1;
        }
        out
    }
}


// ---- pruning and generated marks ------------------------------------------------

/// The usable ids of `ps` (present and not blank), in order.
pub open spec fn usable_ids_of(ps: Seq<PatchView>) -> Seq<Seq<char>>
    decreases ps.len(),
{
    if ps.len() == 0 {
        Seq::empty()
    } else {
        let rest = usable_ids_of(ps.drop_last());
        match usable_id(ps.last().id) {
            Some(id) => rest.push(id),
            None => rest,
        }
    }
}

/// The ids that an edit document names: each patch's usable id, in order.
pub fn usable_ids(patches: &Vec<AnnotationPatch>) -> (ids: Vec<String>)
    ensures
        views(ids@) == usable_ids_of(patch_views(patches@)),
{
    let mut ids: Vec<String> = Vec::new();
    let n = patches.len();
    let mut i: usize = 0;
    while i < n
        invariant
            n == patches@.len(),
            i <= n,
            views(ids@) == usable_ids_of(patch_views(patches@).take(i as int)),
        decreases n - i,
    {
        let ghost ps = patch_views(patches@);
        proof {
            assert(ps.take(i + 1).drop_last() =~= ps.take(i as int));
            assert(ps.take(i + 1).last() == patches@[i as int]@);
        }
        let ghost prev = ids@;
        match usable_id_exec(&patches[i].id) {
            Some(id) => {
                ids.push(id.clone());
                assert(views(ids@) =~= views(prev).push(id@));
            },
            None => {},
        }
        i += 1;
    }
    assert(patch_views(patches@).take(n as int) =~= patch_views(patches@));
    ids
}

/// The ids of a sequence of annotations.
pub open spec fn ids_of(s: Seq<AnnotationView>) -> Seq<Seq<char>> {
    s.map_values(|a: AnnotationView| a.id)
}

/// The ids a pruning merge keeps: every usable id the patches carry, and the
/// id of every annotation the merge created (the merge appends those after
/// the annotations it started from).
pub open spec fn kept_ids(
    anns: Seq<AnnotationView>,
    patches: Seq<PatchView>,
    limit: i64,
    fresh: Seq<(Seq<char>, Seq<char>)>,
) -> Seq<Seq<char>> {
    usable_ids_of(patches) + ids_of(merge_upto(anns, patches, limit, fresh, patches.len()).anns.skip(anns.len() as int))
}

/// The refusals, report, annotations and number dropped that a merge
/// followed by pruning gives, with `fresh` supplying the new annotations' ids
/// and stamps: the merged annotations that the patches did not name and did
/// not create are dropped, and the rest end sorted by time.
pub open spec fn prune_outcome(
    anns: Seq<AnnotationView>,
    patches: Seq<PatchView>,
    limit: i64,
    fresh: Seq<(Seq<char>, Seq<char>)>,
    final_anns: Seq<AnnotationView>,
    report: MergeReport,
    rejections: Seq<(usize, Seq<char>, Option<TimeRange>)>,
    dropped: int,
) -> bool {
    let st = merge_upto(anns, patches, limit, fresh, patches.len());
    let kept = with_ids_in(st.anns, kept_ids(anns, patches, limit, fresh));
    &&& final_anns == sort_by_time(kept)
    &&& report == st.report
    &&& rejections == st.rejections
    &&& dropped == st.anns.len() - kept.len()
    &&& fresh.len() == st.used
    &&& forall|k: int| 0 <= k < fresh.len() ==> uuid_shaped((#[trigger] fresh[k]).0) && rfc3339_shaped(fresh[k].1)
}

/// Merging and then pruning can give exactly these annotations, report,
/// refusals and number dropped, for some fresh ids and stamps.
pub open spec fn merged_and_pruned(
    anns: Seq<AnnotationView>,
    patches: Seq<PatchView>,
    limit: i64,
    final_anns: Seq<AnnotationView>,
    report: MergeReport,
    rejections: Seq<(usize, Seq<char>, Option<TimeRange>)>,
    dropped: int,
) -> bool {
    exists|fresh: Seq<(Seq<char>, Seq<char>)>| #[trigger] prune_outcome(anns, patches, limit, fresh, final_anns, report, rejections, dropped)
}

impl Session {
    /// Merges the patches as `merge_patches` does, then drops every
    /// annotation the patch document leaves out: one kept only if a patch
    /// names its id or the merge created it. Returns the report, the
    /// refusals and how many annotations were dropped.
    pub fn merge_and_prune(&mut self, patches: &Vec<AnnotationPatch>, limit: i64) -> (res: (MergeReport, Vec<Rejection>, usize))
        ensures
            merged_and_pruned(
                ann_views(old(self).annotations@),
                patch_views(patches@),
                limit,
                ann_views(final(self).annotations@),
                res.0,
                rejection_views(res.1@),
                res.2 as int,
            ),
            final(self).version == old(self).version,
            final(self).audio_path == old(self).audio_path,
            final(self).duration == old(self).duration,
            final(self).sample_rate == old(self).sample_rate,
            final(self).channels == old(self).channels,
            final(self).last_selection == old(self).last_selection,
    {
        let ghost anns0 = ann_views(self.annotations@);
        let ghost pv = patch_views(patches@);
        let n0 = self.annotations.len();
        let n = patches.len();
        let (report, rejections, fresh) = self.merge_in_order(patches, limit);
        let ghost merged_anns = ann_views(self.annotations@);
        proof {
            lemma_merge_counts(anns0, pv, limit, fresh@, n as nat);
        }
        let mut keep = usable_ids(patches);
        let m = self.annotations.len();
        let mut j = n0;
        while j < m
            invariant
                n0 <= j <= m,
                m == self.annotations@.len(),
                merged_anns == ann_views(self.annotations@),
                n0 == anns0.len(),
                n0 <= m,
                views(keep@) == usable_ids_of(pv) + ids_of(merged_anns.subrange(n0 as int, j as int)),
            decreases m - j,
        {
            let ghost prev = views(keep@);
            keep.push(self.annotations[j].id.clone());
            assert(ids_of(merged_anns.subrange(n0 as int, j + 1))
                =~= ids_of(merged_anns.subrange(n0 as int, j as int)).push(merged_anns[j as int].id));
            assert(views(keep@) =~= prev.push(self.annotations@[j as int].id@));
            j += 1;
        }
        assert(merged_anns.subrange(n0 as int, m as int) =~= merged_anns.skip(n0 as int));
        let dropped = self.retain_ids(&keep);
        self.sort_annotations();
        assert(prune_outcome(anns0, pv, limit, fresh@, ann_views(self.annotations@), report, rejection_views(rejections@), dropped as int));
        (report, rejections, dropped)
    }
}

/// Pruning keeps every annotation that the patch document names or that the
/// merge created: of what the merge leaves (before sorting), each annotation
/// whose id a patch carries, and each one the merge added, is in the result.
pub proof fn lemma_prune_keeps_the_document(
    anns: Seq<AnnotationView>,
    patches: Seq<PatchView>,
    limit: i64,
    fresh: Seq<(Seq<char>, Seq<char>)>,
    final_anns: Seq<AnnotationView>,
    report: MergeReport,
    rejections: Seq<(usize, Seq<char>, Option<TimeRange>)>,
    dropped: int,
    j: int,
)
    requires
        prune_outcome(anns, patches, limit, fresh, final_anns, report, rejections, dropped),
        0 <= j < merge_upto(anns, patches, limit, fresh, patches.len()).anns.len(),
        usable_ids_of(patches).contains(merge_upto(anns, patches, limit, fresh, patches.len()).anns[j].id)
            || j >= anns.len(),
    ensures
        final_anns.contains(merge_upto(anns, patches, limit, fresh, patches.len()).anns[j]),
{
    broadcast use vstd::seq_lib::group_to_multiset_ensures;
    let st = merge_upto(anns, patches, limit, fresh, patches.len());
    let keep = kept_ids(anns, patches, limit, fresh);
    let pred = |a: AnnotationView| keep.contains(a.id);
    let x = st.anns[j];
    if j >= anns.len() {
        let created = ids_of(st.anns.skip(anns.len() as int));
        assert(created[j - anns.len()] == x.id);
        assert(keep[usable_ids_of(patches).len() + j - anns.len()] == x.id);
    } else {
        let k = choose|k: int| 0 <= k < usable_ids_of(patches).len() && usable_ids_of(patches)[k] == x.id;
        assert(keep[k] == x.id);
    }
    assert(pred(x));
    st.anns.lemma_filter_contains(pred, j);
    let kept = with_ids_in(st.anns, keep);
    assert(kept.contains(x));
    lemma_sort_by_time_permutes(kept);
    assert(kept.to_multiset().count(x) > 0);
    assert(final_anns.to_multiset().count(x) > 0);
}

/// A generated mark over `r`: a fresh UUID-shaped id, an RFC 3339 creation
/// stamp, no text, the one tag `tag`, no color.
pub open spec fn is_mark(a: AnnotationView, r: TimeRange, tag: Seq<char>) -> bool {
    &&& uuid_shaped(a.id)
    &&& rfc3339_shaped(a.created_at)
    &&& a.range == r
    &&& a.text.len() == 0
    &&& a.tags == seq![tag]
    &&& a.color is None
}

/// `anns` after adding a mark for each of `spans` (given by the keys of
/// their ends, in either order) and sorting: the same as sorting `before`
/// followed by the marks, for some fresh ids and stamps.
pub open spec fn marks_added(before: Seq<AnnotationView>, spans: Seq<(i64, i64)>, tag: Seq<char>, after: Seq<AnnotationView>) -> bool {
    exists|marks: Seq<AnnotationView>| {
        &&& #[trigger] marks.len() == spans.len()
        &&& forall|i: int| 0 <= i < spans.len() ==> is_mark(#[trigger] marks[i], span_of(spans[i].0, spans[i].1), tag)
        &&& after == sort_by_time(before + marks)
    }
}

impl Session {
    /// Adds a mark tagged `tag` for each span (the silence and sound finders
    /// tag theirs `auto:silence` and `auto:sound`), then sorts the
    /// annotations by time.
    pub fn add_marks(&mut self, spans: &Vec<(i64, i64)>, tag: &str)
        ensures
            marks_added(ann_views(old(self).annotations@), spans@, tag@, ann_views(final(self).annotations@)),
            final(self).version == old(self).version,
            final(self).audio_path == old(self).audio_path,
            final(self).duration == old(self).duration,
            final(self).sample_rate == old(self).sample_rate,
            final(self).channels == old(self).channels,
            final(self).last_selection == old(self).last_selection,
    {
        let ghost before = ann_views(self.annotations@);
        let ghost mut marks: Seq<AnnotationView> = Seq::empty();
        let n = spans.len();
        let mut i: usize = 0;
        while i < n
            invariant
                n == spans@.len(),
                i <= n,
                marks.len() == i,
                forall|k: int| 0 <= k < i ==> is_mark(#[trigger] marks[k], span_of(spans@[k].0, spans@[k].1), tag@),
                ann_views(self.annotations@) == before + marks,
                self.version == old(self).version,
                self.audio_path == old(self).audio_path,
                self.duration == old(self).duration,
                self.sample_rate == old(self).sample_rate,
                self.channels == old(self).channels,
                self.last_selection == old(self).last_selection,
            decreases n - i,
        {
            let (a, b) = spans[i];
            let mut tags: Vec<String> = Vec::new();
            tags.push(tag.to_owned());
            let mark = Annotation::new(TimeRange::new(a, b), String::new()).with_tags(tags);
            proof {
                assert(views(tags@) =~= seq![tag@]);
            }
            let ghost prev = self.annotations@;
            self.add_annotation(mark);
            proof {
                assert(ann_views(self.annotations@) =~= ann_views(prev).push(mark@));
                marks = marks.push(mark@);
                assert((before + marks) =~= (before + marks.drop_last()).push(mark@));
            }
            i += 1;
        }
        self.sort_annotations();
        assert(marks.len() == spans@.len());
    }
}


// ---- moving between annotations ----------------------------------------------------

/// The annotation `j`/`k` lands on: going forward, the first one starting
/// after `after`, wrapping to the first; going back, the last one starting
/// before `before`, wrapping to the last. None when there are none. (The
/// caller passes the current time plus and minus a small tolerance.)
pub fn step_target(anns: &Vec<Annotation>, forward: bool, after: i64, before: i64) -> (r: Option<usize>)
    ensures
        r is None <==> anns@.len() == 0,
        r matches Some(i) ==> i < anns@.len(),
        forward ==> (r matches Some(i) ==> (
            (anns@[i as int].range.start > after && forall|j: int| 0 <= j < i ==> (#[trigger] anns@[j]).range.start <= after)
            || (i == 0 && forall|j: int| 0 <= j < anns@.len() ==> (#[trigger] anns@[j]).range.start <= after))),
        !forward ==> (r matches Some(i) ==> (
            (anns@[i as int].range.start < before && forall|j: int| i < j < anns@.len() ==> (#[trigger] anns@[j]).range.start >= before)
            || (i == anns@.len() - 1 && forall|j: int| 0 <= j < anns@.len() ==> (#[trigger] anns@[j]).range.start >= before))),
{
    let n = anns.len();
    if n == 0 {
        return None;
    }
    if forward {
        let mut i: usize = 0;
        while i < n
            invariant
                n == anns@.len(),
                i <= n,
                forward,
                forall|j: int| 0 <= j < i ==> (#[trigger] anns@[j]).range.start <= after,
            decreases n - i,
        {
            if anns[i].range.start > after {
                return Some(i);
            }
            i += 1;
        }
        Some(0)
    } else {
        let mut i: usize = n;
        while i > 0
            invariant
                n == anns@.len(),
                i <= n,
                !forward,
                forall|j: int| i <= j < n ==> (#[trigger] anns@[j]).range.start >= before,
            decreases i,
        {
            if anns[i - 1].range.start < before {
                return Some(i - 1);
            }
            i -= 1;
        }
        Some(n - 1)
    }
}

/// Index of the first annotation whose range overlaps `sel`; the Delete key
/// removes that one.
pub fn first_overlapping(anns: &Vec<Annotation>, sel: &TimeRange) -> (r: Option<usize>)
    ensures
        r matches Some(i) ==> i < anns@.len() && anns@[i as int].range.start < sel.end
            && sel.start < anns@[i as int].range.end
            && forall|j: int| 0 <= j < i ==> !((#[trigger] anns@[j]).range.start < sel.end && sel.start < anns@[j].range.end),
        r is None ==> forall|j: int| 0 <= j < anns@.len() ==> !((#[trigger] anns@[j]).range.start < sel.end && sel.start < anns@[j].range.end),
{
    let n = anns.len();
    let mut i: usize = 0;
    while i < n
        invariant
            n == anns@.len(),
            i <= n,
            forall|j: int| 0 <= j < i ==> !((#[trigger] anns@[j]).range.start < sel.end && sel.start < anns@[j].range.end),
        decreases n - i,
    {
        if anns[i].range.overlaps(sel) {
            return Some(i);
        }
        i += 1;
    }
    None
}


// ---- laws ----------------------------------------------------------------------------

/// A range dragged backwards is the same range as one dragged forwards over
/// the same span.
pub proof fn lemma_range_order_free(a: i64, b: i64)
    ensures
        span_of(a, b) == span_of(b, a),
{
}

/// After removing an id, looking it up finds nothing.
pub proof fn lemma_removed_id_is_gone(s: Seq<AnnotationView>, id: Seq<char>)
    ensures
        first_with_id(without_id(s, id), id) is None,
{
    let r = without_id(s, id);
    let pred = |a: AnnotationView| a.id != id;
    assert forall|k: int| 0 <= k < r.len() implies (#[trigger] r[k]).id != id by {
        s.lemma_filter_pred(pred, k);
    }
    lemma_first_with_id(r, id, r.len() as int);
}

/// After adding an annotation, looking up its id finds an annotation with
/// that id.
pub proof fn lemma_added_id_is_found(s: Seq<AnnotationView>, a: AnnotationView)
    ensures
        first_with_id(s.push(a), a.id) matches Some(k) && s.push(a)[k].id == a.id,
{
    let t = s.push(a);
    lemma_first_with_id_in(t, a.id);
    if first_with_id(t, a.id) is None {
        assert(t[s.len() as int] == a);
    }
}

/// The patch is refused when it updates an annotation over `existing` (or
/// creates one, with none): its range cannot be read, or does not fit.
pub open spec fn refused_with(p: PatchView, limit: i64, existing: Option<TimeRange>) -> bool {
    match range_resolved(p, existing) {
        Err(_) => true,
        Ok(r) => !range_fits(r, limit),
    }
}

/// The patch is refused whatever the annotations.
pub open spec fn refused(p: PatchView, limit: i64) -> bool {
    forall|existing: Option<TimeRange>| #[trigger] refused_with(p, limit, existing)
}

/// Two merge states that agree on everything a later step reads.
pub open spec fn same_progress(a: MergeState, b: MergeState) -> bool {
    &&& a.anns == b.anns
    &&& a.used == b.used
    &&& a.report.created == b.report.created
    &&& a.report.updated == b.report.updated
    &&& a.report.unchanged == b.report.unchanged
}

proof fn lemma_merge_prefix(
    anns: Seq<AnnotationView>,
    p1: Seq<PatchView>,
    p2: Seq<PatchView>,
    limit: i64,
    fresh: Seq<(Seq<char>, Seq<char>)>,
    n: nat,
)
    requires
        n <= p1.len(),
        n <= p2.len(),
        forall|k: int| 0 <= k < n ==> p1[k] == p2[k],
    ensures
        merge_upto(anns, p1, limit, fresh, n) == merge_upto(anns, p2, limit, fresh, n),
    decreases n,
{
    if n > 0 {
        lemma_merge_prefix(anns, p1, p2, limit, fresh, (n - 1) as nat);
    }
}

/// An agent can move just one end: a patch that gives only its end, when it
/// updates an annotation over `existing`, keeps that annotation's start.
/// Likewise for a patch that gives only its start.
pub proof fn lemma_one_end_moves_alone(p: PatchView, existing: TimeRange, key: i64)
    ensures
        (p.start.seconds is None && p.start.typed is None && p.end.seconds == Some(key))
            ==> range_resolved(p, Some(existing)) == Ok::<TimeRange, Seq<char>>(span_of(existing.start, key)),
        (p.end.seconds is None && p.end.typed is None && p.start.seconds == Some(key))
            ==> range_resolved(p, Some(existing)) == Ok::<TimeRange, Seq<char>>(span_of(key, existing.end)),
{
}

/// One refused row never costs the others anything: merging a batch gives
/// the same annotations, and the same created, updated and unchanged counts,
/// as merging the batch without that row.
pub proof fn lemma_refused_row_costs_nothing(
    anns: Seq<AnnotationView>,
    patches: Seq<PatchView>,
    limit: i64,
    fresh: Seq<(Seq<char>, Seq<char>)>,
    i: int,
)
    requires
        0 <= i < patches.len(),
        patches.len() <= usize::MAX,
        refused(patches[i], limit),
    ensures
        same_progress(
            merge_upto(anns, patches, limit, fresh, patches.len()),
            merge_upto(anns, patches.remove(i), limit, fresh, (patches.len() - 1) as nat),
        ),
{
    lemma_refused_row_prefix(anns, patches, limit, fresh, i, patches.len());
}

proof fn lemma_refused_row_prefix(
    anns: Seq<AnnotationView>,
    patches: Seq<PatchView>,
    limit: i64,
    fresh: Seq<(Seq<char>, Seq<char>)>,
    i: int,
    n: nat,
)
    requires
        0 <= i < n <= patches.len(),
        patches.len() <= usize::MAX,
        refused(patches[i], limit),
    ensures
        same_progress(
            merge_upto(anns, patches, limit, fresh, n),
            merge_upto(anns, patches.remove(i), limit, fresh, (n - 1) as nat),
        ),
    decreases n,
{
    let rest = patches.remove(i);
    if n == i + 1 {
        lemma_merge_prefix(anns, patches, rest, limit, fresh, i as nat);
        let a = merge_upto(anns, patches, limit, fresh, i as nat);
        assert(refused_with(patches[i], limit, existing_range(a.anns, patches[i])));
    } else {
        lemma_refused_row_prefix(anns, patches, limit, fresh, i, (n - 1) as nat);
        assert(rest[n - 2] == patches[n - 1]);
        let a = merge_upto(anns, patches, limit, fresh, (n - 1) as nat);
        let b = merge_upto(anns, rest, limit, fresh, (n - 2) as nat);
        let p = patches[n - 1];
        assert(target_of(a.anns, p) == target_of(b.anns, p));
        assert(existing_range(a.anns, p) == existing_range(b.anns, p));
    }
}

/// The patch `p` names an existing annotation (through its usable id) and
/// carries exactly what that annotation already holds.
pub open spec fn echoes(p: PatchView, anns: Seq<AnnotationView>, limit: i64) -> bool {
    match usable_id(p.id) {
        None => false,
        Some(id) => match first_with_id(anns, id) {
            None => false,
            Some(k) => {
                let a = anns[k];
                &&& range_resolved(p, Some(a.range)) == Ok::<TimeRange, Seq<char>>(a.range)
                &&& range_fits(a.range, limit)
                &&& (p.text matches Some(t) ==> t == a.text)
                &&& (p.tags matches Some(t) ==> t == a.tags)
                &&& (p.color matches Some(c) ==> Some(c) == a.color)
            },
        },
    }
}

/// An identical patch is a no-op: when every patch echoes the annotation it
/// names, the merge changes nothing and counts every patch as unchanged.
pub proof fn lemma_echo_is_noop(
    anns: Seq<AnnotationView>,
    patches: Seq<PatchView>,
    limit: i64,
    fresh: Seq<(Seq<char>, Seq<char>)>,
    n: nat,
)
    requires
        n <= patches.len(),
        n <= usize::MAX,
        forall|k: int| 0 <= k < n ==> echoes(#[trigger] patches[k], anns, limit),
    ensures
        merge_upto(anns, patches, limit, fresh, n).anns == anns,
        merge_upto(anns, patches, limit, fresh, n).report == (MergeReport {
            created: 0,
            updated: 0,
            unchanged: n as usize,
            rejected: 0,
        }),
        merge_upto(anns, patches, limit, fresh, n).rejections.len() == 0,
    decreases n,
{
    if n > 0 {
        lemma_echo_is_noop(anns, patches, limit, fresh, (n - 1) as nat);
        let p = patches[n - 1];
        assert(echoes(p, anns, limit));
        let id = usable_id(p.id)->0;
        lemma_first_with_id_in(anns, id);
        let k = first_with_id(anns, id)->0;
        let a = anns[k];
        let r = a.range;
        assert(existing_range(anns, p) == Some(a.range));
        assert(patched(a, r, p) == a);
        assert(!patch_changes(a, r, p));
        assert(anns.update(k, a) =~= anns);
    }
}

/// What a merge leaves is in time order.
pub proof fn lemma_merge_sorted(
    anns: Seq<AnnotationView>,
    patches: Seq<PatchView>,
    limit: i64,
    final_anns: Seq<AnnotationView>,
    report: MergeReport,
    rejections: Seq<(usize, Seq<char>, Option<TimeRange>)>,
)
    requires
        merged(anns, patches, limit, final_anns, report, rejections),
    ensures
        sorted_by_time(final_anns),
{
    let fresh = choose|fresh: Seq<(Seq<char>, Seq<char>)>| #[trigger] merge_outcome(anns, patches, limit, fresh, final_anns, report, rejections);
    lemma_sort_by_time_sorted(merge_upto(anns, patches, limit, fresh, patches.len()).anns);
}

/// Every patch is counted once: the report's counters add up to the number
/// of patches, each refusal is listed, and the session gains exactly one
/// annotation per creation.
pub proof fn lemma_merge_report_adds_up(
    anns: Seq<AnnotationView>,
    patches: Seq<PatchView>,
    limit: i64,
    final_anns: Seq<AnnotationView>,
    report: MergeReport,
    rejections: Seq<(usize, Seq<char>, Option<TimeRange>)>,
)
    requires
        merged(anns, patches, limit, final_anns, report, rejections),
        patches.len() <= usize::MAX,
    ensures
        report.spec_total() == patches.len(),
        rejections.len() == report.rejected,
        final_anns.len() == anns.len() + report.created,
{
    let fresh = choose|fresh: Seq<(Seq<char>, Seq<char>)>| #[trigger] merge_outcome(anns, patches, limit, fresh, final_anns, report, rejections);
    lemma_merge_counts(anns, patches, limit, fresh, patches.len());
    lemma_sort_by_time_permutes(merge_upto(anns, patches, limit, fresh, patches.len()).anns);
}

/// Handing the annotations back unchanged changes nothing: when every patch
/// echoes the annotation it names and the annotations are in time order (as
/// every merge leaves them), the merge keeps them exactly and counts every
/// patch as unchanged.
pub proof fn lemma_echo_leaves_session(
    anns: Seq<AnnotationView>,
    patches: Seq<PatchView>,
    limit: i64,
    final_anns: Seq<AnnotationView>,
    report: MergeReport,
    rejections: Seq<(usize, Seq<char>, Option<TimeRange>)>,
)
    requires
        merged(anns, patches, limit, final_anns, report, rejections),
        patches.len() <= usize::MAX,
        sorted_by_time(anns),
        forall|k: int| 0 <= k < patches.len() ==> echoes(#[trigger] patches[k], anns, limit),
    ensures
        final_anns == anns,
        report == (MergeReport { created: 0, updated: 0, unchanged: patches.len() as usize, rejected: 0 }),
        rejections.len() == 0,
{
    let fresh = choose|fresh: Seq<(Seq<char>, Seq<char>)>| #[trigger] merge_outcome(anns, patches, limit, fresh, final_anns, report, rejections);
    lemma_echo_is_noop(anns, patches, limit, fresh, patches.len());
    lemma_sort_sorted_is_identity(anns);
}

/// Sorting annotations that are already in time order changes nothing.
pub proof fn lemma_sort_sorted_is_identity(s: Seq<AnnotationView>)
    requires
        sorted_by_time(s),
    ensures
        sort_by_time(s) == s,
    decreases s.len(),
{
    if s.len() > 0 {
        let t = s.drop_last();
        assert(sorted_by_time(t)) by {
            assert forall|i: int, j: int| 0 <= i < j < t.len() implies time_le(#[trigger] t[i], #[trigger] t[j]) by {
                assert(t[i] == s[i] && t[j] == s[j]);
            }
        }
        lemma_sort_sorted_is_identity(t);
        if t.len() > 0 {
            assert(time_le(s[s.len() - 2], s[s.len() - 1]));
        }
        assert(t.push(s.last()) == s);
    }
}

/// Sorting puts annotations in order of start time, and among those that
/// start together, in order of end time; it keeps every annotation, each as
/// often as it was there.
pub proof fn lemma_sort_orders_by_start_then_end(s: Seq<AnnotationView>)
    ensures
        sort_by_time(s).len() == s.len(),
        sort_by_time(s).to_multiset() == s.to_multiset(),
        forall|i: int, j: int| 0 <= i < j < s.len() ==>
            (#[trigger] sort_by_time(s)[i]).range.start <= (#[trigger] sort_by_time(s)[j]).range.start,
        forall|i: int, j: int| 0 <= i < j < s.len()
            && (#[trigger] sort_by_time(s)[i]).range.start == (#[trigger] sort_by_time(s)[j]).range.start
            ==> sort_by_time(s)[i].range.end <= sort_by_time(s)[j].range.end,
{
    lemma_sort_by_time_permutes(s);
    lemma_sort_by_time_sorted(s);
    let t = sort_by_time(s);
    assert forall|i: int, j: int| 0 <= i < j < s.len() implies
        (#[trigger] t[i]).range.start <= (#[trigger] t[j]).range.start by {
        assert(time_le(t[i], t[j]));
    }
    assert forall|i: int, j: int| 0 <= i < j < s.len() && (#[trigger] t[i]).range.start == (#[trigger] t[j]).range.start
        implies t[i].range.end <= t[j].range.end by {
        assert(time_le(t[i], t[j]));
    }
}

/// A patch that updates an annotation sets exactly what it carries: the
/// annotation keeps its id and creation stamp, takes the patch's range, takes
/// the patch's text, tags and color wherever the patch gives them (whatever it
/// held before) and keeps its own where it does not; no other annotation
/// changes and the count of annotations stays.
pub proof fn lemma_update_sets_what_the_patch_carries(
    st: MergeState,
    p: PatchView,
    i: usize,
    limit: i64,
    fresh: Seq<(Seq<char>, Seq<char>)>,
    k: int,
    r: TimeRange,
)
    requires
        target_of(st.anns, p) == Some(k),
        range_resolved(p, existing_range(st.anns, p)) == Ok::<TimeRange, Seq<char>>(r),
        range_fits(r, limit),
    ensures
        ({
            let after = merge_step(st, p, i, limit, fresh).anns;
            let before = st.anns[k];
            &&& after.len() == st.anns.len()
            &&& after[k].id == before.id
            &&& after[k].created_at == before.created_at
            &&& after[k].range == r
            &&& (p.text matches Some(t) ==> after[k].text == t)
            &&& (p.text is None ==> after[k].text == before.text)
            &&& (p.tags matches Some(t) ==> after[k].tags == t)
            &&& (p.tags is None ==> after[k].tags == before.tags)
            &&& (p.color matches Some(c) ==> after[k].color == Some(c))
            &&& (p.color is None ==> after[k].color == before.color)
            &&& forall|j: int| 0 <= j < st.anns.len() && j != k ==> after[j] == st.anns[j]
        }),
{
    let id = usable_id(p.id)->0;
    lemma_first_with_id_in(st.anns, id);
}

/// A merge never loses annotations: it starts from `anns` and only updates
/// them in place or appends.
proof fn lemma_merge_keeps_its_start(
    anns: Seq<AnnotationView>,
    patches: Seq<PatchView>,
    limit: i64,
    fresh: Seq<(Seq<char>, Seq<char>)>,
    n: nat,
)
    ensures
        merge_upto(anns, patches, limit, fresh, n).anns.len() >= anns.len(),
    decreases n,
{
    if n > 0 {
        lemma_merge_keeps_its_start(anns, patches, limit, fresh, (n - 1) as nat);
        let st = merge_upto(anns, patches, limit, fresh, (n - 1) as nat);
        if let Some(id) = usable_id(patches[n - 1].id) {
            lemma_first_with_id_in(st.anns, id);
        }
    }
}

/// Pruning keeps nothing else: every annotation left after a merge with
/// pruning carries an id that some patch names (a usable id), or is one the
/// merge itself created.
pub proof fn lemma_prune_keeps_nothing_else(
    anns: Seq<AnnotationView>,
    patches: Seq<PatchView>,
    limit: i64,
    fresh: Seq<(Seq<char>, Seq<char>)>,
    final_anns: Seq<AnnotationView>,
    report: MergeReport,
    rejections: Seq<(usize, Seq<char>, Option<TimeRange>)>,
    dropped: int,
    x: AnnotationView,
)
    requires
        prune_outcome(anns, patches, limit, fresh, final_anns, report, rejections, dropped),
        final_anns.contains(x),
    ensures
        usable_ids_of(patches).contains(x.id)
            || exists|j: int| anns.len() <= j < merge_upto(anns, patches, limit, fresh, patches.len()).anns.len()
                && (#[trigger] merge_upto(anns, patches, limit, fresh, patches.len()).anns[j]).id == x.id,
{
    broadcast use vstd::seq_lib::group_to_multiset_ensures;
    let st = merge_upto(anns, patches, limit, fresh, patches.len());
    let keep = kept_ids(anns, patches, limit, fresh);
    let pred = |a: AnnotationView| keep.contains(a.id);
    let kept = st.anns.filter(pred);
    assert(kept == with_ids_in(st.anns, keep));
    lemma_sort_by_time_permutes(kept);
    assert(final_anns.to_multiset().count(x) > 0);
    assert(kept.contains(x));
    let q = choose|q: int| 0 <= q < kept.len() && kept[q] == x;
    st.anns.lemma_filter_pred(pred, q);
    assert(keep.contains(x.id));
    let u = usable_ids_of(patches);
    let created = ids_of(st.anns.skip(anns.len() as int));
    let w = choose|w: int| 0 <= w < keep.len() && keep[w] == x.id;
    if w >= u.len() {
        lemma_merge_keeps_its_start(anns, patches, limit, fresh, patches.len());
        let j = anns.len() + (w - u.len());
        assert(created[w - u.len()] == x.id);
        assert(st.anns[j].id == x.id);
    } else {
        assert(u[w] == x.id);
    }
}

} // verus!
