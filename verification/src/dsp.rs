//! The sample-index side of the everyday audio edits: splitting a buffer into
//! parts, joining buffers, choosing cut points and cutting a range into
//! segments. These move samples around without looking at their values, so
//! they work for any sample type.
use vstd::prelude::*;

verus! {

/// Number of whole frames in a buffer of `sample_len` interleaved samples
/// over `channels` channels; no channels means no frames.
pub fn frame_count(sample_len: usize, channels: u16) -> (frames: usize)
    ensures
        frames == if channels == 0 { 0 } else { sample_len / (channels as usize) },
{
    if channels == 0 {
        0
    } else {
        sample_len / (channels as usize)
    }
}

/// Length of every part but the last when `len` samples are split into `n`.
pub open spec fn part_len(len: int, n: int) -> int {
    if len / n >= 1 { len / n } else { 1 }
}

/// How many parts `len` samples are split into, asked for `n`.
pub open spec fn part_count(len: int, n: int) -> int {
    if n == 0 || len == 0 { 0 } else if n <= len { n } else { len }
}

/// Where the `k`-th part ends: the next part's start, or the end of the
/// buffer for the last part.
pub open spec fn part_end(len: int, n: int, k: int) -> int {
    if k == part_count(len, n) - 1 { len } else { (k + 1) * part_len(len, n) }
}

/// Splits the buffer into `n` parts of equal length; the samples that do not
/// divide evenly stay in the last part, so none is dropped. A buffer shorter
/// than `n` gives one part per sample.
pub fn split_into<'a, T>(samples: &'a [T], n: usize) -> (parts: Vec<&'a [T]>)
    ensures
        slice_views(parts@) == pieces(samples@, split_bounds(samples@.len() as int, n as int)),
        parts@.len() == part_count(samples@.len() as int, n as int),
        forall|k: int| 0 <= k < parts@.len() ==> (#[trigger] parts@[k])@ == samples@.subrange(
            k * part_len(samples@.len() as int, n as int),
            part_end(samples@.len() as int, n as int, k),
        ),
{
    let len = samples.len();
    if n == 0 || len == 0 {
        let out: Vec<&'a [T]> = Vec::new();
        assert(slice_views(out@) =~= pieces(samples@, split_bounds(len as int, n as int)));
        return out;
    }
    let chunk = if len / n >= 1 { len / n } else { 1 };
    let ghost m = part_count(len as int, n as int);
    proof {
        if n <= len {
            assert(len / n >= 1) by (nonlinear_arith)
                requires n <= len, n > 0;
            assert((len / n) * n <= len) by (nonlinear_arith)
                requires n > 0;
        } else {
            assert(len / n == 0) by (nonlinear_arith)
                requires len < n, n > 0;
        }
    }
    let mut out: Vec<&'a [T]> = Vec::new();
    let mut i: usize = 0;
    let mut k: usize = 0;
    while k < n
        invariant_except_break
            n > 0,
            len == samples@.len(),
            chunk == part_len(len as int, n as int),
            m == part_count(len as int, n as int),
            n <= len ==> chunk * n <= len && chunk >= 1,
            n > len ==> chunk == 1,
            k <= n,
            k <= m,
            out@.len() == k,
            i == k * chunk,
            n > len ==> i == k,
            i <= len,
            forall|j: int| 0 <= j < k ==> (#[trigger] out@[j])@ == samples@.subrange(
                j * chunk,
                part_end(len as int, n as int, j),
            ),
        ensures
            out@.len() == m,
            forall|j: int| 0 <= j < out@.len() ==> (#[trigger] out@[j])@ == samples@.subrange(
                j * chunk,
                part_end(len as int, n as int, j),
            ),
        decreases n - k,
    {
        if i >= len {
            proof {
                if n <= len {
                    assert(k * chunk + chunk <= n * chunk) by (nonlinear_arith)
                        requires k < n, chunk >= 1;
                    assert(n * chunk == chunk * n) by (nonlinear_arith);
                }
                assert(n > len);
                assert(k == len);
            }
            break;
        }
        proof {
            if n <= len {
                assert((k + 1) * chunk <= n * chunk) by (nonlinear_arith)
                    requires k < n;
            } else {
                assert(chunk == 1);
            }
        }
        let end = if k == n - 1 {
            len
        } else if chunk < len - i {
            i + chunk
        } else {
            len
        };
        proof {
            if k != n - 1 {
                if n <= len {
                    assert((k + 2) * chunk <= n * chunk) by (nonlinear_arith)
                        requires k < n - 1;
                    assert(n * chunk == chunk * n) by (nonlinear_arith);
                    assert((k + 2) * chunk == k * chunk + chunk + chunk) by (nonlinear_arith);
                    assert((k + 1) * chunk == k * chunk + chunk) by (nonlinear_arith);
                    assert(i + chunk < len);
                    assert(end == (k + 1) * chunk);
                    assert(k != m - 1);
                } else {
                    assert(chunk == 1);
                    assert(i == k);
                    assert((k + 1) * chunk == k + 1) by (nonlinear_arith)
                        requires chunk == 1;
                    assert(end == k + 1);
                }
            } else {
                assert(n <= len);
                assert(k == m - 1);
            }
            assert(end == part_end(len as int, n as int, k as int));
        }
        let part = &samples[i..end];
        out.push(part);
        proof {
            assert((k + 1) * chunk == k * chunk + chunk) by (nonlinear_arith);
        }
        proof {
            if n > len {
                assert((k + 1) * 1 == k + 1);
            }
        }
        if k == n - 1 {
            i = len;
            k += 1;
            proof {
                assert(k == m);
            }
            break;
        }
        i = end;
        k += 1;
    }
    assert(slice_views(out@) =~= pieces(samples@, split_bounds(len as int, n as int)));
    out
}


/// The sequences of `parts`, one after another.
pub open spec fn joined<T>(parts: Seq<Seq<T>>) -> Seq<T>
    decreases parts.len(),
{
    if parts.len() == 0 {
        Seq::empty()
    } else {
        joined(parts.drop_last()) + parts.last()
    }
}

/// The contents of a sequence of slices.
pub open spec fn slice_views<T>(parts: Seq<&[T]>) -> Seq<Seq<T>> {
    parts.map_values(|p: &[T]| p@)
}

/// The contents of a sequence of vectors.
pub open spec fn vec_views<T>(parts: Seq<Vec<T>>) -> Seq<Seq<T>> {
    parts.map_values(|p: Vec<T>| p@)
}

/// Appends `s[a..b]` to `out`.
fn push_range<T: Copy>(out: &mut Vec<T>, s: &[T], a: usize, b: usize)
    requires
        a <= b <= s@.len(),
    ensures
        final(out)@ == old(out)@ + s@.subrange(a as int, b as int),
{
    let ghost start = out@;
    let mut j = a;
    while j < b
        invariant
            a <= j <= b,
            b <= s@.len(),
            out@ == start + s@.subrange(a as int, j as int),
        decreases b - j,
    {
        out.push(s[j]);
        assert(s@.subrange(a as int, j + 1) == s@.subrange(a as int, j as int).push(s@[j as int]));
        j += 1;
    }
}

/// Joins buffers end to end, in order. Agreement of sample rates is the
/// caller's business; this only concatenates samples.
pub fn concat<T: Copy>(parts: &[&[T]]) -> (out: Vec<T>)
    ensures
        out@ == joined(slice_views(parts@)),
{
    let mut out: Vec<T> = Vec::new();
    let n = parts.len();
    let mut i: usize = 0;
    while i < n
        invariant
            n == parts@.len(),
            i <= n,
            out@ == joined(slice_views(parts@.take(i as int))),
        decreases n - i,
    {
        let p = parts[i];
        push_range(&mut out, p, 0, p.len());
        assert(p@.subrange(0, p@.len() as int) == p@);
        assert(slice_views(parts@.take(i + 1)).drop_last() =~= slice_views(parts@.take(i as int)));
        i += 1;
    }
    assert(parts@.take(n as int) =~= parts@);
    out
}

/// The buffer `s` without frames `[a, b)` of `channels` channels.
pub open spec fn without_frames<T>(s: Seq<T>, channels: int, a: int, b: int) -> Seq<T> {
    s.subrange(0, a * channels) + s.subrange(b * channels, s.len() as int)
}

/// Removes frames `[a, b)` of an interleaved buffer over `channels`
/// channels: what comes before the range, then what comes after it.
pub fn remove_frames<T: Copy>(samples: &[T], channels: usize, a: usize, b: usize) -> (out: Vec<T>)
    requires
        a <= b,
        b * channels <= samples@.len(),
    ensures
        out@ == without_frames(samples@, channels as int, a as int, b as int),
{
    let len = samples.len();
    assert(a * channels <= b * channels) by (nonlinear_arith)
        requires a <= b;
    let lo = a * channels;
    let hi = b * channels;
    let mut out: Vec<T> = Vec::new();
    push_range(&mut out, samples, 0, lo);
    push_range(&mut out, samples, hi, len);
    out
}

/// The step between cuts when `total_frames` frames are split into `parts`
/// equal parts (no parts counts as one).
pub open spec fn even_step(total_frames: int, parts: int) -> int {
    total_frames / if parts >= 1 { parts } else { 1 }
}

/// Cut points that split `total_frames` frames into `parts` equal parts:
/// every multiple of the step short of the end. The remainder stays in the
/// last part. When the step is zero (more parts than frames) there are no
/// cuts.
pub fn even_cuts(total_frames: usize, parts: usize) -> (cuts: Vec<usize>)
    ensures
        cuts@.len() == if even_step(total_frames as int, parts as int) == 0 { 0 } else if parts >= 1 { parts - 1 } else { 0 },
        forall|k: int| 0 <= k < cuts@.len() ==> #[trigger] cuts@[k] == (k + 1) * even_step(total_frames as int, parts as int),
{
    let n = if parts >= 1 { parts } else { 1 };
    let step = total_frames / n;
    let mut cuts: Vec<usize> = Vec::new();
    if step == 0 {
        return cuts;
    }
    let mut k: usize = 1;
    while k < n
        invariant
            1 <= k <= n,
            n >= 1,
            step == total_frames as int / n as int,
            step > 0,
            cuts@.len() == k - 1,
            forall|j: int| 0 <= j < cuts@.len() ==> #[trigger] cuts@[j] == (j + 1) * step,
        decreases n - k,
    {
        assert(k * step <= total_frames) by (nonlinear_arith)
            requires k <= n, n >= 1, step == total_frames as int / n as int, step > 0;
        cuts.push(k * step);
        k += 1;
    }
    cuts
}

/// `s` is strictly increasing.
pub open spec fn strictly_increasing(s: Seq<usize>) -> bool {
    forall|i: int, j: int| 0 <= i < j < s.len() ==> s[i] < s[j]
}

/// Cut points from candidate frame indices: those strictly inside
/// `(0, total_frames)`, sorted, each once.
pub fn cut_points(frames: &Vec<usize>, total_frames: usize) -> (out: Vec<usize>)
    ensures
        strictly_increasing(out@),
        forall|x: usize| out@.contains(x) <==> (frames@.contains(x) && 0 < x < total_frames),
{
    let mut out: Vec<usize> = Vec::new();
    let n = frames.len();
    let mut i: usize = 0;
    while i < n
        invariant
            n == frames@.len(),
            i <= n,
            strictly_increasing(out@),
            forall|x: usize| out@.contains(x) <==> (frames@.take(i as int).contains(x) && 0 < x < total_frames),
        decreases n - i,
    {
        let f = frames[i];
        let ghost out0 = out@;
        proof {
            assert forall|x: usize| frames@.take(i + 1).contains(x) <==> (frames@.take(i as int).contains(x) || x == f) by {
                if frames@.take(i + 1).contains(x) {
                    let k = choose|k: int| 0 <= k < i + 1 && #[trigger] frames@.take(i + 1)[k] == x;
                    if k < i {
                        assert(frames@.take(i as int)[k] == x);
                    }
                }
                if frames@.take(i as int).contains(x) {
                    let k = choose|k: int| 0 <= k < i && #[trigger] frames@.take(i as int)[k] == x;
                    assert(frames@.take(i + 1)[k] == x);
                }
                if x == f {
                    assert(frames@.take(i + 1)[i as int] == x);
                }
            }
        }
        if 0 < f && f < total_frames {
            let len = out.len();
            let mut p: usize = 0;
            while p < len && out[p] < f
                invariant
                    len == out@.len(),
                    p <= len,
                    forall|k: int| 0 <= k < p ==> out@[k] < f,
                decreases len - p,
            {
                p += 1;
            }
            if p < len && out[p] == f {
                assert(out@[p as int] == f);
                assert(out@.contains(f));
            } else {
                let ghost prev = out@;
                proof {
                    assert forall|k: int| p <= k < prev.len() implies f < prev[k] by {
                        if k > p {
                            assert(prev[p as int] < prev[k]);
                        }
                    }
                }
                out.insert(p, f);
                assert(out@ == prev.insert(p as int, f));
                assert forall|x: usize| out@.contains(x) <==> (prev.contains(x) || x == f) by {
                    if out@.contains(x) {
                        let k = choose|k: int| 0 <= k < out@.len() && #[trigger] out@[k] == x;
                        if k < p {
                            assert(prev[k] == x);
                        } else if k > p {
                            assert(prev[k - 1] == x);
                        }
                    }
                    if prev.contains(x) {
                        let k = choose|k: int| 0 <= k < prev.len() && #[trigger] prev[k] == x;
                        if k < p {
                            assert(out@[k] == x);
                        } else {
                            assert(out@[k + 1] == x);
                        }
                    }
                    if x == f {
                        assert(out@[p as int] == x);
                    }
                }
            }
        }
        assert forall|x: usize| out@.contains(x) <==> (frames@.take(i + 1).contains(x) && 0 < x < total_frames) by {
            assert(out0.contains(x) <==> (frames@.take(i as int).contains(x) && 0 < x < total_frames));
            assert(frames@.take(i + 1).contains(x) <==> (frames@.take(i as int).contains(x) || x == f));
            if !(0 < f && f < total_frames) {
                assert(out@ == out0);
            }
        }
        i += 1;
    }
    assert(frames@.take(n as int) =~= frames@);
    out
}


/// Where the first `k` cuts leave the segmenting of a body of `body_len`
/// samples over `ch` channels: the segments cut off so far, and where the
/// next segment starts. A cut at frame `c` falls at sample `c * ch` (at most
/// the body's end); a cut at or before the current start cuts nothing.
pub open spec fn cut_fold(body_len: int, cuts: Seq<usize>, ch: int, k: nat) -> (Seq<(int, int)>, int)
    decreases k,
{
    if k == 0 {
        (Seq::empty(), 0)
    } else {
        let (segs, prev) = cut_fold(body_len, cuts, ch, (k - 1) as nat);
        let c = cuts[k - 1] * ch;
        let at = if c < body_len { c } else { body_len };
        if at > prev {
            (segs.push((prev, at)), at)
        } else {
            (segs, prev)
        }
    }
}

/// The segments a body of `body_len` samples is cut into at `cuts` (frames,
/// over `ch` channels), as sample bounds: everything up to the first
/// effective cut, between cuts, and after the last.
pub open spec fn segment_bounds(body_len: int, cuts: Seq<usize>, ch: int) -> Seq<(int, int)> {
    if cuts.len() == 0 {
        seq![(0, body_len)]
    } else {
        let (segs, prev) = cut_fold(body_len, cuts, ch, cuts.len());
        if prev < body_len { segs.push((prev, body_len)) } else { segs }
    }
}

/// The channel count used to turn frames into samples: at least one.
pub open spec fn channel_step(channels: usize) -> int {
    if channels == 0 { 1 } else { channels as int }
}

/// The sample bounds `[start, end)` of frames `[start_frame, end_frame)`,
/// each at most the buffer's end.
pub open spec fn body_bounds(len: int, channels: usize, start_frame: usize, end_frame: usize) -> (int, int) {
    let ch = channel_step(channels);
    let s = start_frame * ch;
    let e = end_frame * ch;
    (if s < len { s } else { len }, if e < len { e } else { len })
}

proof fn lemma_cut_fold_bounds(body_len: int, cuts: Seq<usize>, ch: int, k: nat)
    requires
        k <= cuts.len(),
        body_len >= 0,
        ch >= 1,
    ensures
        0 <= cut_fold(body_len, cuts, ch, k).1 <= body_len,
        forall|j: int| 0 <= j < cut_fold(body_len, cuts, ch, k).0.len() ==>
            0 <= (#[trigger] cut_fold(body_len, cuts, ch, k).0[j]).0 < cut_fold(body_len, cuts, ch, k).0[j].1
                <= cut_fold(body_len, cuts, ch, k).1,
    decreases k,
{
    if k > 0 {
        lemma_cut_fold_bounds(body_len, cuts, ch, (k - 1) as nat);
        assert(cuts[k - 1] * ch >= 0) by (nonlinear_arith)
            requires ch >= 1;
    }
}

/// Cuts frames `[start_frame, end_frame)` of an interleaved buffer into
/// segments at `cuts` (frame offsets from `start_frame`). Without cuts the
/// whole range is one segment.
pub fn slice_and_split<T: Copy>(
    samples: &[T],
    channels: usize,
    start_frame: usize,
    end_frame: usize,
    cuts: &[usize],
) -> (segments: Vec<Vec<T>>)
    requires
        start_frame * channel_step(channels) <= usize::MAX,
        end_frame * channel_step(channels) <= usize::MAX,
        forall|k: int| 0 <= k < cuts@.len() ==> #[trigger] cuts@[k] * channel_step(channels) <= usize::MAX,
        body_bounds(samples@.len() as int, channels, start_frame, end_frame).0
            <= body_bounds(samples@.len() as int, channels, start_frame, end_frame).1,
    ensures
        ({
            let (s, e) = body_bounds(samples@.len() as int, channels, start_frame, end_frame);
            let body = samples@.subrange(s, e);
            let bounds = segment_bounds(e - s, cuts@, channel_step(channels));
            &&& vec_views(segments@) == pieces(body, bounds)
            &&& segments@.len() == bounds.len()
            &&& forall|k: int| 0 <= k < bounds.len() ==>
                (#[trigger] segments@[k])@ == body.subrange(bounds[k].0, bounds[k].1)
        }),
{
    let ch: usize = if channels == 0 { 1 } else { channels };
    let len = samples.len();
    let s0 = start_frame * ch;
    let e0 = end_frame * ch;
    let start = if s0 < len { s0 } else { len };
    let end = if e0 < len { e0 } else { len };
    let body = &samples[start..end];
    let body_len = end - start;
    let ghost bseq = body@;
    if cuts.len() == 0 {
        let mut whole: Vec<T> = Vec::new();
        push_range(&mut whole, body, 0, body_len);
        assert(body@.subrange(0, body_len as int) == body@);
        let mut out: Vec<Vec<T>> = Vec::new();
        out.push(whole);
        return out;
    }
    let mut out: Vec<Vec<T>> = Vec::new();
    let mut prev: usize = 0;
    let n = cuts.len();
    let mut k: usize = 0;
    while k < n
        invariant
            n == cuts@.len(),
            k <= n,
            ch as int == channel_step(channels),
            ch >= 1,
            body_len == body@.len(),
            forall|j: int| 0 <= j < cuts@.len() ==> #[trigger] cuts@[j] * channel_step(channels) <= usize::MAX,
            cut_fold(body_len as int, cuts@, ch as int, k as nat).1 == prev,
            out@.len() == cut_fold(body_len as int, cuts@, ch as int, k as nat).0.len(),
            forall|j: int| 0 <= j < out@.len() ==> (#[trigger] out@[j])@ == body@.subrange(
                cut_fold(body_len as int, cuts@, ch as int, k as nat).0[j].0,
                cut_fold(body_len as int, cuts@, ch as int, k as nat).0[j].1,
            ),
        decreases n - k,
    {
        proof {
            lemma_cut_fold_bounds(body_len as int, cuts@, ch as int, k as nat);
        }
        let c = cuts[k] * ch;
        let at = if c < body_len { c } else { body_len };
        if at > prev {
            let mut seg: Vec<T> = Vec::new();
            push_range(&mut seg, body, prev, at);
            out.push(seg);
            prev = at;
        }
        k += 1;
    }
    proof {
        lemma_cut_fold_bounds(body_len as int, cuts@, ch as int, n as nat);
    }
    if prev < body_len {
        let mut seg: Vec<T> = Vec::new();
        push_range(&mut seg, body, prev, body_len);
        out.push(seg);
    }
    out
}


// ---- laws ----------------------------------------------------------------------------

/// The pieces of `s` between the given bounds.
pub open spec fn pieces<T>(s: Seq<T>, b: Seq<(int, int)>) -> Seq<Seq<T>> {
    Seq::new(b.len(), |k: int| s.subrange(b[k].0, b[k].1))
}

/// The bounds follow one another from zero: each piece starts where the one
/// before ended, and none runs backwards or past `len`.
pub open spec fn consecutive(b: Seq<(int, int)>, len: int) -> bool {
    &&& b.len() > 0 ==> b[0].0 == 0
    &&& forall|k: int| 0 <= k < b.len() ==> 0 <= (#[trigger] b[k]).0 <= b[k].1 <= len
    &&& forall|k: int| 0 <= k < b.len() - 1 ==> (#[trigger] b[k]).1 == b[k + 1].0
}

proof fn lemma_joined_consecutive<T>(s: Seq<T>, b: Seq<(int, int)>, k: int)
    requires
        consecutive(b, s.len() as int),
        0 <= k <= b.len(),
    ensures
        joined(pieces(s, b).take(k)) == s.subrange(0, if k == 0 { 0 } else { b[k - 1].1 }),
    decreases k,
{
    if k == 0 {
        assert(pieces(s, b).take(0) =~= Seq::<Seq<T>>::empty());
        assert(s.subrange(0, 0) =~= Seq::<T>::empty());
    } else {
        lemma_joined_consecutive(s, b, k - 1);
        assert(pieces(s, b).take(k).drop_last() == pieces(s, b).take(k - 1));
        let start = if k - 1 == 0 { 0 } else { b[k - 2].1 };
        assert(b[k - 1].0 == start);
        assert(s.subrange(0, start) + s.subrange(start, b[k - 1].1) =~= s.subrange(0, b[k - 1].1));
    }
}

/// The bounds of the parts `split_into` makes of `len` samples asked for `n`.
pub open spec fn split_bounds(len: int, n: int) -> Seq<(int, int)> {
    Seq::new(part_count(len, n) as nat, |k: int| (k * part_len(len, n), part_end(len, n, k)))
}

/// Splitting drops no sample: the parts of a buffer, joined again, are the
/// buffer.
pub proof fn lemma_split_then_join<T>(samples: Seq<T>, n: int)
    requires
        n > 0,
        samples.len() > 0,
    ensures
        joined(pieces(samples, split_bounds(samples.len() as int, n))) == samples,
{
    let len = samples.len() as int;
    let b = split_bounds(len, n);
    let c = part_len(len, n);
    let m = part_count(len, n);
    if n <= len {
        assert(len / n >= 1) by (nonlinear_arith)
            requires n <= len, n > 0;
        assert((len / n) * n <= len) by (nonlinear_arith)
            requires n > 0;
    } else {
        assert(len / n == 0) by (nonlinear_arith)
            requires len < n, n > 0, len >= 0;
    }
    assert forall|k: int| 0 <= k < b.len() implies 0 <= (#[trigger] b[k]).0 <= b[k].1 <= len by {
        assert(k * c >= 0) by (nonlinear_arith)
            requires k >= 0, c >= 1;
        if n <= len {
            assert(k * c + c <= m * c) by (nonlinear_arith)
                requires k < m, c >= 1;
            assert(m * c == c * n) by (nonlinear_arith)
                requires m == n;
            assert((k + 1) * c == k * c + c) by (nonlinear_arith);
        } else {
            assert(c == 1);
            assert(k * c == k) by (nonlinear_arith)
                requires c == 1;
            assert((k + 1) * c == k + 1) by (nonlinear_arith)
                requires c == 1;
        }
    }
    assert forall|k: int| 0 <= k < b.len() - 1 implies (#[trigger] b[k]).1 == b[k + 1].0 by {
    }
    assert(b[0].0 == 0) by {
        assert(0 * c == 0);
    }
    lemma_joined_consecutive(samples, b, b.len() as int);
    assert(pieces(samples, b).take(b.len() as int) == pieces(samples, b));
    assert(samples.subrange(0, len) == samples);
}

proof fn lemma_cut_fold_consecutive(body_len: int, cuts: Seq<usize>, ch: int, k: nat)
    requires
        k <= cuts.len(),
        body_len >= 0,
        ch >= 1,
    ensures
        consecutive(cut_fold(body_len, cuts, ch, k).0, body_len),
        cut_fold(body_len, cuts, ch, k).0.len() == 0 ==> cut_fold(body_len, cuts, ch, k).1 == 0,
        cut_fold(body_len, cuts, ch, k).0.len() > 0 ==>
            cut_fold(body_len, cuts, ch, k).0.last().1 == cut_fold(body_len, cuts, ch, k).1,
    decreases k,
{
    lemma_cut_fold_bounds(body_len, cuts, ch, k);
    if k > 0 {
        lemma_cut_fold_consecutive(body_len, cuts, ch, (k - 1) as nat);
    }
}

/// Cutting loses nothing: the segments `slice_and_split` returns, joined
/// again, are the sliced range.
pub proof fn lemma_segments_rejoin<T>(body: Seq<T>, cuts: Seq<usize>, ch: int)
    requires
        ch >= 1,
    ensures
        joined(pieces(body, segment_bounds(body.len() as int, cuts, ch))) == body,
{
    let len = body.len() as int;
    let b = segment_bounds(len, cuts, ch);
    if cuts.len() == 0 {
        assert(consecutive(b, len));
    } else {
        lemma_cut_fold_consecutive(len, cuts, ch, cuts.len());
        let (segs, prev) = cut_fold(len, cuts, ch, cuts.len());
        if prev < len {
            assert(consecutive(b, len)) by {
                assert forall|k: int| 0 <= k < b.len() - 1 implies (#[trigger] b[k]).1 == b[k + 1].0 by {
                    if k < segs.len() - 1 {
                        assert(b[k] == segs[k] && b[k + 1] == segs[k + 1]);
                    } else {
                        assert(b[k] == segs.last());
                    }
                }
                assert forall|k: int| 0 <= k < b.len() implies 0 <= (#[trigger] b[k]).0 <= b[k].1 <= len by {
                    if k < segs.len() {
                        assert(b[k] == segs[k]);
                    }
                }
            }
        }
    }
    lemma_joined_consecutive(body, b, b.len() as int);
    assert(pieces(body, b).take(b.len() as int) == pieces(body, b));
    if b.len() == 0 {
        assert(body =~= Seq::<T>::empty());
    }
    assert(body.subrange(0, len) == body);
}

/// Cutting a range is the inverse of exporting it: the buffer with frames
/// `[a, b)` removed is shorter by exactly those frames, and putting the
/// removed samples back at the cut gives the buffer back.
pub proof fn lemma_cut_closes_the_gap<T>(s: Seq<T>, channels: int, a: int, b: int)
    requires
        0 <= a <= b,
        0 <= channels,
        b * channels <= s.len(),
    ensures
        without_frames(s, channels, a, b).len() == s.len() - (b - a) * channels,
        without_frames(s, channels, a, b).take(a * channels) + s.subrange(a * channels, b * channels)
            + without_frames(s, channels, a, b).skip(a * channels) == s,
{
    assert(0 <= a * channels <= b * channels) by (nonlinear_arith)
        requires 0 <= a <= b, 0 <= channels;
    assert((b - a) * channels == b * channels - a * channels) by (nonlinear_arith);
    let w = without_frames(s, channels, a, b);
    assert(w.take(a * channels) =~= s.subrange(0, a * channels));
    assert(w.skip(a * channels) =~= s.subrange(b * channels, s.len() as int));
    assert(s.subrange(0, a * channels) + s.subrange(a * channels, b * channels)
        + s.subrange(b * channels, s.len() as int) =~= s);
}

/// The step between even cuts is the whole number of frames each of `parts`
/// parts gets: `parts` steps fit in the audio, one step more per part does
/// not. So the cuts leave `parts - 1` equal parts and a last part that holds
/// that step plus the remainder, which is less than `parts` frames.
pub proof fn lemma_even_step_divides(total_frames: nat, parts: nat)
    requires
        parts >= 1,
    ensures
        even_step(total_frames as int, parts as int) * parts <= total_frames,
        total_frames < (even_step(total_frames as int, parts as int) + 1) * parts,
        total_frames - (parts - 1) * even_step(total_frames as int, parts as int)
            < even_step(total_frames as int, parts as int) + parts,
{
    let q = total_frames as int / parts as int;
    let r = total_frames as int % parts as int;
    vstd::arithmetic::div_mod::lemma_fundamental_div_mod(total_frames as int, parts as int);
    vstd::arithmetic::div_mod::lemma_mod_pos_bound(total_frames as int, parts as int);
    assert(even_step(total_frames as int, parts as int) == q);
    assert(total_frames == parts * q + r);
    assert(q * parts <= total_frames) by (nonlinear_arith)
        requires total_frames == parts * q + r, 0 <= r;
    assert(total_frames < (q + 1) * parts) by (nonlinear_arith)
        requires total_frames == parts * q + r, r < parts;
    assert(total_frames - (parts - 1) * q < q + parts) by (nonlinear_arith)
        requires total_frames == parts * q + r, r < parts;
}

} // verus!
