//! Run finding for silence detection: the stretches of consecutive peak
//! buckets that match (are silent, or are sound). The level of each bucket is
//! judged before this; here a bucket is just a yes or a no.
use vstd::prelude::*;

verus! {

/// `[a, b)` is a maximal run of matching buckets: not empty, every bucket in
/// it matches, and the buckets just outside do not.
pub open spec fn is_run(flags: Seq<bool>, a: int, b: int) -> bool {
    &&& 0 <= a < b <= flags.len()
    &&& forall|j: int| a <= j < b ==> #[trigger] flags[j]
    &&& a == 0 || !flags[a - 1]
    &&& b == flags.len() || !flags[b]
}

/// `runs` lists every maximal run of matching buckets, left to right.
pub open spec fn runs_of(flags: Seq<bool>, runs: Seq<(usize, usize)>) -> bool {
    &&& forall|k: int| 0 <= k < runs.len() ==> is_run(flags, (#[trigger] runs[k]).0 as int, runs[k].1 as int)
    &&& forall|k: int| 0 <= k < runs.len() - 1 ==> (#[trigger] runs[k]).1 < runs[k + 1].0
    &&& forall|j: int| 0 <= j < flags.len() && #[trigger] flags[j] ==>
        exists|k: int| 0 <= k < runs.len() && (#[trigger] runs[k]).0 <= j < runs[k].1
}

/// The maximal runs of `true` in `flags`, as half-open `[first, last)` bucket
/// index pairs, left to right.
pub fn runs(flags: &Vec<bool>) -> (out: Vec<(usize, usize)>)
    ensures
        runs_of(flags@, out@),
{
    let n = flags.len();
    let mut out: Vec<(usize, usize)> = Vec::new();
    let mut start: Option<usize> = None;
    let mut i: usize = 0;
    while i < n
        invariant
            n == flags@.len(),
            i <= n,
            forall|k: int| 0 <= k < out@.len() ==> is_run(flags@, (#[trigger] out@[k]).0 as int, out@[k].1 as int),
            forall|k: int| 0 <= k < out@.len() ==> (#[trigger] out@[k]).1 < i,
            forall|k: int| 0 <= k < out@.len() - 1 ==> (#[trigger] out@[k]).1 < out@[k + 1].0,
            match start {
                Some(s) => {
                    &&& s < i
                    &&& forall|j: int| s <= j < i ==> #[trigger] flags@[j]
                    &&& s == 0 || !flags@[s - 1]
                    &&& out@.len() > 0 ==> out@.last().1 < s
                },
                None => i == 0 || !flags@[i - 1],
            },
            forall|j: int| 0 <= j < i && #[trigger] flags@[j] ==>
                (exists|k: int| 0 <= k < out@.len() && (#[trigger] out@[k]).0 <= j < out@[k].1)
                || (start matches Some(s) && s <= j),
        decreases n - i,
    {
        let f = flags[i];
        match start {
            None => {
                if f {
                    start = Some(i);
                }
            },
            Some(s) => {
                if !f {
                    let ghost prev = out@;
                    out.push((s, i));
                    assert forall|j: int| 0 <= j < i + 1 && #[trigger] flags@[j] implies
                        exists|k: int| 0 <= k < out@.len() && (#[trigger] out@[k]).0 <= j < out@[k].1 by {
                        if s <= j {
                            assert(out@[prev.len() as int] == (s, i));
                        } else {
                            let k = choose|k: int| 0 <= k < prev.len() && (#[trigger] prev[k]).0 <= j < prev[k].1;
                            assert(out@[k] == prev[k]);
                        }
                    }
                    start = None;
                }
            },
        }
        i += 1;
    }
    if let Some(s) = start {
        let ghost prev = out@;
        out.push((s, n));
        assert forall|j: int| 0 <= j < n && #[trigger] flags@[j] implies
            exists|k: int| 0 <= k < out@.len() && (#[trigger] out@[k]).0 <= j < out@[k].1 by {
            if s <= j {
                assert(out@[prev.len() as int] == (s, n));
            } else {
                let k = choose|k: int| 0 <= k < prev.len() && (#[trigger] prev[k]).0 <= j < prev[k].1;
                assert(out@[k] == prev[k]);
            }
        }
    }
    out
}


/// The flags turned around: a sound bucket where there was silence and the
/// other way round.
pub open spec fn negated(flags: Seq<bool>) -> Seq<bool> {
    flags.map_values(|f: bool| !f)
}

/// `j` lies in one of the runs.
pub open spec fn covered(runs: Seq<(usize, usize)>, j: int) -> bool {
    exists|k: int| 0 <= k < runs.len() && (#[trigger] runs[k]).0 <= j < runs[k].1
}

/// Silence and sound split the file between them: every bucket lies in
/// exactly one run, either of the matching buckets or of the others.
pub proof fn lemma_runs_partition(flags: Seq<bool>, hits: Seq<(usize, usize)>, misses: Seq<(usize, usize)>, j: int)
    requires
        runs_of(flags, hits),
        runs_of(negated(flags), misses),
        0 <= j < flags.len(),
    ensures
        covered(hits, j) != covered(misses, j),
{
    let nf = negated(flags);
    assert(nf[j] == !flags[j]);
    if covered(hits, j) {
        let k = choose|k: int| 0 <= k < hits.len() && (#[trigger] hits[k]).0 <= j < hits[k].1;
        assert(is_run(flags, hits[k].0 as int, hits[k].1 as int));
        assert(flags[j]);
        if covered(misses, j) {
            let q = choose|q: int| 0 <= q < misses.len() && (#[trigger] misses[q]).0 <= j < misses[q].1;
            assert(is_run(nf, misses[q].0 as int, misses[q].1 as int));
            assert(nf[j]);
        }
    } else {
        if flags[j] {
            assert(covered(hits, j));
        } else {
            assert(nf[j]);
            assert(covered(misses, j));
        }
    }
}

} // verus!
