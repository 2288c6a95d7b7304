//! Alignment-free decoding of a per-position label-probability sequence.
//!
//! At each horizontal position the decoder picks the most probable label
//! that is not excluded, then collapses the label sequence: consecutive
//! repeats of a label merge into one occurrence, and every blank label
//! disappears. Each emitted label keeps the interval of positions whose
//! run produced it.

use vstd::prelude::*;

use crate::alphabet::ExcludedLabelSet;
use crate::errors::OcrError;

verus! {

/// The decision rule of the decoder: greedy takes the most probable
/// permitted label at every position independently; beam search keeps a
/// bounded set of the highest-scoring label sequences and returns the
/// collapse of the best one.
///
/// The beam's usual accuracy claim (a likelihood at least as good as
/// greedy on average) is not a statement this library can verify; its
/// contract promises instead that the result is the exact collapse of some
/// permitted label sequence.
#[derive(Clone, Copy, Debug, PartialEq, Eq, Structural)]
pub enum DecodeMethod {
    Greedy,
    BeamSearch,
}

impl Default for DecodeMethod {
    fn default() -> (r: DecodeMethod)
        ensures
            r == DecodeMethod::Greedy,
    {
        DecodeMethod::Greedy
    }
}

/// A per-position class-probability sequence: one vector of `k` fixed-point
/// probabilities for each horizontal position.
pub struct ProbSequence {
    pub k: usize,
    pub rows: Vec<Vec<u32>>,
}

impl ProbSequence {
    /// Every position has exactly `k` probabilities, and there is at least
    /// the blank label.
    pub open spec fn wf(self) -> bool {
        &&& 1 <= self.k
        &&& forall|r: int| 0 <= r < self.rows@.len() ==> (#[trigger] self.rows@[r])@.len()
            == self.k
    }

    /// Build a sequence, validating the layout.
    ///
    /// Returns `ShapeMismatchError` exactly when `k` is zero or some row
    /// does not have `k` entries.
    pub fn new(k: usize, rows: Vec<Vec<u32>>) -> (r: Result<ProbSequence, OcrError>)
        ensures
            r is Ok <==> (1 <= k && forall|i: int|
                0 <= i < rows@.len() ==> (#[trigger] rows@[i])@.len() == k),
            r is Ok ==> r->Ok_0 == (ProbSequence { k, rows }),
            r is Ok ==> r->Ok_0.wf(),
            r is Err ==> r->Err_0 == OcrError::ShapeMismatchError,
    {
        if k == 0 {
            return Err(OcrError::ShapeMismatchError);
        }
        let mut i: usize = 0;
        while i < rows.len()
            invariant
                i <= rows@.len(),
                forall|j: int| 0 <= j < i ==> (#[trigger] rows@[j])@.len() == k,
            decreases rows@.len() - i,
        {
            if rows[i].len() != k {
                return Err(OcrError::ShapeMismatchError);
            }
            i += 1;
        }
        Ok(ProbSequence { k, rows })
    }

    /// Number of horizontal positions.
    pub fn len(&self) -> (n: usize)
        ensures
            n == self.rows@.len(),
    {
        self.rows.len()
    }
}

/// The labels excluded by an optional restriction.
pub open spec fn ex_of(ex: Option<&ExcludedLabelSet>) -> Seq<usize> {
    match ex {
        Some(e) => e.labels@,
        None => Seq::empty(),
    }
}

/// Whether `l` is among the excluded labels `ex`.
pub open spec fn is_excluded(ex: Seq<usize>, l: int) -> bool {
    exists|j: int| 0 <= j < ex.len() && ex[j] == l
}

/// The first index of a maximal permitted probability among labels
/// `0 .. n` of `row`. The blank label `0` is always permitted, so with
/// `0 < n` the result is a permitted label.
pub open spec fn arg_best(row: Seq<u32>, ex: Seq<usize>, n: int) -> int
    decreases n,
{
    if n <= 1 {
        0
    } else {
        let b = arg_best(row, ex, n - 1);
        if !is_excluded(ex, n - 1) && (is_excluded(ex, b) || row[n - 1] > row[b]) {
            n - 1
        } else {
            b
        }
    }
}

/// The label the decoder picks at each position of `p`.
pub open spec fn best_labels(p: ProbSequence, ex: Seq<usize>) -> Seq<int> {
    Seq::new(p.rows@.len(), |r: int| arg_best(p.rows@[r]@, ex, p.k as int))
}

/// Whether position `i` of the label sequence `s` survives collapsing: it
/// is not the blank and does not repeat its immediate predecessor.
pub open spec fn keep_at(s: Seq<int>, i: int) -> bool {
    s[i] != 0 && (i == 0 || s[i] != s[i - 1])
}

/// The collapsed form of the label sequence `s`: consecutive repeats
/// merged, blanks removed.
pub open spec fn collapse(s: Seq<int>) -> Seq<int>
    decreases s.len(),
{
    if s.len() == 0 {
        Seq::empty()
    } else {
        let pre = collapse(s.drop_last());
        if keep_at(s, s.len() - 1) {
            pre.push(s.last())
        } else {
            pre
        }
    }
}

/// One emitted label together with the interval of positions that
/// produced it.
#[derive(Clone, Copy, Debug, PartialEq, Eq, Structural)]
pub struct DecodedRun {
    pub label: usize,
    pub start: usize,
    pub end: usize,
}

/// Proof that the blank-permitting argmax picks a permitted label in
/// range, maximal among the permitted ones and first among the maxima.
pub proof fn lemma_arg_best_permitted(row: Seq<u32>, ex: Seq<usize>, n: int)
    requires
        !is_excluded(ex, 0),
        1 <= n <= row.len(),
    ensures
        0 <= arg_best(row, ex, n) < n,
        !is_excluded(ex, arg_best(row, ex, n)),
        forall|j: int|
            0 <= j < n && !is_excluded(ex, j) ==> row[j] <= row[arg_best(row, ex, n)],
        forall|j: int|
            0 <= j < n && !is_excluded(ex, j) && row[j] == row[arg_best(row, ex, n)]
                ==> arg_best(row, ex, n) <= j,
    decreases n,
{
    if n > 1 {
        lemma_arg_best_permitted(row, ex, n - 1);
    }
}

/// Proof that every collapsed label is a non-blank member of the sequence
/// it was collapsed from.
pub proof fn lemma_collapse_members(s: Seq<int>)
    ensures
        forall|m: int|
            0 <= m < collapse(s).len() ==> (#[trigger] collapse(s)[m]) != 0 && exists|i: int|
                0 <= i < s.len() && s[i] == collapse(s)[m],
    decreases s.len(),
{
    if s.len() > 0 {
        lemma_collapse_members(s.drop_last());
        assert forall|m: int| 0 <= m < collapse(s).len() implies (#[trigger] collapse(s)[m]) != 0
            && exists|i: int| 0 <= i < s.len() && s[i] == collapse(s)[m] by {
            let pre = collapse(s.drop_last());
            if m < pre.len() {
                assert(collapse(s)[m] == pre[m]);
                let i = choose|i: int|
                    0 <= i < s.drop_last().len() && s.drop_last()[i] == pre[m];
                assert(s[i] == collapse(s)[m]);
            } else {
                assert(collapse(s)[m] == s.last());
                assert(s[s.len() - 1] == collapse(s)[m]);
            }
        }
    }
}

/// The decoder never emits a blank or an excluded label: every collapsed
/// best label is permitted. With an exclusion set holding the label of some
/// character, that character can never appear in decoded output.
pub proof fn lemma_decode_never_excluded(p: ProbSequence, ex: Seq<usize>)
    requires
        p.wf(),
        !is_excluded(ex, 0),
    ensures
        forall|m: int|
            0 <= m < collapse(best_labels(p, ex)).len()
                ==> (#[trigger] collapse(best_labels(p, ex))[m]) != 0 && !is_excluded(
                ex,
                collapse(best_labels(p, ex))[m],
            ),
{
    let s = best_labels(p, ex);
    lemma_collapse_members(s);
    assert forall|m: int| 0 <= m < collapse(s).len() implies (#[trigger] collapse(s)[m]) != 0
        && !is_excluded(ex, collapse(s)[m]) by {
        let i = choose|i: int| 0 <= i < s.len() && s[i] == collapse(s)[m];
        lemma_arg_best_permitted(p.rows@[i]@, ex, p.k as int);
        assert(s[i] == arg_best(p.rows@[i]@, ex, p.k as int));
    }
}

/// Proof that every decoded label denotes an alphabet character: it is
/// neither the blank nor outside the label space.
pub proof fn lemma_decoded_label_bounds(p: ProbSequence, ex: Seq<usize>)
    requires
        p.wf(),
        !is_excluded(ex, 0),
    ensures
        forall|m: int|
            0 <= m < collapse(best_labels(p, ex)).len() ==> 1 <= #[trigger] collapse(
                best_labels(p, ex),
            )[m] < p.k,
{
    let s = best_labels(p, ex);
    lemma_collapse_members(s);
    assert forall|m: int| 0 <= m < collapse(s).len() implies 1 <= #[trigger] collapse(s)[m]
        < p.k by {
        let i = choose|i: int| 0 <= i < s.len() && s[i] == collapse(s)[m];
        lemma_arg_best_permitted(p.rows@[i]@, ex, p.k as int);
        assert(s[i] == arg_best(p.rows@[i]@, ex, p.k as int));
        assert(collapse(s)[m] != 0);
    }
}

/// Proof that a sequence holding one non-blank label at every position
/// collapses to that single label: repeats of a character across adjacent
/// positions merge into one character.
pub proof fn lemma_collapse_constant(s: Seq<int>, l: int)
    requires
        s.len() > 0,
        l != 0,
        forall|i: int| 0 <= i < s.len() ==> s[i] == l,
    ensures
        collapse(s) =~= seq![l],
    decreases s.len(),
{
    if s.len() == 1 {
        assert(keep_at(s, 0));
        assert(collapse(s.drop_last()) =~= Seq::<int>::empty());
    } else {
        lemma_collapse_constant(s.drop_last(), l);
        assert(!keep_at(s, s.len() - 1));
    }
}

/// A probability sequence whose best permitted label is `l` at every
/// position decodes to the single label `l`: physically repeated columns
/// of one character collapse to one occurrence.
pub proof fn lemma_uniform_labels_decode_to_one(p: ProbSequence, ex: Seq<usize>, l: int)
    requires
        p.wf(),
        !is_excluded(ex, 0),
        p.rows@.len() > 0,
        l != 0,
        forall|i: int|
            0 <= i < p.rows@.len() ==> #[trigger] arg_best(p.rows@[i]@, ex, p.k as int) == l,
    ensures
        collapse(best_labels(p, ex)) =~= seq![l],
{
    let s = best_labels(p, ex);
    assert forall|i: int| 0 <= i < s.len() implies s[i] == l by {
        assert(arg_best(p.rows@[i]@, ex, p.k as int) == l);
    }
    lemma_collapse_constant(s, l);
}

/// Proof that a blank between two occurrences of a label keeps them apart:
/// the pattern blank, label, blank, label collapses to the label twice.
pub proof fn lemma_collapse_blank_separated(l: int)
    requires
        l != 0,
    ensures
        collapse(seq![0, l, 0, l]) =~= seq![l, l],
{
    let s: Seq<int> = seq![0, l, 0, l];
    let s3: Seq<int> = seq![0, l, 0];
    let s2: Seq<int> = seq![0, l];
    let s1: Seq<int> = seq![0];
    let s0: Seq<int> = Seq::empty();
    assert(s.drop_last() =~= s3);
    assert(s3.drop_last() =~= s2);
    assert(s2.drop_last() =~= s1);
    assert(s1.drop_last() =~= s0);
    assert(collapse(s0) =~= Seq::<int>::empty());
    assert(!keep_at(s1, 0));
    assert(collapse(s1) =~= Seq::<int>::empty());
    assert(keep_at(s2, 1));
    assert(collapse(s2) =~= seq![l]);
    assert(!keep_at(s3, 2));
    assert(collapse(s3) =~= seq![l]);
    assert(keep_at(s, 3));
    assert(collapse(s) =~= seq![l, l]);
}

/// Whether `label` is excluded by the optional restriction.
fn excluded_contains(ex: Option<&ExcludedLabelSet>, label: usize) -> (r: bool)
    ensures
        r == is_excluded(ex_of(ex), label as int),
{
    match ex {
        Some(e) => {
            let r = e.contains(label);
            proof {
                assert(e.spec_contains(label as int) == is_excluded(ex_of(ex), label as int));
            }
            r
        },
        None => false,
    }
}

/// The most probable permitted label of one probability row, ties broken
/// toward the lowest label.
fn argmax_row(row: &Vec<u32>, ex: Option<&ExcludedLabelSet>) -> (best: usize)
    requires
        1 <= row@.len(),
        !is_excluded(ex_of(ex), 0),
    ensures
        best as int == arg_best(row@, ex_of(ex), row@.len() as int),
{
    let mut best: usize = 0;
    let mut j: usize = 1;
    while j < row.len()
        invariant
            1 <= j <= row@.len(),
            best < j,
            best as int == arg_best(row@, ex_of(ex), j as int),
        decreases row@.len() - j,
    {
        let permitted = !excluded_contains(ex, j);
        if permitted && (excluded_contains(ex, best) || row[j] > row[best]) {
            best = j;
        }
        j += 1;
    }
    best
}

/// Whether `runs` is the run decomposition of the label sequence `s`: the
/// emitted labels are exactly `collapse(s)`, each run spans the maximal
/// interval of positions labelled with its label, and the runs are
/// disjoint and ordered left to right. These conditions determine the runs
/// uniquely from `s`.
pub open spec fn runs_follow(s: Seq<int>, runs: Seq<DecodedRun>) -> bool {
    &&& runs.len() == collapse(s).len()
    &&& forall|m: int|
        0 <= m < runs.len() ==> (#[trigger] runs[m]).label as int == collapse(s)[m]
    &&& forall|m: int|
        0 <= m < runs.len() ==> {
            let run = #[trigger] runs[m];
            &&& run.start < run.end <= s.len()
            &&& run.label != 0
            &&& forall|j: int| run.start <= j < run.end ==> s[j] == run.label
            &&& (run.start == 0 || s[run.start - 1] != run.label)
            &&& (run.end == s.len() || s[run.end as int] != run.label)
        }
    &&& forall|m1: int, m2: int|
        #![trigger runs[m1], runs[m2]]
        0 <= m1 < m2 < runs.len() ==> runs[m1].end <= runs[m2].start
}

/// What greedy decoding returns: the run decomposition of the best
/// permitted label at every position.
pub open spec fn greedy_runs_ok(p: ProbSequence, ex: Seq<usize>, runs: Seq<DecodedRun>) -> bool {
    runs_follow(best_labels(p, ex), runs)
}

/// Whether `s` is a label sequence a decoder may choose for `p`: one label
/// per position, each within the label space and not excluded.
pub open spec fn path_ok(p: ProbSequence, ex: Seq<usize>, s: Seq<int>) -> bool {
    &&& s.len() == p.rows@.len()
    &&& forall|j: int| 0 <= j < s.len() ==> 0 <= #[trigger] s[j] < p.k && !is_excluded(ex, s[j])
}

/// What beam-search decoding returns: the run decomposition of some
/// permitted label sequence. Which sequence wins is the beam's scoring
/// choice and is deliberately not pinned.
pub open spec fn beam_runs_ok(p: ProbSequence, ex: Seq<usize>, runs: Seq<DecodedRun>) -> bool {
    exists|s: Seq<int>| #[trigger] path_ok(p, ex, s) && runs_follow(s, runs)
}

/// Greedy decoding: pick the most probable permitted label at every
/// position, then collapse the label sequence, keeping for each emitted
/// label the run of positions that produced it.
pub fn decode_greedy(probs: &ProbSequence, ex: Option<&ExcludedLabelSet>) -> (runs: Vec<
    DecodedRun,
>)
    requires
        probs.wf(),
        !is_excluded(ex_of(ex), 0),
    ensures
        greedy_runs_ok(*probs, ex_of(ex), runs@),
{
    let ghost s = best_labels(*probs, ex_of(ex));
    let n = probs.rows.len();
    let mut labels: Vec<usize> = Vec::new();
    let mut r: usize = 0;
    while r < n
        invariant
            probs.wf(),
            n == probs.rows@.len(),
            !is_excluded(ex_of(ex), 0),
            s == best_labels(*probs, ex_of(ex)),
            r == labels@.len() <= n,
            forall|i: int| 0 <= i < r ==> (#[trigger] labels@[i]) as int == s[i],
        decreases n - r,
    {
        let row: &Vec<u32> = &probs.rows[r];
        let best = argmax_row(row, ex);
        labels.push(best);
        r += 1;
    }
    proof {
        assert(labels@.map_values(|u: usize| u as int) =~= s);
    }
    runs_of_labels(&labels)
}

/// The run decomposition of a label sequence: collapse the labels, keeping
/// for each emitted label the maximal interval of positions that carry it.
pub fn runs_of_labels(labels: &Vec<usize>) -> (runs: Vec<DecodedRun>)
    ensures
        runs_follow(labels@.map_values(|u: usize| u as int), runs@),
{
    let ghost s = labels@.map_values(|u: usize| u as int);
    let n = labels.len();
    let mut runs: Vec<DecodedRun> = Vec::new();
    let mut j: usize = 0;
    proof {
        assert(s.take(0) =~= Seq::<int>::empty());
    }
    while j < n
        invariant
            n == s.len(),
            j <= n,
            labels@.len() == n,
            forall|i: int| 0 <= i < n ==> (#[trigger] labels@[i]) as int == s[i],
            runs@.len() == collapse(s.take(j as int)).len(),
            forall|m: int|
                0 <= m < runs@.len() ==> (#[trigger] runs@[m]).label as int == collapse(
                    s.take(j as int),
                )[m],
            forall|m: int|
                0 <= m < runs@.len() ==> {
                    let run = #[trigger] runs@[m];
                    &&& run.start < run.end <= j
                    &&& run.label != 0
                    &&& forall|i: int| run.start <= i < run.end ==> s[i] == run.label
                    &&& (run.start == 0 || s[run.start - 1] != run.label)
                    &&& (run.end == j || s[run.end as int] != run.label)
                },
            forall|m1: int, m2: int|
                #![trigger runs@[m1], runs@[m2]]
                0 <= m1 < m2 < runs@.len() ==> runs@[m1].end <= runs@[m2].start,
            j > 0 && s[j - 1] != 0 ==> runs@.len() > 0 && runs@[runs@.len() - 1].label as int
                == s[j - 1] && runs@[runs@.len() - 1].end == j,
        decreases n - j,
    {
        let l = labels[j];
        let ghost runs0 = runs@;
        if l != 0 && (j == 0 || labels[j - 1] != l) {
            runs.push(DecodedRun { label: l, start: j, end: j + 1 });
            proof {
                assert(keep_at(s.take(j + 1), j as int));
            }
        } else if l != 0 {
            let last = runs.len() - 1;
            let mut run = runs[last];
            run.end = j + 1;
            runs[last] = run;
            proof {
                assert(!keep_at(s.take(j + 1), j as int));
                assert(runs0[last as int].end == j);
                assert forall|m: int| 0 <= m < runs@.len() implies {
                    let runm = #[trigger] runs@[m];
                    &&& runm.start < runm.end <= j + 1
                    &&& runm.label != 0
                    &&& forall|i: int| runm.start <= i < runm.end ==> s[i] == runm.label
                    &&& (runm.start == 0 || s[runm.start - 1] != runm.label)
                    &&& (runm.end == j + 1 || s[runm.end as int] != runm.label)
                } by {
                    if m < runs@.len() - 1 {
                        assert(runs@[m] == runs0[m]);
                        assert(runs0[m].end <= runs0[last as int].start < j);
                    } else {
                        assert(runs@[m].start == runs0[last as int].start);
                        assert forall|i: int| runs@[m].start <= i < runs@[m].end implies s[i]
                            == runs@[m].label by {
                            if i < j {
                                assert(s[i] == runs0[last as int].label);
                            }
                        }
                    }
                }
            }
        } else {
            proof {
                assert(!keep_at(s.take(j + 1), j as int));
            }
        }
        proof {
            assert(s.take(j + 1).drop_last() =~= s.take(j as int));
            assert(s.take(j + 1).last() == s[j as int]);
        }
        j += 1;
    }
    proof {
        assert(s.take(n as int) =~= s);
    }
    runs
}

/// Width of the beam: how many hypotheses survive each position.
pub const BEAM_WIDTH: usize = 4;

/// One beam hypothesis: a label path and its additive score.
struct Hyp {
    path: Vec<usize>,
    score: u64,
}

/// Every hypothesis holds a permitted label path of length `j` over a
/// label space of size `k`.
spec fn hyps_wf(hyps: Seq<Hyp>, k: int, ex: Seq<usize>, j: int) -> bool {
    &&& forall|h: int| 0 <= h < hyps.len() ==> (#[trigger] hyps[h]).path@.len() == j
    &&& forall|h: int, i: int|
        #![trigger hyps[h].path@[i]]
        0 <= h < hyps.len() && 0 <= i < hyps[h].path@.len() ==> 0 <= hyps[h].path@[i] < k
            && !is_excluded(ex, hyps[h].path@[i] as int)
}

/// A copy of a label path.
fn clone_labels(v: &Vec<usize>) -> (r: Vec<usize>)
    ensures
        r@ == v@,
{
    let mut r: Vec<usize> = Vec::new();
    let mut i: usize = 0;
    while i < v.len()
        invariant
            i <= v@.len(),
            r@ =~= v@.take(i as int),
        decreases v@.len() - i,
    {
        r.push(v[i]);
        proof {
            assert(r@ =~= v@.take(i + 1));
        }
        i += 1;
    }
    proof {
        assert(v@.take(v@.len() as int) =~= v@);
    }
    r
}

/// Beam-search decoding: carry the `BEAM_WIDTH` highest-scoring label
/// paths across the positions, scoring a path by the saturating sum of its
/// chosen probabilities, and return the run decomposition of the best
/// final path.
///
/// Hypotheses that collapse to the same text are not merged. The contract
/// pins the result to the exact run decomposition of some permitted label
/// path; which path wins is the beam's scoring choice and is deliberately
/// not pinned, since the usual accuracy claim over the best path is not a
/// statement this library can verify.
pub fn decode_beam(probs: &ProbSequence, ex: Option<&ExcludedLabelSet>) -> (runs: Vec<DecodedRun>)
    requires
        probs.wf(),
        !is_excluded(ex_of(ex), 0),
    ensures
        beam_runs_ok(*probs, ex_of(ex), runs@),
{
    let n = probs.rows.len();
    let kk = probs.k;
    let mut hyps: Vec<Hyp> = Vec::new();
    hyps.push(Hyp { path: Vec::new(), score: 0 });
    let mut j: usize = 0;
    while j < n
        invariant
            probs.wf(),
            n == probs.rows@.len(),
            kk == probs.k,
            !is_excluded(ex_of(ex), 0),
            j <= n,
            1 <= hyps@.len(),
            hyps_wf(hyps@, kk as int, ex_of(ex), j as int),
        decreases n - j,
    {
        let row: &Vec<u32> = &probs.rows[j];
        let mut cands: Vec<Hyp> = Vec::new();
        let mut h: usize = 0;
        while h < hyps.len()
            invariant
                probs.wf(),
                kk == probs.k,
                !is_excluded(ex_of(ex), 0),
                j < n == probs.rows@.len(),
                row == &probs.rows@[j as int],
                1 <= hyps@.len(),
                h <= hyps@.len(),
                hyps_wf(hyps@, kk as int, ex_of(ex), j as int),
                hyps_wf(cands@, kk as int, ex_of(ex), j + 1),
                h > 0 ==> cands@.len() >= 1,
            decreases hyps@.len() - h,
        {
            let hyp = &hyps[h];
            let mut l: usize = 0;
            while l < row.len()
                invariant
                    probs.wf(),
                    kk == probs.k,
                    !is_excluded(ex_of(ex), 0),
                    j < n == probs.rows@.len(),
                    row == &probs.rows@[j as int],
                    row@.len() == kk,
                    h < hyps@.len(),
                    hyp == &hyps@[h as int],
                    hyps_wf(hyps@, kk as int, ex_of(ex), j as int),
                    l <= row@.len(),
                    hyps_wf(cands@, kk as int, ex_of(ex), j + 1),
                    (h > 0 || l > 0) ==> cands@.len() >= 1,
                decreases row@.len() - l,
            {
                if !excluded_contains(ex, l) {
                    let mut path = clone_labels(&hyp.path);
                    path.push(l);
                    let inc = row[l] as u64;
                    let score = if hyp.score > u64::MAX - inc {
                        u64::MAX
                    } else {
                        hyp.score + inc
                    };
                    let ghost cands0 = cands@;
                    cands.push(Hyp { path, score });
                    proof {
                        assert forall|h2: int, i: int|
                            #![trigger cands@[h2].path@[i]]
                            0 <= h2 < cands@.len() && 0 <= i < cands@[h2].path@.len() implies 0
                            <= cands@[h2].path@[i] < kk && !is_excluded(
                            ex_of(ex),
                            cands@[h2].path@[i] as int,
                        ) by {
                            if h2 < cands0.len() {
                                assert(cands@[h2] == cands0[h2]);
                            } else {
                                assert(cands@[h2].path@ == hyps@[h as int].path@.push(l));
                                if i < hyps@[h as int].path@.len() {
                                    assert(cands@[h2].path@[i] == hyps@[h as int].path@[i]);
                                }
                            }
                        }
                    }
                }
                l += 1;
            }
            h += 1;
        }
        // Keep the highest-scoring candidates, up to the beam width.
        let mut next: Vec<Hyp> = Vec::new();
        while next.len() < BEAM_WIDTH && cands.len() > 0
            invariant
                hyps_wf(cands@, kk as int, ex_of(ex), j + 1),
                hyps_wf(next@, kk as int, ex_of(ex), j + 1),
                next@.len() + cands@.len() >= 1,
            decreases cands@.len(),
        {
            let mut best_i: usize = 0;
            let mut bi: usize = 1;
            while bi < cands.len()
                invariant
                    cands@.len() > 0,
                    best_i < cands@.len(),
                    bi <= cands@.len(),
                decreases cands@.len() - bi,
            {
                if cands[bi].score > cands[best_i].score {
                    best_i = bi;
                }
                bi += 1;
            }
            let ghost cands0 = cands@;
            let picked = cands.remove(best_i);
            next.push(picked);
            proof {
                assert forall|h2: int, i: int|
                    #![trigger cands@[h2].path@[i]]
                    0 <= h2 < cands@.len() && 0 <= i < cands@[h2].path@.len() implies 0 <= cands@[
                    h2].path@[i] < kk && !is_excluded(ex_of(ex), cands@[h2].path@[i] as int) by {
                    if h2 < best_i {
                        assert(cands@[h2] == cands0[h2]);
                    } else {
                        assert(cands@[h2] == cands0[h2 + 1]);
                    }
                }
                assert forall|h2: int| 0 <= h2 < cands@.len() implies (#[trigger] cands@[h2]).path@.len()
                    == j + 1 by {
                    if h2 < best_i {
                        assert(cands@[h2] == cands0[h2]);
                    } else {
                        assert(cands@[h2] == cands0[h2 + 1]);
                    }
                }
            }
        }
        hyps = next;
        j += 1;
    }
    // The best final hypothesis wins.
    let mut best_i: usize = 0;
    let mut bi: usize = 1;
    while bi < hyps.len()
        invariant
            hyps@.len() > 0,
            best_i < hyps@.len(),
            bi <= hyps@.len(),
        decreases hyps@.len() - bi,
    {
        if hyps[bi].score > hyps[best_i].score {
            best_i = bi;
        }
        bi += 1;
    }
    let winner = &hyps[best_i];
    let runs = runs_of_labels(&winner.path);
    proof {
        let s = winner.path@.map_values(|u: usize| u as int);
        assert(path_ok(*probs, ex_of(ex), s)) by {
            assert forall|i: int| 0 <= i < s.len() implies 0 <= #[trigger] s[i] < probs.k
                && !is_excluded(ex_of(ex), s[i]) by {
                assert(s[i] == winner.path@[i] as int);
                assert(hyps@[best_i as int].path@[i] < kk);
            }
        }
        assert(beam_runs_ok(*probs, ex_of(ex), runs@));
    }
    runs
}

} // verus!
