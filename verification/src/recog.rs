//! Recognition orchestration for one text line: decode the per-position
//! probabilities, then distribute the decoded characters across the line's
//! word boxes by horizontal position.

use vstd::prelude::*;

use crate::alphabet::{Alphabet, ExcludedLabelSet};
use crate::decode::{
    best_labels, collapse, decode_beam, decode_greedy, ex_of, is_excluded,
    lemma_collapse_members, lemma_decoded_label_bounds, path_ok, runs_follow, DecodeMethod,
    DecodedRun, ProbSequence,
};
use crate::geom::RotatedRect;
use crate::sample::{max_bottom2, max_right2, min_left2, min_top2};
use crate::surface::MAX_DIM;
use crate::text::{line_chars, word_chars, TextChar, TextLine, TextWord};

verus! {

/// The label sequences a decoding method may produce for `p`: greedy
/// produces exactly the best permitted label per position; beam search
/// produces some permitted label sequence of its choosing.
pub open spec fn decoded_labels_ok(
    p: ProbSequence,
    ex: Seq<usize>,
    method: DecodeMethod,
    s: Seq<int>,
) -> bool {
    match method {
        DecodeMethod::Greedy => s == best_labels(p, ex),
        DecodeMethod::BeamSearch => path_ok(p, ex, s),
    }
}

/// Whether an optional exclusion set is well-formed. A missing set
/// excludes nothing.
pub open spec fn excluded_wf(ex: Option<&ExcludedLabelSet>) -> bool {
    match ex {
        Some(e) => e.wf(),
        None => true,
    }
}

/// The concatenated characters of a word sequence.
pub open spec fn words_chars_flat(words: Seq<TextWord>) -> Seq<char> {
    words.map_values(|w: TextWord| word_chars(w)).flatten()
}

/// The concatenated decoded characters of a word sequence, with their
/// estimated boxes.
pub open spec fn words_tchars_flat(words: Seq<TextWord>) -> Seq<TextChar> {
    words.map_values(|w: TextWord| w.chars@).flatten()
}

/// All decoded characters of a recognized line, in order, with their
/// estimated boxes.
pub open spec fn all_text_chars(l: TextLine) -> Seq<TextChar> {
    words_tchars_flat(l.words@)
}

/// The horizontal center, in doubled coordinates, of the span of the
/// line's footprint that a decoded run of `n` positions covers.
pub open spec fn run_center2(line: Seq<RotatedRect>, n: int, run: DecodedRun) -> int {
    let lft = min_left2(line);
    let spn = max_right2(line) - lft;
    let cs = lft + (run.start * spn) / n;
    let ce = lft + (run.end * spn) / n;
    cs + (ce - cs) / 2
}

/// The estimated box of a decoded run: its proportional share of the
/// line's horizontal footprint, at the line's full vertical extent.
pub open spec fn run_box(line: Seq<RotatedRect>, n: int, run: DecodedRun) -> RotatedRect {
    let lft = min_left2(line);
    let spn = max_right2(line) - lft;
    let cs = lft + (run.start * spn) / n;
    let ce = lft + (run.end * spn) / n;
    let top = min_top2(line);
    let hh = (max_bottom2(line) - top) / 2;
    RotatedRect {
        cx2: (cs + (ce - cs) / 2) as i64,
        cy2: (top + hh) as i64,
        width: ((ce - cs) / 2) as i64,
        height: hh as i64,
        angle_urad: 0,
    }
}

/// The decoded character of a run: the alphabet character its label
/// denotes, boxed at the run's share of the line.
pub open spec fn run_text_char(
    a: Alphabet,
    line: Seq<RotatedRect>,
    n: int,
    run: DecodedRun,
) -> TextChar {
    TextChar { ch: a.chars@[run.label - 1], rect: run_box(line, n, run) }
}

/// How many runs are assigned to word `w`.
pub open spec fn count_assigned(assign: Seq<int>, w: int) -> int
    decreases assign.len(),
{
    if assign.len() == 0 {
        0
    } else {
        count_assigned(assign.drop_last(), w) + if assign.last() == w {
            1int
        } else {
            0int
        }
    }
}

/// Whether `assign` distributes the decoded runs over the word boxes by
/// relative horizontal position: word indices are nondecreasing, each run
/// goes to a word whose right edge reaches the run's center (or to the
/// last word), and never past a word that fails to reach the run's center
/// while standing at or beyond the previous run's word.
pub open spec fn assignment_ok(
    line: Seq<RotatedRect>,
    n: int,
    runs: Seq<DecodedRun>,
    assign: Seq<int>,
) -> bool {
    &&& assign.len() == runs.len()
    &&& forall|m: int| 0 <= m < assign.len() ==> 0 <= #[trigger] assign[m] < line.len()
    &&& forall|m: int| 1 <= m < assign.len() ==> assign[m - 1] <= #[trigger] assign[m]
    &&& forall|m: int|
        0 <= m < assign.len() ==> line[#[trigger] assign[m]].right2() >= run_center2(
            line,
            n,
            runs[m],
        ) || assign[m] == line.len() - 1
    &&& forall|m: int, k: int|
        #![trigger assign[m], line[k]]
        0 <= m < assign.len() && (if m == 0 {
            0
        } else {
            assign[m - 1]
        }) <= k < assign[m] ==> line[k].right2() < run_center2(line, n, runs[m])
}

/// Proof that a well-formed exclusion set never excludes the blank label.
pub proof fn lemma_excluded_blank_free(ex: Option<&ExcludedLabelSet>)
    requires
        excluded_wf(ex),
    ensures
        !is_excluded(ex_of(ex), 0),
{
    if is_excluded(ex_of(ex), 0) {
        let j = choose|j: int| 0 <= j < ex_of(ex).len() && ex_of(ex)[j] == 0;
        match ex {
            Some(e) => {
                assert(e.labels@[j] >= 1);
            },
            None => {},
        }
    }
}

/// Proof that appending one value raises its assignment count by one and
/// changes no other count.
proof fn lemma_count_push(assign: Seq<int>, v: int)
    ensures
        forall|w: int|
            #[trigger] count_assigned(assign.push(v), w) == count_assigned(assign, w) + (if v
                == w {
                1int
            } else {
                0int
            }),
{
    assert forall|w: int| #[trigger] count_assigned(assign.push(v), w) == count_assigned(
        assign,
        w,
    ) + (if v == w {
        1int
    } else {
        0int
    }) by {
        assert(assign.push(v).drop_last() =~= assign);
        assert(assign.push(v).last() == v);
    }
}

/// Proof that a word no entry is assigned to counts zero runs.
proof fn lemma_count_absent(assign: Seq<int>, w: int)
    requires
        forall|m: int| 0 <= m < assign.len() ==> #[trigger] assign[m] != w,
    ensures
        count_assigned(assign, w) == 0,
    decreases assign.len(),
{
    if assign.len() > 0 {
        assert(forall|m: int|
            0 <= m < assign.drop_last().len() ==> #[trigger] assign.drop_last()[m] != w);
        lemma_count_absent(assign.drop_last(), w);
        assert(assign.last() != w);
    }
}

/// What recognition of one line returns: some label sequence the decoding
/// method may produce, such that the result is `None` exactly when that
/// sequence collapses to nothing; otherwise one word per input box, in
/// order, carrying the box's rectangle; the line's characters are exactly
/// the collapsed labels' characters, every decoded character carries the
/// box of the run that produced it, and the characters are split over the
/// words by relative horizontal position (`assignment_ok`), empty words
/// included. Under greedy decoding the label sequence is uniquely the best
/// permitted label per position, so the whole result is pinned.
pub open spec fn recognition_result_ok(
    line: Seq<RotatedRect>,
    p: ProbSequence,
    ex: Seq<usize>,
    a: Alphabet,
    method: DecodeMethod,
    r: Option<TextLine>,
) -> bool {
    &&& (r is Some ==> r->Some_0.words@.len() == line.len())
    &&& (r is Some ==> forall|wi: int|
        0 <= wi < line.len() ==> (#[trigger] r->Some_0.words@[wi]).rect == line[wi])
    &&& exists|s: Seq<int>|
        #![trigger decoded_labels_ok(p, ex, method, s)]
        {
            &&& decoded_labels_ok(p, ex, method, s)
            &&& (r is None <==> collapse(s).len() == 0)
            &&& (r is Some ==> line_chars(r->Some_0) == collapse(s).map_values(
                |l: int| a.chars@[l - 1],
            ))
            &&& (r is Some ==> exists|runs: Seq<DecodedRun>, assign: Seq<int>|
                #![trigger assignment_ok(line, p.rows@.len() as int, runs, assign)]
                {
                    let n = p.rows@.len() as int;
                    &&& runs_follow(s, runs)
                    &&& all_text_chars(r->Some_0) == runs.map_values(
                        |run: DecodedRun| run_text_char(a, line, n, run),
                    )
                    &&& assignment_ok(line, n, runs, assign)
                    &&& forall|wi: int|
                        0 <= wi < r->Some_0.words@.len()
                            ==> (#[trigger] r->Some_0.words@[wi]).chars@.len() == count_assigned(
                            assign,
                            wi,
                        )
                })
        }
}

/// Recognize one text line from its word boxes and its per-position class
/// probabilities.
///
/// Greedy decoding yields the line's characters; each decoded character is
/// then assigned, left to right, to the first word box (from the previous
/// character's word on) whose right edge reaches the character's
/// horizontal center, with characters past the last box going to the last
/// word. A line that decodes to nothing yields `None`; a recognized line
/// has one word per input box, in order and with the box's rectangle, its
/// characters are exactly the decoded text, each boxed at its run's share
/// of the line, and split over the words by that assignment.
#[verifier::rlimit(100)]
#[verifier::spinoff_prover]
pub fn recognize_line(
    line: &Vec<RotatedRect>,
    probs: &ProbSequence,
    alphabet: &Alphabet,
    excluded: Option<&ExcludedLabelSet>,
    method: DecodeMethod,
) -> (r: Option<TextLine>)
    requires
        line@.len() > 0,
        forall|k: int| 0 <= k < line@.len() ==> (#[trigger] line@[k]).wf(),
        probs.wf(),
        probs.rows@.len() <= MAX_DIM,
        probs.k == alphabet.chars@.len() + 1,
        excluded_wf(excluded),
    ensures
        recognition_result_ok(line@, *probs, ex_of(excluded), *alphabet, method, r),
{
    proof {
        lemma_excluded_blank_free(excluded);
    }
    let runs = match method {
        DecodeMethod::Greedy => decode_greedy(probs, excluded),
        DecodeMethod::BeamSearch => decode_beam(probs, excluded),
    };
    let ghost s: Seq<int> = match method {
        DecodeMethod::Greedy => best_labels(*probs, ex_of(excluded)),
        DecodeMethod::BeamSearch => choose|s: Seq<int>|
            #[trigger] path_ok(*probs, ex_of(excluded), s) && runs_follow(s, runs@),
    };
    let ghost labels = collapse(s);
    let ghost decoded = collapse(s).map_values(|l: int| alphabet.chars@[l - 1]);
    proof {
        assert(decoded_labels_ok(*probs, ex_of(excluded), method, s));
        assert(runs_follow(s, runs@));
        assert(s.len() == probs.rows@.len());
        // Every collapsed label denotes an alphabet character.
        match method {
            DecodeMethod::Greedy => {
                lemma_decoded_label_bounds(*probs, ex_of(excluded));
            },
            DecodeMethod::BeamSearch => {
                lemma_collapse_members(s);
                assert forall|m: int| 0 <= m < labels.len() implies 1 <= #[trigger] labels[m]
                    < probs.k by {
                    let i = choose|i: int| 0 <= i < s.len() && s[i] == collapse(s)[m];
                    assert(0 <= s[i] < probs.k);
                }
            },
        }
        assert(decoded.len() == labels.len());
    }
    if runs.len() == 0 {
        proof {
            assert(decoded_labels_ok(*probs, ex_of(excluded), method, s) && collapse(s).len()
                == 0);
        }
        return None;
    }
    let n = probs.len();
    proof {
        // A nonempty decode needs at least one position.
        assert(runs@[0].start < runs@[0].end <= s.len());
    }
    // The line's overall footprint, in doubled coordinates.
    let mut left2: i64 = line[0].cx2 - line[0].width;
    let mut right2: i64 = line[0].cx2 + line[0].width;
    let mut top2: i64 = line[0].cy2 - line[0].height;
    let mut bottom2: i64 = line[0].cy2 + line[0].height;
    let mut k: usize = 1;
    while k < line.len()
        invariant
            1 <= k <= line@.len(),
            forall|j: int| 0 <= j < line@.len() ==> (#[trigger] line@[j]).wf(),
            left2 == min_left2(line@.take(k as int)),
            right2 == max_right2(line@.take(k as int)),
            top2 == min_top2(line@.take(k as int)),
            bottom2 == max_bottom2(line@.take(k as int)),
            -0x8000_0000 <= left2 <= right2 <= 0x8000_0000,
            -0x8000_0000 <= top2 <= bottom2 <= 0x8000_0000,
        decreases line@.len() - k,
    {
        let rr = &line[k];
        if rr.cx2 - rr.width < left2 {
            left2 = rr.cx2 - rr.width;
        }
        if rr.cx2 + rr.width > right2 {
            right2 = rr.cx2 + rr.width;
        }
        if rr.cy2 - rr.height < top2 {
            top2 = rr.cy2 - rr.height;
        }
        if rr.cy2 + rr.height > bottom2 {
            bottom2 = rr.cy2 + rr.height;
        }
        proof {
            assert(line@.take(k + 1).drop_last() =~= line@.take(k as int));
            assert(line@.take(k + 1).last() == line@[k as int]);
        }
        k += 1;
    }
    proof {
        assert(line@.take(line@.len() as int) =~= line@);
    }
    let span: i64 = right2 - left2;
    let half_height: i64 = (bottom2 - top2) / 2;
    let char_cy2: i64 = top2 + half_height;
    // Distribute the decoded characters across the word boxes.
    let ghost mapped = runs@.map_values(
        |run: DecodedRun| run_text_char(*alphabet, line@, n as int, run),
    );
    let mut words: Vec<TextWord> = Vec::new();
    let mut cur: Vec<TextChar> = Vec::new();
    let ghost mut assign: Seq<int> = Seq::empty();
    let mut wi: usize = 0;
    let mut m: usize = 0;
    proof {
        assert(decoded.take(0) =~= Seq::<char>::empty());
        assert(mapped.take(0) =~= Seq::<TextChar>::empty());
        assert(words_chars_flat(words@) =~= Seq::<Seq<char>>::empty().flatten());
        assert(words_tchars_flat(words@) =~= Seq::<Seq<TextChar>>::empty().flatten());
        assert(words_chars_flat(words@) + cur@.map_values(|c: TextChar| c.ch) =~= decoded.take(0));
        assert(words_tchars_flat(words@) + cur@ =~= mapped.take(0));
        lemma_count_absent(assign, wi as int);
    }
    while m < runs.len()
        invariant
            m <= runs@.len(),
            runs@.len() == labels.len(),
            labels == collapse(s),
            decoded == collapse(s).map_values(|l: int| alphabet.chars@[l - 1]),
            decoded.len() == labels.len(),
            probs.k == alphabet.chars@.len() + 1,
            runs_follow(s, runs@),
            mapped == runs@.map_values(
                |run: DecodedRun| run_text_char(*alphabet, line@, n as int, run),
            ),
            forall|m2: int|
                0 <= m2 < runs@.len() ==> (#[trigger] runs@[m2]).label as int == labels[m2],
            forall|m2: int|
                0 <= m2 < runs@.len() ==> (#[trigger] runs@[m2]).start < runs@[m2].end <= n,
            forall|m2: int| 0 <= m2 < labels.len() ==> 1 <= #[trigger] labels[m2] < probs.k,
            1 <= n == probs.rows@.len() <= MAX_DIM,
            forall|j: int| 0 <= j < line@.len() ==> (#[trigger] line@[j]).wf(),
            wi < line@.len() <= usize::MAX,
            words@.len() == wi,
            forall|j: int| 0 <= j < wi ==> (#[trigger] words@[j]).rect == line@[j],
            0 <= span,
            -0x8000_0000 <= left2 <= right2 <= 0x8000_0000,
            span == right2 - left2,
            left2 == min_left2(line@),
            right2 == max_right2(line@),
            top2 == min_top2(line@),
            bottom2 == max_bottom2(line@),
            -0x8000_0000 <= top2 <= bottom2 <= 0x8000_0000,
            0 <= half_height,
            half_height == (max_bottom2(line@) - min_top2(line@)) / 2,
            char_cy2 == top2 + half_height,
            words_chars_flat(words@) + cur@.map_values(|c: TextChar| c.ch) == decoded.take(
                m as int,
            ),
            words_tchars_flat(words@) + cur@ == mapped.take(m as int),
            // The assignment built so far.
            assign.len() == m,
            forall|m2: int| 0 <= m2 < assign.len() ==> 0 <= #[trigger] assign[m2] <= wi,
            forall|m2: int| 1 <= m2 < assign.len() ==> assign[m2 - 1] <= #[trigger] assign[m2],
            forall|m2: int|
                0 <= m2 < assign.len() ==> line@[#[trigger] assign[m2]].right2() >= run_center2(
                    line@,
                    n as int,
                    runs@[m2],
                ) || assign[m2] == line@.len() - 1,
            forall|m2: int, k2: int|
                #![trigger assign[m2], line@[k2]]
                0 <= m2 < assign.len() && (if m2 == 0 {
                    0
                } else {
                    assign[m2 - 1]
                }) <= k2 < assign[m2] ==> line@[k2].right2() < run_center2(
                    line@,
                    n as int,
                    runs@[m2],
                ),
            if m == 0 {
                wi == 0
            } else {
                assign[m - 1] == wi
            },
            forall|w: int|
                0 <= w < wi ==> (#[trigger] words@[w]).chars@.len() == count_assigned(assign, w),
            count_assigned(assign, wi as int) == cur@.len(),
        decreases runs@.len() - m,
    {
        let run = runs[m];
        // Character footprint: the run's share of the line span.
        proof {
            assert(run.start as int * span as int <= 0x8000 * 0x1_0000_0000) by (nonlinear_arith)
                requires run.start <= 0x8000 && 0 <= span <= 0x1_0000_0000;
            assert(run.end as int * span as int <= 0x8000 * 0x1_0000_0000) by (nonlinear_arith)
                requires run.end <= 0x8000 && 0 <= span <= 0x1_0000_0000;
            assert(0 <= run.start as int * span as int) by (nonlinear_arith)
                requires 0 <= span;
            assert(0 <= run.end as int * span as int) by (nonlinear_arith)
                requires 0 <= span;
            assert(run.start as int * span as int <= run.end as int * span as int)
                by (nonlinear_arith)
                requires run.start <= run.end && 0 <= span;
            assert(run.end as int * span as int <= n as int * span as int) by (nonlinear_arith)
                requires run.end <= n && 0 <= span;
            vstd::arithmetic::div_mod::lemma_div_is_ordered(
                run.start as int * span as int,
                run.end as int * span as int,
                n as int,
            );
            vstd::arithmetic::div_mod::lemma_div_is_ordered(
                run.end as int * span as int,
                n as int * span as int,
                n as int,
            );
            assert(n as int * span as int / n as int == span) by (nonlinear_arith)
                requires n >= 1;
        }
        let cs: i64 = left2 + ((run.start as i64 * span) / n as i64);
        let ce: i64 = left2 + ((run.end as i64 * span) / n as i64);
        let half_w: i64 = (ce - cs) / 2;
        let char_rect = RotatedRect {
            cx2: cs + half_w,
            cy2: char_cy2,
            width: half_w,
            height: half_height,
            angle_urad: 0,
        };
        let char_cx2: i64 = cs + half_w;
        proof {
            assert(char_rect == run_box(line@, n as int, runs@[m as int]));
            assert(char_cx2 as int == run_center2(line@, n as int, runs@[m as int]));
        }
        // Move to the word whose box reaches this character.
        let ghost floor = wi as int;
        while wi + 1 < line.len() && line[wi].cx2 + line[wi].width < char_cx2
            invariant
                wi < line@.len() <= usize::MAX,
                floor <= wi,
                words@.len() == wi,
                forall|j: int| 0 <= j < line@.len() ==> (#[trigger] line@[j]).wf(),
                forall|j: int| 0 <= j < wi ==> (#[trigger] words@[j]).rect == line@[j],
                words_chars_flat(words@) + cur@.map_values(|c: TextChar| c.ch) == decoded.take(
                    m as int,
                ),
                words_tchars_flat(words@) + cur@ == mapped.take(m as int),
                char_cx2 as int == run_center2(line@, n as int, runs@[m as int]),
                forall|m2: int| 0 <= m2 < assign.len() ==> 0 <= #[trigger] assign[m2] <= wi,
                forall|k2: int|
                    floor <= k2 < wi ==> (#[trigger] line@[k2]).right2() < char_cx2 as int,
                forall|w: int|
                    0 <= w < wi ==> (#[trigger] words@[w]).chars@.len() == count_assigned(
                        assign,
                        w,
                    ),
                count_assigned(assign, wi as int) == cur@.len(),
            decreases line@.len() - wi,
        {
            let ghost words0 = words@;
            let ghost curm = cur@.map_values(|c: TextChar| c.ch);
            let ghost curt = cur@;
            let done = TextWord { chars: cur, rect: line[wi] };
            words.push(done);
            cur = Vec::new();
            proof {
                assert(words@ == words0.push(done));
                assert(word_chars(done) == curm);
                assert(done.chars@ == curt);
                assert(words@.map_values(|w: TextWord| word_chars(w)) =~= words0.map_values(
                    |w: TextWord| word_chars(w),
                ).push(curm));
                words0.map_values(|w: TextWord| word_chars(w)).lemma_flatten_push(curm);
                assert(words@.map_values(|w: TextWord| w.chars@) =~= words0.map_values(
                    |w: TextWord| w.chars@,
                ).push(curt));
                words0.map_values(|w: TextWord| w.chars@).lemma_flatten_push(curt);
                assert(cur@.map_values(|c: TextChar| c.ch) =~= Seq::<char>::empty());
                assert(words_chars_flat(words@) + cur@.map_values(|c: TextChar| c.ch)
                    =~= decoded.take(m as int));
                assert(cur@ =~= Seq::<TextChar>::empty());
                assert(words_tchars_flat(words@) + cur@ =~= mapped.take(m as int));
                // The next word has no runs assigned yet.
                assert forall|m2: int| 0 <= m2 < assign.len() implies #[trigger] assign[m2] != wi
                    + 1 by {
                    assert(assign[m2] <= wi);
                }
                lemma_count_absent(assign, wi + 1);
            }
            wi += 1;
        }
        let ch_opt = alphabet.char_for_label(run.label);
        proof {
            assert(runs@[m as int].label as int == labels[m as int]);
            assert(1 <= labels[m as int] < probs.k);
        }
        let ch = match ch_opt {
            Some(c) => c,
            None => vstd::pervasive::unreached(),
        };
        let ghost cur0 = cur@;
        let ghost curm0 = cur@.map_values(|c: TextChar| c.ch);
        let newc = TextChar { ch, rect: char_rect };
        cur.push(newc);
        proof {
            let assign0 = assign;
            assign = assign.push(wi as int);
            lemma_count_push(assign0, wi as int);
            assert(cur@ == cur0.push(newc));
            lemma_map_chars_push(cur0, newc);
            assert(cur@.map_values(|c: TextChar| c.ch) =~= curm0.push(ch));
            assert(decoded[m as int] == alphabet.chars@[labels[m as int] - 1]);
            assert(ch == decoded[m as int]);
            assert(newc == run_text_char(*alphabet, line@, n as int, runs@[m as int]));
            assert(mapped[m as int] == newc);
            assert(decoded.take(m + 1) =~= decoded.take(m as int).push(decoded[m as int]));
            assert(mapped.take(m + 1) =~= mapped.take(m as int).push(mapped[m as int]));
            assert(words_chars_flat(words@) + cur@.map_values(|c: TextChar| c.ch) =~= decoded.take(
                m + 1,
            ));
            assert(words_tchars_flat(words@) + cur@ =~= mapped.take(m + 1));
            // The assignment conditions for this run.
            assert(assign[m as int] == wi as int);
            assert(!(wi + 1 < line@.len() && line@[wi as int].right2() < char_cx2 as int));
            assert forall|m2: int, k2: int|
                #![trigger assign[m2], line@[k2]]
                0 <= m2 < assign.len() && (if m2 == 0 {
                    0
                } else {
                    assign[m2 - 1]
                }) <= k2 < assign[m2] implies line@[k2].right2() < run_center2(
                line@,
                n as int,
                runs@[m2],
            ) by {
                if m2 < assign0.len() {
                    assert(assign[m2] == assign0[m2]);
                    if m2 > 0 {
                        assert(assign[m2 - 1] == assign0[m2 - 1]);
                    }
                } else {
                    assert(m2 == m);
                    assert((if m2 == 0 {
                        0int
                    } else {
                        assign0[m2 - 1]
                    }) == floor);
                    assert(line@[k2].right2() < char_cx2 as int);
                }
            }
        }
        m += 1;
    }
    proof {
        assert(decoded.take(decoded.len() as int) =~= decoded);
        assert(mapped.take(mapped.len() as int) =~= mapped);
    }
    // Close the word under construction.
    let ghost words1 = words@;
    let ghost curm1 = cur@.map_values(|c: TextChar| c.ch);
    let ghost curt1 = cur@;
    let ghost wi_last = wi as int;
    let done = TextWord { chars: cur, rect: line[wi] };
    words.push(done);
    proof {
        assert(words@ == words1.push(done));
        assert(word_chars(done) == curm1);
        assert(done.chars@ == curt1);
        assert(words@.map_values(|w: TextWord| word_chars(w)) =~= words1.map_values(
            |w: TextWord| word_chars(w),
        ).push(curm1));
        words1.map_values(|w: TextWord| word_chars(w)).lemma_flatten_push(curm1);
        assert(words@.map_values(|w: TextWord| w.chars@) =~= words1.map_values(
            |w: TextWord| w.chars@,
        ).push(curt1));
        words1.map_values(|w: TextWord| w.chars@).lemma_flatten_push(curt1);
        assert(words_chars_flat(words@) =~= decoded);
        assert(words_tchars_flat(words@) =~= mapped);
    }
    wi += 1;
    // Give every remaining box an empty word.
    while wi < line.len()
        invariant
            wi <= line@.len(),
            wi_last < wi,
            words@.len() == wi,
            forall|j: int| 0 <= j < line@.len() ==> (#[trigger] line@[j]).wf(),
            forall|j: int| 0 <= j < wi ==> (#[trigger] words@[j]).rect == line@[j],
            words_chars_flat(words@) == decoded,
            words_tchars_flat(words@) == mapped,
            forall|m2: int| 0 <= m2 < assign.len() ==> 0 <= #[trigger] assign[m2] <= wi_last,
            forall|w: int|
                0 <= w < wi ==> (#[trigger] words@[w]).chars@.len() == count_assigned(assign, w),
        decreases line@.len() - wi,
    {
        let ghost words0 = words@;
        let empty_word = TextWord { chars: Vec::new(), rect: line[wi] };
        words.push(empty_word);
        proof {
            assert(words@ == words0.push(empty_word));
            assert(word_chars(empty_word) =~= Seq::<char>::empty());
            assert(empty_word.chars@ =~= Seq::<TextChar>::empty());
            assert(words@.map_values(|w: TextWord| word_chars(w)) =~= words0.map_values(
                |w: TextWord| word_chars(w),
            ).push(Seq::<char>::empty()));
            words0.map_values(|w: TextWord| word_chars(w)).lemma_flatten_push(
                Seq::<char>::empty(),
            );
            assert(words@.map_values(|w: TextWord| w.chars@) =~= words0.map_values(
                |w: TextWord| w.chars@,
            ).push(Seq::<TextChar>::empty()));
            words0.map_values(|w: TextWord| w.chars@).lemma_flatten_push(
                Seq::<TextChar>::empty(),
            );
            assert(words_chars_flat(words@) =~= decoded);
            assert(words_tchars_flat(words@) =~= mapped);
            assert forall|m2: int| 0 <= m2 < assign.len() implies #[trigger] assign[m2] != wi
                as int by {
                assert(assign[m2] <= wi_last);
            }
            lemma_count_absent(assign, wi as int);
        }
        wi += 1;
    }
    let result = TextLine { words };
    proof {
        assert(line_chars(result) == words_chars_flat(result.words@));
        assert(line_chars(result) == decoded);
        assert(all_text_chars(result) == mapped);
        assert(assignment_ok(line@, n as int, runs@, assign));
        assert(decoded_labels_ok(*probs, ex_of(excluded), method, s));
        assert(recognition_result_ok(
            line@,
            *probs,
            ex_of(excluded),
            *alphabet,
            method,
            Some(result),
        ));
    }
    Some(result)
}

/// Proof that appending a character to a word appends its character to the
/// word's character sequence.
proof fn lemma_map_chars_push(s: Seq<TextChar>, c: TextChar)
    ensures
        s.push(c).map_values(|t: TextChar| t.ch) =~= s.map_values(|t: TextChar| t.ch).push(c.ch),
{
    assert forall|j: int|
        #![trigger s.push(c)[j]]
        0 <= j < s.push(c).len() implies s.push(c).map_values(
        |t: TextChar| t.ch,
    )[j] == s.map_values(|t: TextChar| t.ch).push(c.ch)[j] by {
        if j < s.len() {
            assert(s.push(c)[j] == s[j]);
        } else {
            assert(s.push(c)[j] == c);
        }
    }
}

} // verus!
