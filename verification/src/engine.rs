//! The engine: configuration and the staged pipeline.
//!
//! The engine holds the configuration of the two capabilities — detection
//! (a probability threshold) and recognition (an alphabet, an optional
//! character restriction and a decode method) — and runs the staged
//! pipeline over plain values: a probability surface in, word regions,
//! lines and recognized text out. Running the neural models that produce
//! the probability surface and the per-line class probabilities is the
//! caller's job; an operation whose capability is not configured fails
//! with a configuration error.

use vstd::prelude::*;

use crate::alphabet::{chars_contain, Alphabet, ExcludedLabelSet};
use crate::decode::{DecodeMethod, ProbSequence};
use crate::detect::{detection_result_ok, extract_regions, pixel_on};
use crate::errors::OcrError;
use crate::geom::RotatedRect;
use crate::layout;
use crate::layout::layout_result_ok;
use crate::recog::{recognition_result_ok, recognize_line};
use crate::sample::{prepare_image, sample_line, sample_line_post, GrayImage, ImageBuffer};
use crate::surface::{ProbabilitySurface, MAX_DIM, PROB_SCALE};
use crate::text::{line_chars, TextLine};

verus! {

/// The alphabet the bundled recognition models were trained with.
pub const DEFAULT_ALPHABET: &'static str =
    " 0123456789!\"#$%&'()*+,-./:;<=>?@[\\]^_`{|}~EABCDEFGHIJKLMNOPQRSTUVWXYZabcdefghijklmnopqrstuvwxyz";

/// The default probability threshold above which a pixel counts as text.
pub const DEFAULT_TEXT_THRESHOLD: u32 = 500_000;

/// Configuration of the detection capability.
#[derive(Clone, Copy, Debug, PartialEq, Eq, Structural)]
pub struct DetectorParams {
    /// Pixels at or above this fixed-point probability count as text.
    pub text_threshold: u32,
}

impl Default for DetectorParams {
    fn default() -> (r: DetectorParams)
        ensures
            r.text_threshold == DEFAULT_TEXT_THRESHOLD,
    {
        DetectorParams { text_threshold: DEFAULT_TEXT_THRESHOLD }
    }
}

/// Configuration of the recognition capability.
#[derive(Clone, Copy, Debug, PartialEq, Eq, Structural)]
pub struct RecognizerParams {
    /// Enables diagnostic output in the embedding application; never
    /// affects recognition results.
    pub debug: bool,
}

/// Configuration for building an engine.
pub struct OcrEngineParams {
    /// Detection configuration; detection operations fail without it.
    pub detector: Option<DetectorParams>,
    /// Recognition configuration; recognition operations fail without it.
    pub recognizer: Option<RecognizerParams>,
    /// Enables diagnostic output; never affects results.
    pub debug: bool,
    /// Decision rule of the sequence decoder.
    pub decode_method: DecodeMethod,
    /// The recognition alphabet; the built-in default when absent.
    pub alphabet: Option<Vec<char>>,
    /// When present, restricts decoding to these characters.
    pub allowed_chars: Option<Vec<char>>,
}

impl Default for OcrEngineParams {
    fn default() -> (r: OcrEngineParams)
        ensures
            r.detector is None,
            r.recognizer is None,
            !r.debug,
            r.decode_method == DecodeMethod::Greedy,
            r.alphabet is None,
            r.allowed_chars is None,
    {
        OcrEngineParams {
            detector: None,
            recognizer: None,
            debug: false,
            decode_method: DecodeMethod::Greedy,
            alphabet: None,
            allowed_chars: None,
        }
    }
}

/// The built-in alphabet as a character vector.
pub fn default_alphabet() -> (a: Alphabet)
    ensures
        a.chars@ == DEFAULT_ALPHABET@,
        a.chars@.len() < usize::MAX,
{
    proof {
        reveal_strlit(
            " 0123456789!\"#$%&'()*+,-./:;<=>?@[\\]^_`{|}~EABCDEFGHIJKLMNOPQRSTUVWXYZabcdefghijklmnopqrstuvwxyz",
        );
        assert(DEFAULT_ALPHABET@
            == " 0123456789!\"#$%&'()*+,-./:;<=>?@[\\]^_`{|}~EABCDEFGHIJKLMNOPQRSTUVWXYZabcdefghijklmnopqrstuvwxyz"@);
    }
    let s = DEFAULT_ALPHABET;
    let n = s.unicode_len();
    let mut chars: Vec<char> = Vec::new();
    let mut i: usize = 0;
    while i < n
        invariant
            n == s@.len(),
            i <= n,
            chars@ =~= s@.take(i as int),
        decreases n - i,
    {
        chars.push(s.get_char(i));
        proof {
            assert(chars@ =~= s@.take(i + 1));
        }
        i += 1;
    }
    proof {
        assert(s@.take(n as int) =~= s@);
    }
    Alphabet::new(chars)
}

/// Detects and recognizes text.
///
/// The engine holds the configuration of both pipeline stages and the
/// decoding label space. It is stateless across calls.
pub struct OcrEngine {
    pub detector: Option<DetectorParams>,
    pub recognizer: Option<RecognizerParams>,
    pub debug: bool,
    pub decode_method: DecodeMethod,
    pub alphabet: Alphabet,
    /// Labels excluded from recognition output, from the allowed-character
    /// restriction.
    pub excluded_char_labels: Option<ExcludedLabelSet>,
}

/// An input image prepared for analysis: normalized, centered grayscale.
pub struct OcrInput {
    /// The grayscale image, values in `[-GRAY_HALF, GRAY_HALF]`.
    pub image: GrayImage,
}

/// The excluded labels of an engine; none when unrestricted.
pub open spec fn engine_excluded(e: OcrEngine) -> Seq<usize> {
    match e.excluded_char_labels {
        Some(ex) => ex.labels@,
        None => Seq::empty(),
    }
}

impl OcrEngine {
    /// The exclusion set never holds the blank label, and a configured
    /// detection threshold is a probability.
    pub open spec fn wf(self) -> bool {
        &&& (match self.excluded_char_labels {
            Some(ex) => ex.wf(),
            None => true,
        })
        &&& (match self.detector {
            Some(d) => d.text_threshold <= PROB_SCALE,
            None => true,
        })
    }

    /// Build an engine from its configuration.
    ///
    /// The alphabet falls back to the built-in default; an
    /// allowed-character restriction excludes exactly the labels of the
    /// alphabet characters it lacks.
    pub fn new(params: OcrEngineParams) -> (r: Result<OcrEngine, OcrError>)
        requires
            params.alphabet is Some ==> params.alphabet->0@.len() < usize::MAX,
            params.detector is Some ==> params.detector->0.text_threshold <= PROB_SCALE,
        ensures
            r is Ok,
            ({
                let e = r->Ok_0;
                &&& e.wf()
                &&& e.detector == params.detector
                &&& e.recognizer == params.recognizer
                &&& e.debug == params.debug
                &&& e.decode_method == params.decode_method
                &&& (match params.alphabet {
                    Some(v) => e.alphabet.chars@ == v@,
                    None => e.alphabet.chars@ == DEFAULT_ALPHABET@,
                })
                &&& (e.excluded_char_labels is Some <==> params.allowed_chars is Some)
                &&& (match params.allowed_chars {
                    Some(allowed) => {
                        let labels = e.excluded_char_labels->0.labels@;
                        &&& forall|i: int|
                            0 <= i < e.alphabet.chars@.len()
                                ==> (e.excluded_char_labels->0.spec_contains(i + 1)
                                <==> !chars_contain(allowed@, #[trigger] e.alphabet.chars@[i]))
                        &&& forall|j: int|
                            0 <= j < labels.len() ==> 1 <= (#[trigger] labels[j])
                                <= e.alphabet.chars@.len()
                        &&& forall|j1: int, j2: int|
                            #![trigger labels[j1], labels[j2]]
                            0 <= j1 < j2 < labels.len() ==> labels[j1] < labels[j2]
                    },
                    None => true,
                })
            }),
    {
        let alphabet = match params.alphabet {
            Some(v) => Alphabet::new(v),
            None => default_alphabet(),
        };
        let excluded_char_labels = match &params.allowed_chars {
            Some(allowed) => Some(alphabet.excluded_labels(allowed)),
            None => None,
        };
        Ok(
            OcrEngine {
                detector: params.detector,
                recognizer: params.recognizer,
                debug: params.debug,
                decode_method: params.decode_method,
                alphabet,
                excluded_char_labels,
            },
        )
    }

    /// Prepare an image for use with the other engine methods: convert it
    /// to centered grayscale.
    pub fn prepare_input(&self, image: &ImageBuffer) -> (r: Result<OcrInput, OcrError>)
        requires
            image.wf(),
        ensures
            r is Ok,
            r->Ok_0.image.wf(),
            r->Ok_0.image.width == image.width,
            r->Ok_0.image.height == image.height,
            forall|y: int, x: int|
                #![trigger r->Ok_0.image.at(y, x)]
                0 <= y < image.height && 0 <= x < image.width ==> r->Ok_0.image.at(y, x)
                    == crate::sample::luma_of(*image, y, x) - crate::sample::GRAY_HALF,
    {
        Ok(OcrInput { image: prepare_image(image) })
    }

    /// Prepare the rectified strip the recognition model receives for one
    /// text line; fails exactly when no recognizer is configured.
    pub fn prepare_recognition_input(&self, input: &OcrInput, line: &Vec<RotatedRect>) -> (r:
        Result<GrayImage, OcrError>)
        requires
            input.image.wf(),
            line@.len() > 0,
            forall|k: int| 0 <= k < line@.len() ==> (#[trigger] line@[k]).wf(),
        ensures
            r is Err <==> self.recognizer is None,
            r is Err ==> r->Err_0 == OcrError::ConfigurationError,
            r is Ok ==> r->Ok_0.wf() && sample_line_post(input.image, line@, r->Ok_0),
    {
        if self.recognizer.is_none() {
            return Err(OcrError::ConfigurationError);
        }
        Ok(sample_line(&input.image, line))
    }

    /// The confidence threshold above which a pixel counts as text: the
    /// detector's, or the default when no detector is configured.
    pub fn detection_threshold(&self) -> (t: u32)
        ensures
            t == (match self.detector {
                Some(d) => d.text_threshold,
                None => DEFAULT_TEXT_THRESHOLD,
            }),
    {
        match &self.detector {
            Some(d) => d.text_threshold,
            None => DEFAULT_TEXT_THRESHOLD,
        }
    }

    /// Detect candidate word regions on a text probability surface.
    ///
    /// Fails with a configuration error exactly when no detector is
    /// configured. Otherwise the regions of `extract_regions` at the
    /// detector's threshold: exactly one expanded fitted box per
    /// large-enough maximal component of the thresholded surface, and none
    /// at all when the whole surface is below it (`detection_result_ok`).
    pub fn detect_words(&self, surface: &ProbabilitySurface) -> (r: Result<
        Vec<RotatedRect>,
        OcrError,
    >)
        requires
            surface.wf(),
        ensures
            r is Err <==> self.detector is None,
            r is Err ==> r->Err_0 == OcrError::ConfigurationError,
            r is Ok ==> detection_result_ok(
                *surface,
                self.detector->0.text_threshold,
                r->Ok_0@,
            ),
    {
        match &self.detector {
            Some(d) => Ok(extract_regions(surface, d.text_threshold)),
            None => Err(OcrError::ConfigurationError),
        }
    }

    /// Group detected word regions into reading-order lines; the result
    /// satisfies the full layout contract (`layout_result_ok`).
    pub fn find_text_lines(&self, words: &Vec<RotatedRect>) -> (lines: Vec<Vec<RotatedRect>>)
        requires
            forall|k: int| 0 <= k < words@.len() ==> (#[trigger] words@[k]).wf(),
        ensures
            layout_result_ok(words@, lines@),
    {
        layout::find_text_lines(words)
    }

    /// Recognize text lines from their boxes and their per-position class
    /// probabilities, one probability sequence per line.
    ///
    /// Fails with a configuration error exactly when no recognizer is
    /// configured, and with a shape mismatch when the probability sequences
    /// do not pair up with the lines. Each recognized entry satisfies the
    /// per-line recognition contract against the engine's alphabet and
    /// exclusion set.
    pub fn recognize_text(
        &self,
        lines: &Vec<Vec<RotatedRect>>,
        line_probs: &Vec<ProbSequence>,
    ) -> (r: Result<Vec<Option<TextLine>>, OcrError>)
        requires
            self.wf(),
            forall|l: int, k: int|
                #![trigger lines@[l]@[k]]
                0 <= l < lines@.len() && 0 <= k < lines@[l]@.len() ==> lines@[l]@[k].wf(),
            forall|l: int| 0 <= l < lines@.len() ==> (#[trigger] lines@[l])@.len() > 0,
            forall|l: int|
                0 <= l < line_probs@.len() ==> (#[trigger] line_probs@[l]).wf()
                    && line_probs@[l].rows@.len() <= MAX_DIM && line_probs@[l].k
                    == self.alphabet.chars@.len() + 1,
        ensures
            self.recognizer is None ==> r is Err && r->Err_0 == OcrError::ConfigurationError,
            self.recognizer is Some && lines@.len() != line_probs@.len() ==> r is Err
                && r->Err_0 == OcrError::ShapeMismatchError,
            self.recognizer is Some && lines@.len() == line_probs@.len() ==> r is Ok,
            r is Ok ==> {
                let results = r->Ok_0;
                &&& results@.len() == lines@.len()
                &&& forall|l: int|
                    0 <= l < lines@.len() ==> recognition_result_ok(
                        (#[trigger] lines@[l])@,
                        line_probs@[l],
                        engine_excluded(*self),
                        self.alphabet,
                        self.decode_method,
                        results@[l],
                    )
            },
    {
        if self.recognizer.is_none() {
            return Err(OcrError::ConfigurationError);
        }
        if lines.len() != line_probs.len() {
            return Err(OcrError::ShapeMismatchError);
        }
        let mut results: Vec<Option<TextLine>> = Vec::new();
        let mut l: usize = 0;
        while l < lines.len()
            invariant
                self.wf(),
                lines@.len() == line_probs@.len(),
                l <= lines@.len(),
                results@.len() == l,
                forall|l2: int, k: int|
                    #![trigger lines@[l2]@[k]]
                    0 <= l2 < lines@.len() && 0 <= k < lines@[l2]@.len() ==> lines@[l2]@[k].wf(),
                forall|l2: int| 0 <= l2 < lines@.len() ==> (#[trigger] lines@[l2])@.len() > 0,
                forall|l2: int|
                    0 <= l2 < line_probs@.len() ==> (#[trigger] line_probs@[l2]).wf()
                        && line_probs@[l2].rows@.len() <= MAX_DIM && line_probs@[l2].k
                        == self.alphabet.chars@.len() + 1,
                forall|l2: int|
                    0 <= l2 < l ==> recognition_result_ok(
                        (#[trigger] lines@[l2])@,
                        line_probs@[l2],
                        engine_excluded(*self),
                        self.alphabet,
                        self.decode_method,
                        results@[l2],
                    ),
            decreases lines@.len() - l,
        {
            let line = &lines[l];
            let probs = &line_probs[l];
            let entry = recognize_line(
                line,
                probs,
                &self.alphabet,
                self.excluded_char_labels.as_ref(),
                self.decode_method,
            );
            proof {
                match &self.excluded_char_labels {
                    Some(ex) => {
                        assert(crate::decode::ex_of(Some(&ex)) == engine_excluded(*self));
                    },
                    None => {},
                }
            }
            results.push(entry);
            l += 1;
        }
        Ok(results)
    }

    /// Extract all text on a surface as one string: detect word regions,
    /// group them into lines, recognize each line from its probability
    /// sequence, and join the recognized lines with newlines in reading
    /// order.
    ///
    /// On success the returned string is the newline-joined text of
    /// recognition results for word regions and lines satisfying the
    /// detection and layout contracts (`pipeline_stages_ok`). A missing
    /// capability gives a configuration error; given both capabilities,
    /// the only error is a shape mismatch, exactly when the probability
    /// list does not pair with the detected lines — so on a surface
    /// entirely below threshold with an empty probability list the result
    /// is the empty string, never an error.
    pub fn get_text(&self, surface: &ProbabilitySurface, line_probs: &Vec<ProbSequence>) -> (r:
        Result<String, OcrError>)
        requires
            self.wf(),
            surface.wf(),
            forall|l: int|
                0 <= l < line_probs@.len() ==> (#[trigger] line_probs@[l]).wf()
                    && line_probs@[l].rows@.len() <= MAX_DIM && line_probs@[l].k
                    == self.alphabet.chars@.len() + 1,
        ensures
            self.detector is None ==> r is Err && r->Err_0 == OcrError::ConfigurationError,
            self.detector is Some && self.recognizer is None ==> r is Err && r->Err_0
                == OcrError::ConfigurationError,
            r is Ok ==> self.detector is Some && self.recognizer is Some
                && pipeline_stages_ok(*self, *surface, line_probs@, r->Ok_0@),
            r is Err && self.detector is Some && self.recognizer is Some ==> r->Err_0
                == OcrError::ShapeMismatchError && exists|
                words: Seq<RotatedRect>,
                lines: Seq<Vec<RotatedRect>>,
            |
                #![trigger layout_result_ok(words, lines)]
                detection_result_ok(*surface, self.detector->0.text_threshold, words)
                    && layout_result_ok(words, lines) && lines.len() != line_probs@.len(),
            (self.detector is Some && self.recognizer is Some && line_probs@.len() == 0
                && (forall|i: int|
                0 <= i < surface.data@.len() ==> !pixel_on(
                    *surface,
                    self.detector->0.text_threshold,
                    i,
                ))) ==> r is Ok && r->Ok_0@ == Seq::<char>::empty(),
    {
        let words = match self.detect_words(surface) {
            Ok(w) => w,
            Err(e) => {
                return Err(e);
            },
        };
        let lines = self.find_text_lines(&words);
        let results = match self.recognize_text(&lines, line_probs) {
            Ok(rs) => rs,
            Err(e) => {
                proof {
                    if self.recognizer is Some {
                        assert(detection_result_ok(
                            *surface,
                            self.detector->0.text_threshold,
                            words@,
                        ) && layout_result_ok(words@, lines@) && lines@.len()
                            != line_probs@.len());
                    }
                }
                return Err(e);
            },
        };
        let text = join_line_texts(&results);
        proof {
            if words@.len() == 0 {
                assert(lines@.len() == 0);
                assert(results@.len() == 0);
                assert(results@.take(0) =~= results@);
                assert(joined_text(results@) =~= Seq::<char>::empty());
            }
            assert(pipeline_stages_ok(*self, *surface, line_probs@, text@)) by {
                assert(detection_result_ok(*surface, self.detector->0.text_threshold, words@)
                    && layout_result_ok(words@, lines@) && lines@.len() == line_probs@.len()
                    && results@.len() == lines@.len() && (forall|l: int|
                    0 <= l < lines@.len() ==> recognition_result_ok(
                        (#[trigger] lines@[l])@,
                        line_probs@[l],
                        engine_excluded(*self),
                        self.alphabet,
                        self.decode_method,
                        results@[l],
                    )) && text@ == joined_text(results@));
            }
        }
        Ok(text)
    }
}

/// What a successful text extraction returns: there are word regions,
/// lines and per-line recognition results satisfying the detection, layout
/// and recognition contracts, the probability list pairs with the lines,
/// and the string is their newline-joined text.
pub open spec fn pipeline_stages_ok(
    e: OcrEngine,
    s: ProbabilitySurface,
    line_probs: Seq<ProbSequence>,
    text: Seq<char>,
) -> bool {
    exists|words: Seq<RotatedRect>, lines: Seq<Vec<RotatedRect>>, results: Seq<Option<TextLine>>|
        #![trigger layout_result_ok(words, lines), joined_text(results)]
        {
            &&& detection_result_ok(s, e.detector->0.text_threshold, words)
            &&& layout_result_ok(words, lines)
            &&& lines.len() == line_probs.len()
            &&& results.len() == lines.len()
            &&& forall|l: int|
                0 <= l < lines.len() ==> recognition_result_ok(
                    (#[trigger] lines[l])@,
                    line_probs[l],
                    engine_excluded(e),
                    e.alphabet,
                    e.decode_method,
                    results[l],
                )
            &&& text == joined_text(results)
        }
}

/// Whether some entry is a recognized line.
pub open spec fn has_some_line(rs: Seq<Option<TextLine>>) -> bool {
    exists|i: int| 0 <= i < rs.len() && rs[i] is Some
}

/// The text of the recognized lines, in order, joined with newlines;
/// absent lines contribute nothing.
pub open spec fn joined_text(rs: Seq<Option<TextLine>>) -> Seq<char>
    decreases rs.len(),
{
    if rs.len() == 0 {
        Seq::empty()
    } else {
        let pre = joined_text(rs.drop_last());
        match rs.last() {
            None => pre,
            Some(tl) => if has_some_line(rs.drop_last()) {
                pre + seq!['\n'] + line_chars(tl)
            } else {
                line_chars(tl)
            },
        }
    }
}

/// Proof that lines with nothing recognized join to the empty text.
proof fn lemma_joined_empty(rs: Seq<Option<TextLine>>)
    requires
        !has_some_line(rs),
    ensures
        joined_text(rs) =~= Seq::<char>::empty(),
    decreases rs.len(),
{
    if rs.len() > 0 {
        assert(!has_some_line(rs.drop_last())) by {
            if has_some_line(rs.drop_last()) {
                let i = choose|i: int|
                    0 <= i < rs.drop_last().len() && #[trigger] rs.drop_last()[i] is Some;
                assert(rs[i] is Some);
            }
        }
        lemma_joined_empty(rs.drop_last());
        assert(!(rs[rs.len() - 1] is Some));
    }
}

/// Join the recognized lines into one string, with a newline between
/// consecutive recognized lines and nothing for absent ones.
pub fn join_line_texts(results: &Vec<Option<TextLine>>) -> (t: String)
    ensures
        t@ == joined_text(results@),
{
    let mut t = String::new();
    let mut first = true;
    let mut l: usize = 0;
    proof {
        assert(results@.take(0) =~= Seq::<Option<TextLine>>::empty());
    }
    while l < results.len()
        invariant
            l <= results@.len(),
            t@ == joined_text(results@.take(l as int)),
            first == !has_some_line(results@.take(l as int)),
        decreases results@.len() - l,
    {
        let ghost prefix = results@.take(l as int);
        let ghost t0 = t@;
        let ghost first0 = first;
        match &results[l] {
            Some(line) => {
                if !first {
                    t.push('\n');
                }
                let lt = line.text();
                t.append(lt.as_str());
                first = false;
            },
            None => {},
        }
        proof {
            assert(results@.take(l + 1).drop_last() =~= prefix);
            assert(results@.take(l + 1).last() == results@[l as int]);
            match results@[l as int] {
                Some(tl) => {
                    assert(has_some_line(results@.take(l + 1))) by {
                        assert(results@.take(l + 1)[l as int] is Some);
                    }
                    if first0 {
                        lemma_joined_empty(prefix);
                        assert(t@ =~= line_chars(tl));
                        assert(joined_text(results@.take(l + 1)) == line_chars(tl));
                    } else {
                        assert(t@ =~= t0 + seq!['\n'] + line_chars(tl));
                    }
                },
                None => {
                    assert(has_some_line(results@.take(l + 1)) == has_some_line(prefix)) by {
                        if has_some_line(results@.take(l + 1)) {
                            let i = choose|i: int|
                                0 <= i < results@.take(l + 1).len() && #[trigger] results@.take(
                                    l + 1,
                                )[i] is Some;
                            if i < l {
                                assert(prefix[i] is Some);
                            }
                        }
                        if has_some_line(prefix) {
                            let i = choose|i: int|
                                0 <= i < prefix.len() && #[trigger] prefix[i] is Some;
                            assert(results@.take(l + 1)[i] is Some);
                        }
                    }
                },
            }
        }
        l += 1;
    }
    proof {
        assert(results@.take(results@.len() as int) =~= results@);
    }
    t
}

} // verus!
