use ocrs::engine::{DetectorParams, OcrEngine, OcrEngineParams, RecognizerParams};
use ocrs::errors::OcrError;
use ocrs::geom::{Rect, RotatedRect};
use ocrs::sample::ImageBuffer;
use ocrs::surface::{ProbabilitySurface, PROB_SCALE};
use ocrs::decode::ProbSequence;

/// A CHW RGB image of the given size: black, except `n_words` white filled
/// rectangles in one row (rows 30..50, each 50 columns wide, 70 apart).
fn gen_test_image(n_words: usize) -> ImageBuffer {
    let (channels, height, width) = (3usize, 100usize, 200usize);
    let mut data = vec![0u32; channels * height * width];
    for word_idx in 0..n_words {
        for chan_idx in 0..channels {
            for y in 30..50 {
                for x in (word_idx * 70)..(word_idx * 70 + 50) {
                    data[(chan_idx * height + y) * width + x] = PROB_SCALE;
                }
            }
        }
    }
    ImageBuffer::new(channels, width, height, data).unwrap()
}

/// The probability surface a detection model would produce for
/// `gen_test_image`: certainty one on the word rectangles, zero elsewhere.
fn gen_test_surface(n_words: usize) -> ProbabilitySurface {
    let (height, width) = (100usize, 200usize);
    let mut data = vec![0u32; height * width];
    for word_idx in 0..n_words {
        for y in 30..50 {
            for x in (word_idx * 70)..(word_idx * 70 + 50) {
                data[y * width + x] = PROB_SCALE;
            }
        }
    }
    ProbabilitySurface::new(width, height, data).unwrap()
}

#[test]
fn test_ocr_engine_prepare_input() {
    let image = gen_test_image(3);
    let engine = OcrEngine::new(OcrEngineParams {
        detector: None,
        recognizer: None,
        ..Default::default()
    })
    .unwrap();
    let input = engine.prepare_input(&image).unwrap();

    assert_eq!(input.image.width, 200);
    assert_eq!(input.image.height, 100);
    // Single channel, centered range: white maps to +GRAY_HALF.
    assert_eq!(input.image.data.len(), 200 * 100);
    assert_eq!(input.image.get(0, 0), -(ocrs::sample::GRAY_HALF));
    assert_eq!(input.image.get(30, 0), ocrs::sample::GRAY_HALF);
}

#[test]
fn test_ocr_engine_detect_words() {
    let n_words = 3;
    let surface = gen_test_surface(n_words);
    let engine = OcrEngine::new(OcrEngineParams {
        detector: Some(DetectorParams::default()),
        recognizer: None,
        ..Default::default()
    })
    .unwrap();
    let words = engine.detect_words(&surface).unwrap();

    assert_eq!(words.len(), n_words);

    let mut boxes: Vec<(i64, i64, i64, i64)> = words
        .iter()
        .map(|w| {
            let b = w.bounding_rect();
            (b.top, b.left, b.right, b.bottom)
        })
        .collect();
    boxes.sort();

    // Word rectangles are 50 x 20 in pixel-edge coordinates, expanded by an
    // eighth of each extent on every side: 6 horizontally, 2 vertically.
    // The expected boxes follow this crate's expansion constant
    // (EXPANSION_DENOM); a detector tuned with a different margin would
    // give boxes a few pixels different per side.
    let expected = vec![
        (28, -6, 56, 52),
        (28, 64, 126, 52),
        (28, 134, 196, 52),
    ];
    assert_eq!(boxes, expected);
}

/// A probability sequence whose positions all put the given mass per label.
fn uniform_probs(n_positions: usize, k: usize, mass: &[(usize, u32)]) -> ProbSequence {
    let mut rows = Vec::new();
    for _ in 0..n_positions {
        let mut row = vec![0u32; k];
        for &(label, p) in mass {
            row[label] = p;
        }
        rows.push(row);
    }
    ProbSequence::new(k, rows).unwrap()
}

fn default_alphabet_prefix(n: usize) -> Vec<char> {
    ocrs::engine::DEFAULT_ALPHABET.chars().take(n).collect()
}

fn line_of_one_rect() -> Vec<Vec<RotatedRect>> {
    let rect = RotatedRect::from_rect(Rect::new(0, 0, 32, 64));
    vec![vec![rect]]
}

#[test]
fn test_ocr_engine_recognize_lines() {
    // Label 2 (the character '0' of the default alphabet) certain at every
    // position: run collapsing yields the single character "0".
    let k = 64;
    let probs = uniform_probs(8, k, &[(2, PROB_SCALE)]);
    let engine = OcrEngine::new(OcrEngineParams {
        detector: None,
        recognizer: Some(RecognizerParams { debug: false }),
        alphabet: Some(default_alphabet_prefix(k - 1)),
        ..Default::default()
    })
    .unwrap();

    let line_regions = line_of_one_rect();
    let lines = engine.recognize_text(&line_regions, &vec![probs]).unwrap();
    assert_eq!(lines.len(), line_regions.len());
    let line = lines[0].as_ref().unwrap();
    assert_eq!(line.text(), "0");
}

#[test]
fn test_ocr_engine_filter_chars() {
    let k = 64;
    // "0" at 0.7, "1" at 0.3.
    let mass = [(2usize, 700_000u32), (3usize, 300_000u32)];

    let engine = OcrEngine::new(OcrEngineParams {
        detector: None,
        recognizer: Some(RecognizerParams { debug: false }),
        alphabet: Some(default_alphabet_prefix(k - 1)),
        ..Default::default()
    })
    .unwrap();
    let lines = engine
        .recognize_text(&line_of_one_rect(), &vec![uniform_probs(8, k, &mass)])
        .unwrap();
    assert_eq!(lines[0].as_ref().unwrap().text(), "0");

    // Excluding "0" from the output, the next-best permitted label wins.
    let engine = OcrEngine::new(OcrEngineParams {
        detector: None,
        recognizer: Some(RecognizerParams { debug: false }),
        alphabet: Some(default_alphabet_prefix(k - 1)),
        allowed_chars: Some("123456789".chars().collect()),
        ..Default::default()
    })
    .unwrap();
    let lines = engine
        .recognize_text(&line_of_one_rect(), &vec![uniform_probs(8, k, &mass)])
        .unwrap();
    assert_eq!(lines[0].as_ref().unwrap().text(), "1");
}

#[test]
fn test_recognize_lines_with_beam_search() {
    // The beam selector is reachable from the configuration and decodes
    // the certain-label scenario like greedy.
    let k = 64;
    let probs = uniform_probs(8, k, &[(2, PROB_SCALE)]);
    let engine = OcrEngine::new(OcrEngineParams {
        detector: None,
        recognizer: Some(RecognizerParams { debug: false }),
        decode_method: ocrs::decode::DecodeMethod::BeamSearch,
        alphabet: Some(default_alphabet_prefix(k - 1)),
        ..Default::default()
    })
    .unwrap();
    let lines = engine.recognize_text(&line_of_one_rect(), &vec![probs]).unwrap();
    assert_eq!(lines[0].as_ref().unwrap().text(), "0");
}

#[test]
fn test_get_text_no_text_regions_is_empty() {
    // A surface entirely below threshold: no regions, no lines, empty text,
    // and no error.
    let surface = gen_test_surface(0);
    let engine = OcrEngine::new(OcrEngineParams {
        detector: Some(DetectorParams::default()),
        recognizer: Some(RecognizerParams { debug: false }),
        ..Default::default()
    })
    .unwrap();
    let text = engine.get_text(&surface, &Vec::new()).unwrap();
    assert_eq!(text, "");
}

#[test]
fn test_get_text_requires_models() {
    let surface = gen_test_surface(0);
    let engine = OcrEngine::new(OcrEngineParams::default()).unwrap();
    assert_eq!(
        engine.get_text(&surface, &Vec::new()),
        Err(OcrError::ConfigurationError)
    );
}

#[test]
fn test_end_to_end_three_blocks_one_row() {
    // Three separated blocks in one row: three word regions, one line of
    // three ordered words, and a fixed decoded string for a fixed label
    // pattern.
    let surface = gen_test_surface(3);
    let engine = OcrEngine::new(OcrEngineParams {
        detector: Some(DetectorParams::default()),
        recognizer: Some(RecognizerParams { debug: false }),
        ..Default::default()
    })
    .unwrap();

    let words = engine.detect_words(&surface).unwrap();
    assert_eq!(words.len(), 3);

    let lines = engine.find_text_lines(&words);
    assert_eq!(lines.len(), 1);
    assert_eq!(lines[0].len(), 3);
    assert!(lines[0][0].cx2 <= lines[0][1].cx2 && lines[0][1].cx2 <= lines[0][2].cx2);

    // Labels 2, blank, 3, blank, 4 decode to "012" under the default
    // alphabet (label i + 1 denotes alphabet character i).
    let k = ocrs::engine::DEFAULT_ALPHABET.chars().count() + 1;
    let mut rows = Vec::new();
    for label in [2usize, 0, 3, 0, 4] {
        let mut row = vec![0u32; k];
        if label > 0 {
            row[label] = PROB_SCALE;
        }
        rows.push(row);
    }
    let probs = ProbSequence::new(k, rows.clone()).unwrap();
    let results = engine.recognize_text(&lines, &vec![probs]).unwrap();
    assert_eq!(results.len(), 1);
    let line = results[0].as_ref().unwrap();
    assert_eq!(line.text(), "012");
    assert_eq!(line.words.len(), 3);

    // The whole pipeline through get_text yields the same string.
    let probs = ProbSequence::new(k, rows).unwrap();
    assert_eq!(engine.get_text(&surface, &vec![probs]).unwrap(), "012");

    let joined = engine.get_text(&surface, &Vec::new());
    // get_text with an empty probability list and one detected line is a
    // shape mismatch, not a silent success.
    assert_eq!(joined, Err(OcrError::ShapeMismatchError));
}
