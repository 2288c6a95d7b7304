use ocrs::alphabet::Alphabet;
use ocrs::decode::{decode_beam, decode_greedy, DecodeMethod, ProbSequence};
use ocrs::errors::OcrError;
use ocrs::geom::{Rect, RotatedRect};
use ocrs::recog::recognize_line;
use ocrs::surface::PROB_SCALE;

fn digits_alphabet() -> Alphabet {
    Alphabet::new("0123456789".chars().collect())
}

fn seq_of_labels(k: usize, labels: &[usize]) -> ProbSequence {
    let mut rows = Vec::new();
    for &label in labels {
        let mut row = vec![0u32; k];
        if label > 0 {
            row[label] = PROB_SCALE;
        }
        rows.push(row);
    }
    ProbSequence::new(k, rows).unwrap()
}

fn one_rect_line() -> Vec<RotatedRect> {
    vec![RotatedRect::from_rect(Rect::new(0, 0, 100, 10))]
}

#[test]
fn test_constant_label_collapses_to_single_char() {
    // Label 3 ('2') at every position decodes to exactly one '2'.
    let a = digits_alphabet();
    let probs = seq_of_labels(11, &[3, 3, 3, 3, 3, 3]);
    let line = recognize_line(&one_rect_line(), &probs, &a, None, DecodeMethod::Greedy).unwrap();
    assert_eq!(line.text(), "2");
}

#[test]
fn test_blank_separated_labels_stay_separate() {
    // blank, L, blank, L decodes to the character twice, not once.
    let a = digits_alphabet();
    let probs = seq_of_labels(11, &[0, 3, 0, 3]);
    let line = recognize_line(&one_rect_line(), &probs, &a, None, DecodeMethod::Greedy).unwrap();
    assert_eq!(line.text(), "22");
}

#[test]
fn test_all_blank_decodes_to_no_text() {
    let a = digits_alphabet();
    let probs = seq_of_labels(11, &[0, 0, 0, 0]);
    assert!(recognize_line(&one_rect_line(), &probs, &a, None, DecodeMethod::Greedy).is_none());
}

#[test]
fn test_excluded_label_never_emitted() {
    // '7' (label 8) is the argmax everywhere, but the restriction to "123"
    // forces the runner-up '2' (label 3).
    let a = digits_alphabet();
    let allowed: Vec<char> = "123".chars().collect();
    let ex = a.excluded_labels(&allowed);
    let mut rows = Vec::new();
    for _ in 0..5 {
        let mut row = vec![0u32; 11];
        row[8] = 900_000;
        row[3] = 100_000;
        rows.push(row);
    }
    let probs = ProbSequence::new(11, rows).unwrap();
    let line = recognize_line(&one_rect_line(), &probs, &a, Some(&ex), DecodeMethod::Greedy).unwrap();
    assert_eq!(line.text(), "2");
    assert!(!line.text().contains('7'));
}

#[test]
fn test_argmax_tie_breaks_to_lowest_label() {
    let a = digits_alphabet();
    let mut rows = Vec::new();
    let mut row = vec![0u32; 11];
    row[4] = 500_000;
    row[6] = 500_000;
    rows.push(row);
    let probs = ProbSequence::new(11, rows).unwrap();
    let line = recognize_line(&one_rect_line(), &probs, &a, None, DecodeMethod::Greedy).unwrap();
    assert_eq!(line.text(), "3");
}

#[test]
fn test_decode_runs_cover_their_positions() {
    let probs = seq_of_labels(11, &[2, 2, 0, 5, 5, 5]);
    let runs = decode_greedy(&probs, None);
    assert_eq!(runs.len(), 2);
    assert_eq!((runs[0].label, runs[0].start, runs[0].end), (2, 0, 2));
    assert_eq!((runs[1].label, runs[1].start, runs[1].end), (5, 3, 6));
}

#[test]
fn test_beam_search_decodes_certain_labels() {
    // With all mass on one label per position, the best beam path is the
    // same as greedy's and collapses identically.
    let probs = seq_of_labels(11, &[3, 3, 0, 5, 5]);
    let runs = decode_beam(&probs, None);
    assert_eq!(runs.len(), 2);
    assert_eq!((runs[0].label, runs[0].start, runs[0].end), (3, 0, 2));
    assert_eq!((runs[1].label, runs[1].start, runs[1].end), (5, 3, 5));
}

#[test]
fn test_beam_search_respects_exclusions() {
    let a = digits_alphabet();
    let allowed: Vec<char> = "123".chars().collect();
    let ex = a.excluded_labels(&allowed);
    let mut rows = Vec::new();
    for _ in 0..4 {
        let mut row = vec![0u32; 11];
        row[8] = 900_000;
        row[3] = 100_000;
        rows.push(row);
    }
    let probs = ProbSequence::new(11, rows).unwrap();
    let runs = decode_beam(&probs, Some(&ex));
    for run in &runs {
        assert_ne!(run.label, 8);
        assert_ne!(run.label, 0);
    }
    assert_eq!(runs.len(), 1);
    assert_eq!(runs[0].label, 3);
}

#[test]
fn test_prob_sequence_rejects_bad_shape() {
    let rows = vec![vec![0u32; 5], vec![0u32; 4]];
    assert_eq!(
        ProbSequence::new(5, rows).err(),
        Some(OcrError::ShapeMismatchError)
    );
    assert_eq!(
        ProbSequence::new(0, Vec::new()).err(),
        Some(OcrError::ShapeMismatchError)
    );
}

#[test]
fn test_excluded_labels_exactly_complement_allowed() {
    let a = digits_alphabet();
    let allowed: Vec<char> = "05".chars().collect();
    let ex = a.excluded_labels(&allowed);
    // Characters '0' and '5' sit at indices 0 and 5, labels 1 and 6.
    let mut labels = ex.labels.clone();
    labels.sort();
    assert_eq!(labels, vec![2, 3, 4, 5, 7, 8, 9, 10]);
}

#[test]
fn test_char_for_label_maps_blank_to_none() {
    let a = digits_alphabet();
    assert_eq!(a.char_for_label(0), None);
    assert_eq!(a.char_for_label(1), Some('0'));
    assert_eq!(a.char_for_label(10), Some('9'));
    assert_eq!(a.char_for_label(11), None);
}

#[test]
fn test_empty_word_slots_for_unreached_boxes() {
    // Two word boxes, but every decoded character sits in the first box's
    // span: the second word comes back empty, not missing.
    let a = digits_alphabet();
    let line = vec![
        RotatedRect::from_rect(Rect::new(0, 0, 50, 10)),
        RotatedRect::from_rect(Rect::new(60, 0, 100, 10)),
    ];
    let probs = seq_of_labels(11, &[2, 0, 0, 0, 0, 0, 0, 0, 0, 0]);
    let tl = recognize_line(&line, &probs, &a, None, DecodeMethod::Greedy).unwrap();
    assert_eq!(tl.words.len(), 2);
    assert_eq!(tl.words[0].text(), "1");
    assert_eq!(tl.words[1].text(), "");
}
