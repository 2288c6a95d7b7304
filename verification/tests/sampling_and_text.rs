use ocrs::geom::{Rect, RotatedRect};
use ocrs::errors::OcrError;
use ocrs::sample::{prepare_image, sample_line, GrayImage, ImageBuffer, GRAY_HALF, REC_HEIGHT};
use ocrs::surface::{ProbabilitySurface, PROB_SCALE};
use ocrs::text::{contains_chars, find_keyword_words, TextChar, TextLine, TextWord};

#[test]
fn test_prepare_image_rgb_luma() {
    // One pure-red pixel: luma is 299/1000 of full scale, centered.
    let data = vec![PROB_SCALE, 0, 0];
    let img = ImageBuffer::new(3, 1, 1, data).unwrap();
    let gray = prepare_image(&img);
    assert_eq!(gray.get(0, 0), 299_000 - GRAY_HALF);
}

#[test]
fn test_prepare_image_single_channel_shifts() {
    let img = ImageBuffer::new(1, 2, 1, vec![0, PROB_SCALE]).unwrap();
    let gray = prepare_image(&img);
    assert_eq!(gray.get(0, 0), -GRAY_HALF);
    assert_eq!(gray.get(0, 1), GRAY_HALF);
}

#[test]
fn test_image_buffer_rejects_malformed() {
    assert_eq!(
        ImageBuffer::new(2, 1, 1, vec![0, 0]).err(),
        Some(OcrError::MalformedInputError)
    );
    assert_eq!(
        ImageBuffer::new(1, 2, 2, vec![0, 0, 0]).err(),
        Some(OcrError::MalformedInputError)
    );
    assert_eq!(
        ImageBuffer::new(1, 1, 1, vec![PROB_SCALE + 1]).err(),
        Some(OcrError::MalformedInputError)
    );
}

#[test]
fn test_surface_rejects_malformed() {
    assert_eq!(
        ProbabilitySurface::new(3, 2, vec![0; 5]).err(),
        Some(OcrError::MalformedInputError)
    );
    assert_eq!(
        ProbabilitySurface::new(1, 1, vec![PROB_SCALE + 1]).err(),
        Some(OcrError::MalformedInputError)
    );
}

#[test]
fn test_sample_line_dimensions_and_values() {
    // A 8x4 image; the line covers columns 0..8, rows 0..4. The strip is
    // 64 tall and 128 wide (aspect preserved), nearest-neighbour sampled.
    let (w, h) = (8usize, 4usize);
    let mut data = vec![-GRAY_HALF; w * h];
    // Distinct value at source pixel (1, 2).
    data[1 * w + 2] = 123;
    let img = GrayImage { width: w, height: h, data };
    let line = vec![RotatedRect::from_rect(Rect::new(0, 0, w as i64, h as i64))];
    let strip = sample_line(&img, &line);
    assert_eq!(strip.height, REC_HEIGHT);
    assert_eq!(strip.width, w * REC_HEIGHT / h);
    // Output pixel (y, x) samples source (y * h / 64, x * h / 64):
    // y in 16..32 and x in 32..48 map to source (1, 2).
    assert_eq!(strip.get(16, 32), 123);
    assert_eq!(strip.get(31, 47), 123);
    assert_eq!(strip.get(15, 32), -GRAY_HALF);
    assert_eq!(strip.get(16, 48), -GRAY_HALF);
}

#[test]
fn test_sample_line_outside_image_is_empty() {
    let img = GrayImage { width: 4, height: 4, data: vec![0; 16] };
    let line = vec![RotatedRect::from_rect(Rect::new(10, 10, 20, 20))];
    let strip = sample_line(&img, &line);
    assert_eq!(strip.width, 0);
    assert_eq!(strip.height, 0);
}

fn make_word(text: &str, left: i64, right: i64) -> TextWord {
    let rect = RotatedRect::from_rect(Rect::new(left, 0, right, 10));
    let chars = text
        .chars()
        .map(|ch| TextChar { ch, rect })
        .collect();
    TextWord { chars, rect }
}

#[test]
fn test_contains_chars() {
    let hay: Vec<char> = "hello world".chars().collect();
    let needle: Vec<char> = "lo w".chars().collect();
    assert!(contains_chars(&hay, &needle));
    let missing: Vec<char> = "low".chars().collect();
    assert!(!contains_chars(&hay, &missing));
    let empty: Vec<char> = Vec::new();
    assert!(contains_chars(&hay, &empty));
}

#[test]
fn test_find_keyword_position() {
    // Keyword search lowers the recognized text, keeps matching words.
    let lines = vec![
        TextLine { words: vec![make_word("Invoice", 0, 50), make_word("Total", 60, 100)] },
        TextLine { words: vec![make_word("AMOUNT", 0, 50)] },
    ];
    let keywords: Vec<Vec<char>> = vec!["total".chars().collect(), "mount".chars().collect()];
    let found = find_keyword_words(&lines, &keywords);
    assert_eq!(found.len(), 2);
    assert_eq!(found[0].text(), "Total");
    assert_eq!(found[1].text(), "AMOUNT");
}

#[test]
fn test_find_keyword_folds_unicode() {
    // Case folding is full Unicode, not ASCII-only.
    let lines = vec![TextLine { words: vec![make_word("\u{c9}T\u{c9}", 0, 50)] }];
    let keywords: Vec<Vec<char>> = vec!["\u{e9}t\u{e9}".chars().collect()];
    let found = find_keyword_words(&lines, &keywords);
    assert_eq!(found.len(), 1);
    assert_eq!(found[0].text(), "\u{c9}T\u{c9}");
}

#[test]
fn test_line_text_concatenates_words() {
    let line = TextLine { words: vec![make_word("ab", 0, 10), make_word("cd", 20, 30)] };
    assert_eq!(line.text(), "abcd");
    assert_eq!(line.words()[0].text(), "ab");
}
