use ocrs::detect::{extract_regions, find_components};
use ocrs::geom::{
    bounding_rect_of_points, normalize_angle, Point, Rect, RotatedRect, HALF_TURN_URAD,
};
use ocrs::layout::find_text_lines;
use ocrs::surface::{ProbabilitySurface, PROB_SCALE};

fn word(left: i64, top: i64, right: i64, bottom: i64) -> RotatedRect {
    RotatedRect::from_rect(Rect::new(left, top, right, bottom))
}

#[test]
fn test_two_bands_give_two_ordered_lines() {
    // Words in two clearly separated horizontal bands: exactly two lines,
    // each holding its band's words sorted left to right.
    let words = vec![
        word(40, 100, 60, 110),
        word(0, 0, 20, 10),
        word(40, 0, 60, 10),
        word(0, 100, 20, 110),
        word(20, 0, 40, 10),
    ];
    let lines = find_text_lines(&words);
    assert_eq!(lines.len(), 2);
    assert_eq!(lines[0].len(), 3);
    assert_eq!(lines[1].len(), 2);
    let xs0: Vec<i64> = lines[0].iter().map(|w| w.cx2).collect();
    assert_eq!(xs0, vec![20, 60, 100]);
    let xs1: Vec<i64> = lines[1].iter().map(|w| w.cx2).collect();
    assert_eq!(xs1, vec![20, 100]);
    // Reading order: the upper band first.
    assert!(lines[0][0].cy2 < lines[1][0].cy2);
}

#[test]
fn test_two_bands_with_varying_extents() {
    // Band words need not share exact extents: overlapping extents within
    // each band still give exactly two lines.
    let words = vec![
        word(0, 0, 20, 10),
        word(25, 2, 45, 8),
        word(0, 100, 20, 112),
        word(25, 104, 45, 110),
    ];
    let lines = find_text_lines(&words);
    assert_eq!(lines.len(), 2);
    assert_eq!(lines[0].len(), 2);
    assert_eq!(lines[1].len(), 2);
    assert!(lines[0].iter().all(|w| w.cy2 < 100));
    assert!(lines[1].iter().all(|w| w.cy2 >= 200));
}

#[test]
fn test_no_words_give_no_lines() {
    assert_eq!(find_text_lines(&Vec::new()).len(), 0);
}

#[test]
fn test_single_word_gives_single_line() {
    let lines = find_text_lines(&vec![word(5, 5, 10, 10)]);
    assert_eq!(lines.len(), 1);
    assert_eq!(lines[0].len(), 1);
}

#[test]
fn test_overlapping_bands_merge_into_one_line() {
    // Vertically overlapping words chain into a single line.
    let words = vec![word(0, 0, 10, 10), word(12, 5, 22, 15), word(24, 12, 34, 20)];
    let lines = find_text_lines(&words);
    assert_eq!(lines.len(), 1);
    assert_eq!(lines[0].len(), 3);
}

#[test]
fn test_rect_ops() {
    let a = Rect::new(0, 0, 10, 10);
    let b = Rect::new(5, 5, 20, 20);
    let c = Rect::new(11, 11, 20, 20);
    assert!(a.intersects(&b));
    assert!(!a.intersects(&c));
    assert!(a.contains_point(Point::new(10, 0)));
    assert!(!a.contains_point(Point::new(11, 0)));
    let u = a.union(&b);
    assert_eq!((u.left, u.top, u.right, u.bottom), (0, 0, 20, 20));
    assert_eq!(a.width(), 10);
    assert_eq!(a.height(), 10);
}

#[test]
fn test_bounding_rect_of_points() {
    assert!(bounding_rect_of_points(&Vec::new()).is_none());
    let pts = vec![Point::new(3, 7), Point::new(-2, 5), Point::new(4, -1)];
    let r = bounding_rect_of_points(&pts).unwrap();
    assert_eq!((r.left, r.top, r.right, r.bottom), (-2, -1, 4, 7));
}

#[test]
fn test_normalize_angle_wraps_to_half_turn() {
    assert_eq!(normalize_angle(0), 0);
    assert_eq!(normalize_angle(HALF_TURN_URAD), HALF_TURN_URAD);
    assert_eq!(normalize_angle(HALF_TURN_URAD + 1), 1 - HALF_TURN_URAD);
    assert_eq!(normalize_angle(2 * HALF_TURN_URAD), 0);
    assert_eq!(normalize_angle(-3 * HALF_TURN_URAD), HALF_TURN_URAD);
}

#[test]
fn test_rotated_rect_corners_axis_aligned_only() {
    let r = word(1, 2, 5, 8);
    let cs = r.corners().unwrap();
    assert_eq!((cs[0].x, cs[0].y), (2, 4));
    assert_eq!((cs[2].x, cs[2].y), (10, 16));
    let rot = RotatedRect::new(0, 0, 4, 4, 100);
    assert!(rot.corners().is_none());
}

#[test]
fn test_all_below_threshold_extracts_nothing() {
    // An entirely sub-threshold surface yields an empty region set.
    let data = vec![499_999u32; 20 * 10];
    let surface = ProbabilitySurface::new(20, 10, data).unwrap();
    assert_eq!(extract_regions(&surface, 500_000).len(), 0);
}

#[test]
fn test_separated_regions_extract_one_box_each() {
    // Two well-separated filled rectangles above threshold: exactly two
    // regions whose boxes match the rectangles within the expansion margin.
    let (w, h) = (40usize, 10usize);
    let mut data = vec![0u32; w * h];
    for y in 2..6 {
        for x in 3..11 {
            data[y * w + x] = PROB_SCALE;
        }
        for x in 20..28 {
            data[y * w + x] = PROB_SCALE;
        }
    }
    let surface = ProbabilitySurface::new(w, h, data).unwrap();
    let regions = extract_regions(&surface, 500_000);
    assert_eq!(regions.len(), 2);
    let mut boxes: Vec<(i64, i64, i64, i64)> = regions
        .iter()
        .map(|r| {
            let b = r.bounding_rect();
            (b.left, b.top, b.right, b.bottom)
        })
        .collect();
    boxes.sort();
    // Tight boxes are 8 x 4; the margin is an eighth of each extent: 1 and 0.
    assert_eq!(boxes, vec![(2, 2, 12, 6), (19, 2, 29, 6)]);
}

#[test]
fn test_noise_components_are_filtered() {
    // A component below the minimum area disappears; a larger one stays.
    let (w, h) = (10usize, 6usize);
    let mut data = vec![0u32; w * h];
    data[0] = PROB_SCALE; // single isolated pixel: area 1
    for x in 4..8 {
        data[3 * w + x] = PROB_SCALE; // area 4
    }
    let surface = ProbabilitySurface::new(w, h, data).unwrap();
    let comps = find_components(&surface, 500_000);
    assert_eq!(comps.len(), 2);
    let regions = extract_regions(&surface, 500_000);
    assert_eq!(regions.len(), 1);
}

#[test]
fn test_component_touching_border_is_kept() {
    let (w, h) = (6usize, 4usize);
    let mut data = vec![0u32; w * h];
    for x in 0..3 {
        data[x] = PROB_SCALE;
    }
    let surface = ProbabilitySurface::new(w, h, data).unwrap();
    let regions = extract_regions(&surface, 500_000);
    assert_eq!(regions.len(), 1);
}
