use rust_ocr_transformer::postprocess::{reading_order, xy_cut_order};
use rust_ocr_transformer::types::BBox;

#[test]
fn reading_order_groups_lines_then_sorts_x() {
    // Line 1 (y about 50): the right word (x=150) arrives before the left one (x=40).
    // Line 2 (y about 120): one word. The jitter between y 50 and 52 stays on one line.
    let boxes = vec![
        BBox::new(150, 50, 30, 20),
        BBox::new(40, 52, 30, 20),
        BBox::new(200, 120, 30, 20),
    ];
    assert_eq!(reading_order(&boxes), vec![1, 0, 2]);
}

#[test]
fn reading_order_handles_trivial() {
    assert_eq!(reading_order(&[]), Vec::<usize>::new());
    assert_eq!(reading_order(&[BBox::new(0, 0, 5, 5)]), vec![0]);
}

#[test]
fn xy_cut_reads_columns_top_to_bottom() {
    // A tall left column and a right column with two boxes, split by a gutter.
    let boxes = vec![
        BBox::new(0, 0, 40, 90),
        BBox::new(100, 0, 40, 30),
        BBox::new(100, 50, 40, 30),
    ];
    assert_eq!(xy_cut_order(&boxes, 8), vec![0, 1, 2]);
}

#[test]
fn xy_cut_reads_rows_when_horizontally_separated() {
    // A 2x2 grid with an empty horizontal band between the rows.
    let boxes = vec![
        BBox::new(0, 0, 40, 30),
        BBox::new(100, 0, 40, 30),
        BBox::new(0, 50, 40, 30),
        BBox::new(100, 50, 40, 30),
    ];
    assert_eq!(xy_cut_order(&boxes, 8), vec![0, 1, 2, 3]);
}

#[test]
fn xy_cut_trivial() {
    assert_eq!(xy_cut_order(&[], 8), Vec::<usize>::new());
    assert_eq!(xy_cut_order(&[BBox::new(0, 0, 5, 5)], 8), vec![0]);
}

use rust_ocr_transformer::postprocess::{
    connected_regions, ctc_collapse, intersection_area, suppress_overlaps, try_xy_cut_order,
};

/// Intersection over union of two boxes, from the library's exact intersection area.
fn iou(a: &BBox, b: &BBox) -> f32 {
    let inter = intersection_area(a, b) as f64;
    if inter == 0.0 {
        return 0.0;
    }
    let union = a.area() as f64 + b.area() as f64 - inter;
    if union <= 0.0 {
        0.0
    } else {
        (inter / union) as f32
    }
}

/// Non-maximum suppression: boxes visited by descending score, a box kept
/// unless a kept box overlaps it with IoU above `iou_threshold`.
fn nms(boxes: &[(BBox, f32)], iou_threshold: f32) -> Vec<usize> {
    let mut order: Vec<usize> = (0..boxes.len()).collect();
    order.sort_by(|&i, &j| boxes[j].1.partial_cmp(&boxes[i].1).unwrap_or(std::cmp::Ordering::Equal));
    let overlaps: Vec<Vec<bool>> = (0..boxes.len())
        .map(|i| (0..boxes.len()).map(|j| iou(&boxes[i].0, &boxes[j].0) > iou_threshold).collect())
        .collect();
    suppress_overlaps(&order, &overlaps)
}

/// Index and value of the largest entry.
fn argmax(v: &[f32]) -> (usize, f32) {
    let mut best = 0usize;
    let mut best_v = f32::NEG_INFINITY;
    for (i, &x) in v.iter().enumerate() {
        if x > best_v {
            best_v = x;
            best = i;
        }
    }
    (best, best_v)
}

/// Greedy CTC decoding of row-major `[t, c]` logits.
fn ctc_greedy_decode(logits: &[f32], t: usize, c: usize, dict: &[String]) -> (String, f32) {
    let rows: Vec<(usize, f32)> = (0..t).map(|s| argmax(&logits[s * c..(s + 1) * c])).collect();
    let best: Vec<usize> = rows.iter().map(|r| r.0).collect();
    let (text, steps) = ctc_collapse(&best, &dict.to_vec());
    let conf = if steps.is_empty() {
        0.0
    } else {
        steps.iter().map(|&s| rows[s].1).sum::<f32>() / steps.len() as f32
    };
    (text, conf)
}

#[test]
fn iou_identical_and_disjoint() {
    let a = BBox::new(0, 0, 10, 10);
    assert!((iou(&a, &a) - 1.0).abs() < 1e-5, "identical boxes have IoU 1");
    let b = BBox::new(100, 100, 10, 10);
    assert_eq!(iou(&a, &b), 0.0, "separate boxes have IoU 0");
    let c = BBox::new(5, 0, 10, 10);
    let v = iou(&a, &c);
    assert!(v > 0.3 && v < 0.4, "half overlap gives IoU about 0.33, got {v}");
}

#[test]
fn nms_suppresses_overlap_keeps_separate() {
    let boxes = vec![
        (BBox::new(0, 0, 10, 10), 0.9),
        (BBox::new(1, 1, 10, 10), 0.8),
        (BBox::new(100, 100, 10, 10), 0.7),
    ];
    let keep = nms(&boxes, 0.5);
    assert_eq!(keep, vec![0, 2], "the overlapping lower score goes, the separate box stays");
}

#[test]
fn ctc_collapses_and_drops_blank() {
    let dict = vec!["a".to_string(), "b".to_string()];
    let logits = vec![
        0.0, 1.0, 0.0, //
        0.0, 1.0, 0.0, //
        1.0, 0.0, 0.0, //
        0.0, 0.0, 1.0, //
    ];
    let (text, conf) = ctc_greedy_decode(&logits, 4, 3, &dict);
    assert_eq!(text, "ab");
    assert!(conf > 0.0);
}

#[test]
fn intersection_area_exact_values() {
    let a = BBox::new(0, 0, 10, 10);
    let c = BBox::new(5, 0, 10, 10);
    assert_eq!(intersection_area(&a, &c), 50);
    assert_eq!(intersection_area(&c, &a), 50);
    assert_eq!(intersection_area(&a, &a), a.area());
    // Touching edges share no pixel.
    assert_eq!(intersection_area(&a, &BBox::new(10, 0, 5, 5)), 0);
    assert_eq!(intersection_area(&a, &BBox::new(100, 100, 10, 10)), 0);
    // A box inside another.
    assert_eq!(intersection_area(&a, &BBox::new(2, 3, 4, 5)), 20);
    // Empty boxes overlap nothing.
    assert_eq!(intersection_area(&a, &BBox::new(2, 2, 0, 5)), 0);
}

#[test]
fn suppress_overlaps_keeps_first_and_unsuppressed() {
    // 0 overlaps 1, 1 overlaps 2, 0 does not overlap 2.
    let overlaps = vec![
        vec![true, true, false],
        vec![true, true, true],
        vec![false, true, true],
    ];
    assert_eq!(suppress_overlaps(&vec![0, 1, 2], &overlaps), vec![0, 2]);
    // Visiting 1 first suppresses both others.
    assert_eq!(suppress_overlaps(&vec![1, 0, 2], &overlaps), vec![1]);
    assert_eq!(suppress_overlaps(&vec![], &overlaps), Vec::<usize>::new());
    // An overlap only counts in the direction given.
    let one_way = vec![vec![false, true], vec![false, false]];
    assert_eq!(suppress_overlaps(&vec![1, 0], &one_way), vec![1, 0]);
    assert_eq!(suppress_overlaps(&vec![0, 1], &one_way), vec![0]);
}

#[test]
fn ctc_collapse_repeats_blanks_and_unknown_classes() {
    let dict = vec!["a".to_string(), "b".to_string()];
    // a a blank a -> "aa"; class 5 has no entry and is skipped.
    let (text, steps) = ctc_collapse(&vec![1, 1, 0, 1, 5, 2, 2], &dict);
    assert_eq!(text, "aab");
    assert_eq!(steps, vec![0, 3, 5]);
    let (empty, none) = ctc_collapse(&vec![0, 0], &dict);
    assert_eq!(empty, "");
    assert!(none.is_empty());
    // Multi-character entries are appended whole.
    let words = vec!["ab".to_string(), "한".to_string()];
    assert_eq!(ctc_collapse(&vec![2, 1], &words).0, "한ab");
}

#[test]
fn connected_regions_finds_components() {
    // 4 x 3 map:
    // X X . X
    // . X . X
    // . . . .
    let on = |p: &[usize]| -> Vec<bool> { (0..12).map(|i| p.contains(&i)).collect() };
    let map = on(&[0, 1, 3, 5, 7]);
    let regions = connected_regions(&map, &map, 4, 3, 0);
    assert_eq!(regions.len(), 2);
    assert_eq!((regions[0].x, regions[0].y, regions[0].width, regions[0].height), (0, 0, 2, 2));
    let mut first = regions[0].pixels.clone();
    first.sort();
    assert_eq!(first, vec![0, 1, 5]);
    assert_eq!((regions[1].x, regions[1].y, regions[1].width, regions[1].height), (3, 0, 1, 2));
    let mut second = regions[1].pixels.clone();
    second.sort();
    assert_eq!(second, vec![3, 7]);
    // A bounding box under `min_area` is dropped, the other kept.
    let big = connected_regions(&map, &map, 4, 3, 4);
    assert_eq!(big.len(), 1);
    assert_eq!(big[0].x, 0);
    // Diagonal pixels are not neighbours.
    let diag = on(&[0, 5]);
    assert_eq!(connected_regions(&diag, &diag, 4, 3, 0).len(), 2);
}

#[test]
fn connected_regions_grows_through_fill_only_from_seeds() {
    // Seeds are a subset of fill: a region starts only at a seed but grows
    // through any fill pixel.
    let fill: Vec<bool> = vec![true, true, true, false, true];
    let seed: Vec<bool> = vec![false, false, true, false, false];
    let regions = connected_regions(&seed, &fill, 5, 1, 0);
    assert_eq!(regions.len(), 1);
    assert_eq!((regions[0].x, regions[0].width), (0, 3));
    assert!(connected_regions(&vec![false; 5], &fill, 5, 1, 0).is_empty());
}

#[test]
fn reading_order_is_a_permutation_with_rows_left_to_right() {
    let boxes = vec![
        BBox::new(300, 10, 20, 10),
        BBox::new(0, 200, 20, 10),
        BBox::new(100, 12, 20, 10),
        BBox::new(50, 198, 20, 10),
        BBox::new(0, 100, 20, 10),
    ];
    let order = reading_order(&boxes);
    assert_eq!(order, vec![2, 0, 4, 1, 3]);
    let mut sorted = order.clone();
    sorted.sort();
    assert_eq!(sorted, vec![0, 1, 2, 3, 4]);
}

#[test]
fn xy_cut_lists_every_box_once() {
    // Two side-by-side columns, the left one with three lines, plus a
    // degenerate empty box that still appears once.
    let boxes = vec![
        BBox::new(0, 0, 50, 10),
        BBox::new(200, 0, 50, 10),
        BBox::new(0, 30, 50, 10),
        BBox::new(200, 30, 50, 10),
        BBox::new(0, 60, 50, 10),
        BBox::new(120, 90, 0, 0),
    ];
    let order = xy_cut_order(&boxes, 8);
    let mut sorted = order.clone();
    sorted.sort();
    assert_eq!(sorted, vec![0, 1, 2, 3, 4, 5]);
    assert_eq!(order, vec![0, 1, 2, 3, 4, 5]);
}

#[test]
fn xy_cut_reads_left_column_first_when_rows_do_not_align() {
    let boxes = vec![
        BBox::new(200, 0, 50, 10),
        BBox::new(0, 5, 50, 10),
        BBox::new(200, 12, 50, 10),
        BBox::new(0, 19, 50, 10),
    ];
    assert_eq!(xy_cut_order(&boxes, 8), vec![1, 3, 0, 2]);
}

#[test]
fn try_xy_cut_order_reports_endless_recursion() {
    let same = vec![BBox::new(0, 0, 5, 5), BBox::new(0, 0, 5, 5)];
    // With no gap every pixel column is its own cut; two boxes on one spot never separate.
    assert_eq!(try_xy_cut_order(&same, 0), None);
    assert_eq!(try_xy_cut_order(&same, 1), Some(vec![0, 1]));
    // A box wider than one pixel is cut into one-pixel columns and never shrinks.
    let apart = vec![BBox::new(0, 0, 5, 5), BBox::new(20, 0, 5, 5)];
    assert_eq!(try_xy_cut_order(&apart, 0), None);
    let dots = vec![BBox::new(5, 0, 1, 1), BBox::new(0, 0, 1, 1)];
    assert_eq!(try_xy_cut_order(&dots, 0), Some(vec![1, 0]));
}

#[test]
fn xy_cut_without_wide_gaps_orders_by_x_then_y_then_index() {
    // Every box ends within 10 pixels, so nothing is cut.
    let boxes = vec![
        BBox::new(4, 1, 2, 2),
        BBox::new(0, 5, 2, 2),
        BBox::new(4, 0, 1, 1),
        BBox::new(0, 5, 1, 1),
        BBox::new(2, 2, 3, 3),
    ];
    assert_eq!(xy_cut_order(&boxes, 10), vec![1, 3, 4, 2, 0]);
}
