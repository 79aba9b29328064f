use coco::coco::COCO;
use coco::coco_eval::{
    concatenate_truncated, cumsum_axis1, group_by_image_and_category, negate_mask, COCOEval,
    COCOEvalParams,
};
use coco::coco_types::{COCOCategory, COCODetection, COCOImage, COCOPredictions};

fn empty_coco() -> COCO {
    COCO::new(".".to_string(), COCODetection::new(Vec::new(), Vec::new(), Vec::new()))
}

fn same_at_every_threshold(rows: Vec<Vec<bool>>) -> Vec<Vec<Vec<bool>>> {
    (0..10).map(|_| rows.clone()).collect()
}

#[test]
fn params_have_the_standard_values() {
    let p = COCOEvalParams::new();
    assert_eq!(p.iou_thresholds(), &[50, 55, 60, 65, 70, 75, 80, 85, 90, 95]);
    let recall: Vec<u32> = (0..=100).collect();
    assert_eq!(p.recall_thresholds(), recall.as_slice());
    assert_eq!(p.max_detections(), &[1, 10, 100]);
    assert_eq!(
        p.area_ranges(),
        &[(0, 10000000000), (0, 1024), (1024, 9216), (9216, 10000000000)]
    );
    assert!(p.use_categories());
    assert!(p.image_ids().is_none());
    assert!(p.category_ids().is_none());
}

#[test]
fn params_setters_store_selections() {
    let mut p = COCOEvalParams::new();
    p.set_image_ids(vec![3, 1]);
    p.set_category_ids(vec![7]);
    assert_eq!(p.image_ids(), Some([3u32, 1].as_slice()));
    assert_eq!(p.category_ids(), Some([7u32].as_slice()));
    assert_eq!(p.max_detections(), &[1, 10, 100]);
}

#[test]
fn matching_takes_first_free_ground_truth() {
    let coco = empty_coco();
    let eval = COCOEval::new(&coco);
    // Detection 0 may match gt 0 or 1, detection 1 only gt 0, detection 2 gt 1.
    let rows = vec![vec![true, true], vec![true, false], vec![false, true]];
    let (gt, det) = eval.get_matches(&same_at_every_threshold(rows), 2, 100);
    assert_eq!(gt.len(), 10);
    assert_eq!(det.len(), 10);
    assert_eq!(gt[0], vec![true, true]);
    assert_eq!(det[0], vec![true, false, true]);
}

#[test]
fn matching_counts_equal_on_both_sides() {
    let coco = empty_coco();
    let eval = COCOEval::new(&coco);
    let rows = vec![
        vec![true, true, false],
        vec![true, true, false],
        vec![true, true, false],
        vec![false, false, false],
        vec![false, false, true],
    ];
    let (gt, det) = eval.get_matches(&same_at_every_threshold(rows), 3, 100);
    let matched_gt = gt[4].iter().filter(|&&b| b).count();
    let matched_det = det[4].iter().filter(|&&b| b).count();
    assert_eq!(matched_gt, 3);
    assert_eq!(matched_gt, matched_det);
    assert_eq!(det[4], vec![true, true, false, false, true]);
}

#[test]
fn matching_limits_detections() {
    let coco = empty_coco();
    let eval = COCOEval::new(&coco);
    let rows = vec![vec![false], vec![true], vec![true]];
    let (gt, det) = eval.get_matches(&same_at_every_threshold(rows), 1, 1);
    assert_eq!(det[0], vec![false]);
    assert_eq!(gt[0], vec![false]);
}

#[test]
fn matching_with_no_detections() {
    let coco = empty_coco();
    let eval = COCOEval::new(&coco);
    let (gt, det) = eval.get_matches(&same_at_every_threshold(Vec::new()), 4, 10);
    assert_eq!(gt[9], vec![false; 4]);
    assert!(det[9].is_empty());
}

#[test]
fn cumsum_counts_trues() {
    let mask = vec![vec![true, false, true, true], vec![false, false, false, true], vec![]];
    let out = cumsum_axis1(&mask);
    assert_eq!(out, vec![vec![1, 1, 2, 3], vec![0, 0, 0, 1], vec![]]);
}

#[test]
fn true_and_false_positive_counts_add_up() {
    let tps = vec![vec![true, false, false, true, true]];
    let fps = negate_mask(&tps);
    assert_eq!(fps, vec![vec![false, true, true, false, false]]);
    let tp_sum = cumsum_axis1(&tps);
    let fp_sum = cumsum_axis1(&fps);
    for c in 0..5 {
        assert_eq!(tp_sum[0][c] + fp_sum[0][c], c as u64 + 1);
    }
}

#[test]
fn concatenation_truncates_each_part() {
    let a = vec![vec![true, false, true], vec![false, false, true]];
    let b = vec![vec![false, true], vec![true, true]];
    let out = concatenate_truncated(&vec![&a, &b], 2);
    assert_eq!(out, vec![vec![true, false, false, true], vec![false, false, true, true]]);
    let all = concatenate_truncated(&vec![&a, &b], 100);
    assert_eq!(all[0], vec![true, false, true, false, true]);
}

#[test]
fn grouping_by_image_and_category() {
    let images = [5, 5, 7, 5, 7];
    let categories = [1, 2, 1, 1, 1];
    let table = group_by_image_and_category(&images, &categories);
    assert_eq!(table.len(), 2);
    assert_eq!(table[&5][&1], vec![0, 3]);
    assert_eq!(table[&5][&2], vec![1]);
    assert_eq!(table[&7][&1], vec![2, 4]);
    assert!(table[&7].get(&2).is_none());
}

#[test]
fn evaluation_keeps_its_dataset() {
    let mut coco = empty_coco();
    coco.load_coco_predictions(COCOPredictions { predictions: Vec::new() });
    let eval = COCOEval::new(&coco);
    assert!(eval.coco_dataset().get_all_results().is_some());
    assert_eq!(eval.evaluation_parameters.iou_thresholds().len(), 10);
}

fn ten_rows(row: Vec<bool>) -> Vec<Vec<bool>> {
    (0..10).map(|_| row.clone()).collect()
}

#[test]
fn accumulate_counts_per_block_and_limit() {
    let coco = empty_coco();
    let eval = COCOEval::new(&coco);
    // One category, one area range, two images.
    let first = (ten_rows(vec![true]), ten_rows(vec![true, false]));
    let second = (ten_rows(vec![false]), ten_rows(vec![true]));
    let matches = vec![Some(first), Some(second)];
    let sums = eval.accumulate(&matches, 1, 1, 2).unwrap();
    // One entry per detection limit 1, 10, 100.
    assert_eq!(sums.len(), 3);
    // Limit 1: rows [true] ++ [true].
    assert_eq!(sums[0].0[0], vec![1, 2]);
    assert_eq!(sums[0].1[0], vec![0, 0]);
    // Limit 10: rows [true, false] ++ [true].
    assert_eq!(sums[1].0[3], vec![1, 1, 2]);
    assert_eq!(sums[1].1[3], vec![0, 1, 1]);
    assert_eq!(sums[2].0.len(), 10);
}

#[test]
fn accumulate_skips_missing_images_and_orders_blocks() {
    let coco = empty_coco();
    let eval = COCOEval::new(&coco);
    // Two categories, one area range, one image each.
    let matches = vec![
        Some((ten_rows(vec![]), ten_rows(vec![false]))),
        Some((ten_rows(vec![]), ten_rows(vec![true, true]))),
    ];
    let sums = eval.accumulate(&matches, 2, 1, 1).unwrap();
    assert_eq!(sums.len(), 6);
    assert_eq!(sums[0].0[0], vec![0]);
    assert_eq!(sums[3].0[0], vec![1]);
    assert_eq!(sums[4].0[0], vec![1, 2]);
    let with_gap = vec![None, Some((ten_rows(vec![]), ten_rows(vec![true])))];
    let sums = eval.accumulate(&with_gap, 1, 1, 2).unwrap();
    assert_eq!(sums[0].0[0], vec![1]);
}

#[test]
fn accumulate_fails_on_a_block_without_matches() {
    let coco = empty_coco();
    let eval = COCOEval::new(&coco);
    let matches = vec![Some((ten_rows(vec![]), ten_rows(vec![true]))), None];
    assert!(eval.accumulate(&matches, 2, 1, 1).is_none());
}

#[test]
fn start_evaluation_needs_predictions() {
    let images = vec![COCOImage {
        license: None,
        filename: None,
        coco_url: None,
        height: 1,
        width: 1,
        data_captured: None,
        flickr_url: None,
        id: 8,
    }];
    let categories = vec![COCOCategory { supercategory: String::new(), id: 3, name: String::new() }];
    let mut coco = COCO::new(String::new(), COCODetection::new(images, Vec::new(), categories));
    {
        let mut eval = COCOEval::new(&coco);
        assert!(eval.start_evaluation().is_none());
        assert!(eval.evaluation_parameters.image_ids().is_none());
    }
    coco.load_coco_predictions(COCOPredictions { predictions: Vec::new() });
    let mut eval = COCOEval::new(&coco);
    assert!(eval.start_evaluation().is_some());
    assert_eq!(eval.evaluation_parameters.image_ids(), Some([8u32].as_slice()));
    assert_eq!(eval.evaluation_parameters.category_ids(), Some([3u32].as_slice()));
}
