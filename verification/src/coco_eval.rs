//! Detection evaluation: the greedy matching of detections to ground
//! truths, and the running counts of true and false positives.
//!
//! The overlap measures themselves are floating point and are computed by
//! the caller; here a detection and a ground truth are *candidates* for one
//! another at a threshold when their overlap reaches the threshold and the
//! detection's area lies in the area range under evaluation.

use std::collections::HashMap;

use vstd::prelude::*;

use crate::coco::COCO;
use crate::coco_types::{COCOPredictions, category_ids_of, image_ids_of};
use crate::seq_spec::{count_true, deref_opt, grouped, somes};

verus! {

broadcast use vstd::std_specs::hash::group_hash_axioms;

/// The first ground truth, from position `g` on, that is a candidate in `row`
/// and not yet matched in `matched`.
pub open spec fn first_free_from(row: Seq<bool>, matched: Seq<bool>, g: int) -> Option<int>
    decreases row.len() - g,
{
    if g < 0 || g >= row.len() {
        None
    } else if row[g] && !matched[g] {
        Some(g)
    } else {
        first_free_from(row, matched, g + 1)
    }
}

/// The first free candidate ground truth of a detection's row.
pub open spec fn first_free(row: Seq<bool>, matched: Seq<bool>) -> Option<int> {
    first_free_from(row, matched, 0)
}

/// Which ground truths are matched after the first `k` detections of
/// `candidates` have been processed in order.
pub open spec fn matched_after(candidates: Seq<Seq<bool>>, num_gt: nat, k: int) -> Seq<bool>
    decreases k,
{
    if k <= 0 {
        Seq::new(num_gt, |g: int| false)
    } else {
        let m = matched_after(candidates, num_gt, k - 1);
        match first_free(candidates[k - 1], m) {
            Some(g) => m.update(g, true),
            None => m,
        }
    }
}

/// Whether detection `d` is matched: it is when, after the detections before
/// it, some candidate ground truth is still free.
pub open spec fn detection_matched(candidates: Seq<Seq<bool>>, num_gt: nat, d: int) -> bool {
    first_free(candidates[d], matched_after(candidates, num_gt, d)) is Some
}

/// The number of detections that are evaluated: at most `max_detections`.
pub open spec fn evaluated_count(num_detections: int, max_detections: u8) -> int {
    if (max_detections as int) < num_detections {
        max_detections as int
    } else {
        num_detections
    }
}

/// The rows of `candidates` have `num_gt` entries each.
pub open spec fn rows_have_len(candidates: Seq<Seq<bool>>, num_gt: nat) -> bool {
    forall|d: int| 0 <= d < candidates.len() ==> #[trigger] candidates[d].len() == num_gt
}

/// The first free candidate is a free candidate, and none before it is.
pub proof fn lemma_first_free_from(row: Seq<bool>, matched: Seq<bool>, g: int)
    requires
        0 <= g,
        matched.len() == row.len(),
    ensures
        match first_free_from(row, matched, g) {
            Some(x) => g <= x < row.len() && row[x] && !matched[x] && forall|y: int|
                g <= y < x ==> !(row[y] && !matched[y]),
            None => forall|y: int| g <= y < row.len() ==> !(row[y] && !matched[y]),
        },
    decreases row.len() - g,
{
    if g < row.len() && !(row[g] && !matched[g]) {
        lemma_first_free_from(row, matched, g + 1);
    }
}

/// The matched ground truths always number `num_gt`.
pub proof fn lemma_matched_after_len(candidates: Seq<Seq<bool>>, num_gt: nat, k: int)
    requires
        rows_have_len(candidates, num_gt),
        k <= candidates.len(),
    ensures
        matched_after(candidates, num_gt, k).len() == num_gt,
    decreases k,
{
    if k > 0 {
        lemma_matched_after_len(candidates, num_gt, k - 1);
        lemma_first_free_from(candidates[k - 1], matched_after(candidates, num_gt, k - 1), 0);
    }
}

/// The number of `true` entries grows by one when a `false` entry is set.
proof fn lemma_count_true_update(s: Seq<bool>, g: int, n: int)
    requires
        0 <= g < s.len(),
        !s[g],
        0 <= n <= s.len(),
    ensures
        count_true(s.update(g, true), n) == count_true(s, n) + if g < n {
            1nat
        } else {
            0nat
        },
    decreases n,
{
    if n > 0 {
        lemma_count_true_update(s, g, n - 1);
    }
}

/// Greedy matching pairs detections and ground truths one to one: after the
/// first `k` detections, the number of matched ground truths equals the
/// number of matched detections.
pub proof fn law_matching_is_one_to_one(candidates: Seq<Seq<bool>>, num_gt: nat, k: int)
    requires
        rows_have_len(candidates, num_gt),
        0 <= k <= candidates.len(),
    ensures
        count_true(matched_after(candidates, num_gt, k), num_gt as int) == count_true(
            Seq::new(k as nat, |d: int| detection_matched(candidates, num_gt, d)),
            k,
        ),
    decreases k,
{
    let flags = Seq::new(k as nat, |d: int| detection_matched(candidates, num_gt, d));
    if k == 0 {
        lemma_count_true_all_false(num_gt, num_gt as int);
    } else {
        law_matching_is_one_to_one(candidates, num_gt, k - 1);
        let prev_flags = Seq::new((k - 1) as nat, |d: int| detection_matched(candidates, num_gt, d));
        lemma_count_true_prefix(prev_flags, flags, k - 1);
        let m = matched_after(candidates, num_gt, k - 1);
        lemma_matched_after_len(candidates, num_gt, k - 1);
        lemma_first_free_from(candidates[k - 1], m, 0);
        match first_free(candidates[k - 1], m) {
            Some(g) => {
                lemma_count_true_update(m, g, num_gt as int);
            },
            None => {},
        }
    }
}

/// Once matched, a ground truth stays matched while later detections are
/// processed.
pub proof fn law_matches_are_kept(candidates: Seq<Seq<bool>>, num_gt: nat, k: int, k2: int, g: int)
    requires
        rows_have_len(candidates, num_gt),
        0 <= k <= k2 <= candidates.len(),
        0 <= g < num_gt,
        matched_after(candidates, num_gt, k)[g],
    ensures
        matched_after(candidates, num_gt, k2)[g],
    decreases k2 - k,
{
    if k < k2 {
        let m = matched_after(candidates, num_gt, k);
        lemma_matched_after_len(candidates, num_gt, k);
        lemma_first_free_from(candidates[k], m, 0);
        assert(matched_after(candidates, num_gt, k + 1)[g]);
        law_matches_are_kept(candidates, num_gt, k + 1, k2, g);
    }
}

/// A matched ground truth was taken by a detection that has it as a
/// candidate and that is itself matched.
pub proof fn law_matched_ground_truth_has_matched_detection(
    candidates: Seq<Seq<bool>>,
    num_gt: nat,
    k: int,
    g: int,
)
    requires
        rows_have_len(candidates, num_gt),
        0 <= k <= candidates.len(),
        0 <= g < num_gt,
        matched_after(candidates, num_gt, k)[g],
    ensures
        exists|d: int|
            0 <= d < k && #[trigger] candidates[d][g] && detection_matched(candidates, num_gt, d),
    decreases k,
{
    if k == 0 {
        assert(!matched_after(candidates, num_gt, 0)[g]);
    } else {
        let m = matched_after(candidates, num_gt, k - 1);
        lemma_matched_after_len(candidates, num_gt, k - 1);
        lemma_first_free_from(candidates[k - 1], m, 0);
        match first_free(candidates[k - 1], m) {
            Some(x) => {
                if x == g {
                    assert(candidates[k - 1][g] && detection_matched(candidates, num_gt, k - 1));
                } else {
                    assert(m[g]);
                    law_matched_ground_truth_has_matched_detection(candidates, num_gt, k - 1, g);
                }
            },
            None => {
                law_matched_ground_truth_has_matched_detection(candidates, num_gt, k - 1, g);
            },
        }
    }
}

/// A detection is left unmatched only when each of its candidate ground
/// truths was already taken by an earlier detection; such a ground truth
/// stays matched.
pub proof fn law_unmatched_detection_finds_candidates_taken(
    candidates: Seq<Seq<bool>>,
    num_gt: nat,
    d: int,
    g: int,
    k: int,
)
    requires
        rows_have_len(candidates, num_gt),
        0 <= d < k <= candidates.len(),
        0 <= g < num_gt,
        candidates[d][g],
        !detection_matched(candidates, num_gt, d),
    ensures
        matched_after(candidates, num_gt, d)[g],
        matched_after(candidates, num_gt, k)[g],
{
    let m = matched_after(candidates, num_gt, d);
    lemma_matched_after_len(candidates, num_gt, d);
    lemma_first_free_from(candidates[d], m, 0);
    assert(m[g]);
    law_matches_are_kept(candidates, num_gt, d, k, g);
}

/// Counting over the first `n` entries only looks at those entries.
proof fn lemma_count_true_prefix(s: Seq<bool>, t: Seq<bool>, n: int)
    requires
        0 <= n <= s.len(),
        n <= t.len(),
        forall|i: int| 0 <= i < n ==> s[i] == t[i],
    ensures
        count_true(s, n) == count_true(t, n),
    decreases n,
{
    if n > 0 {
        lemma_count_true_prefix(s, t, n - 1);
    }
}

/// No entry of an all-`false` sequence is counted.
proof fn lemma_count_true_all_false(len: nat, n: int)
    requires
        n <= len,
    ensures
        count_true(Seq::new(len, |g: int| false), n) == 0,
    decreases n,
{
    if n > 0 {
        lemma_count_true_all_false(len, n - 1);
    }
}

/// The rows of a matrix, each taken by its view.
pub open spec fn rows_view(m: Seq<Vec<bool>>) -> Seq<Seq<bool>> {
    m.map_values(|r: Vec<bool>| r@)
}

/// The parameters of an evaluation.
///
/// Thresholds are kept exactly, in hundredths: an IoU threshold of `55`
/// stands for 0.55. Area ranges are in square pixels.
pub struct COCOEvalParams {
    iou_thresholds: Vec<u32>,
    recall_thresholds: Vec<u32>,
    max_detections: Vec<u8>,
    area_ranges: Vec<(u64, u64)>,
    use_categories: bool,
    image_ids: Option<Vec<u32>>,
    category_ids: Option<Vec<u32>>,
}

/// The abstract content of [`COCOEvalParams`].
pub struct COCOEvalParamsView {
    pub iou_thresholds: Seq<u32>,
    pub recall_thresholds: Seq<u32>,
    pub max_detections: Seq<u8>,
    pub area_ranges: Seq<(u64, u64)>,
    pub use_categories: bool,
    pub image_ids: Option<Seq<u32>>,
    pub category_ids: Option<Seq<u32>>,
}

/// The view of an optional vector.
pub open spec fn opt_vec_view(o: Option<Vec<u32>>) -> Option<Seq<u32>> {
    match o {
        Some(v) => Some(v@),
        None => None,
    }
}

impl View for COCOEvalParams {
    type V = COCOEvalParamsView;

    closed spec fn view(&self) -> COCOEvalParamsView {
        COCOEvalParamsView {
            iou_thresholds: self.iou_thresholds@,
            recall_thresholds: self.recall_thresholds@,
            max_detections: self.max_detections@,
            area_ranges: self.area_ranges@,
            use_categories: self.use_categories,
            image_ids: opt_vec_view(self.image_ids),
            category_ids: opt_vec_view(self.category_ids),
        }
    }
}

/// The IoU thresholds 0.50, 0.55, ..., 0.95, in hundredths.
pub open spec fn default_iou_thresholds() -> Seq<u32> {
    Seq::new(10, |i: int| (50 + 5 * i) as u32)
}

/// The recall thresholds 0.00, 0.01, ..., 1.00, in hundredths.
pub open spec fn default_recall_thresholds() -> Seq<u32> {
    Seq::new(101, |i: int| i as u32)
}

/// The area ranges all, small, medium and large: [0, 1e5²], [0, 32²],
/// [32², 96²] and [96², 1e5²].
pub open spec fn default_area_ranges() -> Seq<(u64, u64)> {
    seq![(0u64, 10000000000u64), (0u64, 1024u64), (1024u64, 9216u64), (9216u64, 10000000000u64)]
}

impl COCOEvalParams {
    /// The standard COCO parameters, with no image or category selection.
    pub fn new() -> (p: COCOEvalParams)
        ensures
            p@.iou_thresholds == default_iou_thresholds(),
            p@.recall_thresholds == default_recall_thresholds(),
            p@.max_detections == seq![1u8, 10u8, 100u8],
            p@.area_ranges == default_area_ranges(),
            p@.use_categories,
            p@.image_ids is None,
            p@.category_ids is None,
    {
        let mut iou_thresholds: Vec<u32> = Vec::with_capacity(10);
        let mut t: u32 = 0;
        while t < 10
            invariant
                t <= 10,
                iou_thresholds@ == default_iou_thresholds().take(t as int),
            decreases 10 - t,
        {
            iou_thresholds.push(50 + 5 * t);
            t = t + 1;
            proof {
                assert(iou_thresholds@ =~= default_iou_thresholds().take(t as int));
            }
        }
        let mut recall_thresholds: Vec<u32> = Vec::with_capacity(101);
        let mut r: u32 = 0;
        while r < 101
            invariant
                r <= 101,
                recall_thresholds@ == default_recall_thresholds().take(r as int),
            decreases 101 - r,
        {
            recall_thresholds.push(r);
            r = r + 1;
            proof {
                assert(recall_thresholds@ =~= default_recall_thresholds().take(r as int));
            }
        }
        proof {
            assert(default_iou_thresholds().take(10) =~= default_iou_thresholds());
            assert(default_recall_thresholds().take(101) =~= default_recall_thresholds());
        }
        let max_detections: Vec<u8> = vec![1, 10, 100];
        let area_ranges: Vec<(u64, u64)> = vec![
            (0, 10000000000),
            (0, 1024),
            (1024, 9216),
            (9216, 10000000000),
        ];
        proof {
            assert(max_detections@ =~= seq![1u8, 10u8, 100u8]);
            assert(area_ranges@ =~= default_area_ranges());
        }
        COCOEvalParams {
            iou_thresholds,
            recall_thresholds,
            max_detections,
            area_ranges,
            use_categories: true,
            image_ids: None,
            category_ids: None,
        }
    }

    /// Restricts the evaluation to the images `image_ids`.
    pub fn set_image_ids(&mut self, image_ids: Vec<u32>)
        ensures
            final(self)@ == (COCOEvalParamsView { image_ids: Some(image_ids@), ..old(self)@ }),
    {
        self.image_ids = Some(image_ids);
    }

    /// Restricts the evaluation to the categories `category_ids`.
    pub fn set_category_ids(&mut self, category_ids: Vec<u32>)
        ensures
            final(self)@ == (COCOEvalParamsView { category_ids: Some(category_ids@), ..old(self)@ }),
    {
        self.category_ids = Some(category_ids);
    }

    /// The IoU thresholds, in hundredths.
    pub fn iou_thresholds(&self) -> (r: &[u32])
        ensures
            r@ == self@.iou_thresholds,
    {
        self.iou_thresholds.as_slice()
    }

    /// The recall thresholds, in hundredths.
    pub fn recall_thresholds(&self) -> (r: &[u32])
        ensures
            r@ == self@.recall_thresholds,
    {
        self.recall_thresholds.as_slice()
    }

    /// The numbers of detections per image to evaluate.
    pub fn max_detections(&self) -> (r: &[u8])
        ensures
            r@ == self@.max_detections,
    {
        self.max_detections.as_slice()
    }

    /// The area ranges, in square pixels.
    pub fn area_ranges(&self) -> (r: &[(u64, u64)])
        ensures
            r@ == self@.area_ranges,
    {
        self.area_ranges.as_slice()
    }

    /// Whether detections are matched within categories.
    pub fn use_categories(&self) -> (r: bool)
        ensures
            r == self@.use_categories,
    {
        self.use_categories
    }

    /// The images selected, if a selection was made.
    pub fn image_ids(&self) -> (r: Option<&[u32]>)
        ensures
            crate::seq_spec::opt_view(r) == self@.image_ids,
    {
        match &self.image_ids {
            Some(v) => Some(v.as_slice()),
            None => None,
        }
    }

    /// The categories selected, if a selection was made.
    pub fn category_ids(&self) -> (r: Option<&[u32]>)
        ensures
            crate::seq_spec::opt_view(r) == self@.category_ids,
    {
        match &self.category_ids {
            Some(v) => Some(v.as_slice()),
            None => None,
        }
    }
}

/// An evaluation of the predictions loaded into a dataset.
pub struct COCOEval<'a> {
    pub evaluation_parameters: COCOEvalParams,
    coco_dataset: &'a COCO,
}

impl<'a> COCOEval<'a> {
    /// The parameters of the evaluation.
    pub closed spec fn params(&self) -> COCOEvalParamsView {
        self.evaluation_parameters@
    }

    /// The dataset under evaluation.
    pub closed spec fn dataset_ref(&self) -> &'a COCO {
        self.coco_dataset
    }

    /// An evaluation of `coco_dataset` with the standard parameters.
    pub fn new(coco_dataset: &'a COCO) -> (e: COCOEval<'a>)
        ensures
            e.dataset_ref() == coco_dataset,
            e.params().iou_thresholds == default_iou_thresholds(),
            e.params().recall_thresholds == default_recall_thresholds(),
            e.params().max_detections == seq![1u8, 10u8, 100u8],
            e.params().area_ranges == default_area_ranges(),
            e.params().use_categories,
            e.params().image_ids is None,
            e.params().category_ids is None,
    {
        COCOEval { evaluation_parameters: COCOEvalParams::new(), coco_dataset }
    }

    /// The dataset under evaluation.
    pub fn coco_dataset(&self) -> (r: &'a COCO)
        ensures
            r == self.dataset_ref(),
    {
        self.coco_dataset
    }

    /// Greedy matching at each IoU threshold.
    ///
    /// `candidates[t][d][g]` says whether detection `d` may match ground
    /// truth `g` at threshold `t`. Only the first `max_detections`
    /// detections are taken; each, in order, is matched to the first
    /// candidate ground truth not matched before. The result gives, per
    /// threshold, the matched ground truths and the matched detections.
    pub fn get_matches(
        &self,
        candidates: &Vec<Vec<Vec<bool>>>,
        num_gt: usize,
        max_detections: u8,
    ) -> (r: (Vec<Vec<bool>>, Vec<Vec<bool>>))
        requires
            candidates@.len() == self.params().iou_thresholds.len(),
            forall|t: int|
                0 <= t < candidates@.len() ==> rows_have_len(
                    rows_view(#[trigger] candidates@[t]@),
                    num_gt as nat,
                ),
        ensures
            r.0@.len() == candidates@.len(),
            r.1@.len() == candidates@.len(),
            forall|t: int|
                0 <= t < candidates@.len() ==> {
                    let rows = rows_view(#[trigger] candidates@[t]@);
                    let end = evaluated_count(rows.len() as int, max_detections);
                    &&& r.0@[t]@ == matched_after(rows, num_gt as nat, end)
                    &&& r.1@[t]@ == Seq::new(
                        end as nat,
                        |d: int| detection_matched(rows, num_gt as nat, d),
                    )
                },
    {
        let mut gt_matches: Vec<Vec<bool>> = Vec::with_capacity(candidates.len());
        let mut det_matches: Vec<Vec<bool>> = Vec::with_capacity(candidates.len());
        let mut t: usize = 0;
        while t < candidates.len()
            invariant
                t <= candidates@.len(),
                forall|u: int|
                    0 <= u < candidates@.len() ==> rows_have_len(
                        rows_view(#[trigger] candidates@[u]@),
                        num_gt as nat,
                    ),
                gt_matches@.len() == t,
                det_matches@.len() == t,
                forall|u: int|
                    0 <= u < t ==> {
                        let rows = rows_view(#[trigger] candidates@[u]@);
                        let end = evaluated_count(rows.len() as int, max_detections);
                        &&& gt_matches@[u]@ == matched_after(rows, num_gt as nat, end)
                        &&& det_matches@[u]@ == Seq::new(
                            end as nat,
                            |d: int| detection_matched(rows, num_gt as nat, d),
                        )
                    },
            decreases candidates@.len() - t,
        {
            let (gt_row, det_row) = match_at_threshold(&candidates[t], num_gt, max_detections);
            gt_matches.push(gt_row);
            det_matches.push(det_row);
            t = t + 1;
        }
        (gt_matches, det_matches)
    }
}

/// Greedy matching at one threshold: the matched ground truths and the
/// matched detections among the first `max_detections`.
fn match_at_threshold(rows: &Vec<Vec<bool>>, num_gt: usize, max_detections: u8) -> (r: (
    Vec<bool>,
    Vec<bool>,
))
    requires
        rows_have_len(rows_view(rows@), num_gt as nat),
    ensures
        ({
            let cands = rows_view(rows@);
            let end = evaluated_count(cands.len() as int, max_detections);
            &&& r.0@ == matched_after(cands, num_gt as nat, end)
            &&& r.1@ == Seq::new(end as nat, |d: int| detection_matched(cands, num_gt as nat, d))
        }),
{
    let ghost cands = rows_view(rows@);
    let end: usize = if (max_detections as usize) < rows.len() {
        max_detections as usize
    } else {
        rows.len()
    };
    let mut gt_row: Vec<bool> = Vec::with_capacity(num_gt);
    let mut g: usize = 0;
    while g < num_gt
        invariant
            g <= num_gt,
            gt_row@ == Seq::new(g as nat, |x: int| false),
        decreases num_gt - g,
    {
        gt_row.push(false);
        g = g + 1;
        proof {
            assert(gt_row@ =~= Seq::new(g as nat, |x: int| false));
        }
    }
    proof {
        assert(gt_row@ =~= matched_after(cands, num_gt as nat, 0));
    }
    let mut det_row: Vec<bool> = Vec::with_capacity(end);
    let mut d: usize = 0;
    while d < end
        invariant
            end <= rows@.len(),
            end == evaluated_count(cands.len() as int, max_detections),
            cands == rows_view(rows@),
            rows_have_len(cands, num_gt as nat),
            d <= end,
            gt_row@ == matched_after(cands, num_gt as nat, d as int),
            det_row@ == Seq::new(d as nat, |x: int| detection_matched(cands, num_gt as nat, x)),
        decreases end - d,
    {
        let row = &rows[d];
        proof {
            lemma_matched_after_len(cands, num_gt as nat, d as int);
            assert(row@ == cands[d as int]);
            assert(row@.len() == num_gt);
        }
        let mut matched_gt_idx: Option<usize> = None;
        let mut gt_idx: usize = 0;
        while gt_idx < num_gt && matched_gt_idx.is_none()
            invariant
                row@.len() == num_gt,
                gt_row@.len() == num_gt,
                gt_idx <= num_gt,
                matched_gt_idx is None ==> first_free_from(row@, gt_row@, 0) == first_free_from(
                    row@,
                    gt_row@,
                    gt_idx as int,
                ),
                matched_gt_idx matches Some(x) ==> first_free_from(row@, gt_row@, 0) == Some(
                    x as int,
                ),
            decreases num_gt - gt_idx + if matched_gt_idx is None {
                1int
            } else {
                0int
            },
        {
            if row[gt_idx] && !gt_row[gt_idx] {
                matched_gt_idx = Some(gt_idx);
            } else {
                gt_idx = gt_idx + 1;
            }
        }
        let ghost before = gt_row@;
        proof {
            lemma_first_free_from(row@, gt_row@, 0);
            if matched_gt_idx is None {
                assert(first_free_from(row@, gt_row@, gt_idx as int) is None);
            }
        }
        match matched_gt_idx {
            Some(x) => {
                gt_row.set(x, true);
                det_row.push(true);
            },
            None => {
                det_row.push(false);
            },
        }
        d = d + 1;
        proof {
            assert(gt_row@ =~= matched_after(cands, num_gt as nat, d as int));
            assert(det_row@ =~= Seq::new(
                d as nat,
                |x: int| detection_matched(cands, num_gt as nat, x),
            ));
        }
    }
    (gt_row, det_row)
}

/// The running counts of a row: entry `c` is the number of `true` entries
/// among the first `c + 1`.
pub open spec fn running_counts(row: Seq<bool>) -> Seq<u64> {
    Seq::new(row.len(), |c: int| count_true(row, c + 1) as u64)
}

/// The number of `true` entries among the first `n` never exceeds `n`.
pub proof fn lemma_count_true_bounded(s: Seq<bool>, n: int)
    requires
        0 <= n <= s.len(),
    ensures
        count_true(s, n) <= n,
    decreases n,
{
    if n > 0 {
        lemma_count_true_bounded(s, n - 1);
    }
}

/// Running count of `true` entries along each row.
pub fn cumsum_axis1(mask: &Vec<Vec<bool>>) -> (out: Vec<Vec<u64>>)
    ensures
        out@.len() == mask@.len(),
        forall|r: int| 0 <= r < mask@.len() ==> #[trigger] out@[r]@ == running_counts(mask@[r]@),
{
    let mut out: Vec<Vec<u64>> = Vec::with_capacity(mask.len());
    let mut r: usize = 0;
    while r < mask.len()
        invariant
            r <= mask@.len(),
            out@.len() == r,
            forall|q: int| 0 <= q < r ==> #[trigger] out@[q]@ == running_counts(mask@[q]@),
        decreases mask@.len() - r,
    {
        let mask_row = &mask[r];
        let mut out_row: Vec<u64> = Vec::with_capacity(mask_row.len());
        let mut acc: u64 = 0;
        let mut c: usize = 0;
        while c < mask_row.len()
            invariant
                c <= mask_row@.len(),
                acc == count_true(mask_row@, c as int),
                out_row@ == running_counts(mask_row@).take(c as int),
            decreases mask_row@.len() - c,
        {
            proof {
                lemma_count_true_bounded(mask_row@, c + 1);
            }
            if mask_row[c] {
                acc = acc + 1;
            }
            out_row.push(acc);
            c = c + 1;
            proof {
                assert(out_row@ =~= running_counts(mask_row@).take(c as int));
            }
        }
        proof {
            assert(running_counts(mask_row@).take(c as int) =~= running_counts(mask_row@));
        }
        out.push(out_row);
        r = r + 1;
    }
    out
}

/// The negation of each entry of a matrix.
pub fn negate_mask(mask: &Vec<Vec<bool>>) -> (out: Vec<Vec<bool>>)
    ensures
        out@.len() == mask@.len(),
        forall|r: int|
            0 <= r < mask@.len() ==> #[trigger] out@[r]@ == mask@[r]@.map_values(|b: bool| !b),
{
    let mut out: Vec<Vec<bool>> = Vec::with_capacity(mask.len());
    let mut r: usize = 0;
    while r < mask.len()
        invariant
            r <= mask@.len(),
            out@.len() == r,
            forall|q: int|
                0 <= q < r ==> #[trigger] out@[q]@ == mask@[q]@.map_values(|b: bool| !b),
        decreases mask@.len() - r,
    {
        let row = &mask[r];
        let mut out_row: Vec<bool> = Vec::with_capacity(row.len());
        let mut c: usize = 0;
        while c < row.len()
            invariant
                c <= row@.len(),
                out_row@ == row@.map_values(|b: bool| !b).take(c as int),
            decreases row@.len() - c,
        {
            out_row.push(!row[c]);
            c = c + 1;
            proof {
                assert(out_row@ =~= row@.map_values(|b: bool| !b).take(c as int));
            }
        }
        proof {
            assert(row@.map_values(|b: bool| !b).take(c as int) =~= row@.map_values(|b: bool| !b));
        }
        out.push(out_row);
        r = r + 1;
    }
    out
}

/// The first `max_det` entries of a row (all of them when it is shorter).
pub open spec fn truncated(row: Seq<bool>, max_det: int) -> Seq<bool> {
    if row.len() < max_det {
        row
    } else {
        row.take(max_det)
    }
}

/// Row `t` of the concatenation of `parts`, each truncated to `max_det` columns.
pub open spec fn concatenated_row(parts: Seq<Seq<Seq<bool>>>, t: int, max_det: int) -> Seq<bool> {
    parts.map_values(|p: Seq<Seq<bool>>| truncated(p[t], max_det)).flatten()
}

/// The views of a list of matrices.
pub open spec fn matrices_view(parts: Seq<&Vec<Vec<bool>>>) -> Seq<Seq<Seq<bool>>> {
    parts.map_values(|p: &Vec<Vec<bool>>| rows_view(p@))
}

/// Joins matrices side by side after keeping the first `max_det` columns of
/// each. The matrices must be given and must have the same number of rows.
pub fn concatenate_truncated(parts: &Vec<&Vec<Vec<bool>>>, max_det: usize) -> (out: Vec<
    Vec<bool>,
>)
    requires
        parts@.len() > 0,
        forall|p: int| 0 <= p < parts@.len() ==> #[trigger] parts@[p]@.len() == parts@[0]@.len(),
    ensures
        out@.len() == parts@[0]@.len(),
        forall|t: int|
            0 <= t < out@.len() ==> #[trigger] out@[t]@ == concatenated_row(
                matrices_view(parts@),
                t,
                max_det as int,
            ),
{
    let ghost mats = matrices_view(parts@);
    let n_rows = parts[0].len();
    let mut out: Vec<Vec<bool>> = Vec::with_capacity(n_rows);
    let mut t: usize = 0;
    while t < n_rows
        invariant
            n_rows == parts@[0]@.len(),
            mats == matrices_view(parts@),
            forall|p: int| 0 <= p < parts@.len() ==> #[trigger] parts@[p]@.len() == n_rows,
            t <= n_rows,
            out@.len() == t,
            forall|u: int|
                0 <= u < t ==> #[trigger] out@[u]@ == concatenated_row(mats, u, max_det as int),
        decreases n_rows - t,
    {
        let ghost pieces = mats.map_values(|p: Seq<Seq<bool>>| truncated(p[t as int], max_det as int));
        let mut row: Vec<bool> = Vec::new();
        let mut p: usize = 0;
        while p < parts.len()
            invariant
                mats == matrices_view(parts@),
                forall|q: int| 0 <= q < parts@.len() ==> #[trigger] parts@[q]@.len() == n_rows,
                t < n_rows,
                p <= parts@.len(),
                pieces == mats.map_values(|m: Seq<Seq<bool>>| truncated(m[t as int], max_det as int)),
                row@ == pieces.take(p as int).flatten(),
            decreases parts@.len() - p,
        {
            let part_row = &parts[p][t];
            let end = if part_row.len() < max_det {
                part_row.len()
            } else {
                max_det
            };
            let ghost before = row@;
            let mut c: usize = 0;
            while c < end
                invariant
                    end <= part_row@.len(),
                    c <= end,
                    row@ == before + part_row@.take(c as int),
                decreases end - c,
            {
                row.push(part_row[c]);
                c = c + 1;
                proof {
                    assert(row@ =~= before + part_row@.take(c as int));
                }
            }
            proof {
                assert(mats[p as int] == rows_view(parts@[p as int]@));
                assert(mats[p as int][t as int] == part_row@);
                assert(part_row@.take(end as int) =~= pieces[p as int]);
                assert(pieces.take(p + 1) =~= pieces.take(p as int).push(pieces[p as int]));
                pieces.take(p as int).lemma_flatten_push(pieces[p as int]);
            }
            p = p + 1;
        }
        proof {
            assert(pieces.take(parts@.len() as int) =~= pieces);
        }
        out.push(row);
        t = t + 1;
    }
    out
}

/// True and false positives account for every detection: at each position,
/// the running count of a row plus that of its negation is the number of
/// entries so far.
pub proof fn law_true_and_false_positives_add_up(row: Seq<bool>, c: int)
    requires
        0 <= c < row.len(),
        row.len() <= u64::MAX,
    ensures
        running_counts(row)[c] + running_counts(row.map_values(|b: bool| !b))[c] == c + 1,
{
    lemma_count_true_negation(row, c + 1);
    lemma_count_true_bounded(row, c + 1);
    lemma_count_true_bounded(row.map_values(|b: bool| !b), c + 1);
}

/// Among the first `n` entries, those of `row` that are `true` and those of
/// its negation that are `true` together number `n`.
proof fn lemma_count_true_negation(row: Seq<bool>, n: int)
    requires
        0 <= n <= row.len(),
    ensures
        count_true(row, n) + count_true(row.map_values(|b: bool| !b), n) == n,
    decreases n,
{
    if n > 0 {
        lemma_count_true_negation(row, n - 1);
    }
}

/// The content of a two-level table, keyed by pairs.
pub open spec fn pair_table_view(m: Map<u32, HashMap<u32, Vec<usize>>>) -> Map<
    (u32, u32),
    Seq<usize>,
> {
    Map::new(
        |k: (u32, u32)| m.contains_key(k.0) && m[k.0]@.contains_key(k.1),
        |k: (u32, u32)| m[k.0]@[k.1]@,
    )
}

/// The pairs `((image_ids[i], category_ids[i]), i)`, in order.
pub open spec fn keyed_positions(image_ids: Seq<u32>, category_ids: Seq<u32>) -> Seq<
    ((u32, u32), usize),
> {
    Seq::new(image_ids.len(), |i: int| ((image_ids[i], category_ids[i]), i as usize))
}

/// Groups positions by (image id, category id): for each pair that occurs,
/// the positions where it occurs, in increasing order.
pub fn group_by_image_and_category(image_ids: &[u32], category_ids: &[u32]) -> (table: HashMap<
    u32,
    HashMap<u32, Vec<usize>>,
>)
    requires
        image_ids@.len() == category_ids@.len(),
    ensures
        pair_table_view(table@) == grouped(keyed_positions(image_ids@, category_ids@)),
{
    let ghost pairs = keyed_positions(image_ids@, category_ids@);
    let mut table: HashMap<u32, HashMap<u32, Vec<usize>>> = HashMap::new();
    let mut i: usize = 0;
    while i < image_ids.len()
        invariant
            i <= image_ids@.len(),
            image_ids@.len() == category_ids@.len(),
            pairs == keyed_positions(image_ids@, category_ids@),
            pair_table_view(table@) == grouped(pairs.take(i as int)),
        decreases image_ids@.len() - i,
    {
        let img = image_ids[i];
        let cat = category_ids[i];
        let ghost before = table@;
        let ghost g = grouped(pairs.take(i as int));
        let mut inner = match table.remove(&img) {
            Some(m) => m,
            None => HashMap::new(),
        };
        let ghost inner_before = inner@;
        let mut list = match inner.remove(&cat) {
            Some(l) => l,
            None => Vec::new(),
        };
        let ghost list_before = list@;
        list.push(i);
        inner.insert(cat, list);
        table.insert(img, inner);
        proof {
            assert(pairs.take(i + 1) =~= pairs.take(i as int).push(((img, cat), i)));
            assert(pairs.take(i + 1).drop_last() =~= pairs.take(i as int));
            let prev = if g.contains_key((img, cat)) {
                g[(img, cat)]
            } else {
                Seq::empty()
            };
            assert(list_before == prev);
            assert(pair_table_view(table@) =~= g.insert((img, cat), prev.push(i)));
        }
        i = i + 1;
    }
    proof {
        assert(pairs.take(image_ids@.len() as int) =~= pairs);
    }
    table
}

/// The matches of one (image, category) pair at one area range: matched
/// ground truths and matched detections, per IoU threshold.
pub open spec fn detection_rows_opt(o: Option<(Vec<Vec<bool>>, Vec<Vec<bool>>)>) -> Option<
    Seq<Seq<bool>>,
> {
    match o {
        Some(p) => Some(rows_view(p.1@)),
        None => None,
    }
}

/// The detection matches of the images of block `(c, a)` (category `c`,
/// area range `a`) of `matches`, skipping images without matches.
pub open spec fn block_rows(
    matches: Seq<Option<(Vec<Vec<bool>>, Vec<Vec<bool>>)>>,
    c: int,
    a: int,
    n_areas: int,
    n_images: int,
) -> Seq<Seq<Seq<bool>>> {
    let start = (c * n_areas + a) * n_images;
    somes(matches.subrange(start, start + n_images).map_values(
        |o: Option<(Vec<Vec<bool>>, Vec<Vec<bool>>)>| detection_rows_opt(o),
    ))
}

/// The position of entry `(c, a, m)` in a table laid out category by
/// category, then area range by area range, then detection limit by limit.
pub open spec fn flat_index(c: int, a: int, m: int, n_areas: int, n_limits: int) -> int {
    (c * n_areas + a) * n_limits + m
}

/// The running counts of true positives and of false positives over the
/// concatenated detection rows of `parts`, each truncated to `max_det`.
pub open spec fn tp_fp_counts(parts: Seq<Seq<Seq<bool>>>, rows: nat, max_det: int) -> (
    Seq<Seq<u64>>,
    Seq<Seq<u64>>,
) {
    (
        Seq::new(rows, |t: int| running_counts(concatenated_row(parts, t, max_det))),
        Seq::new(
            rows,
            |t: int| running_counts(concatenated_row(parts, t, max_det).map_values(|b: bool| !b)),
        ),
    )
}

/// The content of a pair of count matrices.
pub open spec fn counts_view(e: (Vec<Vec<u64>>, Vec<Vec<u64>>)) -> (Seq<Seq<u64>>, Seq<Seq<u64>>) {
    (e.0@.map_values(|r: Vec<u64>| r@), e.1@.map_values(|r: Vec<u64>| r@))
}

/// Entries that come before `(c, a, m)` come before it in the flat layout.
proof fn lemma_flat_index_order(
    c1: int,
    a1: int,
    m1: int,
    c: int,
    a: int,
    m: int,
    n_areas: int,
    n_limits: int,
)
    requires
        0 <= a1 < n_areas,
        0 <= m1 < n_limits,
        0 <= a,
        0 <= m,
        0 <= c1,
        c1 < c || (c1 == c && a1 < a) || (c1 == c && a1 == a && m1 < m),
    ensures
        flat_index(c1, a1, m1, n_areas, n_limits) < flat_index(c, a, m, n_areas, n_limits),
{
    if c1 < c {
        assert((c1 * n_areas + a1) * n_limits + m1 < (c * n_areas + a) * n_limits + m)
            by (nonlinear_arith)
            requires
                0 <= a1 < n_areas,
                0 <= m1 < n_limits,
                0 <= a,
                0 <= m,
                0 <= c1 < c,
        {
            assert((c1 + 1) * n_areas <= c * n_areas) by (nonlinear_arith)
                requires
                    0 <= c1 < c,
                    0 <= n_areas,
            ;
            assert(c1 * n_areas + n_areas == (c1 + 1) * n_areas) by (nonlinear_arith);
            assert(c1 * n_areas + a1 + 1 <= c * n_areas);
            assert((c1 * n_areas + a1 + 1) * n_limits <= (c * n_areas) * n_limits)
                by (nonlinear_arith)
                requires
                    c1 * n_areas + a1 + 1 <= c * n_areas,
                    0 < n_limits,
            ;
        }
    } else if a1 < a {
        assert((c * n_areas + a1) * n_limits + m1 < (c * n_areas + a) * n_limits + m)
            by (nonlinear_arith)
            requires
                0 <= m1 < n_limits,
                0 <= m,
                a1 < a,
        {
            assert((c * n_areas + a1 + 1) * n_limits <= (c * n_areas + a) * n_limits)
                by (nonlinear_arith)
                requires
                    a1 + 1 <= a,
                    0 < n_limits,
            ;
        }
    }
}

/// Block `(c, a)` of `n_images` entries lies inside a table of
/// `n_categories * n_areas * n_images` entries, right after block `(c, a - 1)`.
proof fn lemma_block_bounds(c: int, a: int, n_categories: int, n_areas: int, n_images: int)
    requires
        0 <= c < n_categories,
        0 <= a < n_areas,
        0 <= n_images,
    ensures
        0 <= (c * n_areas + a) * n_images,
        (c * n_areas + a) * n_images + n_images == (c * n_areas + a + 1) * n_images,
        (c * n_areas + a + 1) * n_images <= n_categories * n_areas * n_images,
{
    assert(0 <= (c * n_areas + a) * n_images) by (nonlinear_arith)
        requires
            0 <= c,
            0 <= a,
            0 <= n_areas,
            0 <= n_images,
    ;
    assert((c * n_areas + a) * n_images + n_images == (c * n_areas + a + 1) * n_images)
        by (nonlinear_arith);
    assert(c * n_areas + a + 1 <= n_categories * n_areas) by (nonlinear_arith)
        requires
            0 <= c < n_categories,
            0 <= a < n_areas,
    ;
    assert((c * n_areas + a + 1) * n_images <= (n_categories * n_areas) * n_images)
        by (nonlinear_arith)
        requires
            c * n_areas + a + 1 <= n_categories * n_areas,
            0 <= n_images,
    ;
    assert((n_categories * n_areas) * n_images == n_categories * n_areas * n_images);
}

/// Moving to the next area range, or to the next category, continues the
/// flat layout where the previous block ended.
proof fn lemma_flat_index_next(c: int, a: int, n_areas: int, n_limits: int)
    ensures
        flat_index(c, a, n_limits, n_areas, n_limits) == flat_index(c, a + 1, 0, n_areas, n_limits),
        flat_index(c, n_areas, 0, n_areas, n_limits) == flat_index(c + 1, 0, 0, n_areas, n_limits),
        flat_index(c, 0, 0, n_areas, n_limits) == c * n_areas * n_limits,
{
    assert((c * n_areas + a) * n_limits + n_limits == (c * n_areas + a + 1) * n_limits)
        by (nonlinear_arith);
    assert((c * n_areas + n_areas) * n_limits == ((c + 1) * n_areas) * n_limits)
        by (nonlinear_arith);
    assert((c * n_areas) * n_limits == c * n_areas * n_limits) by (nonlinear_arith);
}

impl<'a> COCOEval<'a> {
    /// Starts an evaluation: without loaded predictions there is nothing to
    /// evaluate and `None` is returned; otherwise every image and every
    /// category of the dataset is selected and the predictions are returned.
    pub fn start_evaluation(&mut self) -> (r: Option<&'a COCOPredictions>)
        ensures
            deref_opt(r) == old(self).dataset_ref().results(),
            final(self).dataset_ref() == old(self).dataset_ref(),
            r is None ==> final(self).params() == old(self).params(),
            r is Some ==> final(self).params() == (COCOEvalParamsView {
                image_ids: Some(image_ids_of(old(self).dataset_ref().dataset().images)),
                category_ids: Some(category_ids_of(old(self).dataset_ref().dataset().categories)),
                ..old(self).params()
            }),
    {
        let coco_dataset: &'a COCO = self.coco_dataset;
        let predictions = coco_dataset.get_all_results();
        if predictions.is_none() {
            return None;
        }
        self.evaluation_parameters.set_image_ids(coco_dataset.get_all_image_ids());
        self.evaluation_parameters.set_category_ids(coco_dataset.get_all_category_ids());
        predictions
    }

    /// Accumulates true and false positives.
    ///
    /// `matches` holds, category by category, then area range by area range,
    /// then image by image, the matches of each (image, category) pair that
    /// has any. For each block (category, area range) and each detection
    /// limit `m` of the parameters, the detection rows of the block's images
    /// are concatenated, each truncated to the limit, and the running counts
    /// of true positives and of false positives are taken. `None` when some
    /// block has no matches at all (and there is a limit to evaluate).
    pub fn accumulate(
        &self,
        matches: &Vec<Option<(Vec<Vec<bool>>, Vec<Vec<bool>>)>>,
        n_categories: usize,
        n_areas: usize,
        n_images: usize,
    ) -> (r: Option<Vec<(Vec<Vec<u64>>, Vec<Vec<u64>>)>>)
        requires
            matches@.len() == n_categories * n_areas * n_images,
            forall|k: int|
                0 <= k < matches@.len() ==> (#[trigger] matches@[k] matches Some(p) ==> p.1@.len()
                    == self.params().iou_thresholds.len()),
        ensures
            ({
                let limits = self.params().max_detections;
                let empty_block = exists|c: int, a: int|
                    0 <= c < n_categories && 0 <= a < n_areas && #[trigger] block_rows(
                        matches@,
                        c,
                        a,
                        n_areas as int,
                        n_images as int,
                    ).len() == 0;
                match r {
                    None => limits.len() > 0 && empty_block,
                    Some(v) => !(limits.len() > 0 && empty_block) && v@.len() == n_categories
                        * n_areas * limits.len() && forall|c: int, a: int, m: int|
                        0 <= c < n_categories && 0 <= a < n_areas && 0 <= m < limits.len()
                            ==> counts_view(
                            v@[#[trigger] flat_index(c, a, m, n_areas as int, limits.len() as int)],
                        ) == tp_fp_counts(
                            block_rows(matches@, c, a, n_areas as int, n_images as int),
                            self.params().iou_thresholds.len(),
                            limits[m] as int,
                        ),
                }
            }),
    {
        let limits = self.evaluation_parameters.max_detections();
        let n_limits = limits.len();
        let ghost rows = self.params().iou_thresholds.len();
        let ghost na = n_areas as int;
        let ghost ni = n_images as int;
        let ghost nl = n_limits as int;
        let mut out: Vec<(Vec<Vec<u64>>, Vec<Vec<u64>>)> = Vec::new();
        let mut start: usize = 0;
        let mut c: usize = 0;
        proof {
            lemma_flat_index_next(0, 0, na, nl);
        }
        while c < n_categories
            invariant
                limits@ == self.params().max_detections,
                n_limits == limits@.len(),
                matches@.len() == n_categories * n_areas * n_images,
                forall|k: int|
                    0 <= k < matches@.len() ==> (#[trigger] matches@[k] matches Some(p)
                        ==> p.1@.len() == rows),
                rows == self.params().iou_thresholds.len(),
                na == n_areas,
                ni == n_images,
                nl == n_limits,
                c <= n_categories,
                start == c * n_areas * n_images,
                out@.len() == flat_index(c as int, 0, 0, na, nl),
                n_limits > 0 ==> forall|c1: int, a1: int|
                    0 <= c1 < c && 0 <= a1 < n_areas ==> #[trigger] block_rows(
                        matches@,
                        c1,
                        a1,
                        na,
                        ni,
                    ).len() > 0,
                forall|c1: int, a1: int, m1: int|
                    0 <= c1 < c && 0 <= a1 < n_areas && 0 <= m1 < n_limits ==> counts_view(
                        out@[#[trigger] flat_index(c1, a1, m1, na, nl)],
                    ) == tp_fp_counts(block_rows(matches@, c1, a1, na, ni), rows, limits@[m1] as int),
            decreases n_categories - c,
        {
            let mut a: usize = 0;
            proof {
                lemma_flat_index_next(c as int, 0, na, nl);
                assert(start == (c * n_areas + 0) * n_images) by (nonlinear_arith)
                    requires
                        start == c * n_areas * n_images,
                ;
            }
            while a < n_areas
                invariant
                    limits@ == self.params().max_detections,
                    n_limits == limits@.len(),
                    matches@.len() == n_categories * n_areas * n_images,
                    forall|k: int|
                        0 <= k < matches@.len() ==> (#[trigger] matches@[k] matches Some(p)
                            ==> p.1@.len() == rows),
                    rows == self.params().iou_thresholds.len(),
                    na == n_areas,
                    ni == n_images,
                    nl == n_limits,
                    c < n_categories,
                    a <= n_areas,
                    start == (c * n_areas + a) * n_images,
                    out@.len() == flat_index(c as int, a as int, 0, na, nl),
                    n_limits > 0 ==> forall|c1: int, a1: int|
                        0 <= c1 < n_categories && 0 <= a1 < n_areas && (c1 < c || (c1 == c && a1
                            < a)) ==> #[trigger] block_rows(matches@, c1, a1, na, ni).len() > 0,
                    forall|c1: int, a1: int, m1: int|
                        0 <= c1 < n_categories && 0 <= a1 < n_areas && 0 <= m1 < n_limits && (c1
                            < c || (c1 == c && a1 < a)) ==> counts_view(
                            out@[#[trigger] flat_index(c1, a1, m1, na, nl)],
                        ) == tp_fp_counts(
                            block_rows(matches@, c1, a1, na, ni),
                            rows,
                            limits@[m1] as int,
                        ),
                decreases n_areas - a,
            {
                proof {
                    lemma_block_bounds(c as int, a as int, n_categories as int, na, ni);
                }
                let ghost opts = matches@.subrange(start as int, start + n_images).map_values(
                    |o: Option<(Vec<Vec<bool>>, Vec<Vec<bool>>)>| detection_rows_opt(o),
                );
                let mut parts: Vec<&Vec<Vec<bool>>> = Vec::new();
                let mut j: usize = 0;
                while j < n_images
                    invariant
                        start + n_images <= matches@.len(),
                        matches@.len() == matches.len(),
                        opts == matches@.subrange(start as int, start + n_images).map_values(
                            |o: Option<(Vec<Vec<bool>>, Vec<Vec<bool>>)>| detection_rows_opt(o),
                        ),
                        forall|k: int|
                            0 <= k < matches@.len() ==> (#[trigger] matches@[k] matches Some(p)
                                ==> p.1@.len() == rows),
                        j <= n_images,
                        matrices_view(parts@) == somes(opts.take(j as int)),
                        forall|p: int| 0 <= p < parts@.len() ==> #[trigger] parts@[p]@.len() == rows,
                    decreases n_images - j,
                {
                    let ghost before = parts@;
                    match &matches[start + j] {
                        Some(p) => {
                            parts.push(&p.1);
                            proof {
                                assert(matrices_view(parts@) =~= matrices_view(before).push(
                                    rows_view(p.1@),
                                ));
                            }
                        },
                        None => {},
                    }
                    proof {
                        assert(opts[j as int] == detection_rows_opt(matches@[start + j]));
                        assert(opts.take(j + 1).drop_last() =~= opts.take(j as int));
                        assert(opts.take(j + 1).last() == opts[j as int]);
                    }
                    j = j + 1;
                }
                proof {
                    assert(opts.take(n_images as int) =~= opts);
                    assert(matrices_view(parts@) == block_rows(matches@, c as int, a as int, na, ni));
                }
                if n_limits > 0 && parts.len() == 0 {
                    return None;
                }
                let mut m: usize = 0;
                while m < n_limits
                    invariant
                        limits@ == self.params().max_detections,
                        n_limits == limits@.len(),
                        rows == self.params().iou_thresholds.len(),
                        na == n_areas,
                        ni == n_images,
                        nl == n_limits,
                        c < n_categories,
                        a < n_areas,
                        m <= n_limits,
                        n_limits > 0 ==> parts@.len() > 0,
                        matrices_view(parts@) == block_rows(matches@, c as int, a as int, na, ni),
                        forall|p: int| 0 <= p < parts@.len() ==> #[trigger] parts@[p]@.len() == rows,
                        out@.len() == flat_index(c as int, a as int, m as int, na, nl),
                        forall|c1: int, a1: int, m1: int|
                            0 <= c1 < n_categories && 0 <= a1 < n_areas && 0 <= m1 < n_limits && (c1
                                < c || (c1 == c && a1 < a) || (c1 == c && a1 == a && m1 < m))
                                ==> counts_view(
                                out@[#[trigger] flat_index(c1, a1, m1, na, nl)],
                            ) == tp_fp_counts(
                                block_rows(matches@, c1, a1, na, ni),
                                rows,
                                limits@[m1] as int,
                            ),
                    decreases n_limits - m,
                {
                    let tps = concatenate_truncated(&parts, limits[m] as usize);
                    let fps = negate_mask(&tps);
                    let tp_sum = cumsum_axis1(&tps);
                    let fp_sum = cumsum_axis1(&fps);
                    let ghost before = out@;
                    let ghost expected = tp_fp_counts(
                        block_rows(matches@, c as int, a as int, na, ni),
                        rows,
                        limits@[m as int] as int,
                    );
                    proof {
                        assert(counts_view((tp_sum, fp_sum)).0 =~= expected.0);
                        assert(counts_view((tp_sum, fp_sum)).1 =~= expected.1);
                    }
                    out.push((tp_sum, fp_sum));
                    proof {
                        assert forall|c1: int, a1: int, m1: int|
                            0 <= c1 < n_categories && 0 <= a1 < n_areas && 0 <= m1 < n_limits && (c1
                                < c || (c1 == c && a1 < a) || (c1 == c && a1 == a && m1 < m + 1))
                                implies counts_view(
                            out@[#[trigger] flat_index(c1, a1, m1, na, nl)],
                        ) == tp_fp_counts(
                            block_rows(matches@, c1, a1, na, ni),
                            rows,
                            limits@[m1] as int,
                        ) by {
                            if c1 == c && a1 == a && m1 == m {
                            } else {
                                lemma_flat_index_order(
                                    c1,
                                    a1,
                                    m1,
                                    c as int,
                                    a as int,
                                    m as int,
                                    na,
                                    nl,
                                );
                                assert(out@[flat_index(c1, a1, m1, na, nl)] == before[flat_index(
                                    c1,
                                    a1,
                                    m1,
                                    na,
                                    nl,
                                )]);
                            }
                        }
                    }
                    m = m + 1;
                }
                proof {
                    lemma_flat_index_next(c as int, a as int, na, nl);
                    lemma_block_bounds(c as int, a as int, n_categories as int, na, ni);
                    assert(start + n_images <= matches@.len());
                }
                start = start + n_images;
                a = a + 1;
            }
            proof {
                lemma_flat_index_next(c as int, 0, na, nl);
                assert(start == (c + 1) * n_areas * n_images) by (nonlinear_arith)
                    requires
                        start == (c * n_areas + n_areas) * n_images,
                ;
            }
            c = c + 1;
        }
        proof {
            lemma_flat_index_next(n_categories as int, 0, na, nl);
            assert(n_categories * n_areas * n_limits == n_categories * n_areas * limits@.len());
        }
        Some(out)
    }
}

} // verus!
