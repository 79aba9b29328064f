# coco

Indexing and querying of COCO object-detection datasets, verified with Verus.

* `src/coco_types.rs` — the dataset records (images, annotations, categories,
  predictions). Floating-point fields are carried as `f32` bit patterns.
* `src/coco.rs` — `COCOIndices` (id → position tables and the
  image/category → annotation tables) and `COCO`, the indexed dataset with its
  queries by ids and by image/category filters.
* `src/coco_eval.rs` — evaluation parameters, greedy matching of detections to
  ground truths, grouping by (image, category), the start of an evaluation,
  and the accumulation of true/false positive running counts per category,
  area range and detection limit.
* `src/laws.rs` — properties of the index and of the queries.
* `src/seq_spec.rs` — sequence and map helpers used by the contracts.
* `app/` — the program: JSON and memory-mapped file reading, serde records,
  box overlaps (floating point) and the evaluation driver.
