//! Indexing and querying of COCO object-detection datasets, with the
//! integer part of the detection evaluation (matching and accumulation).

pub mod coco_types;
pub mod seq_spec;
pub mod coco;
pub mod coco_eval;
pub mod laws;
