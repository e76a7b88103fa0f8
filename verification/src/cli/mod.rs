//! Command lines: argument parsing and validation.

pub mod args;
pub mod classify_cmd;
pub mod dispatch;
pub mod evaluate_cmd;
pub mod evaluation;
pub mod fix_label_map_cmd;
pub mod preprocess_cmd;
pub mod preprocess_labeled_cmd;
pub mod split_dataset_cmd;
pub mod train_cmd;
