pub mod domain;
pub mod folds;
pub mod import_data;
pub mod import_mapping;
pub mod sorting;
pub mod storage_rules;
pub mod table;
pub mod text;
