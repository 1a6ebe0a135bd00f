//! Word-frequency and sentence-easiness analysis for language learners,
//! with a verified storage engine that keeps ordered secondary indices
//! in step with its primary tables.

pub mod constants;
pub mod order;
pub mod index;
pub mod records;
pub mod store;
pub mod scoring;
pub mod analysis;
pub mod cli;
pub mod database;
pub mod model;
pub mod encoding;
pub mod util;
