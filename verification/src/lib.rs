//! Verified core of a local-first file organiser.
pub mod text;
pub mod domain;
pub mod order;
pub mod paths;
pub mod platform;
pub mod analysis;
pub mod duplicates;
pub mod digest;
pub mod storage;
pub mod operations;
pub mod indexer;
pub mod similarity;
pub mod desktop;
pub mod jobs;
pub mod similar_content;
pub mod requests;
pub mod job_queue;
pub mod settings;
pub mod execution;
pub mod duplicate_run;
pub mod undo;
