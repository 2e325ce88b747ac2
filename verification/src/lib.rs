//! Tong Wen: rule-based post-processing of speech transcripts into Taiwan
//! Traditional Chinese, with every step specified and verified.
pub mod chars;
pub mod config;
pub mod convert;
pub mod pipeline;
pub mod processing;
pub mod server;

pub use pipeline::post_process;
