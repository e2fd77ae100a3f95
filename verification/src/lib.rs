//! Search orchestration core for a Stack Exchange style question/answer tool.
//!
//! The crate covers the pipeline that turns a query into a ranked list of
//! questions with their answers: the site-directory cache and its on-disk
//! codec, the result-discovery engines that mine search-result pages for
//! question ids, the platform API request builders and response
//! post-processing, and the merge step that restores the discovery-time
//! ordering after the per-site fetches come back.
//!
//! Network and file transfer live outside this crate; every function here is
//! a pure computation over plain values, with its behaviour stated in its
//! contract.

pub mod api;
pub mod config;
pub mod error;
pub mod markdown;
pub mod scrape;
pub mod search;
pub mod seqs;
pub mod storage;
pub mod text;
