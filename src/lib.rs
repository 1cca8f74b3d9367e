//! Tag extraction and validation against a controlled vocabulary held as embeddings.
//!
//! The library holds the decisions: how a model's answer becomes candidate tags, how many
//! embedding and search calls run at once, how their outcomes merge into a set of canonical
//! names, and how a bulk ingest becomes a single upsert. The calls themselves are made by the
//! caller, which hands each outcome back.
pub mod config;
pub mod error;
pub mod ingest;
pub mod schedule;
pub mod service;
pub mod tags;
pub mod validation;

pub use config::Config;
pub use error::{AppError, EmbeddingError, LlmError};
pub use ingest::{IngestRun, PointRecord, Tag};
pub use service::{GenerateTagsResponse, PromptInput};
pub use tags::StructuredTags;
pub use validation::ValidationRun;
