//! Bulk log ingestion.

pub mod alerts;
pub mod batch;
pub mod dict;
pub mod ingest;
pub mod json;
pub mod metadata;
pub mod plain;
pub mod records;
pub mod response;
pub mod scan;
pub mod schema;
pub mod streams;
pub mod text;
pub mod triggers;
pub mod usage;
pub mod write;
