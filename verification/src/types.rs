use vstd::prelude::*;

verus! {

/// Relevance and confidence scores are carried as integers in
/// thousandths, 0 through 1000, so that the scale 0.0 through 1.0 of the
/// stored schema keeps an exact representation.
pub const SCORE_SCALE: u32 = 1000;

/// The fixed placeholder relevance assigned by the lexical retrieval
/// path, 0.8 on the unit scale.
pub const PLACEHOLDER_SCORE: u32 = 800;

/// Configuration accepted when a vault is created.
#[derive(Debug, PartialEq)]
pub struct VaultConfig {
    pub name: String,
    pub description: Option<String>,
    pub encryption_enabled: bool,
}

/// A user-authored note: the unit of ingestion. Timestamps are carried
/// as RFC 3339 strings when a stored memory is returned, and ignored on
/// input.
#[derive(Debug, PartialEq)]
pub struct MemoryEntry {
    pub id: Option<String>,
    pub content: String,
    pub title: Option<String>,
    pub tags: Vec<String>,
    pub source: Option<String>,
    pub created_at: Option<String>,
    pub updated_at: Option<String>,
}

/// Options recognised by the query operation.
#[derive(Debug, PartialEq)]
pub struct QueryRequest {
    pub query: String,
    pub limit: Option<usize>,
    pub include_citations: bool,
}

/// The answer to a query: the cited chunk contents concatenated, with
/// one citation per matched chunk when requested.
#[derive(Debug, PartialEq)]
pub struct QueryResult {
    pub answer: String,
    pub citations: Vec<Citation>,
    /// Confidence in thousandths: `PLACEHOLDER_SCORE` when any chunk
    /// matched, zero otherwise.
    pub confidence: u32,
    pub processing_time_ms: u64,
}

/// A scored reference from a query result back to a specific chunk.
#[derive(Debug, PartialEq)]
pub struct Citation {
    pub id: String,
    pub title: Option<String>,
    pub content: String,
    /// Relevance in thousandths of the unit scale.
    pub relevance_score: u32,
    pub source: Option<String>,
}

/// The externally visible state of the vault.
#[derive(Debug, PartialEq)]
pub struct VaultStatus {
    pub is_initialized: bool,
    pub is_unlocked: bool,
    pub name: Option<String>,
    pub memory_count: u64,
    pub last_sync: Option<String>,
}

/// Counts and a derived storage estimate over the whole store.
#[derive(Debug, PartialEq)]
pub struct MemoryStats {
    pub total_memories: u64,
    pub total_chunks: u64,
    pub total_embeddings: u64,
    pub storage_size_bytes: u64,
    pub last_updated: String,
}

/// Static facts about the running process, supplied by the caller.
#[derive(Debug, PartialEq)]
pub struct SystemInfo {
    pub version: String,
    pub platform: String,
    pub arch: String,
    pub memory_usage: u64,
    pub disk_usage: u64,
}

/// The placeholder insights payload: well-formed and empty.
#[derive(Debug, PartialEq)]
pub struct InsightsReport {
    pub period: String,
    pub total_memories: u64,
    pub new_memories: u64,
    pub top_tags: Vec<String>,
    pub generated_at: String,
}

} // verus!
