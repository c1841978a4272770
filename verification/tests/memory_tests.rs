use memvault::chunk::create_chunks;
use memvault::errors::MemoryError;
use memvault::memory::MemoryManager;
use memvault::text::split_words;
use memvault::types::{MemoryEntry, QueryRequest};

fn entry(content: &str, tags: Vec<String>) -> MemoryEntry {
    MemoryEntry {
        id: None,
        content: content.to_string(),
        title: Some("note".to_string()),
        tags,
        source: None,
        created_at: None,
        updated_at: None,
    }
}

fn words(n: usize) -> String {
    let mut out = String::new();
    for i in 0..n {
        if i > 0 {
            out.push(' ');
        }
        out.push_str(&format!("word{}", i));
    }
    out
}

#[test]
fn split_words_tokenizes() {
    let w = split_words("  alpha\tbeta \n gamma ");
    assert_eq!(w, vec!["alpha", "beta", "gamma"]);
}

#[test]
fn chunker_counts_and_reconstructs() {
    let content = words(120);
    let chunks = create_chunks(&content);
    assert_eq!(chunks.len(), 3);
    assert_eq!(split_words(&chunks[0]).len(), 50);
    assert_eq!(split_words(&chunks[1]).len(), 50);
    assert_eq!(split_words(&chunks[2]).len(), 20);
    let mut rejoined: Vec<String> = Vec::new();
    for c in &chunks {
        rejoined.extend(split_words(c));
    }
    assert_eq!(rejoined, split_words(&content));
}

#[test]
fn chunker_exact_multiple() {
    let content = words(100);
    let chunks = create_chunks(&content);
    assert_eq!(chunks.len(), 2);
}

#[test]
fn chunker_empty_content() {
    let chunks = create_chunks("   ");
    assert_eq!(chunks.len(), 0);
}

#[test]
fn add_memory_assigns_uuid() {
    let mut mm = MemoryManager::new();
    let a = mm.add_memory(entry("alpha beta", vec![]), 100).unwrap();
    let b = mm.add_memory(entry("gamma delta", vec![]), 101).unwrap();
    assert_eq!(a.len(), 36);
    assert_eq!(b.len(), 36);
    assert_ne!(a, b);
    assert_eq!(mm.store.memories.len(), 2);
}

#[test]
fn add_memory_keeps_given_id() {
    let mut mm = MemoryManager::new();
    let mut e = entry("alpha", vec![]);
    e.id = Some("fixed-id".to_string());
    assert_eq!(mm.add_memory(e, 100).unwrap(), "fixed-id");
    let mut again = entry("beta", vec![]);
    again.id = Some("fixed-id".to_string());
    assert_eq!(mm.add_memory(again, 101), Err(MemoryError::Persistence));
}

#[test]
fn add_memory_creates_chunk_rows() {
    let mut mm = MemoryManager::new();
    let id = mm.add_memory(entry(&words(120), vec![]), 100).unwrap();
    assert_eq!(mm.store.chunks.len(), 3);
    for (i, c) in mm.store.chunks.iter().enumerate() {
        assert_eq!(c.memory_id, id);
        assert_eq!(c.start_pos, (i as u64) * 100);
        assert_eq!(c.end_pos, (i as u64 + 1) * 100);
    }
}

#[test]
fn tag_idempotency_one_row_two_links() {
    let mut mm = MemoryManager::new();
    let a = mm
        .add_memory(entry("first note", vec!["work".to_string()]), 100)
        .unwrap();
    let b = mm
        .add_memory(
            entry("second note", vec!["work".to_string(), "idea".to_string()]),
            101,
        )
        .unwrap();
    let work_rows: Vec<_> = mm.store.tags.iter().filter(|t| t.name == "work").collect();
    assert_eq!(work_rows.len(), 1);
    let work_id = &work_rows[0].id;
    assert!(mm
        .store
        .memory_tags
        .iter()
        .any(|l| l.memory_id == a && &l.tag_id == work_id));
    assert!(mm
        .store
        .memory_tags
        .iter()
        .any(|l| l.memory_id == b && &l.tag_id == work_id));
    assert_eq!(mm.store.tags.len(), 2);
}

#[test]
fn cascade_delete_removes_references() {
    let mut mm = MemoryManager::new();
    let a = mm
        .add_memory(entry(&words(60), vec!["work".to_string()]), 100)
        .unwrap();
    let b = mm
        .add_memory(entry("keep me", vec!["work".to_string()]), 101)
        .unwrap();
    assert_eq!(mm.delete_memory(&a), Ok(()));
    assert!(!mm.store.memories.iter().any(|m| m.id == a));
    assert!(!mm.store.chunks.iter().any(|c| c.memory_id == a));
    assert!(!mm.store.memory_tags.iter().any(|l| l.memory_id == a));
    assert!(!mm.store.citations.iter().any(|c| c.memory_id == a));
    // Shared tag rows are retained, and the other memory is untouched.
    assert_eq!(mm.store.tags.len(), 1);
    assert!(mm.store.memories.iter().any(|m| m.id == b));
}

#[test]
fn delete_missing_is_not_found() {
    let mut mm = MemoryManager::new();
    assert_eq!(
        mm.delete_memory(&"absent".to_string()),
        Err(MemoryError::NotFound)
    );
}

#[test]
fn update_replaces_fields_and_tags() {
    let mut mm = MemoryManager::new();
    let a = mm
        .add_memory(entry("old content", vec!["work".to_string()]), 100)
        .unwrap();
    let mut e = entry("new content", vec!["idea".to_string()]);
    e.title = Some("renamed".to_string());
    assert_eq!(mm.update_memory(&a, e, 200), Ok(()));
    let row = mm.store.memories.iter().find(|m| m.id == a).unwrap();
    assert_eq!(row.content, "new content");
    assert_eq!(row.title, Some("renamed".to_string()));
    assert_eq!(row.updated_at, 200);
    assert_eq!(row.created_at, 100);
    let idea = mm.store.tags.iter().find(|t| t.name == "idea").unwrap();
    let work = mm.store.tags.iter().find(|t| t.name == "work").unwrap();
    assert!(mm
        .store
        .memory_tags
        .iter()
        .any(|l| l.memory_id == a && l.tag_id == idea.id));
    assert!(!mm
        .store
        .memory_tags
        .iter()
        .any(|l| l.memory_id == a && l.tag_id == work.id));
}

#[test]
fn update_missing_is_not_found() {
    let mut mm = MemoryManager::new();
    assert_eq!(
        mm.update_memory(&"absent".to_string(), entry("x", vec![]), 100),
        Err(MemoryError::NotFound)
    );
}

#[test]
fn scenario_query_beta_cites_matching_chunk() {
    let mut mm = MemoryManager::new();
    let mut content = String::from("alpha beta");
    content.push(' ');
    content.push_str(&words(118));
    mm.add_memory(entry(&content, vec!["work".to_string(), "idea".to_string()]), 100)
        .unwrap();
    let result = mm
        .query_memory(&QueryRequest {
            query: "beta".to_string(),
            limit: None,
            include_citations: true,
        })
        .unwrap();
    assert!(!result.citations.is_empty());
    assert!(result.answer.contains("beta"));
    assert_eq!(result.confidence, 800);
    assert_eq!(result.processing_time_ms, 100);
    for c in &result.citations {
        assert_eq!(c.relevance_score, 800);
        assert!(c.relevance_score <= memvault::types::SCORE_SCALE);
    }
}

#[test]
fn query_is_case_insensitive() {
    let mut mm = MemoryManager::new();
    mm.add_memory(entry("Hello World from the Vault", vec![]), 100)
        .unwrap();
    let result = mm
        .query_memory(&QueryRequest {
            query: "WORLD".to_string(),
            limit: None,
            include_citations: true,
        })
        .unwrap();
    assert_eq!(result.citations.len(), 1);
}

#[test]
fn query_without_citations_has_zero_confidence() {
    let mut mm = MemoryManager::new();
    mm.add_memory(entry("alpha beta", vec![]), 100).unwrap();
    let result = mm
        .query_memory(&QueryRequest {
            query: "alpha".to_string(),
            limit: None,
            include_citations: false,
        })
        .unwrap();
    assert!(result.citations.is_empty());
    assert_eq!(result.confidence, 0);
    assert_eq!(result.answer, "alpha beta");
}

#[test]
fn query_orders_by_recency_and_caps_at_limit() {
    let mut mm = MemoryManager::new();
    mm.add_memory(entry("match older", vec![]), 100).unwrap();
    mm.add_memory(entry("match newer", vec![]), 200).unwrap();
    let result = mm
        .query_memory(&QueryRequest {
            query: "match".to_string(),
            limit: Some(1),
            include_citations: true,
        })
        .unwrap();
    assert_eq!(result.citations.len(), 1);
    assert_eq!(result.citations[0].content, "match newer");
}

#[test]
fn scenario_search_by_tag_finds_memory() {
    let mut mm = MemoryManager::new();
    let id = mm
        .add_memory(
            entry(&words(120), vec!["work".to_string(), "idea".to_string()]),
            100,
        )
        .unwrap();
    assert_eq!(mm.store.chunks.len(), 3);
    assert_eq!(mm.store.tags.len(), 2);
    let found = mm
        .search_memories(&"".to_string(), None, Some(vec!["work".to_string()]))
        .unwrap();
    assert_eq!(found.len(), 1);
    assert_eq!(found[0].id, Some(id));
    assert!(found[0].tags.contains(&"work".to_string()));
    assert!(found[0].tags.contains(&"idea".to_string()));
    assert_eq!(
        found[0].created_at.as_deref(),
        Some("1970-01-01T00:01:40+00:00")
    );
}

#[test]
fn search_by_content_respects_limit_and_order() {
    let mut mm = MemoryManager::new();
    mm.add_memory(entry("needle one", vec![]), 100).unwrap();
    mm.add_memory(entry("needle two", vec![]), 300).unwrap();
    mm.add_memory(entry("haystack", vec![]), 200).unwrap();
    let found = mm.search_memories(&"NEEDLE".to_string(), Some(1), None).unwrap();
    assert_eq!(found.len(), 1);
    assert_eq!(found[0].content, "needle two");
}

#[test]
fn stats_counts_and_formula() {
    let mut mm = MemoryManager::new();
    mm.add_memory(entry(&words(60), vec![]), 100).unwrap();
    let stats = mm.get_stats(0).unwrap();
    assert_eq!(stats.total_memories, 1);
    assert_eq!(stats.total_chunks, 2);
    assert_eq!(stats.total_embeddings, 0);
    assert_eq!(stats.storage_size_bytes, 1 * 1000 + 2 * 500);
    assert_eq!(stats.last_updated, "1970-01-01T00:00:00+00:00");
}

#[test]
fn export_is_valid_json() {
    let mm = MemoryManager::new();
    let payload = mm.export_data(&"json \"quoted\"".to_string(), 0).unwrap();
    let value: serde_json::Value = serde_json::from_str(&payload).unwrap();
    assert_eq!(value["format"], "json \"quoted\"");
    assert_eq!(value["exported_at"], "1970-01-01T00:00:00+00:00");
    assert!(value["data"].as_array().unwrap().is_empty());
}

#[test]
fn import_accepts_json_and_rejects_other_text() {
    let mut mm = MemoryManager::new();
    assert_eq!(
        mm.import_data(&"{\"a\": [1, 2]}".to_string(), &"json".to_string()),
        Ok(())
    );
    assert_eq!(
        mm.import_data(&"not json at all".to_string(), &"json".to_string()),
        Err(MemoryError::Validation)
    );
}

#[test]
fn insights_and_system_info_placeholders() {
    let mut mm = MemoryManager::new();
    let insights = mm.get_insights("daily".to_string(), 0).unwrap();
    assert_eq!(insights.period, "daily");
    assert_eq!(insights.total_memories, 0);
    assert_eq!(insights.generated_at, "1970-01-01T00:00:00+00:00");
    assert_eq!(mm.sync_embeddings(), Ok(()));
    let info = mm
        .get_system_info("linux".to_string(), "x86_64".to_string())
        .unwrap();
    assert_eq!(info.version, "0.1.0");
    assert_eq!(info.platform, "linux");
    assert_eq!(info.memory_usage, 0);
}

#[test]
fn citations_of_memory_start_empty() {
    let mut mm = MemoryManager::new();
    let id = mm.add_memory(entry("alpha", vec![]), 100).unwrap();
    assert_eq!(mm.get_citations(&id).unwrap().len(), 0);
}
