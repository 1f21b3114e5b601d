use std::collections::HashMap;

use rag_core::hash::compute_hash;
use rag_core::ingest::{ingest_after_insert, ingest_after_lookup, ingest_fingerprint, IngestStep,
    StoreOutcome};
use rag_core::types::Passage;

fn passage(text: &str) -> Passage {
    Passage { id: None, text: text.to_string(), embedding: vec![1, 2], metadata: None, hash: None }
}

#[test]
fn fingerprint_is_the_xxh3_of_the_text() {
    // the wrapper must hand back exactly what the hash crate computes
    let text = "the quick brown fox";
    assert_eq!(compute_hash(text), twox_hash::XxHash3_64::oneshot(text.as_bytes()));
}

#[test]
fn fingerprint_is_deterministic() {
    assert_eq!(compute_hash("alpha"), compute_hash("alpha"));
}

#[test]
fn different_texts_have_different_fingerprints() {
    assert_ne!(compute_hash("alpha"), compute_hash("beta"));
}

#[test]
fn lookup_hit_reuses_the_existing_id() {
    let p = passage("known text");
    let h = ingest_fingerprint(&p);
    let step = ingest_after_lookup(p, h, Some("id-1".to_string()));
    match step {
        IngestStep::Done(id) => assert_eq!(id, "id-1"),
        IngestStep::Insert(_) => panic!("must not insert when the fingerprint exists"),
    }
}

#[test]
fn lookup_miss_inserts_with_the_fingerprint_set() {
    let p = passage("new text");
    let h = ingest_fingerprint(&p);
    let step = ingest_after_lookup(p, h, None);
    match step {
        IngestStep::Insert(q) => {
            assert_eq!(q.text, "new text");
            assert_eq!(q.hash, Some(h));
            assert_eq!(q.embedding, vec![1, 2]);
            assert!(q.id.is_none());
        }
        IngestStep::Done(_) => panic!("a missing fingerprint must lead to an insert"),
    }
}

#[test]
fn losing_the_insert_race_returns_the_winners_id() {
    assert_eq!(ingest_after_insert(StoreOutcome::AlreadyExists("winner".to_string())), "winner");
    assert_eq!(ingest_after_insert(StoreOutcome::Inserted("fresh".to_string())), "fresh");
}

/// Drives the decision steps against an in-memory store with a uniqueness
/// constraint on the fingerprint, as the coordinator drives the real one.
fn ingest_once(store: &mut HashMap<u64, String>, text: &str, fresh_id: &str) -> String {
    let p = passage(text);
    let h = ingest_fingerprint(&p);
    let found = store.get(&h).cloned();
    match ingest_after_lookup(p, h, found) {
        IngestStep::Done(id) => id,
        IngestStep::Insert(q) => {
            let hash = q.hash.expect("fingerprint set before insert");
            let outcome = if let Some(winner) = store.get(&hash) {
                StoreOutcome::AlreadyExists(winner.clone())
            } else {
                store.insert(hash, fresh_id.to_string());
                StoreOutcome::Inserted(fresh_id.to_string())
            };
            ingest_after_insert(outcome)
        }
    }
}

#[test]
fn ingesting_the_same_text_twice_is_idempotent() {
    let mut store = HashMap::new();
    let first = ingest_once(&mut store, "same passage text", "id-a");
    let second = ingest_once(&mut store, "same passage text", "id-b");
    assert_eq!(first, "id-a");
    assert_eq!(second, "id-a");
    assert_eq!(store.len(), 1);
}

#[test]
fn distinct_texts_get_distinct_rows() {
    let mut store = HashMap::new();
    let a = ingest_once(&mut store, "first text", "id-a");
    let b = ingest_once(&mut store, "second text", "id-b");
    assert_eq!(a, "id-a");
    assert_eq!(b, "id-b");
    assert_eq!(store.len(), 2);
}
