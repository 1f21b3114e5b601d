//! The deduplicating ingest coordinator: fingerprint-based deduplication
//! against a store whose uniqueness constraint on fingerprints resolves
//! concurrent races.
//!
//! The coordinator's decisions are pure functions from the store's answers
//! to the next action; the store calls themselves happen outside. The store
//! is modeled as the map from fingerprint to passage id.

use vstd::prelude::*;
use crate::hash::{xxh3_of, compute_hash};
use crate::types::Passage;

verus! {

/// The store's answer to an insert, as a tagged outcome rather than an
/// error: at most one insert per fingerprint succeeds, and losing the race
/// is an expected outcome carrying the winner's id, never a user-visible
/// error.
pub enum StoreOutcome {
    Inserted(String),
    AlreadyExists(String),
}

/// What the ingest coordinator asks of its caller next: perform this
/// insert, or the ingest is finished with this passage id.
pub enum IngestStep {
    Insert(Passage),
    Done(String),
}

/// The fingerprint under which a passage is deduplicated: the content hash
/// of its text.
pub fn ingest_fingerprint(p: &Passage) -> (h: u64)
    ensures
        h == xxh3_of(p.text@),
{
    compute_hash(p.text.as_str())
}

/// Decides after the fingerprint lookup: an existing passage's id is
/// returned as is (the fresh embedding is discarded, nothing is written);
/// otherwise the passage is submitted for insert with its fingerprint set.
pub fn ingest_after_lookup(p: Passage, h: u64, found: Option<String>) -> (step: IngestStep)
    ensures
        ({
            match found {
                Option::Some(id) => step == IngestStep::Done(id),
                Option::None => match step {
                    IngestStep::Insert(q) => q.id == p.id && q.text == p.text && q.embedding
                        == p.embedding && q.metadata == p.metadata && q.hash == Option::Some(h),
                    _ => false,
                },
            }
        }),
{
    match found {
        Option::Some(id) => IngestStep::Done(id),
        Option::None => IngestStep::Insert(
            Passage {
                id: p.id,
                text: p.text,
                embedding: p.embedding,
                metadata: p.metadata,
                hash: Option::Some(h),
            },
        ),
    }
}

/// Resolves the insert outcome: a successful insert yields the new id; an
/// insert rejected by the uniqueness constraint yields the winner's id,
/// exactly as if the lookup had found it.
pub fn ingest_after_insert(outcome: StoreOutcome) -> (id: String)
    ensures
        ({
            match outcome {
                StoreOutcome::Inserted(i) => id == i,
                StoreOutcome::AlreadyExists(i) => id == i,
            }
        }),
{
    match outcome {
        StoreOutcome::Inserted(i) => i,
        StoreOutcome::AlreadyExists(i) => i,
    }
}

/// The store model of one ingest: the store maps each fingerprint to the
/// id of the passage stored under it. Ingesting a text whose fingerprint
/// is present returns the existing id and leaves the store unchanged;
/// otherwise the store gains the fingerprint and the fresh id is returned.
pub open spec fn spec_ingest(
    store: Map<u64, Seq<char>>,
    text: Seq<char>,
    new_id: Seq<char>,
) -> (Map<u64, Seq<char>>, Seq<char>) {
    let h = xxh3_of(text);
    if store.contains_key(h) {
        (store, store[h])
    } else {
        (store.insert(h, new_id), new_id)
    }
}

/// Idempotence of ingestion: ingesting the same text a second time yields
/// the id the first ingestion produced and leaves the store unchanged, so
/// no duplicate fingerprint ever enters the store.
pub proof fn lemma_ingest_idempotent(
    store: Map<u64, Seq<char>>,
    text: Seq<char>,
    id1: Seq<char>,
    id2: Seq<char>,
)
    ensures
        ({
            let (s1, r1) = spec_ingest(store, text, id1);
            let (s2, r2) = spec_ingest(s1, text, id2);
            s2 == s1 && r2 == r1
        }),
{
    let h = xxh3_of(text);
    let (s1, r1) = spec_ingest(store, text, id1);
    assert(s1.contains_key(h));
    if !store.contains_key(h) {
        assert(s1[h] == id1);
    }
}

/// The decision steps refine the store model: when the lookup answer and
/// the insert outcome reflect the modeled store, the id the steps produce
/// and the store that results are exactly the model's.
pub proof fn lemma_steps_refine_model(
    store: Map<u64, Seq<char>>,
    p: Passage,
    h: u64,
    found: Option<String>,
    step: IngestStep,
    outcome: StoreOutcome,
    final_id: String,
)
    requires
        h == xxh3_of(p.text@),
        // the lookup answered from the modeled store
        store.contains_key(h) <==> found is Some,
        found matches Option::Some(id) ==> store[h] == id@,
        // the decision and resolution followed the contracts above
        (match found {
            Option::Some(id) => step == IngestStep::Done(id),
            Option::None => step matches IngestStep::Insert(q) && q.text == p.text,
        }),
        // no concurrent writer: an actual insert succeeded under the fresh id
        step matches IngestStep::Insert(q) ==> outcome == StoreOutcome::Inserted(final_id),
        step matches IngestStep::Done(id) ==> final_id == id,
        outcome matches StoreOutcome::Inserted(i) ==> final_id == i,
    ensures
        ({
            let (s2, r2) = spec_ingest(store, p.text@, final_id@);
            r2 == final_id@ && (found is Some ==> s2 == store)
        }),
{
}

} // verus!
