use rag_core::config::RetrievalConfig;
use rag_core::retrieval::{rank, ScoredPassage, SCORE_SCALE};
use rag_core::types::Passage;

fn passage(text: &str, embedding: Vec<i64>) -> Passage {
    Passage { id: None, text: text.to_string(), embedding, metadata: None, hash: None }
}

fn scored(text: &str, score: i64) -> ScoredPassage {
    ScoredPassage { passage: passage(text, vec![1, 2, 3]), score }
}

#[test]
fn threshold_keeps_only_the_dominant_cluster() {
    // scores 0.9, 0.86, 0.5 with k = 3: threshold is 0.9 * 0.95 = 0.855,
    // so only the first two survive
    let cands = vec![scored("a", 900_000), scored("b", 860_000), scored("c", 500_000)];
    let r = rank(cands, 3, &RetrievalConfig::default());
    assert_eq!(r.len(), 2);
    assert_eq!(r[0].text, "a");
    assert_eq!(r[1].text, "b");
}

#[test]
fn empty_candidate_set_is_a_normal_outcome() {
    let r = rank(Vec::new(), 5, &RetrievalConfig::default());
    assert!(r.is_empty());
}

#[test]
fn results_are_sorted_by_descending_score() {
    let cands = vec![scored("low", 800_000), scored("high", 1_000_000), scored("mid", 990_000)];
    let r = rank(cands, 3, &RetrievalConfig::default());
    assert_eq!(r.len(), 2);
    assert_eq!(r[0].text, "high");
    assert_eq!(r[1].text, "mid");
}

#[test]
fn ties_keep_encounter_order() {
    let cands = vec![scored("first", 700_000), scored("second", 700_000), scored(
        "third", 700_000,
    )];
    let r = rank(cands, 3, &RetrievalConfig::default());
    assert_eq!(r.len(), 3);
    assert_eq!(r[0].text, "first");
    assert_eq!(r[1].text, "second");
    assert_eq!(r[2].text, "third");
}

#[test]
fn truncates_to_k() {
    let cands = vec![scored("a", 900_000), scored("b", 899_000), scored("c", 898_000), scored(
        "d", 897_000,
    )];
    let r = rank(cands, 2, &RetrievalConfig::default());
    assert_eq!(r.len(), 2);
    assert_eq!(r[0].text, "a");
    assert_eq!(r[1].text, "b");
}

#[test]
fn candidates_without_embedding_are_excluded_entirely() {
    // the un-embedded candidate has the best score but never enters ranking
    let mut cands = vec![scored("kept", 500_000)];
    cands.push(ScoredPassage { passage: passage("skipped", Vec::new()), score: SCORE_SCALE });
    let r = rank(cands, 5, &RetrievalConfig::default());
    assert_eq!(r.len(), 1);
    assert_eq!(r[0].text, "kept");
}

#[test]
fn a_lone_candidate_survives_its_own_threshold() {
    let r = rank(vec![scored("only", 123_456)], 1, &RetrievalConfig::default());
    assert_eq!(r.len(), 1);
    assert_eq!(r[0].text, "only");
}

#[test]
fn default_config_matches_the_service_tuning() {
    let c = RetrievalConfig::default();
    assert_eq!(c.threshold_num, 95);
    assert_eq!(c.threshold_den, 100);
    assert_eq!(c.fetch_limit, 2000);
    assert_eq!(c.top_k, 3);
}
