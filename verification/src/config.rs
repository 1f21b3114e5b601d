//! Configuration: deployment settings and the tunables of the segmenter and
//! the retriever, threaded explicitly into the functions that use them.

use vstd::prelude::*;

verus! {

/// Deployment configuration, loaded by the program at startup and handed
/// in explicitly.
#[derive(Clone, Debug)]
pub struct Config {
    pub database_name: String,
    pub collection_name: String,
    pub llm_uri: String,
    pub cosmos_uri: String,
}

/// Tunables of the segmenter: the token budget of a passage, the overlap
/// seeded into the next passage, and the minimum size an emitted passage
/// must reach.
#[derive(Clone, Copy, Debug)]
pub struct SegmentConfig {
    pub max_tokens: usize,
    pub overlap_tokens: usize,
    pub min_tokens: usize,
}

impl SegmentConfig {
    /// The budget is positive and small enough that tripling it (the
    /// large-section threshold) cannot overflow.
    pub open spec fn wf(self) -> bool {
        0 < self.max_tokens <= usize::MAX / 3
    }
}

impl Default for SegmentConfig {
    /// The default tuning: passages of at most 200 tokens, 30 tokens of
    /// overlap, nothing under 20 tokens.
    fn default() -> (c: Self)
        ensures
            c.max_tokens == 200,
            c.overlap_tokens == 30,
            c.min_tokens == 20,
            c.wf(),
    {
        SegmentConfig { max_tokens: 200, overlap_tokens: 30, min_tokens: 20 }
    }
}

/// Tunables of the retriever: the adaptive relevance threshold as the
/// fraction `threshold_num / threshold_den` of the best score, the store
/// fetch cap, and how many passages to hand to the generator.
#[derive(Clone, Copy, Debug)]
pub struct RetrievalConfig {
    pub threshold_num: i64,
    pub threshold_den: i64,
    pub fetch_limit: i64,
    pub top_k: usize,
}

impl RetrievalConfig {
    /// The threshold fraction is between zero and one, with a positive,
    /// bounded denominator, so that threshold arithmetic stays in range.
    pub open spec fn wf(self) -> bool {
        0 < self.threshold_den <= 1_000_000 && 0 <= self.threshold_num <= self.threshold_den
    }
}

impl Default for RetrievalConfig {
    /// The default tuning: keep scores within 95% of the best, scan at
    /// most 2000 candidates, hand over the top 3.
    fn default() -> (c: Self)
        ensures
            c.threshold_num == 95,
            c.threshold_den == 100,
            c.fetch_limit == 2000,
            c.top_k == 3,
            c.wf(),
    {
        RetrievalConfig { threshold_num: 95, threshold_den: 100, fetch_limit: 2000, top_k: 3 }
    }
}

} // verus!
