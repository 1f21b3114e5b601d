//! The data model: passages, their provenance metadata, and the request and
//! response shapes of the service around them.

use vstd::prelude::*;
use vstd::string::StringExecFns;

verus! {

/// Optional structured provenance, carried through from ingestion input
/// unchanged and never derived by the core.
#[derive(Clone, Debug)]
pub struct Metadata {
    pub title: Option<String>,
    pub source: Option<String>,
    pub date: Option<String>,
    pub url: Option<String>,
}

/// The unit of retrieval: a bounded chunk of source text plus its embedding
/// and provenance.
///
/// `id` is assigned by the store on first insert and absent until then.
/// `embedding` holds the vector's coordinates in fixed-point form (see
/// `retrieval::SCORE_SCALE` for the scale used for scores) and is empty
/// until computed. `hash` is the 64-bit content fingerprint of `text`,
/// present once a storage attempt has been made.
#[derive(Clone, Debug)]
pub struct Passage {
    pub id: Option<String>,
    pub text: String,
    pub embedding: Vec<i64>,
    pub metadata: Option<Metadata>,
    pub hash: Option<u64>,
}

/// A request to ingest one document.
#[derive(Clone, Debug)]
pub struct IngestRequest {
    pub text: String,
    pub metadata: Option<Metadata>,
}

/// The outcome of one ingestion: the ids of the stored (or re-used)
/// passages.
#[derive(Clone, Debug)]
pub struct IngestResponse {
    pub passage_ids: Vec<String>,
    pub count: usize,
}

/// A question to answer from the stored passages.
#[derive(Clone, Debug)]
pub struct QuestionRequest {
    pub question: String,
}

/// The answer, or the raw passages with a reason when no answer could be
/// generated.
#[derive(Clone, Debug)]
pub struct AnswerResponse {
    pub answer: Option<String>,
    pub passages: Option<Vec<Passage>>,
    pub fallback_reason: Option<String>,
}

/// One chat message handed to the language model.
#[derive(Clone, Debug)]
pub struct LLMMessage {
    pub role: String,
    pub content: String,
}

/// The language model's reply.
#[derive(Clone, Debug)]
pub struct LLMResponse {
    pub choices: Vec<LLMChoice>,
}

/// One choice of the language model's reply.
#[derive(Clone, Debug)]
pub struct LLMChoice {
    pub message: LLMMessage,
}

// ---------------------------------------------------------------------------
// View-level equality and verified copies
// ---------------------------------------------------------------------------

/// Two optional strings hold the same text.
pub open spec fn opt_str_like(a: Option<String>, b: Option<String>) -> bool {
    match (a, b) {
        (Option::None, Option::None) => true,
        (Option::Some(x), Option::Some(y)) => x@ == y@,
        _ => false,
    }
}

/// Two metadata values hold the same texts, field by field.
pub open spec fn metadata_like(a: Metadata, b: Metadata) -> bool {
    &&& opt_str_like(a.title, b.title)
    &&& opt_str_like(a.source, b.source)
    &&& opt_str_like(a.date, b.date)
    &&& opt_str_like(a.url, b.url)
}

/// Two optional metadata values hold the same texts.
pub open spec fn opt_metadata_like(a: Option<Metadata>, b: Option<Metadata>) -> bool {
    match (a, b) {
        (Option::None, Option::None) => true,
        (Option::Some(x), Option::Some(y)) => metadata_like(x, y),
        _ => false,
    }
}

/// A copy of an optional string holding the same text.
pub fn clone_opt_string(s: &Option<String>) -> (r: Option<String>)
    ensures
        opt_str_like(r, *s),
{
    match s {
        Option::None => Option::None,
        Option::Some(x) => Option::Some(String::from_str(x.as_str())),
    }
}

/// A copy of a metadata value holding the same texts.
pub fn clone_metadata(m: &Metadata) -> (r: Metadata)
    ensures
        metadata_like(r, *m),
{
    Metadata {
        title: clone_opt_string(&m.title),
        source: clone_opt_string(&m.source),
        date: clone_opt_string(&m.date),
        url: clone_opt_string(&m.url),
    }
}

/// A copy of an optional metadata value holding the same texts.
pub fn clone_opt_metadata(m: &Option<Metadata>) -> (r: Option<Metadata>)
    ensures
        opt_metadata_like(r, *m),
{
    match m {
        Option::None => Option::None,
        Option::Some(x) => Option::Some(clone_metadata(x)),
    }
}

/// A fresh, unidentified passage around the given text: no id, no
/// embedding, no fingerprint, the metadata carried through.
pub fn make_passage(text: &str, metadata: &Option<Metadata>) -> (p: Passage)
    ensures
        p.id is None,
        p.text@ == text@,
        p.embedding@ == Seq::<i64>::empty(),
        opt_metadata_like(p.metadata, *metadata),
        p.hash is None,
{
    let p = Passage {
        id: Option::None,
        text: String::from_str(text),
        embedding: Vec::new(),
        metadata: clone_opt_metadata(metadata),
        hash: Option::None,
    };
    proof {
        assert(p.embedding@ =~= Seq::<i64>::empty());
    }
    p
}

} // verus!
