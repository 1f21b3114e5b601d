//! The request-level rules of the service: what input is accepted for
//! ingestion, and how the answer response is assembled from the ranking
//! and generation outcomes.

use vstd::prelude::*;
use vstd::string::StrSliceExecFns;
use vstd::string::StringExecFns;
use vstd::string::StringSliceAdditionalSpecFns;
use crate::text::{trim_of, chars_from_str, trim_chars};
use crate::types::{AnswerResponse, Passage};

verus! {

/// The largest accepted ingest text, in bytes.
pub const MAX_INGEST_BYTES: usize = 1_000_000;

/// Why an ingest text is rejected before segmentation starts: it is over
/// the size cap, or blank. Rejection is the caller's responsibility to
/// handle; nothing is retried.
#[derive(Clone, Copy, Debug, PartialEq, Eq, Structural)]
pub enum SegmentationInputError {
    TooLarge,
    Empty,
}

/// Accepts or rejects an ingest text: over the byte cap it is rejected as
/// too large; otherwise a whitespace-only text is rejected as empty; any
/// other text is accepted.
pub fn validate_ingest_text(text: &str) -> (r: Result<(), SegmentationInputError>)
    ensures
        r == (if text.spec_bytes().len() > MAX_INGEST_BYTES {
            Result::<(), SegmentationInputError>::Err(SegmentationInputError::TooLarge)
        } else if trim_of(text@).len() == 0 {
            Result::<(), SegmentationInputError>::Err(SegmentationInputError::Empty)
        } else {
            Result::<(), SegmentationInputError>::Ok(())
        }),
{
    broadcast use vstd::slice::axiom_spec_len;

    let bytes = text.as_bytes();
    if bytes.len() > MAX_INGEST_BYTES {
        return Result::Err(SegmentationInputError::TooLarge);
    }
    let cs = chars_from_str(text);
    let trimmed = trim_chars(&cs);
    if trimmed.len() == 0 {
        Result::Err(SegmentationInputError::Empty)
    } else {
        Result::Ok(())
    }
}

/// The response when no stored passage is relevant: a defined empty
/// outcome, not an error.
pub fn no_passages_response() -> (r: AnswerResponse)
    ensures
        r.answer is None,
        r.passages is None,
        r.fallback_reason matches Option::Some(m) && m@ == "Aucun passage pertinent trouvé pour votre question."@,
{
    AnswerResponse {
        answer: Option::None,
        passages: Option::None,
        fallback_reason: Option::Some(
            String::from_str("Aucun passage pertinent trouvé pour votre question."),
        ),
    }
}

/// The response when the generator answered: the answer alone.
pub fn answered_response(answer: String) -> (r: AnswerResponse)
    ensures
        r.answer == Option::Some(answer),
        r.passages is None,
        r.fallback_reason is None,
{
    AnswerResponse {
        answer: Option::Some(answer),
        passages: Option::None,
        fallback_reason: Option::None,
    }
}

/// The response when the generator failed: the ranked passages themselves,
/// with the failure named in the fallback reason.
pub fn generation_fallback_response(top: Vec<Passage>, error: &str) -> (r: AnswerResponse)
    ensures
        r.answer is None,
        r.passages == Option::Some(top),
        r.fallback_reason matches Option::Some(m) && m@ == "LLM non disponible ("@ + error@
            + "). Voici les passages les plus pertinents :"@,
{
    let mut reason = String::from_str("LLM non disponible (");
    reason.append(error);
    reason.append("). Voici les passages les plus pertinents :");
    AnswerResponse {
        answer: Option::None,
        passages: Option::Some(top),
        fallback_reason: Option::Some(reason),
    }
}

} // verus!
