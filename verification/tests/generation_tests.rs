use rag_core::api::{answered_response, generation_fallback_response, no_passages_response,
    validate_ingest_text, SegmentationInputError};
use rag_core::generation::{build_context, build_llm_messages, parse_sse_line, SseLine};
use rag_core::types::Passage;

fn passage(text: &str) -> Passage {
    Passage { id: None, text: text.to_string(), embedding: vec![1], metadata: None, hash: None }
}

#[test]
fn context_numbers_passages_from_one() {
    let ps = vec![passage("alpha"), passage("beta")];
    assert_eq!(build_context(&ps), "Passage 1: alpha\n\nPassage 2: beta");
}

#[test]
fn context_of_no_passages_is_empty() {
    assert_eq!(build_context(&Vec::new()), "");
}

#[test]
fn context_numbering_reaches_two_digits() {
    let ps: Vec<Passage> = (0..12).map(|i| passage(&format!("t{}", i))).collect();
    let ctx = build_context(&ps);
    assert!(ctx.contains("Passage 12: t11"));
}

#[test]
fn messages_carry_system_then_user() {
    let ps = vec![passage("ctx")];
    let msgs = build_llm_messages("why?", &ps);
    assert_eq!(msgs.len(), 2);
    assert_eq!(msgs[0].role, "system");
    assert!(msgs[0].content.ends_with("[PASSAGE] :\nPassage 1: ctx"));
    assert_eq!(msgs[1].role, "user");
    assert_eq!(msgs[1].content, "QUESTION: why?\n");
}

#[test]
fn sse_data_line_is_a_payload() {
    match parse_sse_line("data: hello world") {
        SseLine::Payload(p) => assert_eq!(p, "hello world"),
        _ => panic!("expected a payload"),
    }
}

#[test]
fn sse_done_marker_ends_the_stream() {
    assert!(matches!(parse_sse_line("data: [DONE]"), SseLine::Done));
}

#[test]
fn sse_other_lines_are_ignored() {
    assert!(matches!(parse_sse_line("event: ping"), SseLine::Ignored));
    assert!(matches!(parse_sse_line(""), SseLine::Ignored));
    assert!(matches!(parse_sse_line("data:"), SseLine::Ignored));
}

#[test]
fn oversized_ingest_text_is_rejected() {
    let big = "x".repeat(1_000_001);
    assert_eq!(validate_ingest_text(&big), Err(SegmentationInputError::TooLarge));
}

#[test]
fn blank_ingest_text_is_rejected() {
    assert_eq!(validate_ingest_text("   \n\t "), Err(SegmentationInputError::Empty));
    assert_eq!(validate_ingest_text(""), Err(SegmentationInputError::Empty));
}

#[test]
fn ordinary_ingest_text_is_accepted() {
    assert_eq!(validate_ingest_text("some document"), Ok(()));
}

#[test]
fn no_passage_response_names_the_reason() {
    let r = no_passages_response();
    assert!(r.answer.is_none());
    assert!(r.passages.is_none());
    assert_eq!(
        r.fallback_reason.as_deref(),
        Some("Aucun passage pertinent trouvé pour votre question.")
    );
}

#[test]
fn answered_response_holds_only_the_answer() {
    let r = answered_response("the answer".to_string());
    assert_eq!(r.answer.as_deref(), Some("the answer"));
    assert!(r.passages.is_none());
    assert!(r.fallback_reason.is_none());
}

#[test]
fn generation_failure_falls_back_to_passages() {
    let r = generation_fallback_response(vec![passage("p1")], "timeout");
    assert!(r.answer.is_none());
    assert_eq!(r.passages.as_ref().map(|p| p.len()), Some(1));
    assert_eq!(
        r.fallback_reason.as_deref(),
        Some("LLM non disponible (timeout). Voici les passages les plus pertinents :")
    );
}
