use rag_core::config::SegmentConfig;
use rag_core::segmenter::{segment_text, split_large_text};
use rag_core::structure::{split_paragraphs, split_sections, split_sentences};
use rag_core::tokens::{TokenCounter, WordCounter};
use rag_core::types::Metadata;

fn cfg(max: usize, overlap: usize, min: usize) -> SegmentConfig {
    SegmentConfig { max_tokens: max, overlap_tokens: overlap, min_tokens: min }
}

#[test]
fn sections_split_on_numbered_headings() {
    let s = split_sections("1. Intro\nsome text\n2. Next\nmore text");
    assert_eq!(s, vec!["1. Intro\nsome text", "2. Next\nmore text"]);
}

#[test]
fn text_without_headings_is_one_section() {
    let s = split_sections("plain text\nwith lines");
    assert_eq!(s, vec!["plain text\nwith lines"]);
}

#[test]
fn heading_needs_digits_dot_whitespace() {
    // no whitespace after the dot: not a heading
    let s = split_sections("first line\n1.notaheading\nlast");
    assert_eq!(s.len(), 1);
}

#[test]
fn paragraphs_split_on_blank_lines() {
    let p = split_paragraphs("para one\n\npara two");
    assert_eq!(p, vec!["para one", "para two"]);
}

#[test]
fn blank_paragraphs_are_dropped() {
    let p = split_paragraphs("a\n\n   \n\nb");
    assert_eq!(p, vec!["a", "b"]);
}

#[test]
fn sentences_split_on_terminators() {
    let s = split_sentences("This is a sentence. And another one follows!");
    assert_eq!(s, vec!["This is a sentence.", "And another one follows!"]);
}

#[test]
fn short_sentences_are_kept() {
    let s = split_sentences("Hi. This is a longer sentence.");
    assert_eq!(s, vec!["Hi.", "This is a longer sentence."]);
}

#[test]
fn trailing_remainder_is_kept() {
    let s = split_sentences("This is a longer sentence. tail");
    assert_eq!(s, vec!["This is a longer sentence.", "tail"]);
}

#[test]
fn no_terminator_falls_back_to_word_groups() {
    let words: Vec<String> = (0..30).map(|i| format!("w{}", i)).collect();
    let text = words.join(" ");
    let s = split_sentences(&text);
    assert_eq!(s.len(), 2);
    assert_eq!(s[0], words[..25].join(" "));
    assert_eq!(s[1], words[25..].join(" "));
}

#[test]
fn splitter_respects_token_budget() {
    let text = "a b c d e f g h i j k l";
    let chunks = split_large_text(text, &WordCounter, 5, 2);
    assert_eq!(chunks, vec!["a b c d e", "d e f g h", "g h i j k", "j k l"]);
    for chunk in &chunks {
        assert!(WordCounter.count(chunk) <= 5);
    }
}

#[test]
fn splitter_overlap_trimmed_chunks_reconstruct_text() {
    // overlap of 2 words between consecutive chunks: dropping it from every
    // chunk but the first rebuilds the original word sequence
    let text = "a b c d e f g h i j k l";
    let chunks = split_large_text(text, &WordCounter, 5, 2);
    let mut rebuilt: Vec<&str> = chunks[0].split_whitespace().collect();
    for chunk in &chunks[1..] {
        let ws: Vec<&str> = chunk.split_whitespace().collect();
        rebuilt.extend(&ws[2..]);
    }
    let original: Vec<&str> = text.split_whitespace().collect();
    assert_eq!(rebuilt, original);
}

#[test]
fn splitter_advances_when_overlap_exceeds_chunk() {
    // a regression against the infinite loop: overlap far larger than any
    // chunk still moves forward at least one word per chunk
    let chunks = split_large_text("a b c d", &WordCounter, 2, 100);
    assert_eq!(chunks, vec!["a b", "b c", "c d"]);
}

#[test]
fn single_oversized_word_is_its_own_chunk() {
    let chunks = split_large_text("abcdefghij", &WordCounter, 0, 0);
    assert_eq!(chunks, vec!["abcdefghij"]);
}

#[test]
fn three_sentences_fit_one_passage() {
    let c = cfg(1_000_000, 30, 1);
    let passages = segment_text("A. B. C.", None, &WordCounter, &c);
    assert_eq!(passages.len(), 1);
    assert_eq!(passages[0].text, "A. B. C.");
}

#[test]
fn blank_input_yields_no_passages() {
    let c = cfg(200, 30, 20);
    assert_eq!(segment_text("   \n\t ", None, &WordCounter, &c).len(), 0);
    assert_eq!(segment_text("", None, &WordCounter, &c).len(), 0);
}

#[test]
fn passages_stay_within_the_budget() {
    let words: Vec<String> = (0..200).map(|i| format!("word{}", i)).collect();
    let text = words.join(" ");
    let c = cfg(20, 4, 1);
    let passages = segment_text(&text, None, &WordCounter, &c);
    assert!(passages.len() >= 3);
    for p in &passages {
        let n = WordCounter.count(&p.text);
        assert!(n <= 20, "passage over budget: {} tokens", n);
        assert!(n >= 1);
    }
}

#[test]
fn fresh_passages_have_no_id_embedding_or_hash() {
    let c = cfg(20, 4, 1);
    let words: Vec<String> = (0..60).map(|i| format!("w{}", i)).collect();
    let passages = segment_text(&words.join(" "), None, &WordCounter, &c);
    assert!(!passages.is_empty());
    for p in &passages {
        assert!(p.id.is_none());
        assert!(p.embedding.is_empty());
        assert!(p.hash.is_none());
        assert!(p.metadata.is_none());
    }
}

#[test]
fn metadata_is_carried_through_unchanged() {
    let c = cfg(1_000_000, 30, 1);
    let meta = Metadata {
        title: Some("t".to_string()),
        source: None,
        date: Some("2024-01-01".to_string()),
        url: None,
    };
    let passages = segment_text("A. B. C.", Some(meta), &WordCounter, &c);
    assert_eq!(passages.len(), 1);
    let m = passages[0].metadata.as_ref().expect("metadata");
    assert_eq!(m.title.as_deref(), Some("t"));
    assert_eq!(m.date.as_deref(), Some("2024-01-01"));
    assert!(m.source.is_none());
    assert!(m.url.is_none());
}

#[test]
fn short_output_triggers_halved_budget_fallback() {
    // one long unstructured word run: the sentence path makes fewer than
    // three passages, so the halved-budget splitter takes over
    let words: Vec<String> = (0..40).map(|i| format!("w{}", i)).collect();
    let text = words.join(" ");
    let c = cfg(40, 8, 1);
    let passages = segment_text(&text, None, &WordCounter, &c);
    // with the full budget the text would be one passage; the fallback
    // splits at 20 tokens instead
    assert!(passages.len() >= 2);
    for p in &passages {
        assert!(WordCounter.count(&p.text) <= 20);
    }
}

#[test]
fn word_counter_counts_and_truncates() {
    assert_eq!(WordCounter.count("a  b\tc"), 3);
    assert_eq!(WordCounter.count(""), 0);
    assert_eq!(WordCounter.keep_last("a b c d", 2), "c d");
    assert_eq!(WordCounter.keep_last("a b", 5), "a b");
    assert_eq!(WordCounter.keep_last("a b", 0), "");
}

#[test]
fn segmentation_is_deterministic() {
    let words: Vec<String> = (0..80).map(|i| format!("word{}", i)).collect();
    let text = format!("1. One
{}
2. Two
{}", words[..40].join(" "), words[40..].join(" "));
    let c = cfg(12, 3, 1);
    let first = segment_text(&text, None, &WordCounter, &c);
    let second = segment_text(&text, None, &WordCounter, &c);
    let first_texts: Vec<&str> = first.iter().map(|p| p.text.as_str()).collect();
    let second_texts: Vec<&str> = second.iter().map(|p| p.text.as_str()).collect();
    assert_eq!(first_texts, second_texts);
}

#[test]
fn passages_follow_document_order() {
    // every passage's first word appears no earlier than its
    // predecessor's in the cleaned text
    let words: Vec<String> = (0..60).map(|i| format!("w{:02}", i)).collect();
    let text = words.join(" ");
    let c = cfg(10, 2, 1);
    let passages = segment_text(&text, None, &WordCounter, &c);
    assert!(passages.len() >= 3);
    let mut last_pos = 0usize;
    for p in &passages {
        let first_word = p.text.split_whitespace().next().expect("non-empty passage");
        let pos = words.iter().position(|w| w == first_word).expect("word from the input");
        assert!(pos >= last_pos);
        last_pos = pos;
    }
}
