use rag_core::tokens::{BertTokens, TokenCounter};

/// A small word-level tokenizer definition with a whitespace
/// pre-tokenizer: one token per known word.
fn word_level_definition() -> Vec<u8> {
    let json = r#"{
        "version": "1.0",
        "truncation": null,
        "padding": null,
        "added_tokens": [],
        "normalizer": null,
        "pre_tokenizer": {"type": "Whitespace"},
        "post_processor": null,
        "decoder": null,
        "model": {
            "type": "WordLevel",
            "vocab": {"hello": 0, "world": 1, "again": 2, "[UNK]": 3},
            "unk_token": "[UNK]"
        }
    }"#;
    json.as_bytes().to_vec()
}

fn bpe_definition(dropout: &str) -> Vec<u8> {
    format!(
        r#"{{
        "version": "1.0",
        "truncation": null,
        "padding": null,
        "added_tokens": [],
        "normalizer": null,
        "pre_tokenizer": {{"type": "Whitespace"}},
        "post_processor": null,
        "decoder": null,
        "model": {{
            "type": "BPE",
            "dropout": {},
            "unk_token": "[UNK]",
            "continuing_subword_prefix": null,
            "end_of_word_suffix": null,
            "fuse_unk": false,
            "byte_fallback": false,
            "vocab": {{"a": 0, "b": 1, "[UNK]": 2}},
            "merges": []
        }}
    }}"#,
        dropout
    )
    .into_bytes()
}

#[test]
fn counter_counts_model_tokens() {
    let counter = BertTokens::from_bytes(&word_level_definition()).expect("definition parses");
    assert_eq!(counter.count("hello world"), 2);
    assert_eq!(counter.count("hello   world again"), 3);
    assert_eq!(counter.count(""), 0);
}

#[test]
fn counter_keeps_the_last_tokens() {
    let counter = BertTokens::from_bytes(&word_level_definition()).expect("definition parses");
    assert_eq!(counter.keep_last("hello world again", 2), "world again");
    assert_eq!(counter.keep_last("hello world", 5), "hello world");
    assert_eq!(counter.keep_last("hello world", 0), "");
}

#[test]
fn garbage_definition_is_refused() {
    assert!(BertTokens::from_bytes(b"not a tokenizer").is_none());
}

#[test]
fn randomized_bpe_definition_is_refused() {
    // merge dropout makes encoding draw random numbers per call, so such a
    // definition must never back the counter
    assert!(BertTokens::from_bytes(&bpe_definition("0.5")).is_none());
}

#[test]
fn dropout_free_bpe_definition_is_accepted() {
    let counter = BertTokens::from_bytes(&bpe_definition("null")).expect("definition parses");
    assert_eq!(counter.count("a b"), 2);
}

#[test]
fn counter_is_deterministic_across_calls() {
    let counter = BertTokens::from_bytes(&word_level_definition()).expect("definition parses");
    let a = counter.count("hello world again hello");
    let b = counter.count("hello world again hello");
    assert_eq!(a, b);
    assert_eq!(
        counter.keep_last("hello world again", 1),
        counter.keep_last("hello world again", 1)
    );
}
