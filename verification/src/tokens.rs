//! The token-counting capability that the segmenter composes.
//!
//! Token counting and truncation-by-token-count are delegated to an external
//! tokenizer; the segmenter only composes these two primitives. Each
//! implementation fixes what its tokens are through the two spec functions;
//! the budget guarantees the segmenter proves hold for any implementation
//! that meets this contract.

use vstd::prelude::*;
use crate::text::{
    words_of, split_words, chars_from_str, join_of, join_chars, string_from_chars, copy_range,
};

verus! {

/// Counts tokens in a text and truncates a text to its last `n` tokens.
///
/// `count` must behave as a pure function of the text, stated by the
/// implementation's own `spec_count`; the same holds of `keep_last` and
/// `spec_keep_last`. A deployment backs this with its fixed tokenizer.
pub trait TokenCounter: Sized {
    /// The number of tokens this counter assigns to a text.
    spec fn spec_count(&self, s: Seq<char>) -> nat;

    /// The text kept when truncating to the last `n` tokens.
    spec fn spec_keep_last(&self, s: Seq<char>, n: nat) -> Seq<char>;

    /// Counts the tokens of `s`.
    fn count(&self, s: &str) -> (r: usize)
        ensures
            r as nat == self.spec_count(s@),
    ;

    /// The text of the last `n` tokens of `s`, used to seed the overlap of
    /// the next passage.
    fn keep_last(&self, s: &str, n: usize) -> (r: String)
        ensures
            r@ == self.spec_keep_last(s@, n as nat),
    ;
}

/// The token kept by `WordCounter::spec_keep_last`: the last `n` words.
pub open spec fn last_words_of(s: Seq<char>, n: nat) -> Seq<Seq<char>> {
    let ws = words_of(s);
    if n >= ws.len() {
        ws
    } else {
        ws.skip(ws.len() - n)
    }
}

/// A counter whose token is the whitespace-separated word. It is exact and
/// fully verified; tests run the segmenter with it.
pub struct WordCounter;

impl TokenCounter for WordCounter {
    open spec fn spec_count(&self, s: Seq<char>) -> nat {
        words_of(s).len()
    }

    open spec fn spec_keep_last(&self, s: Seq<char>, n: nat) -> Seq<char> {
        join_of(last_words_of(s, n), seq![' '])
    }

    fn count(&self, s: &str) -> (r: usize)
        ensures
            r as nat == self.spec_count(s@),
    {
        let cs = chars_from_str(s);
        let ws = split_words(&cs);
        proof {
            assert(ws.deep_view().len() == ws@.len());
        }
        ws.len()
    }

    fn keep_last(&self, s: &str, n: usize) -> (r: String)
        ensures
            r@ == self.spec_keep_last(s@, n as nat),
    {
        let cs = chars_from_str(s);
        let ws = split_words(&cs);
        let ghost wv = ws.deep_view();
        let len = ws.len();
        proof {
            assert(wv.len() == ws@.len());
        }
        let start = if n >= len {
            0
        } else {
            len - n
        };
        let mut sub: Vec<Vec<char>> = Vec::new();
        let mut k: usize = start;
        proof {
            assert(sub.deep_view() =~= wv.subrange(start as int, start as int));
        }
        while k < len
            invariant
                start <= k <= len,
                len == ws@.len(),
                wv == ws.deep_view(),
                wv.len() == len,
                sub.deep_view() == wv.subrange(start as int, k as int),
            decreases len - k,
        {
            let w = copy_range(&ws[k], 0, ws[k].len());
            proof {
                assert(w@ =~= ws@[k as int]@);
                assert(wv[k as int] == ws@[k as int].deep_view());
                assert(ws@[k as int].deep_view() =~= ws@[k as int]@);
            }
            let ghost old_sub = sub.deep_view();
            sub.push(w);
            k = k + 1;
            proof {
                assert(sub.deep_view() =~~= old_sub.push(wv[k - 1]));
                assert(wv.subrange(start as int, k as int) =~= wv.subrange(
                    start as int,
                    k - 1,
                ).push(wv[k - 1]));
            }
        }
        let mut sep: Vec<char> = Vec::new();
        sep.push(' ');
        proof {
            assert(sep@ =~= seq![' ']);
            if n >= len {
                assert(wv.subrange(0, len as int) =~= wv);
            } else {
                assert(wv.subrange(start as int, len as int) =~= wv.skip(start as int));
            }
            assert(sub.deep_view() == last_words_of(s@, n as nat));
        }
        let joined = join_chars(&sub, &sep);
        string_from_chars(&joined)
    }
}


// ---------------------------------------------------------------------------
// The tokenizer-backed counter
// ---------------------------------------------------------------------------

#[verifier::external_type_specification]
#[verifier::external_body]
pub struct ExTokenizer(tokenizers::Tokenizer);

/// The token ids (special tokens included) that the tokenizer deserialized
/// from the definition bytes `def` assigns to a text, or no ids at all
/// when encoding fails. `BertTokens::from_bytes` refuses the one model
/// configuration under which encoding is randomized, so for every counter
/// that can exist this is a pure function of the definition bytes and the
/// text, the same in every process and on every machine.
pub uninterp spec fn tokenizer_ids_of(def: Seq<u8>, s: Seq<char>) -> Seq<u32>;

/// The text the same tokenizer decodes from a sequence of token ids
/// (skipping special tokens), or the empty text when decoding fails; a
/// pure function of the definition bytes and the ids, for the same reason.
pub uninterp spec fn tokenizer_decode_of(def: Seq<u8>, ids: Seq<u32>) -> Seq<char>;

/// The last `n` ids, or all of them when there are no more than `n`.
pub open spec fn last_ids_of(ids: Seq<u32>, n: nat) -> Seq<u32> {
    if n >= ids.len() {
        ids
    } else {
        ids.skip(ids.len() - n)
    }
}

/// A counter backed by a real tokenizer. It keeps the definition bytes it
/// was deserialized from; only `from_bytes` can build one, so the kept
/// bytes always are the ones that made the tokenizer, and no counter with
/// a randomized encoding is ever built.
pub struct BertTokens {
    tokenizer: tokenizers::Tokenizer,
    def: Vec<u8>,
}

/// Relies on `Tokenizer::from_bytes`: deserializing a tokenizer definition
/// either fails or yields the tokenizer those bytes describe.
#[verifier::external_body]
fn raw_from_bytes(bytes: &[u8]) -> (r: Option<tokenizers::Tokenizer>) {
    tokenizers::Tokenizer::from_bytes(bytes).ok()
}

/// Relies on `TokenizerImpl::get_model`: reads whether the definition's
/// model is a byte-pair-encoding model with merge dropout set — the one
/// configuration under which `encode` draws random numbers per call.
#[verifier::external_body]
fn model_has_dropout(t: &tokenizers::Tokenizer) -> bool {
    match t.get_model() {
        tokenizers::models::ModelWrapper::BPE(bpe) => bpe.dropout.is_some(),
        _ => false,
    }
}

impl BertTokens {
    /// The definition bytes this counter was deserialized from: counters
    /// with equal definitions count and truncate identically (see
    /// `lemma_same_definition`).
    pub closed spec fn definition(&self) -> Seq<u8> {
        self.def@
    }

    /// Deserializes a counter from tokenizer definition bytes. A
    /// definition that does not parse, or whose model carries merge
    /// dropout (making its encoding randomized), is refused.
    pub fn from_bytes(bytes: &[u8]) -> (r: Option<BertTokens>)
        ensures
            r matches Some(t) ==> t.definition() == bytes@,
    {
        match raw_from_bytes(bytes) {
            Option::None => Option::None,
            Option::Some(tokenizer) => {
                if model_has_dropout(&tokenizer) {
                    Option::None
                } else {
                    let def = vstd::slice::slice_to_vec(bytes);
                    Option::Some(BertTokens { tokenizer, def })
                }
            },
        }
    }

    /// Relies on `Tokenizer::encode` (with special tokens): deterministic
    /// for a fixed dropout-free definition; a failed encode yields no ids.
    #[verifier::external_body]
    fn raw_encode(&self, s: &str) -> (r: Vec<u32>)
        ensures
            r@ == tokenizer_ids_of(self.def@, s@),
    {
        match self.tokenizer.encode(s, true) {
            Ok(encoding) => encoding.get_ids().to_vec(),
            Err(_) => Vec::new(),
        }
    }

    /// Relies on `Tokenizer::decode` (skipping special tokens):
    /// deterministic for a fixed definition; a failed decode yields the
    /// empty text.
    #[verifier::external_body]
    fn raw_decode(&self, ids: &Vec<u32>) -> (r: String)
        ensures
            r@ == tokenizer_decode_of(self.def@, ids@),
    {
        self.tokenizer.decode(ids, true).unwrap_or_default()
    }
}

/// The ids from `a` (inclusive) to `b` (exclusive).
fn copy_ids(ids: &Vec<u32>, a: usize, b: usize) -> (r: Vec<u32>)
    requires
        a <= b <= ids@.len(),
    ensures
        r@ == ids@.subrange(a as int, b as int),
{
    let mut r: Vec<u32> = Vec::new();
    let mut i: usize = a;
    proof {
        assert(r@ =~= ids@.subrange(a as int, a as int));
    }
    while i < b
        invariant
            a <= i <= b <= ids@.len(),
            r@ == ids@.subrange(a as int, i as int),
        decreases b - i,
    {
        r.push(ids[i]);
        i = i + 1;
        proof {
            assert(ids@.subrange(a as int, i as int) =~= ids@.subrange(a as int, i - 1).push(
                ids@[i - 1],
            ));
        }
    }
    r
}

impl TokenCounter for BertTokens {
    closed spec fn spec_count(&self, s: Seq<char>) -> nat {
        tokenizer_ids_of(self.def@, s).len()
    }

    closed spec fn spec_keep_last(&self, s: Seq<char>, n: nat) -> Seq<char> {
        tokenizer_decode_of(self.def@, last_ids_of(tokenizer_ids_of(self.def@, s), n))
    }

    fn count(&self, s: &str) -> (r: usize)
        ensures
            r as nat == self.spec_count(s@),
    {
        let ids = self.raw_encode(s);
        ids.len()
    }

    fn keep_last(&self, s: &str, n: usize) -> (r: String)
        ensures
            r@ == self.spec_keep_last(s@, n as nat),
    {
        let ids = self.raw_encode(s);
        let len = ids.len();
        let start = if len > n {
            len - n
        } else {
            0
        };
        let tail = copy_ids(&ids, start, len);
        proof {
            if n >= ids@.len() {
                assert(tail@ =~= ids@);
            } else {
                assert(tail@ =~= ids@.skip(ids@.len() - n));
            }
            assert(tail@ == last_ids_of(tokenizer_ids_of(self.def@, s@), n as nat));
        }
        self.raw_decode(&tail)
    }
}

/// Two counters deserialized from the same definition bytes count and
/// truncate identically.
pub proof fn lemma_same_definition(a: &BertTokens, b: &BertTokens)
    requires
        a.definition() == b.definition(),
    ensures
        forall|s: Seq<char>| #[trigger] a.spec_count(s) == b.spec_count(s),
        forall|s: Seq<char>, n: nat| #[trigger] a.spec_keep_last(s, n) == b.spec_keep_last(s, n),
{
}

} // verus!
