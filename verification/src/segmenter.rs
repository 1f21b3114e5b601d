//! The segmenter: a token-budget sliding window over sentences with
//! structural awareness, and the word-granular large-text splitter it falls
//! back to for oversized units.

use vstd::prelude::*;
use vstd::string::StringExecFns;
use crate::config::SegmentConfig;
use crate::text::{
    is_space, join_of, join_chars, words_of, split_words, chars_from_str, string_from_chars,
    copy_range, extend_chars, clean_of, clean_text, lemma_words_wf, lemma_words_join,
};
use crate::structure::{sections_of, paragraphs_of, sentences_of, split_sections, split_paragraphs,
    split_sentences, strings_deep_view};
use crate::tokens::{TokenCounter, WordCounter};
use crate::types::{Passage, Metadata, make_passage, opt_metadata_like};

verus! {

// ---------------------------------------------------------------------------
// The large-text splitter's chunk bounds, as spec functions
// ---------------------------------------------------------------------------

/// The end of the greedy chunk that started at word `s` and has grown to
/// `e`: words keep joining the chunk while its token count stays within
/// `max`; the first word is taken unconditionally.
pub open spec fn grow_end<C: TokenCounter>(
    c: &C,
    ws: Seq<Seq<char>>,
    s: int,
    e: int,
    max: int,
) -> int
    decreases ws.len() - e,
{
    if e >= ws.len() {
        ws.len() as int
    } else if c.spec_count(join_of(ws.subrange(s, e + 1), seq![' '])) > max {
        e
    } else {
        grow_end(c, ws, s, e + 1, max)
    }
}

/// The end of the chunk starting at word `s` (at least one word, at most
/// all of them).
pub open spec fn chunk_end<C: TokenCounter>(c: &C, ws: Seq<Seq<char>>, s: int, max: int) -> int {
    let e = grow_end(c, ws, s, s + 1, max);
    if e < s + 1 {
        s + 1
    } else if e > ws.len() {
        ws.len() as int
    } else {
        e
    }
}

/// Where the chunk after one spanning `[s, e)` begins: `overlap` tokens'
/// worth of trailing words earlier than `e`, but always at least one word
/// past `s`, so the splitter always advances.
pub open spec fn next_start<C: TokenCounter>(
    c: &C,
    ws: Seq<Seq<char>>,
    s: int,
    e: int,
    overlap: nat,
) -> int {
    let chunk = join_of(ws.subrange(s, e), seq![' ']);
    let ow = words_of(c.spec_keep_last(chunk, overlap)).len() as int;
    if e - ow > s + 1 {
        e - ow
    } else {
        s + 1
    }
}

/// The word ranges of the chunks the large-text splitter emits, starting
/// at word `s`.
pub open spec fn bounds_from<C: TokenCounter>(
    c: &C,
    ws: Seq<Seq<char>>,
    s: int,
    max: int,
    overlap: nat,
) -> Seq<(int, int)>
    decreases ws.len() - s,
{
    if !(0 <= s < ws.len()) {
        Seq::empty()
    } else {
        let e = chunk_end(c, ws, s, max);
        if e >= ws.len() {
            seq![(s, ws.len() as int)]
        } else {
            seq![(s, e)] + bounds_from(c, ws, next_start(c, ws, s, e, overlap), max, overlap)
        }
    }
}

/// The chunk texts for the given ranges: each range's words joined with
/// single spaces.
pub open spec fn texts_for(ws: Seq<Seq<char>>, bs: Seq<(int, int)>) -> Seq<Seq<char>>
    decreases bs.len(),
{
    if bs.len() == 0 {
        Seq::empty()
    } else {
        seq![join_of(ws.subrange(bs[0].0, bs[0].1), seq![' '])] + texts_for(ws, bs.drop_first())
    }
}

/// The texts of the chunks the large-text splitter emits for `s`.
pub open spec fn chunk_texts_of<C: TokenCounter>(
    c: &C,
    s: Seq<char>,
    max: int,
    overlap: nat,
) -> Seq<Seq<char>> {
    let ws = words_of(s);
    texts_for(ws, bounds_from(c, ws, 0, max, overlap))
}

/// The chunk texts whose token count reaches `min`, in order.
pub open spec fn kept_chunks<C: TokenCounter>(c: &C, texts: Seq<Seq<char>>, min: int) -> Seq<
    Seq<char>,
>
    decreases texts.len(),
{
    if texts.len() == 0 {
        Seq::empty()
    } else {
        let rest = kept_chunks(c, texts.drop_first(), min);
        if c.spec_count(texts[0]) >= min {
            seq![texts[0]] + rest
        } else {
            rest
        }
    }
}

// ---------------------------------------------------------------------------
// The structural pass, as spec functions
// ---------------------------------------------------------------------------

/// What flushing the sentence buffer emits: nothing when it is empty or
/// under the minimum, the buffer itself when it fits the budget, and the
/// splitter's kept chunks when it exceeds it.
pub open spec fn flush_buffer_of<C: TokenCounter>(
    c: &C,
    buffer: Seq<char>,
    max: int,
    overlap: nat,
    min: int,
) -> Seq<Seq<char>> {
    if buffer.len() == 0 {
        Seq::empty()
    } else {
        let n = c.spec_count(buffer) as int;
        if n > max {
            kept_chunks(c, chunk_texts_of(c, buffer, max, overlap), min)
        } else if n >= min {
            seq![buffer]
        } else {
            Seq::empty()
        }
    }
}

/// The texts the sentence-buffer pass emits for one paragraph's sentences,
/// starting from the given buffer and its tracked token count: sentences
/// accumulate while the tracked count stays within the budget; a full
/// buffer is flushed and the next one seeded with the overlap and the
/// overflowing sentence; an oversized sentence, or an overlap seed that
/// itself exceeds the budget, goes through the splitter; the last buffer
/// is flushed at the end.
pub open spec fn buffer_pass<C: TokenCounter>(
    c: &C,
    sentences: Seq<Seq<char>>,
    buffer: Seq<char>,
    tc: int,
    max: int,
    overlap: nat,
    min: int,
) -> Seq<Seq<char>>
    decreases sentences.len(),
{
    if sentences.len() == 0 {
        flush_buffer_of(c, buffer, max, overlap, min)
    } else {
        let s0 = sentences[0];
        let rest = sentences.drop_first();
        let st = c.spec_count(s0) as int;
        if st > max {
            flush_buffer_of(c, buffer, max, overlap, min) + kept_chunks(
                c,
                chunk_texts_of(c, s0, max, overlap),
                min,
            ) + buffer_pass(c, rest, Seq::empty(), 0, max, overlap, min)
        } else if st > max - tc {
            let flushed = flush_buffer_of(c, buffer, max, overlap, min);
            let ov = c.spec_keep_last(buffer, overlap);
            let nb = if ov.len() == 0 {
                s0
            } else {
                ov + seq![' '] + s0
            };
            let bc = c.spec_count(nb) as int;
            if bc > max {
                flushed + flush_buffer_of(c, nb, max, overlap, min) + buffer_pass(
                    c,
                    rest,
                    Seq::empty(),
                    0,
                    max,
                    overlap,
                    min,
                )
            } else {
                flushed + buffer_pass(c, rest, nb, bc, max, overlap, min)
            }
        } else {
            let nb = if buffer.len() == 0 {
                s0
            } else {
                buffer + seq![' '] + s0
            };
            buffer_pass(c, rest, nb, tc + st, max, overlap, min)
        }
    }
}

/// The texts emitted for one section's paragraphs: an oversized paragraph
/// goes through the splitter, the others through the sentence buffer.
pub open spec fn paragraphs_pass<C: TokenCounter>(
    c: &C,
    paras: Seq<Seq<char>>,
    max: int,
    overlap: nat,
    min: int,
) -> Seq<Seq<char>>
    decreases paras.len(),
{
    if paras.len() == 0 {
        Seq::empty()
    } else {
        let head = if c.spec_count(paras[0]) > max {
            kept_chunks(c, chunk_texts_of(c, paras[0], max, overlap), min)
        } else {
            buffer_pass(c, sentences_of(paras[0]), Seq::empty(), 0, max, overlap, min)
        };
        head + paragraphs_pass(c, paras.drop_first(), max, overlap, min)
    }
}

/// The texts emitted for the document's sections: a section over three
/// budgets goes to the splitter whole, the others are cut into paragraphs.
pub open spec fn sections_pass<C: TokenCounter>(
    c: &C,
    sections: Seq<Seq<char>>,
    max: int,
    overlap: nat,
    min: int,
) -> Seq<Seq<char>>
    decreases sections.len(),
{
    if sections.len() == 0 {
        Seq::empty()
    } else {
        let head = if c.spec_count(sections[0]) > 3 * max {
            kept_chunks(c, chunk_texts_of(c, sections[0], max, overlap), min)
        } else {
            paragraphs_pass(c, paragraphs_of(sections[0]), max, overlap, min)
        };
        head + sections_pass(c, sections.drop_first(), max, overlap, min)
    }
}

/// The passage texts of the structural pass: the cleaned text cut into
/// sections, paragraphs and sentence buffers, in document order.
pub open spec fn main_pass_of<C: TokenCounter>(
    c: &C,
    s: Seq<char>,
    max: int,
    overlap: nat,
    min: int,
) -> Seq<Seq<char>> {
    sections_pass(c, sections_of(clean_of(s)), max, overlap, min)
}

/// The passage texts `segment_text` emits: the structural pass when it
/// yields at least three passages; otherwise the halved-budget fallback
/// over the cleaned text, or nothing at all when the cleaned text is
/// empty.
pub open spec fn segment_texts_of<C: TokenCounter>(
    c: &C,
    s: Seq<char>,
    cfg: SegmentConfig,
) -> Seq<Seq<char>> {
    let main = main_pass_of(
        c,
        s,
        cfg.max_tokens as int,
        cfg.overlap_tokens as nat,
        cfg.min_tokens as int,
    );
    if main.len() >= 3 {
        main
    } else if clean_of(s).len() == 0 {
        Seq::empty()
    } else {
        kept_chunks(
            c,
            chunk_texts_of(
                c,
                clean_of(s),
                (cfg.max_tokens / 2) as int,
                (cfg.overlap_tokens / 2) as nat,
            ),
            cfg.min_tokens as int,
        )
    }
}

/// An empty cleaned text makes no sections and so no structural passages.
pub proof fn lemma_main_pass_empty<C: TokenCounter>(
    c: &C,
    s: Seq<char>,
    max: int,
    overlap: nat,
    min: int,
)
    requires
        clean_of(s).len() == 0,
    ensures
        main_pass_of(c, s, max, overlap, min) == Seq::<Seq<char>>::empty(),
{
    let e = Seq::<char>::empty();
    assert(clean_of(s) =~= e);
    assert(crate::text::find_char_of(e, '\n') == 0);
    assert(crate::text::split_char_of(e, '\n') == seq![e]);
    let lines = seq![e];
    assert(lines[0] == e);
    assert(crate::structure::digits_end_of(e) == 0);
    assert(!crate::structure::is_heading_of(e));
    assert(lines.drop_first() =~= Seq::<Seq<char>>::empty());
    assert(e + e + seq!['\n'] =~= seq!['\n']);
    let nl = seq!['\n'];
    assert(crate::text::is_space(nl[0]));
    assert(nl.drop_first() =~= e);
    assert(crate::text::trim_start_of(nl) == crate::text::trim_start_of(e));
    assert(crate::text::trim_of(nl).len() == 0);
    assert(crate::structure::sections_rec(Seq::<Seq<char>>::empty(), nl)
        == Seq::<Seq<char>>::empty());
    assert(crate::structure::sections_rec(lines, e) == crate::structure::sections_rec(
        Seq::<Seq<char>>::empty(),
        e + e + seq!['\n'],
    ));
    assert(sections_of(clean_of(s)) == Seq::<Seq<char>>::empty());
}

// ---------------------------------------------------------------------------
// Lemmas about the chunk bounds
// ---------------------------------------------------------------------------

pub proof fn lemma_grow_end_range<C: TokenCounter>(
    c: &C,
    ws: Seq<Seq<char>>,
    s: int,
    e: int,
    max: int,
)
    requires
        0 <= s < e <= ws.len(),
    ensures
        e <= grow_end(c, ws, s, e, max) <= ws.len(),
    decreases ws.len() - e,
{
    if e >= ws.len() {
    } else if c.spec_count(join_of(ws.subrange(s, e + 1), seq![' '])) > max {
    } else {
        lemma_grow_end_range(c, ws, s, e + 1, max);
    }
}

/// Every chunk of two or more words kept its token count within `max`:
/// growth stopped just before the word that would have exceeded it.
pub proof fn lemma_grow_end_le<C: TokenCounter>(
    c: &C,
    ws: Seq<Seq<char>>,
    s: int,
    e: int,
    max: int,
    k: int,
)
    requires
        0 <= s < e <= ws.len(),
        e < k <= grow_end(c, ws, s, e, max),
    ensures
        c.spec_count(join_of(ws.subrange(s, k), seq![' '])) <= max,
    decreases ws.len() - e,
{
    if e >= ws.len() {
        assert(false);
    } else if c.spec_count(join_of(ws.subrange(s, e + 1), seq![' '])) > max {
        assert(false);
    } else {
        if k == e + 1 {
        } else {
            lemma_grow_end_le(c, ws, s, e + 1, max, k);
        }
    }
}

/// Growth does not stop while every next join still fits the budget.
pub proof fn lemma_grow_end_ge<C: TokenCounter>(
    c: &C,
    ws: Seq<Seq<char>>,
    s: int,
    e: int,
    max: int,
    target: int,
)
    requires
        0 <= s < e <= ws.len(),
        target <= ws.len(),
        forall|k: int|
            e < k <= target ==> c.spec_count(
                #[trigger] join_of(ws.subrange(s, k), seq![' ']),
            ) <= max,
    ensures
        grow_end(c, ws, s, e, max) >= target,
    decreases ws.len() - e,
{
    if e >= target {
        lemma_grow_end_range(c, ws, s, e, max);
    } else {
        assert(c.spec_count(join_of(ws.subrange(s, e + 1), seq![' '])) <= max);
        lemma_grow_end_ge(c, ws, s, e + 1, max, target);
    }
}

/// Shape of the splitter's ranges: they start where asked, end at the last
/// word, stay within the words, and each begins after its predecessor's
/// start (progress) but no later than its predecessor's end (overlap).
pub proof fn lemma_bounds_wf<C: TokenCounter>(
    c: &C,
    ws: Seq<Seq<char>>,
    s: int,
    max: int,
    overlap: nat,
)
    requires
        0 <= s,
    ensures
        ({
            let bs = bounds_from(c, ws, s, max, overlap);
            &&& (s < ws.len() <==> bs.len() > 0)
            &&& (bs.len() > 0 ==> bs[0].0 == s && bs[bs.len() - 1].1 == ws.len())
            &&& (forall|i: int| 0 <= i < bs.len() ==> s <= (#[trigger] bs[i]).0 < bs[i].1 <= ws.len())
            &&& (forall|i: int|
                0 <= i < bs.len() - 1 ==> (#[trigger] bs[i + 1]).0 > bs[i].0 && bs[i + 1].0
                    <= bs[i].1)
        }),
    decreases ws.len() - s,
{
    if !(0 <= s < ws.len()) {
    } else {
        let e = chunk_end(c, ws, s, max);
        lemma_grow_end_range(c, ws, s, s + 1, max);
        assert(s + 1 <= e <= ws.len());
        let bs = bounds_from(c, ws, s, max, overlap);
        if e >= ws.len() {
            assert(bs == seq![(s, ws.len() as int)]);
        } else {
            let nx = next_start(c, ws, s, e, overlap);
            assert(s + 1 <= nx <= e);
            lemma_bounds_wf(c, ws, nx, max, overlap);
            let rest = bounds_from(c, ws, nx, max, overlap);
            assert(bs == seq![(s, e)] + rest);
            assert(nx < ws.len());
            assert(rest.len() > 0);
            assert(bs[0] == (s, e));
            assert(bs.len() == 1 + rest.len());
            assert forall|i: int| 1 <= i < bs.len() implies bs[i] == rest[i - 1] by {}
            assert(bs[bs.len() - 1] == rest[rest.len() - 1]);
            assert forall|i: int|
                0 <= i < bs.len() implies s <= (#[trigger] bs[i]).0 < bs[i].1 <= ws.len() by {
                if i >= 1 {
                    assert(bs[i] == rest[i - 1]);
                    assert(nx <= rest[i - 1].0);
                }
            }
            assert forall|i: int|
                0 <= i < bs.len() - 1 implies (#[trigger] bs[i + 1]).0 > bs[i].0 && bs[i + 1].0
                <= bs[i].1 by {
                if i == 0 {
                    assert(bs[1] == rest[0]);
                    assert(rest[0].0 == nx);
                } else {
                    assert(bs[i] == rest[i - 1]);
                    assert(bs[i + 1] == rest[i]);
                    assert(rest[(i - 1) + 1] == rest[i]);
                    assert(rest[(i - 1) + 1].0 > rest[i - 1].0 && rest[(i - 1) + 1].0 <= rest[i
                        - 1].1);
                }
            }
        }
    }
}


/// `texts_for` pairs each range with its joined words, index by index.
pub proof fn lemma_texts_for(ws: Seq<Seq<char>>, bs: Seq<(int, int)>)
    ensures
        texts_for(ws, bs).len() == bs.len(),
        forall|i: int|
            0 <= i < bs.len() ==> #[trigger] texts_for(ws, bs)[i] == join_of(
                ws.subrange(bs[i].0, bs[i].1),
                seq![' '],
            ),
    decreases bs.len(),
{
    if bs.len() == 0 {
    } else {
        lemma_texts_for(ws, bs.drop_first());
        assert forall|i: int|
            0 <= i < bs.len() implies #[trigger] texts_for(ws, bs)[i] == join_of(
            ws.subrange(bs[i].0, bs[i].1),
            seq![' '],
        ) by {
            if i > 0 {
                assert(texts_for(ws, bs)[i] == texts_for(ws, bs.drop_first())[i - 1]);
                assert(bs.drop_first()[i - 1] == bs[i]);
            }
        }
    }
}

/// Every range's end is the greedy chunk end for its start.
pub proof fn lemma_bounds_ends<C: TokenCounter>(
    c: &C,
    ws: Seq<Seq<char>>,
    s: int,
    max: int,
    overlap: nat,
)
    requires
        0 <= s,
    ensures
        forall|i: int|
            0 <= i < bounds_from(c, ws, s, max, overlap).len() ==> (#[trigger] bounds_from(
                c,
                ws,
                s,
                max,
                overlap,
            )[i]).1 == chunk_end(c, ws, bounds_from(c, ws, s, max, overlap)[i].0, max),
    decreases ws.len() - s,
{
    if !(0 <= s < ws.len()) {
    } else {
        let e = chunk_end(c, ws, s, max);
        lemma_grow_end_range(c, ws, s, s + 1, max);
        let bs = bounds_from(c, ws, s, max, overlap);
        if e >= ws.len() {
            assert(bs[0] == (s, ws.len() as int));
            assert(e == ws.len());
        } else {
            let nx = next_start(c, ws, s, e, overlap);
            lemma_bounds_ends(c, ws, nx, max, overlap);
            let rest = bounds_from(c, ws, nx, max, overlap);
            assert(bs == seq![(s, e)] + rest);
            assert forall|i: int|
                0 <= i < bs.len() implies (#[trigger] bs[i]).1 == chunk_end(c, ws, bs[i].0, max) by {
                if i > 0 {
                    assert(bs[i] == rest[i - 1]);
                }
            }
        }
    }
}

/// Every chunk text is non-empty, and fits the budget unless it is a
/// single word.
pub proof fn lemma_chunk_texts_wf<C: TokenCounter>(c: &C, s: Seq<char>, max: int, overlap: nat)
    ensures
        ({
            let texts = chunk_texts_of(c, s, max, overlap);
            forall|j: int|
                0 <= j < texts.len() ==> (#[trigger] texts[j]).len() > 0 && (c.spec_count(
                    texts[j],
                ) <= max || words_of(texts[j]).len() <= 1)
        }),
{
    let ws = words_of(s);
    let bs = bounds_from(c, ws, 0, max, overlap);
    let texts = chunk_texts_of(c, s, max, overlap);
    lemma_words_wf(s);
    lemma_bounds_wf(c, ws, 0, max, overlap);
    lemma_bounds_ends(c, ws, 0, max, overlap);
    lemma_texts_for(ws, bs);
    assert forall|j: int|
        0 <= j < texts.len() implies (#[trigger] texts[j]).len() > 0 && (c.spec_count(texts[j])
        <= max || words_of(texts[j]).len() <= 1) by {
        let a = bs[j].0;
        let b = bs[j].1;
        assert(texts[j] == join_of(ws.subrange(a, b), seq![' ']));
        let parts = ws.subrange(a, b);
        assert(parts.len() == b - a >= 1);
        assert(parts[0] == ws[a]);
        assert(ws[a].len() > 0);
        if parts.len() == 1 {
            assert(join_of(parts, seq![' ']) == parts[0]);
        }
        assert(texts[j].len() > 0);
        assert(b == chunk_end(c, ws, a, max));
        lemma_grow_end_range(c, ws, a, a + 1, max);
        if b >= a + 2 {
            lemma_grow_end_le(c, ws, a, a + 1, max, b);
            assert(c.spec_count(texts[j]) <= max);
        } else {
            assert(b == a + 1);
            assert(parts =~= seq![ws[a]]);
            assert(join_of(parts, seq![' ']) == ws[a]);
            crate::text::lemma_words_join(seq![ws[a]]);
            assert(join_of(seq![ws[a]], seq![' ']) == ws[a]);
            assert(words_of(texts[j]) == seq![ws[a]]);
        }
    }
}

/// The chunks that pass the minimum filter keep those properties, and all
/// reach the minimum.
pub proof fn lemma_kept_wf<C: TokenCounter>(c: &C, texts: Seq<Seq<char>>, min: int, max: int)
    requires
        forall|j: int|
            0 <= j < texts.len() ==> (#[trigger] texts[j]).len() > 0 && (c.spec_count(texts[j])
                <= max || words_of(texts[j]).len() <= 1),
    ensures
        ({
            let kc = kept_chunks(c, texts, min);
            forall|i: int|
                0 <= i < kc.len() ==> (#[trigger] kc[i]).len() > 0 && c.spec_count(kc[i]) >= min
                    && (c.spec_count(kc[i]) <= max || words_of(kc[i]).len() <= 1)
        }),
    decreases texts.len(),
{
    if texts.len() == 0 {
    } else {
        assert forall|j: int|
            0 <= j < texts.drop_first().len() implies (#[trigger] texts.drop_first()[j]).len() > 0
            && (c.spec_count(texts.drop_first()[j]) <= max || words_of(
            texts.drop_first()[j],
        ).len() <= 1) by {
            assert(texts.drop_first()[j] == texts[j + 1]);
        }
        lemma_kept_wf(c, texts.drop_first(), min, max);
        let kc = kept_chunks(c, texts, min);
        let rest = kept_chunks(c, texts.drop_first(), min);
        if c.spec_count(texts[0]) >= min {
            assert(kc == seq![texts[0]] + rest);
            assert forall|i: int|
                0 <= i < kc.len() implies (#[trigger] kc[i]).len() > 0 && c.spec_count(kc[i])
                >= min && (c.spec_count(kc[i]) <= max || words_of(kc[i]).len() <= 1) by {
                if i > 0 {
                    assert(kc[i] == rest[i - 1]);
                }
            }
        }
    }
}

// ---------------------------------------------------------------------------
// The executable splitter
// ---------------------------------------------------------------------------

/// Grows one chunk greedily from word `s`: returns the end index and the
/// chunk's text characters.
fn grow_chunk<C: TokenCounter>(tc: &C, words: &Vec<Vec<char>>, s: usize, max: usize) -> (r: (
    usize,
    Vec<char>,
))
    requires
        s < words@.len(),
    ensures
        r.0 as int == chunk_end(tc, words.deep_view(), s as int, max as int),
        s < r.0 <= words@.len(),
        r.1@ == join_of(words.deep_view().subrange(s as int, r.0 as int), seq![' ']),
{
    let ghost wv = words.deep_view();
    let n = words.len();
    proof {
        assert(wv.len() == n);
        lemma_grow_end_range(tc, wv, s as int, s + 1, max as int);
    }
    let mut e: usize = s + 1;
    let mut chunk: Vec<char> = copy_range(&words[s], 0, words[s].len());
    proof {
        assert(wv[s as int] == words@[s as int].deep_view());
        assert(words@[s as int].deep_view() =~= words@[s as int]@);
        assert(chunk@ =~= words@[s as int]@);
        assert(wv.subrange(s as int, s + 1) =~= seq![wv[s as int]]);
        assert(join_of(seq![wv[s as int]], seq![' ']) == wv[s as int]);
    }
    loop
        invariant
            s < e <= n,
            n == words@.len(),
            wv == words.deep_view(),
            wv.len() == n,
            s < wv.len(),
            chunk@ == join_of(wv.subrange(s as int, e as int), seq![' ']),
            grow_end(tc, wv, s as int, s + 1, max as int) == grow_end(
                tc,
                wv,
                s as int,
                e as int,
                max as int,
            ),
        decreases n - e,
    {
        if e >= n {
            proof {
                assert(grow_end(tc, wv, s as int, e as int, max as int) == n as int);
                lemma_grow_end_range(tc, wv, s as int, s + 1, max as int);
            }
            return (e, chunk);
        }
        let mut test: Vec<char> = copy_range(&chunk, 0, chunk.len());
        test.push(' ');
        let word = copy_range(&words[e], 0, words[e].len());
        extend_chars(&mut test, &word);
        proof {
            assert(wv[e as int] == words@[e as int].deep_view());
            assert(words@[e as int].deep_view() =~= words@[e as int]@);
            assert(wv.subrange(s as int, e + 1) =~= wv.subrange(s as int, e as int).push(
                wv[e as int],
            ));
            crate::text::lemma_join_push(wv.subrange(s as int, e as int), seq![' '], wv[e as int]);
            assert(test@ =~= (chunk@.push(' ')) + words@[e as int]@);
            assert((chunk@.push(' ')) + words@[e as int]@ =~= chunk@ + seq![' '] + wv[e as int]);
            assert(test@ == join_of(wv.subrange(s as int, e + 1), seq![' ']));
        }
        let test_str = string_from_chars(&test);
        let cnt = tc.count(test_str.as_str());
        if cnt > max {
            proof {
                assert(grow_end(tc, wv, s as int, e as int, max as int) == e as int);
                lemma_grow_end_range(tc, wv, s as int, s + 1, max as int);
            }
            return (e, chunk);
        }
        chunk = test;
        e = e + 1;
    }
}

/// The word ranges of the chunks that the large-text splitter emits for
/// the given words, computed greedily against the counter.
pub fn chunk_bounds<C: TokenCounter>(
    tc: &C,
    words: &Vec<Vec<char>>,
    max: usize,
    overlap: usize,
) -> (bs: Vec<(usize, usize)>)
    ensures
        ({
            let gb = bounds_from(tc, words.deep_view(), 0, max as int, overlap as nat);
            &&& bs@.len() == gb.len()
            &&& forall|i: int|
                0 <= i < gb.len() ==> #[trigger] gb[i] == (bs@[i].0 as int, bs@[i].1 as int)
        }),
{
    let ghost wv = words.deep_view();
    let n = words.len();
    proof {
        assert(wv.len() == n);
    }
    let mut bs: Vec<(usize, usize)> = Vec::new();
    if n == 0 {
        return bs;
    }
    let ghost gb = bounds_from(tc, wv, 0, max as int, overlap as nat);
    let mut s: usize = 0;
    loop
        invariant
            s < n,
            n == words@.len(),
            wv == words.deep_view(),
            wv.len() == n,
            gb == bounds_from(tc, wv, 0, max as int, overlap as nat),
            bs@.len() <= gb.len(),
            gb == gb.take(bs@.len() as int) + bounds_from(
                tc,
                wv,
                s as int,
                max as int,
                overlap as nat,
            ),
            forall|i: int|
                0 <= i < bs@.len() ==> #[trigger] gb[i] == (bs@[i].0 as int, bs@[i].1 as int),
        decreases n - s,
    {
        let ghost done = bs@.len() as int;
        let ghost tail = bounds_from(tc, wv, s as int, max as int, overlap as nat);
        let (e, chunk) = grow_chunk(tc, words, s, max);
        proof {
            assert(tail.len() > 0);
            assert(gb.len() == done + tail.len());
            assert(gb[done] == tail[0]);
        }
        let ghost bs0 = bs@;
        bs.push((s, e));
        if e >= n {
            proof {
                assert(e == n);
                assert(tail == seq![(s as int, n as int)]);
                assert(gb[done] == (s as int, e as int));
                assert(gb.len() == done + 1);
                assert forall|i: int|
                    0 <= i < gb.len() implies #[trigger] gb[i] == (bs@[i].0 as int, bs@[
                i].1 as int) by {
                    if i < done {
                        assert(bs@[i] == bs0[i]);
                    } else {
                        assert(bs@[i] == (s, e));
                    }
                }
            }
            return bs;
        }
        proof {
            assert(tail[0] == (s as int, e as int));
            assert(gb[done] == (s as int, e as int));
            assert forall|i: int|
                0 <= i < bs@.len() implies #[trigger] gb[i] == (bs@[i].0 as int, bs@[
            i].1 as int) by {
                if i < done {
                    assert(bs@[i] == bs0[i]);
                } else {
                    assert(bs@[i] == (s, e));
                }
            }
            assert(tail == seq![(s as int, e as int)] + bounds_from(
                tc,
                wv,
                next_start(tc, wv, s as int, e as int, overlap as nat),
                max as int,
                overlap as nat,
            ));
            assert(gb.take(done + 1) =~= gb.take(done).push(gb[done]));
            assert(gb =~= gb.take(done + 1) + bounds_from(
                tc,
                wv,
                next_start(tc, wv, s as int, e as int, overlap as nat),
                max as int,
                overlap as nat,
            ));
        }
        let chunk_str = string_from_chars(&chunk);
        let overlap_text = tc.keep_last(chunk_str.as_str(), overlap);
        let ocs = chars_from_str(overlap_text.as_str());
        let ows = split_words(&ocs);
        let ow = ows.len();
        proof {
            assert(ows.deep_view().len() == ows@.len());
            assert(ow as int == words_of(
                tc.spec_keep_last(
                    join_of(wv.subrange(s as int, e as int), seq![' ']),
                    overlap as nat,
                ),
            ).len());
        }
        let next = if ow < e && e - ow > s + 1 {
            e - ow
        } else {
            s + 1
        };
        proof {
            assert(next as int == next_start(tc, wv, s as int, e as int, overlap as nat));
            assert(next <= e);
        }
        s = next;
    }
}

/// Splits an oversized text into word-granular chunks: whole words join a
/// chunk while its token count stays within `max_tokens`, and each next
/// chunk starts `overlap_tokens` worth of trailing words earlier, always
/// at least one word further on than its predecessor.
pub fn split_large_text<C: TokenCounter>(
    text: &str,
    tc: &C,
    max_tokens: usize,
    overlap_tokens: usize,
) -> (chunks: Vec<String>)
    ensures
        chunks.deep_view() == chunk_texts_of(tc, text@, max_tokens as int, overlap_tokens as nat),
{
    broadcast use strings_deep_view;

    let cs = chars_from_str(text);
    let words = split_words(&cs);
    let ghost wv = words.deep_view();
    let bs = chunk_bounds(tc, &words, max_tokens, overlap_tokens);
    let ghost gb = bounds_from(tc, wv, 0, max_tokens as int, overlap_tokens as nat);
    proof {
        lemma_bounds_wf(tc, wv, 0, max_tokens as int, overlap_tokens as nat);
        lemma_texts_for(wv, gb);
    }
    let mut chunks: Vec<String> = Vec::new();
    let mut i: usize = 0;
    while i < bs.len()
        invariant
            i <= bs@.len(),
            wv == words.deep_view(),
            bs@.len() == gb.len(),
            gb == bounds_from(tc, wv, 0, max_tokens as int, overlap_tokens as nat),
            forall|k: int|
                0 <= k < gb.len() ==> #[trigger] gb[k] == (bs@[k].0 as int, bs@[k].1 as int),
            forall|k: int| 0 <= k < gb.len() ==> 0 <= (#[trigger] gb[k]).0 < gb[k].1 <= wv.len(),
            chunks.deep_view().len() == i,
            forall|k: int|
                0 <= k < i ==> #[trigger] chunks.deep_view()[k] == texts_for(wv, gb)[k],
        decreases bs@.len() - i,
    {
        let (a, b) = (bs[i].0, bs[i].1);
        proof {
            lemma_texts_for(wv, gb);
            assert(gb[i as int] == (a as int, b as int));
        }
        let piece = join_word_range(&words, a, b);
        let ghost old_chunks = chunks.deep_view();
        chunks.push(piece);
        proof {
            assert(chunks.deep_view() =~~= old_chunks.push(
                join_of(wv.subrange(a as int, b as int), seq![' ']),
            ));
            assert(texts_for(wv, gb)[i as int] == join_of(
                wv.subrange(a as int, b as int),
                seq![' '],
            ));
        }
        i = i + 1;
    }
    proof {
        lemma_texts_for(wv, gb);
        assert(chunks.deep_view() =~= texts_for(wv, gb));
    }
    chunks
}

/// The words from `a` (inclusive) to `b` (exclusive), joined with single
/// spaces.
fn join_word_range(words: &Vec<Vec<char>>, a: usize, b: usize) -> (r: String)
    requires
        a <= b <= words@.len(),
    ensures
        r@ == join_of(words.deep_view().subrange(a as int, b as int), seq![' ']),
{
    let ghost wv = words.deep_view();
    let mut sub: Vec<Vec<char>> = Vec::new();
    let mut k: usize = a;
    proof {
        assert(wv.len() == words@.len());
        assert(sub.deep_view() =~= wv.subrange(a as int, a as int));
    }
    while k < b
        invariant
            a <= k <= b <= words@.len(),
            wv == words.deep_view(),
            wv.len() == words@.len(),
            sub.deep_view() == wv.subrange(a as int, k as int),
        decreases b - k,
    {
        let w = copy_range(&words[k], 0, words[k].len());
        proof {
            assert(w@ =~= words@[k as int]@);
            assert(wv[k as int] == words@[k as int].deep_view());
            assert(words@[k as int].deep_view() =~= words@[k as int]@);
        }
        let ghost old_sub = sub.deep_view();
        sub.push(w);
        k = k + 1;
        proof {
            assert(sub.deep_view() =~~= old_sub.push(wv[k - 1]));
            assert(wv.subrange(a as int, k as int) =~= wv.subrange(a as int, k - 1).push(
                wv[k - 1],
            ));
        }
    }
    let mut sep: Vec<char> = Vec::new();
    sep.push(' ');
    proof {
        assert(sep@ =~= seq![' ']);
    }
    let joined = join_chars(&sub, &sep);
    string_from_chars(&joined)
}


// ---------------------------------------------------------------------------
// Emitting passages
// ---------------------------------------------------------------------------

/// A passage as the segmenter creates it: unidentified, with no embedding
/// and no fingerprint, carrying the given metadata.
pub open spec fn fresh_passage_ok(p: Passage, metadata: Option<Metadata>) -> bool {
    &&& p.id is None
    &&& p.embedding@ == Seq::<i64>::empty()
    &&& p.hash is None
    &&& opt_metadata_like(p.metadata, metadata)
}

/// What the segmenter guarantees of every passage it emits: fresh fields,
/// non-empty text, token count at least `min_tokens`, and at most
/// `max_tokens` unless the passage is one single oversized word.
pub open spec fn segment_passage_ok<C: TokenCounter>(
    c: &C,
    p: Passage,
    cfg: SegmentConfig,
    metadata: Option<Metadata>,
) -> bool {
    &&& fresh_passage_ok(p, metadata)
    &&& p.text@.len() > 0
    &&& c.spec_count(p.text@) >= cfg.min_tokens
    &&& (c.spec_count(p.text@) <= cfg.max_tokens || words_of(p.text@).len() <= 1)
}

/// Runs the large-text splitter over `text` and appends a passage for each
/// chunk whose token count reaches `min`.
fn emit_chunks<C: TokenCounter>(
    passages: &mut Vec<Passage>,
    text: &str,
    tc: &C,
    max: usize,
    overlap: usize,
    min: usize,
    metadata: &Option<Metadata>,
)
    ensures
        ({
            let kc = kept_chunks(
                tc,
                chunk_texts_of(tc, text@, max as int, overlap as nat),
                min as int,
            );
            &&& final(passages)@.len() == old(passages)@.len() + kc.len()
            &&& (forall|i: int|
                0 <= i < old(passages)@.len() ==> final(passages)@[i] == old(passages)@[i])
            &&& (forall|i: int|
                0 <= i < kc.len() ==> fresh_passage_ok(
                    #[trigger] final(passages)@[old(passages)@.len() + i],
                    *metadata,
                ) && final(passages)@[old(passages)@.len() + i].text@ == kc[i])
            &&& (forall|i: int|
                old(passages)@.len() <= i < final(passages)@.len() ==> {
                    let p = #[trigger] final(passages)@[i];
                    fresh_passage_ok(p, *metadata) && p.text@.len() > 0 && tc.spec_count(p.text@)
                        >= min && (tc.spec_count(p.text@) <= max || words_of(p.text@).len() <= 1)
                })
        }),
{
    let chunks = split_large_text(text, tc, max, overlap);
    let ghost ctv = chunk_texts_of(tc, text@, max as int, overlap as nat);
    let ghost kc_full = kept_chunks(tc, ctv, min as int);
    let ghost base = passages@.len() as int;
    let n = chunks.len();
    let mut i: usize = 0;
    proof {
        assert(ctv.skip(0) =~= ctv);
        assert(kc_full.take(0) =~= Seq::<Seq<char>>::empty());
        assert(Seq::<Seq<char>>::empty() + kc_full =~= kc_full);
    }
    while i < n
        invariant
            i <= n,
            n == chunks@.len(),
            chunks.deep_view() == ctv,
            ctv.len() == n,
            kc_full == kept_chunks(tc, ctv, min as int),
            base == old(passages)@.len(),
            base <= passages@.len(),
            passages@.len() - base <= kc_full.len(),
            kc_full == kc_full.take(passages@.len() - base) + kept_chunks(
                tc,
                ctv.skip(i as int),
                min as int,
            ),
            forall|k: int| 0 <= k < base ==> passages@[k] == old(passages)@[k],
            forall|k: int|
                0 <= k < passages@.len() - base ==> fresh_passage_ok(
                    #[trigger] passages@[base + k],
                    *metadata,
                ) && passages@[base + k].text@ == kc_full[k],
        decreases n - i,
    {
        let ghost m = passages@.len() - base;
        let ghost tailk = kept_chunks(tc, ctv.skip(i as int), min as int);
        let cnt = tc.count(chunks[i].as_str());
        proof {
            assert(ctv[i as int] == chunks@[i as int].deep_view());
            assert(chunks@[i as int].deep_view() =~= chunks@[i as int]@);
            assert(ctv.skip(i as int)[0] == ctv[i as int]);
            assert(ctv.skip(i as int).drop_first() =~= ctv.skip(i + 1));
            assert(cnt as nat == tc.spec_count(ctv[i as int]));
        }
        if cnt >= min {
            let ghost ps0 = passages@;
            let p = make_passage(chunks[i].as_str(), metadata);
            passages.push(p);
            proof {
                assert(tailk == seq![ctv[i as int]] + kept_chunks(
                    tc,
                    ctv.skip(i + 1),
                    min as int,
                ));
                assert(kc_full[m] == ctv[i as int]);
                assert(kc_full.take(m + 1) =~= kc_full.take(m).push(kc_full[m]));
                assert(kc_full =~= kc_full.take(m + 1) + kept_chunks(
                    tc,
                    ctv.skip(i + 1),
                    min as int,
                ));
                assert forall|k: int|
                    0 <= k < passages@.len() - base implies fresh_passage_ok(
                    #[trigger] passages@[base + k],
                    *metadata,
                ) && passages@[base + k].text@ == kc_full[k] by {
                    if k < m {
                        assert(passages@[base + k] == ps0[base + k]);
                    } else {
                        assert(passages@[base + k] == p);
                    }
                }
            }
        } else {
            proof {
                assert(tailk == kept_chunks(tc, ctv.skip(i + 1), min as int));
            }
        }
        i = i + 1;
    }
    proof {
        assert(ctv.skip(n as int) =~= Seq::<Seq<char>>::empty());
        assert(kept_chunks(tc, Seq::<Seq<char>>::empty(), min as int)
            == Seq::<Seq<char>>::empty());
        assert(kc_full =~= kc_full.take(passages@.len() - base));
        assert(passages@.len() - base == kc_full.len());
        lemma_chunk_texts_wf(tc, text@, max as int, overlap as nat);
        lemma_kept_wf(tc, ctv, min as int, max as int);
        assert forall|i2: int|
            base <= i2 < passages@.len() implies {
            let p = #[trigger] passages@[i2];
            fresh_passage_ok(p, *metadata) && p.text@.len() > 0 && tc.spec_count(p.text@) >= min
                && (tc.spec_count(p.text@) <= max || words_of(p.text@).len() <= 1)
        } by {
            let k = i2 - base;
            assert(passages@[base + k].text@ == kc_full[k]);
            assert(kc_full[k].len() > 0 && tc.spec_count(kc_full[k]) >= min && (tc.spec_count(
                kc_full[k],
            ) <= max || words_of(kc_full[k]).len() <= 1));
        }
    }
}

/// Emits the sentence buffer: dropped when under `min_tokens`, emitted as
/// one passage when within the budget, and routed through the large-text
/// splitter when over it — exactly `flush_buffer_of` the buffer text.
fn emit_buffer<C: TokenCounter>(
    passages: &mut Vec<Passage>,
    buffer: &String,
    tc: &C,
    cfg: &SegmentConfig,
    metadata: &Option<Metadata>,
)
    requires
        cfg.wf(),
    ensures
        ({
            let fb = flush_buffer_of(
                tc,
                buffer@,
                cfg.max_tokens as int,
                cfg.overlap_tokens as nat,
                cfg.min_tokens as int,
            );
            &&& final(passages)@.len() == old(passages)@.len() + fb.len()
            &&& (forall|i: int|
                0 <= i < old(passages)@.len() ==> final(passages)@[i] == old(passages)@[i])
            &&& (forall|i: int|
                0 <= i < fb.len() ==> (#[trigger] final(passages)@[old(passages)@.len()
                    + i]).text@ == fb[i])
            &&& (forall|i: int|
                old(passages)@.len() <= i < final(passages)@.len() ==> segment_passage_ok(
                    tc,
                    #[trigger] final(passages)@[i],
                    *cfg,
                    *metadata,
                ))
        }),
{
    let ghost fb = flush_buffer_of(
        tc,
        buffer@,
        cfg.max_tokens as int,
        cfg.overlap_tokens as nat,
        cfg.min_tokens as int,
    );
    if buffer.as_str().is_empty() {
        proof {
            assert(fb == Seq::<Seq<char>>::empty());
        }
        return ;
    }
    let c = tc.count(buffer.as_str());
    if c > cfg.max_tokens {
        emit_chunks(
            passages,
            buffer.as_str(),
            tc,
            cfg.max_tokens,
            cfg.overlap_tokens,
            cfg.min_tokens,
            metadata,
        );
        proof {
            assert(fb == kept_chunks(
                tc,
                chunk_texts_of(tc, buffer@, cfg.max_tokens as int, cfg.overlap_tokens as nat),
                cfg.min_tokens as int,
            ));
        }
    } else if c >= cfg.min_tokens {
        let p = make_passage(buffer.as_str(), metadata);
        let ghost ps0 = passages@;
        passages.push(p);
        proof {
            assert(fb == seq![buffer@]);
            assert forall|i: int|
                old(passages)@.len() <= i < passages@.len() implies segment_passage_ok(
                tc,
                #[trigger] passages@[i],
                *cfg,
                *metadata,
            ) by {
                assert(passages@[i] == p);
            }
        }
    } else {
        proof {
            assert(fb == Seq::<Seq<char>>::empty());
        }
    }
}

// ---------------------------------------------------------------------------
// The segmenter
// ---------------------------------------------------------------------------

/// Splits a document into passages: cleans the text, cuts it into
/// numbered-heading sections, paragraphs and sentences, accumulates
/// sentences into token-budgeted buffers with overlap seeding, routes
/// oversized units through the large-text splitter, and falls back to an
/// aggressive halved-budget split when fewer than three passages come out
/// of a non-empty text.
///
/// The passage texts are exactly `segment_texts_of` the input: the
/// structural pass in document order, or the halved-budget fallback when
/// it yields fewer than three. Every emitted passage is fresh (no id,
/// embedding or fingerprint), carries the given metadata, and has a token
/// count of at least `min_tokens` and at most `max_tokens` unless it is a
/// single oversized word. An empty or whitespace-only input yields no
/// passages.
pub fn segment_text<C: TokenCounter>(
    text: &str,
    metadata: Option<Metadata>,
    tc: &C,
    cfg: &SegmentConfig,
) -> (r: Vec<Passage>)
    requires
        cfg.wf(),
    ensures
        forall|i: int|
            0 <= i < r@.len() ==> segment_passage_ok(tc, #[trigger] r@[i], *cfg, metadata),
        r@.len() == segment_texts_of(tc, text@, *cfg).len(),
        forall|i: int|
            0 <= i < r@.len() ==> (#[trigger] r@[i]).text@ == segment_texts_of(
                tc,
                text@,
                *cfg,
            )[i],
        clean_of(text@).len() == 0 ==> r@.len() == 0,
{
    let ghost maxi = cfg.max_tokens as int;
    let ghost ovn = cfg.overlap_tokens as nat;
    let ghost mini = cfg.min_tokens as int;
    let ghost cl = clean_of(text@);
    let ghost stx = segment_texts_of(tc, text@, *cfg);
    let ghost main = main_pass_of(tc, text@, maxi, ovn, mini);
    let cleaned = clean_text(text);
    if cleaned.as_str().is_empty() {
        proof {
            lemma_main_pass_empty(tc, text@, maxi, ovn, mini);
            assert(stx =~= Seq::<Seq<char>>::empty());
        }
        let r: Vec<Passage> = Vec::new();
        return r;
    }
    let sections = split_sections(cleaned.as_str());
    let ghost secv = sections.deep_view();
    let mut passages: Vec<Passage> = Vec::new();
    let ghost mut done: Seq<Seq<char>> = Seq::empty();
    let mut si: usize = 0;
    proof {
        assert(secv == sections_of(cl));
        assert(secv.skip(0) =~= secv);
        assert(main == sections_pass(tc, secv, maxi, ovn, mini));
        assert(done + sections_pass(tc, secv, maxi, ovn, mini) =~= sections_pass(
            tc,
            secv,
            maxi,
            ovn,
            mini,
        ));
    }
    while si < sections.len()
        invariant
            cfg.wf(),
            maxi == cfg.max_tokens as int,
            ovn == cfg.overlap_tokens as nat,
            mini == cfg.min_tokens as int,
            si <= sections@.len(),
            secv == sections.deep_view(),
            secv.len() == sections@.len(),
            passages@.len() == done.len(),
            forall|k: int|
                0 <= k < done.len() ==> (#[trigger] passages@[k]).text@ == done[k],
            main == done + sections_pass(tc, secv.skip(si as int), maxi, ovn, mini),
            forall|k: int|
                0 <= k < passages@.len() ==> segment_passage_ok(
                    tc,
                    #[trigger] passages@[k],
                    *cfg,
                    metadata,
                ),
        decreases sections@.len() - si,
    {
        let ghost sec = secv[si as int];
        proof {
            assert(secv[si as int] == sections@[si as int].deep_view());
            assert(sections@[si as int].deep_view() =~= sections@[si as int]@);
            assert(secv.skip(si as int)[0] == sec);
            assert(secv.skip(si as int).drop_first() =~= secv.skip(si + 1));
        }
        let ghost sec_rest = sections_pass(tc, secv.skip(si + 1), maxi, ovn, mini);
        let sc = tc.count(sections[si].as_str());
        if sc > cfg.max_tokens * 3 {
            let ghost ps0 = passages@;
            let ghost d0 = done;
            let ghost kc = kept_chunks(tc, chunk_texts_of(tc, sec, maxi, ovn), mini);
            emit_chunks(
                &mut passages,
                sections[si].as_str(),
                tc,
                cfg.max_tokens,
                cfg.overlap_tokens,
                cfg.min_tokens,
                &metadata,
            );
            proof {
                done = done + kc;
                assert(sections_pass(tc, secv.skip(si as int), maxi, ovn, mini) == kc
                    + sec_rest);
                assert(d0 + (kc + sec_rest) =~= (d0 + kc) + sec_rest);
                assert forall|k: int|
                    0 <= k < done.len() implies (#[trigger] passages@[k]).text@ == done[k] by {
                    if k < d0.len() {
                        assert(passages@[k] == ps0[k]);
                    } else {
                        assert(passages@[ps0.len() + (k - ps0.len())].text@ == kc[k - ps0.len()]);
                        assert(done[k] == kc[k - d0.len()]);
                    }
                }
                assert forall|k: int|
                    0 <= k < passages@.len() implies segment_passage_ok(
                    tc,
                    #[trigger] passages@[k],
                    *cfg,
                    metadata,
                ) by {
                    if k < ps0.len() {
                        assert(passages@[k] == ps0[k]);
                    }
                }
            }
        } else {
            let paras = split_paragraphs(sections[si].as_str());
            let ghost pv = paras.deep_view();
            let mut pi: usize = 0;
            proof {
                assert(pv == paragraphs_of(sec));
                assert(pv.skip(0) =~= pv);
                assert(sections_pass(tc, secv.skip(si as int), maxi, ovn, mini)
                    == paragraphs_pass(tc, pv, maxi, ovn, mini) + sec_rest);
                assert(done + (paragraphs_pass(tc, pv, maxi, ovn, mini) + sec_rest) =~= done
                    + paragraphs_pass(tc, pv, maxi, ovn, mini) + sec_rest);
            }
            while pi < paras.len()
                invariant
                    cfg.wf(),
                    maxi == cfg.max_tokens as int,
                    ovn == cfg.overlap_tokens as nat,
                    mini == cfg.min_tokens as int,
                    pi <= paras@.len(),
                    pv == paras.deep_view(),
                    pv.len() == paras@.len(),
                    passages@.len() == done.len(),
                    forall|k: int|
                        0 <= k < done.len() ==> (#[trigger] passages@[k]).text@ == done[k],
                    main == done + paragraphs_pass(tc, pv.skip(pi as int), maxi, ovn, mini)
                        + sec_rest,
                    sec_rest == sections_pass(tc, secv.skip(si + 1), maxi, ovn, mini),
                    forall|k: int|
                        0 <= k < passages@.len() ==> segment_passage_ok(
                            tc,
                            #[trigger] passages@[k],
                            *cfg,
                            metadata,
                        ),
                decreases paras@.len() - pi,
            {
                let ghost para = pv[pi as int];
                proof {
                    assert(pv[pi as int] == paras@[pi as int].deep_view());
                    assert(paras@[pi as int].deep_view() =~= paras@[pi as int]@);
                    assert(pv.skip(pi as int)[0] == para);
                    assert(pv.skip(pi as int).drop_first() =~= pv.skip(pi + 1));
                }
                let ghost para_rest = paragraphs_pass(tc, pv.skip(pi + 1), maxi, ovn, mini);
                let pc = tc.count(paras[pi].as_str());
                if pc > cfg.max_tokens {
                    let ghost ps0 = passages@;
                    let ghost d0 = done;
                    let ghost kc = kept_chunks(tc, chunk_texts_of(tc, para, maxi, ovn), mini);
                    emit_chunks(
                        &mut passages,
                        paras[pi].as_str(),
                        tc,
                        cfg.max_tokens,
                        cfg.overlap_tokens,
                        cfg.min_tokens,
                        &metadata,
                    );
                    proof {
                        done = done + kc;
                        assert(paragraphs_pass(tc, pv.skip(pi as int), maxi, ovn, mini) == kc
                            + para_rest);
                        assert(d0 + (kc + para_rest) + sec_rest =~= (d0 + kc) + para_rest
                            + sec_rest);
                        assert forall|k: int|
                            0 <= k < done.len() implies (#[trigger] passages@[k]).text@
                            == done[k] by {
                            if k < d0.len() {
                                assert(passages@[k] == ps0[k]);
                            } else {
                                assert(passages@[ps0.len() + (k - ps0.len())].text@ == kc[k
                                    - ps0.len()]);
                                assert(done[k] == kc[k - d0.len()]);
                            }
                        }
                        assert forall|k: int|
                            0 <= k < passages@.len() implies segment_passage_ok(
                            tc,
                            #[trigger] passages@[k],
                            *cfg,
                            metadata,
                        ) by {
                            if k < ps0.len() {
                                assert(passages@[k] == ps0[k]);
                            }
                        }
                    }
                } else {
                    let sentences = split_sentences(paras[pi].as_str());
                    let ghost qv = sentences.deep_view();
                    let mut buffer = String::new();
                    let mut token_count: usize = 0;
                    let mut qi: usize = 0;
                    proof {
                        assert(qv == sentences_of(para));
                        assert(qv.skip(0) =~= qv);
                        assert(buffer@ =~= Seq::<char>::empty());
                        assert(paragraphs_pass(tc, pv.skip(pi as int), maxi, ovn, mini)
                            == buffer_pass(tc, qv, Seq::empty(), 0, maxi, ovn, mini)
                            + para_rest);
                        assert(done + (buffer_pass(tc, qv, Seq::empty(), 0, maxi, ovn, mini)
                            + para_rest) + sec_rest =~= done + buffer_pass(
                            tc,
                            qv,
                            Seq::empty(),
                            0,
                            maxi,
                            ovn,
                            mini,
                        ) + para_rest + sec_rest);
                    }
                    while qi < sentences.len()
                        invariant
                            cfg.wf(),
                            maxi == cfg.max_tokens as int,
                            ovn == cfg.overlap_tokens as nat,
                            mini == cfg.min_tokens as int,
                            qi <= sentences@.len(),
                            qv == sentences.deep_view(),
                            qv.len() == sentences@.len(),
                            token_count <= cfg.max_tokens,
                            passages@.len() == done.len(),
                            forall|k: int|
                                0 <= k < done.len() ==> (#[trigger] passages@[k]).text@
                                    == done[k],
                            main == done + buffer_pass(
                                tc,
                                qv.skip(qi as int),
                                buffer@,
                                token_count as int,
                                maxi,
                                ovn,
                                mini,
                            ) + para_rest + sec_rest,
                            para_rest == paragraphs_pass(tc, pv.skip(pi + 1), maxi, ovn, mini),
                            sec_rest == sections_pass(tc, secv.skip(si + 1), maxi, ovn, mini),
                            forall|k: int|
                                0 <= k < passages@.len() ==> segment_passage_ok(
                                    tc,
                                    #[trigger] passages@[k],
                                    *cfg,
                                    metadata,
                                ),
                        decreases sentences@.len() - qi,
                    {
                        let ghost s0 = qv[qi as int];
                        let ghost b0 = buffer@;
                        let ghost tc0 = token_count as int;
                        proof {
                            assert(qv[qi as int] == sentences@[qi as int].deep_view());
                            assert(sentences@[qi as int].deep_view() =~= sentences@[qi as int]@);
                            assert(qv.skip(qi as int)[0] == s0);
                            assert(qv.skip(qi as int).drop_first() =~= qv.skip(qi + 1));
                            reveal_strlit(" ");
                            assert(" "@ =~= seq![' ']);
                        }
                        let ghost tail2 = para_rest + sec_rest;
                        let st = tc.count(sentences[qi].as_str());
                        if st > cfg.max_tokens {
                            // an oversized sentence goes through the splitter on its own
                            let ghost fb = flush_buffer_of(tc, b0, maxi, ovn, mini);
                            let ghost kc = kept_chunks(
                                tc,
                                chunk_texts_of(tc, s0, maxi, ovn),
                                mini,
                            );
                            let ghost ps0 = passages@;
                            let ghost d0 = done;
                            emit_buffer(&mut passages, &buffer, tc, cfg, &metadata);
                            proof {
                                done = done + fb;
                                assert forall|k: int|
                                    0 <= k < done.len() implies (
                                #[trigger] passages@[k]).text@ == done[k] by {
                                    if k < d0.len() {
                                        assert(passages@[k] == ps0[k]);
                                    } else {
                                        assert(passages@[ps0.len() + (k - ps0.len())].text@
                                            == fb[k - ps0.len()]);
                                        assert(done[k] == fb[k - d0.len()]);
                                    }
                                }
                            }
                            buffer = String::new();
                            token_count = 0;
                            let ghost ps1 = passages@;
                            let ghost d1 = done;
                            emit_chunks(
                                &mut passages,
                                sentences[qi].as_str(),
                                tc,
                                cfg.max_tokens,
                                cfg.overlap_tokens,
                                cfg.min_tokens,
                                &metadata,
                            );
                            proof {
                                done = done + kc;
                                assert(buffer_pass(tc, qv.skip(qi as int), b0, tc0, maxi, ovn,
                                    mini) == fb + kc + buffer_pass(
                                    tc,
                                    qv.skip(qi + 1),
                                    Seq::empty(),
                                    0,
                                    maxi,
                                    ovn,
                                    mini,
                                ));
                                assert(buffer@ =~= Seq::<char>::empty());
                                assert(d0 + (fb + kc + buffer_pass(
                                    tc,
                                    qv.skip(qi + 1),
                                    Seq::empty(),
                                    0,
                                    maxi,
                                    ovn,
                                    mini,
                                )) + tail2 =~= ((d0 + fb) + kc) + buffer_pass(
                                    tc,
                                    qv.skip(qi + 1),
                                    Seq::empty(),
                                    0,
                                    maxi,
                                    ovn,
                                    mini,
                                ) + tail2);
                                assert forall|k: int|
                                    0 <= k < done.len() implies (
                                #[trigger] passages@[k]).text@ == done[k] by {
                                    if k < d1.len() {
                                        assert(passages@[k] == ps1[k]);
                                    } else {
                                        assert(passages@[ps1.len() + (k - ps1.len())].text@
                                            == kc[k - ps1.len()]);
                                        assert(done[k] == kc[k - d1.len()]);
                                    }
                                }
                                assert forall|k: int|
                                    0 <= k < passages@.len() implies segment_passage_ok(
                                    tc,
                                    #[trigger] passages@[k],
                                    *cfg,
                                    metadata,
                                ) by {
                                    if k < ps1.len() {
                                        assert(passages@[k] == ps1[k]);
                                    }
                                }
                            }
                        } else if st > cfg.max_tokens - token_count {
                            // the buffer is full: emit it and seed the next one with
                            // the overlap followed by this sentence
                            let ghost fb = flush_buffer_of(tc, b0, maxi, ovn, mini);
                            let ghost ps0 = passages@;
                            let ghost d0 = done;
                            emit_buffer(&mut passages, &buffer, tc, cfg, &metadata);
                            proof {
                                done = done + fb;
                                assert forall|k: int|
                                    0 <= k < done.len() implies (
                                #[trigger] passages@[k]).text@ == done[k] by {
                                    if k < d0.len() {
                                        assert(passages@[k] == ps0[k]);
                                    } else {
                                        assert(passages@[ps0.len() + (k - ps0.len())].text@
                                            == fb[k - ps0.len()]);
                                        assert(done[k] == fb[k - d0.len()]);
                                    }
                                }
                            }
                            let overlap_text = tc.keep_last(buffer.as_str(), cfg.overlap_tokens);
                            let ghost ov = tc.spec_keep_last(b0, ovn);
                            let ghost nb = if ov.len() == 0 {
                                s0
                            } else {
                                ov + seq![' '] + s0
                            };
                            if overlap_text.as_str().is_empty() {
                                buffer = String::from_str(sentences[qi].as_str());
                            } else {
                                let mut seeded = overlap_text;
                                seeded.append(" ");
                                seeded.append(sentences[qi].as_str());
                                buffer = seeded;
                            }
                            proof {
                                assert(buffer@ =~= nb);
                            }
                            let bc = tc.count(buffer.as_str());
                            if bc > cfg.max_tokens {
                                // the seeded buffer itself exceeds the budget
                                let ghost fb2 = flush_buffer_of(tc, nb, maxi, ovn, mini);
                                let ghost ps1 = passages@;
                                let ghost d1 = done;
                                emit_buffer(&mut passages, &buffer, tc, cfg, &metadata);
                                proof {
                                    done = done + fb2;
                                    assert forall|k: int|
                                        0 <= k < done.len() implies (
                                    #[trigger] passages@[k]).text@ == done[k] by {
                                        if k < d1.len() {
                                            assert(passages@[k] == ps1[k]);
                                        } else {
                                            assert(passages@[ps1.len() + (k - ps1.len())].text@
                                                == fb2[k - ps1.len()]);
                                            assert(done[k] == fb2[k - d1.len()]);
                                        }
                                    }
                                    assert forall|k: int|
                                        0 <= k < passages@.len() implies segment_passage_ok(
                                        tc,
                                        #[trigger] passages@[k],
                                        *cfg,
                                        metadata,
                                    ) by {
                                        if k < ps1.len() {
                                            assert(passages@[k] == ps1[k]);
                                        }
                                    }
                                }
                                buffer = String::new();
                                token_count = 0;
                                proof {
                                    assert(buffer@ =~= Seq::<char>::empty());
                                    assert(buffer_pass(tc, qv.skip(qi as int), b0, tc0, maxi,
                                        ovn, mini) == fb + fb2 + buffer_pass(
                                        tc,
                                        qv.skip(qi + 1),
                                        Seq::empty(),
                                        0,
                                        maxi,
                                        ovn,
                                        mini,
                                    ));
                                    assert(d0 + (fb + fb2 + buffer_pass(
                                        tc,
                                        qv.skip(qi + 1),
                                        Seq::empty(),
                                        0,
                                        maxi,
                                        ovn,
                                        mini,
                                    )) + tail2 =~= ((d0 + fb) + fb2) + buffer_pass(
                                        tc,
                                        qv.skip(qi + 1),
                                        Seq::empty(),
                                        0,
                                        maxi,
                                        ovn,
                                        mini,
                                    ) + tail2);
                                }
                            } else {
                                token_count = bc;
                                proof {
                                    assert(buffer_pass(tc, qv.skip(qi as int), b0, tc0, maxi,
                                        ovn, mini) == fb + buffer_pass(
                                        tc,
                                        qv.skip(qi + 1),
                                        nb,
                                        bc as int,
                                        maxi,
                                        ovn,
                                        mini,
                                    ));
                                    assert(d0 + (fb + buffer_pass(
                                        tc,
                                        qv.skip(qi + 1),
                                        nb,
                                        bc as int,
                                        maxi,
                                        ovn,
                                        mini,
                                    )) + tail2 =~= (d0 + fb) + buffer_pass(
                                        tc,
                                        qv.skip(qi + 1),
                                        nb,
                                        bc as int,
                                        maxi,
                                        ovn,
                                        mini,
                                    ) + tail2);
                                }
                            }
                        } else {
                            if !buffer.as_str().is_empty() {
                                buffer.append(" ");
                            }
                            buffer.append(sentences[qi].as_str());
                            token_count = token_count + st;
                            proof {
                                let nb = if b0.len() == 0 {
                                    s0
                                } else {
                                    b0 + seq![' '] + s0
                                };
                                assert(buffer@ =~= nb);
                                assert(buffer_pass(tc, qv.skip(qi as int), b0, tc0, maxi, ovn,
                                    mini) == buffer_pass(
                                    tc,
                                    qv.skip(qi + 1),
                                    nb,
                                    tc0 + st,
                                    maxi,
                                    ovn,
                                    mini,
                                ));
                            }
                        }
                        qi = qi + 1;
                    }
                    let ghost fb = flush_buffer_of(tc, buffer@, maxi, ovn, mini);
                    let ghost ps0 = passages@;
                    let ghost d0 = done;
                    emit_buffer(&mut passages, &buffer, tc, cfg, &metadata);
                    proof {
                        done = done + fb;
                        assert(qv.skip(qi as int) =~= Seq::<Seq<char>>::empty());
                        assert(buffer_pass(
                            tc,
                            qv.skip(qi as int),
                            buffer@,
                            token_count as int,
                            maxi,
                            ovn,
                            mini,
                        ) == fb);
                        assert forall|k: int|
                            0 <= k < done.len() implies (#[trigger] passages@[k]).text@
                            == done[k] by {
                            if k < d0.len() {
                                assert(passages@[k] == ps0[k]);
                            } else {
                                assert(passages@[ps0.len() + (k - ps0.len())].text@ == fb[k
                                    - ps0.len()]);
                                assert(done[k] == fb[k - d0.len()]);
                            }
                        }
                        assert(d0 + fb + para_rest + sec_rest =~= (d0 + fb) + para_rest
                            + sec_rest);
                    }
                }
                pi = pi + 1;
            }
            proof {
                assert(pv.skip(pi as int) =~= Seq::<Seq<char>>::empty());
                assert(paragraphs_pass(tc, pv.skip(pi as int), maxi, ovn, mini)
                    == Seq::<Seq<char>>::empty());
                assert(done + Seq::<Seq<char>>::empty() + sec_rest =~= done + sec_rest);
            }
        }
        si = si + 1;
    }
    proof {
        assert(secv.skip(si as int) =~= Seq::<Seq<char>>::empty());
        assert(sections_pass(tc, secv.skip(si as int), maxi, ovn, mini)
            == Seq::<Seq<char>>::empty());
        assert(done + Seq::<Seq<char>>::empty() =~= done);
        assert(main == done);
    }
    if passages.len() < 3 {
        // global fallback: re-split the whole cleaned text with half the
        // budget and half the overlap
        let mut fresh: Vec<Passage> = Vec::new();
        let ghost kcf = kept_chunks(
            tc,
            chunk_texts_of(tc, cl, (cfg.max_tokens / 2) as int, (cfg.overlap_tokens / 2) as nat),
            mini,
        );
        emit_chunks(
            &mut fresh,
            cleaned.as_str(),
            tc,
            cfg.max_tokens / 2,
            cfg.overlap_tokens / 2,
            cfg.min_tokens,
            &metadata,
        );
        proof {
            assert(main.len() < 3);
            assert(cl.len() > 0);
            assert(stx == kcf);
            assert(fresh@.len() == kcf.len());
            assert forall|i: int|
                0 <= i < fresh@.len() implies (#[trigger] fresh@[i]).text@ == stx[i] by {
                assert(fresh@[0 + i].text@ == kcf[i]);
            }
            assert forall|i: int|
                0 <= i < fresh@.len() implies segment_passage_ok(
                tc,
                #[trigger] fresh@[i],
                *cfg,
                metadata,
            ) by {
                assert(tc.spec_count(fresh@[i].text@) <= cfg.max_tokens / 2 || words_of(
                    fresh@[i].text@,
                ).len() <= 1);
            }
        }
        return fresh;
    }
    proof {
        assert(main.len() >= 3);
        assert(stx == main);
    }
    passages
}

// ---------------------------------------------------------------------------
// Coverage of the large-text splitter
// ---------------------------------------------------------------------------

/// A counter is suffix-monotone on a word list when dropping leading words
/// from a joined range never increases its token count.
pub open spec fn suffix_monotone_on<C: TokenCounter>(c: &C, ws: Seq<Seq<char>>) -> bool {
    forall|a: int, a2: int, b: int|
        #![trigger ws.subrange(a, b), ws.subrange(a2, b)]
        0 <= a <= a2 < b <= ws.len() ==> c.spec_count(join_of(ws.subrange(a2, b), seq![' ']))
            <= c.spec_count(join_of(ws.subrange(a, b), seq![' ']))
}

/// The overlap-trimmed concatenation of the chunks' word ranges: each
/// chunk contributes only the words past its predecessor's end.
pub open spec fn trimmed_concat(ws: Seq<Seq<char>>, bs: Seq<(int, int)>, prev: int) -> Seq<
    Seq<char>,
>
    decreases bs.len(),
{
    if bs.len() == 0 {
        Seq::empty()
    } else {
        let lo = if bs[0].0 > prev {
            bs[0].0
        } else {
            prev
        };
        ws.subrange(lo, bs[0].1) + trimmed_concat(ws, bs.drop_first(), bs[0].1)
    }
}

proof fn lemma_cover_rec<C: TokenCounter>(
    c: &C,
    ws: Seq<Seq<char>>,
    s: int,
    max: int,
    overlap: nat,
    prev: int,
)
    requires
        suffix_monotone_on(c, ws),
        0 <= s < ws.len(),
        s <= prev <= chunk_end(c, ws, s, max),
    ensures
        trimmed_concat(ws, bounds_from(c, ws, s, max, overlap), prev) == ws.skip(prev),
    decreases ws.len() - s,
{
    let e = chunk_end(c, ws, s, max);
    lemma_grow_end_range(c, ws, s, s + 1, max);
    assert(s + 1 <= e <= ws.len());
    let bs = bounds_from(c, ws, s, max, overlap);
    if e >= ws.len() {
        assert(bs == seq![(s, ws.len() as int)]);
        assert(bs[0] == (s, ws.len() as int));
        assert(bs.drop_first() =~= Seq::<(int, int)>::empty());
        assert(trimmed_concat(ws, bs.drop_first(), ws.len() as int) == Seq::<Seq<char>>::empty());
        assert(trimmed_concat(ws, bs, prev) == ws.subrange(prev, ws.len() as int) + Seq::<
            Seq<char>,
        >::empty());
        assert(ws.subrange(prev, ws.len() as int) + Seq::<Seq<char>>::empty() =~= ws.skip(prev));
    } else {
        let nx = next_start(c, ws, s, e, overlap);
        assert(s + 1 <= nx <= e);
        assert(bs == seq![(s, e)] + bounds_from(c, ws, nx, max, overlap));
        let e2 = chunk_end(c, ws, nx, max);
        lemma_grow_end_range(c, ws, nx, nx + 1, max);
        if nx < e {
            assert forall|k: int|
                nx + 1 < k <= e implies c.spec_count(
                #[trigger] join_of(ws.subrange(nx, k), seq![' ']),
            ) <= max by {
                lemma_grow_end_le(c, ws, s, s + 1, max, k);
                assert(0 <= s <= nx < k <= ws.len());
                assert(c.spec_count(join_of(ws.subrange(nx, k), seq![' '])) <= c.spec_count(
                    join_of(ws.subrange(s, k), seq![' ']),
                ));
            }
            lemma_grow_end_ge(c, ws, nx, nx + 1, max, e);
            assert(e2 >= e);
        } else {
            assert(e2 >= nx + 1);
        }
        assert(nx <= e <= e2);
        lemma_cover_rec(c, ws, nx, max, overlap, e);
        assert(bs[0] == (s, e));
        assert(bs.drop_first() =~= bounds_from(c, ws, nx, max, overlap));
        assert(trimmed_concat(ws, bs, prev) == ws.subrange(prev, e) + trimmed_concat(
            ws,
            bs.drop_first(),
            e,
        ));
        assert(trimmed_concat(ws, bs.drop_first(), e) == ws.skip(e));
        assert(ws.subrange(prev, e) + ws.skip(e) =~= ws.skip(prev));
    }
}

/// Coverage law: trimming each chunk's overlap with its predecessor and
/// concatenating what remains reconstructs the original word sequence —
/// no word is dropped outside the configured overlap. It holds whenever
/// the counter is suffix-monotone on the words, as the word counter is on
/// every well-formed word list.
pub proof fn lemma_chunks_cover<C: TokenCounter>(
    c: &C,
    ws: Seq<Seq<char>>,
    max: int,
    overlap: nat,
)
    requires
        suffix_monotone_on(c, ws),
    ensures
        trimmed_concat(ws, bounds_from(c, ws, 0, max, overlap), 0) == ws,
{
    if ws.len() == 0 {
        assert(bounds_from(c, ws, 0, max, overlap) == Seq::<(int, int)>::empty());
        assert(trimmed_concat(ws, Seq::<(int, int)>::empty(), 0) =~= ws);
    } else {
        lemma_grow_end_range(c, ws, 0, 1, max);
        lemma_cover_rec(c, ws, 0, max, overlap, 0);
        assert(ws.skip(0) =~= ws);
    }
}

/// The word counter is suffix-monotone on every well-formed word list: a
/// joined range of words has exactly one token per word, so shrinking the
/// range from the left can only shrink the count.
pub proof fn lemma_word_counter_suffix_monotone(c: &WordCounter, ws: Seq<Seq<char>>)
    requires
        forall|i: int| 0 <= i < ws.len() ==> (#[trigger] ws[i]).len() > 0,
        forall|i: int, j: int|
            0 <= i < ws.len() && 0 <= j < ws[i].len() ==> !is_space(#[trigger] ws[i][j]),
    ensures
        suffix_monotone_on(c, ws),
{
    assert forall|a: int, a2: int, b: int|
        #![trigger ws.subrange(a, b), ws.subrange(a2, b)]
        0 <= a <= a2 < b <= ws.len() implies c.spec_count(
        join_of(ws.subrange(a2, b), seq![' ']),
    ) <= c.spec_count(join_of(ws.subrange(a, b), seq![' '])) by {
        lemma_words_join_subrange(ws, a2, b);
        lemma_words_join_subrange(ws, a, b);
    }
}

/// A joined subrange of well-formed words splits back into exactly those
/// words, so its word count is the range's length.
proof fn lemma_words_join_subrange(ws: Seq<Seq<char>>, a: int, b: int)
    requires
        0 <= a <= b <= ws.len(),
        forall|i: int| 0 <= i < ws.len() ==> (#[trigger] ws[i]).len() > 0,
        forall|i: int, j: int|
            0 <= i < ws.len() && 0 <= j < ws[i].len() ==> !is_space(#[trigger] ws[i][j]),
    ensures
        words_of(join_of(ws.subrange(a, b), seq![' '])) == ws.subrange(a, b),
{
    let sub = ws.subrange(a, b);
    assert forall|i: int| 0 <= i < sub.len() implies (#[trigger] sub[i]).len() > 0 by {
        assert(sub[i] == ws[a + i]);
    }
    assert forall|i: int, j: int|
        0 <= i < sub.len() && 0 <= j < sub[i].len() implies !is_space(#[trigger] sub[i][j]) by {
        assert(sub[i] == ws[a + i]);
        assert(ws[a + i][j] == sub[i][j]);
    }
    lemma_words_join(sub);
}

} // verus!
