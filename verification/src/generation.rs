//! Answer generation support: the exact prompts handed to the language
//! model, and the framing of its streamed reply. The network call itself
//! happens outside; this module fixes what is sent and how each streamed
//! line is classified.

use vstd::prelude::*;
use vstd::string::StringExecFns;
use crate::text::{decimal_of, decimal_string, join_of, chars_from_str, string_from_chars,
    copy_range, lemma_join_push};
use crate::types::{Passage, LLMMessage};

verus! {

/// One numbered context line: `Passage <n>: <text>`.
pub open spec fn context_line_of(n: int, text: Seq<char>) -> Seq<char> {
    "Passage "@ + decimal_of(n) + ": "@ + text
}

/// The numbered context lines for the given texts, starting at `n`.
pub open spec fn context_lines_from(texts: Seq<Seq<char>>, n: int) -> Seq<Seq<char>>
    decreases texts.len(),
{
    if texts.len() == 0 {
        Seq::empty()
    } else {
        seq![context_line_of(n, texts[0])] + context_lines_from(texts.drop_first(), n + 1)
    }
}

/// The texts of the passages, in order.
pub open spec fn texts_of(ps: Seq<Passage>) -> Seq<Seq<char>>
    decreases ps.len(),
{
    if ps.len() == 0 {
        Seq::empty()
    } else {
        seq![ps[0].text@] + texts_of(ps.drop_first())
    }
}

/// The whole context block: the numbered lines, blank-line separated,
/// numbering from 1.
pub open spec fn context_of(texts: Seq<Seq<char>>) -> Seq<char> {
    join_of(context_lines_from(texts, 1), "\n\n"@)
}

/// Builds the context block the system prompt embeds: one numbered line
/// per passage, in ranking order, separated by blank lines.
pub fn build_context(passages: &Vec<Passage>) -> (r: String)
    ensures
        r@ == context_of(texts_of(passages@)),
{
    let ghost tv = texts_of(passages@);
    proof {
        lemma_texts_of(passages@);
    }
    let mut acc = String::new();
    let mut i: usize = 0;
    proof {
        assert(tv.take(0) =~= Seq::<Seq<char>>::empty());
        assert(acc@ =~= join_of(context_lines_from(tv.take(0), 1), "\n\n"@));
    }
    while i < passages.len()
        invariant
            i <= passages@.len(),
            tv == texts_of(passages@),
            tv.len() == passages@.len(),
            acc@ == join_of(context_lines_from(tv.take(i as int), 1), "\n\n"@),
        decreases passages@.len() - i,
    {
        proof {
            lemma_texts_of(passages@);
        }
        let mut line = String::from_str("Passage ");
        let num = decimal_string(i + 1);
        line.append(num.as_str());
        line.append(": ");
        line.append(passages[i].text.as_str());
        proof {
            assert(line@ == "Passage "@ + decimal_of(i + 1) + ": "@ + tv[i as int]);
            assert(line@ == context_line_of(i + 1, tv[i as int]));
            lemma_context_lines_take(tv, i as int);
        }
        if i > 0 {
            acc.append("\n\n");
        }
        acc.append(line.as_str());
        proof {
            let lines_i = context_lines_from(tv.take(i as int), 1);
            let lines_i1 = context_lines_from(tv.take(i + 1), 1);
            assert(lines_i1 == lines_i.push(context_line_of(i + 1, tv[i as int])));
            if i == 0 {
                assert(lines_i =~= Seq::<Seq<char>>::empty());
                assert(lines_i1 =~= seq![context_line_of(1, tv[0])]);
                assert(join_of(lines_i1, "\n\n"@) == lines_i1[0]);
                assert(acc@ =~= Seq::<char>::empty() + line@);
                assert(Seq::<char>::empty() + line@ =~= line@);
            } else {
                assert(lines_i.len() > 0);
                lemma_join_push(lines_i, "\n\n"@, context_line_of(i + 1, tv[i as int]));
                assert(acc@ =~= (join_of(lines_i, "\n\n"@) + "\n\n"@) + line@);
                assert((join_of(lines_i, "\n\n"@) + "\n\n"@) + line@ =~= join_of(
                    lines_i,
                    "\n\n"@,
                ) + "\n\n"@ + line@);
            }
        }
        i = i + 1;
    }
    proof {
        assert(tv.take(tv.len() as int) =~= tv);
    }
    acc
}

pub proof fn lemma_texts_of(ps: Seq<Passage>)
    ensures
        texts_of(ps).len() == ps.len(),
        forall|i: int| 0 <= i < ps.len() ==> #[trigger] texts_of(ps)[i] == ps[i].text@,
    decreases ps.len(),
{
    if ps.len() == 0 {
    } else {
        lemma_texts_of(ps.drop_first());
        assert forall|i: int|
            0 <= i < ps.len() implies #[trigger] texts_of(ps)[i] == ps[i].text@ by {
            if i > 0 {
                assert(texts_of(ps)[i] == texts_of(ps.drop_first())[i - 1]);
                assert(ps.drop_first()[i - 1] == ps[i]);
            }
        }
    }
}

/// Extending the text list by one extends the context lines by the next
/// numbered line.
pub proof fn lemma_context_lines_take(tv: Seq<Seq<char>>, i: int)
    requires
        0 <= i < tv.len(),
    ensures
        context_lines_from(tv.take(i + 1), 1) == context_lines_from(tv.take(i), 1).push(
            context_line_of(i + 1, tv[i]),
        ),
{
    lemma_context_lines_push(tv.take(i + 1), 1);
    assert(tv.take(i + 1).drop_last() =~= tv.take(i));
    assert(tv.take(i + 1).last() == tv[i]);
    assert(tv.take(i + 1).len() == i + 1);
}

/// The context lines of a non-empty list are those of its front part plus
/// one last numbered line.
pub proof fn lemma_context_lines_push(texts: Seq<Seq<char>>, n: int)
    requires
        texts.len() > 0,
    ensures
        context_lines_from(texts, n) == context_lines_from(texts.drop_last(), n).push(
            context_line_of(n + texts.len() - 1, texts.last()),
        ),
    decreases texts.len(),
{
    if texts.len() == 1 {
        assert(context_lines_from(texts.drop_last(), n) =~= Seq::<Seq<char>>::empty());
        assert(texts[0] == texts.last());
        assert(context_lines_from(texts.drop_first(), n + 1) =~= Seq::<Seq<char>>::empty());
        assert(context_lines_from(texts, n) =~= Seq::<Seq<char>>::empty().push(
            context_line_of(n, texts.last()),
        ));
    } else {
        let d = texts.drop_first();
        lemma_context_lines_push(d, n + 1);
        assert(d.drop_last() =~= texts.drop_last().drop_first());
        assert(d.last() == texts.last());
        assert(context_lines_from(texts, n) == seq![context_line_of(n, texts[0])]
            + context_lines_from(d, n + 1));
        assert(texts.drop_last()[0] == texts[0]);
        assert(texts.drop_last().len() > 0);
        assert(context_lines_from(texts.drop_last(), n) == seq![context_line_of(n, texts[0])]
            + context_lines_from(texts.drop_last().drop_first(), n + 1));
        assert(seq![context_line_of(n, texts[0])] + context_lines_from(d.drop_last(), n + 1).push(
            context_line_of(n + 1 + d.len() - 1, d.last()),
        ) =~= (seq![context_line_of(n, texts[0])] + context_lines_from(d.drop_last(), n
            + 1)).push(context_line_of(n + texts.len() - 1, texts.last())));
    }
}

/// The fixed system instruction, ahead of the context block.
pub fn build_system_prompt(context: &str) -> (r: String)
    ensures
        r@
            == "Vous êtes un assistant qui répond uniquement en utilisant les informations fournies dans le passage fourni. Ne jamais inventer d'informations ou utiliser vos connaissances générales. Si les passages ne contiennent pas suffisamment d'informations pour répondre à la QUESTION, dites-le clairement.\n\n[PASSAGE] :\n"@
            + context@,
{
    let mut r = String::from_str(
        "Vous êtes un assistant qui répond uniquement en utilisant les informations fournies dans le passage fourni. Ne jamais inventer d'informations ou utiliser vos connaissances générales. Si les passages ne contiennent pas suffisamment d'informations pour répondre à la QUESTION, dites-le clairement.\n\n[PASSAGE] :\n",
    );
    r.append(context);
    r
}

/// The user prompt around the question.
pub fn build_user_prompt(question: &str) -> (r: String)
    ensures
        r@ == "QUESTION: "@ + question@ + "\n"@,
{
    let mut r = String::from_str("QUESTION: ");
    r.append(question);
    r.append("\n");
    r
}

/// The two chat messages sent to the language model: the system
/// instruction holding the ranked context, then the user question.
pub fn build_llm_messages(question: &str, passages: &Vec<Passage>) -> (r: Vec<LLMMessage>)
    ensures
        r@.len() == 2,
        r@[0].role@ == "system"@,
        r@[0].content@
            == "Vous êtes un assistant qui répond uniquement en utilisant les informations fournies dans le passage fourni. Ne jamais inventer d'informations ou utiliser vos connaissances générales. Si les passages ne contiennent pas suffisamment d'informations pour répondre à la QUESTION, dites-le clairement.\n\n[PASSAGE] :\n"@
            + context_of(texts_of(passages@)),
        r@[1].role@ == "user"@,
        r@[1].content@ == "QUESTION: "@ + question@ + "\n"@,
{
    let context = build_context(passages);
    let system = build_system_prompt(context.as_str());
    let user = build_user_prompt(question);
    let mut r: Vec<LLMMessage> = Vec::new();
    r.push(LLMMessage { role: String::from_str("system"), content: system });
    r.push(LLMMessage { role: String::from_str("user"), content: user });
    r
}

// ---------------------------------------------------------------------------
// Streamed reply framing
// ---------------------------------------------------------------------------

/// One line of the model's event stream: the end marker, a data payload to
/// be decoded, or a line to ignore.
pub enum SseLine {
    Done,
    Payload(String),
    Ignored,
}

/// Whether `s` starts with the event-stream data prefix.
pub open spec fn has_data_prefix(s: Seq<char>) -> bool {
    s.len() >= 6 && s.subrange(0, 6) == "data: "@
}

/// Whether two character vectors hold the same characters.
fn chars_eq(a: &Vec<char>, b: &Vec<char>) -> (r: bool)
    ensures
        r == (a@ == b@),
{
    if a.len() != b.len() {
        proof {
            assert(a@ != b@);
        }
        return false;
    }
    let mut i: usize = 0;
    while i < a.len()
        invariant
            i <= a@.len(),
            a@.len() == b@.len(),
            forall|j: int| 0 <= j < i ==> a@[j] == b@[j],
        decreases a@.len() - i,
    {
        if a[i] != b[i] {
            proof {
                assert(a@[i as int] != b@[i as int]);
            }
            return false;
        }
        i = i + 1;
    }
    proof {
        assert(a@ =~= b@);
    }
    true
}

/// Classifies one line of the model's event stream. The `Payload` variant
/// carries the text after the data prefix, to be decoded by the caller.
pub fn parse_sse_line(line: &str) -> (r: SseLine)
    ensures
        r is Done <==> has_data_prefix(line@) && line@.skip(6) == "[DONE]"@,
        r is Payload <==> has_data_prefix(line@) && line@.skip(6) != "[DONE]"@,
        r is Ignored <==> !has_data_prefix(line@),
        r matches SseLine::Payload(p) ==> p@ == line@.skip(6),
{
    let cs = chars_from_str(line);
    let prefix = chars_from_str("data: ");
    proof {
        reveal_strlit("data: ");
        assert(prefix@.len() == 6);
    }
    if cs.len() < 6 {
        proof {
            assert(!has_data_prefix(line@));
        }
        return SseLine::Ignored;
    }
    let head = copy_range(&cs, 0, 6);
    if !chars_eq(&head, &prefix) {
        proof {
            assert(head@ == line@.subrange(0, 6));
            assert(!has_data_prefix(line@));
        }
        return SseLine::Ignored;
    }
    let payload = copy_range(&cs, 6, cs.len());
    let done_marker = chars_from_str("[DONE]");
    proof {
        assert(payload@ =~= line@.skip(6));
    }
    if chars_eq(&payload, &done_marker) {
        SseLine::Done
    } else {
        SseLine::Payload(string_from_chars(&payload))
    }
}

} // verus!
