//! The retriever: exhaustive similarity ranking of candidate passages with
//! stable descending order and an adaptive relevance threshold.
//!
//! Scores are cosine similarities carried in fixed-point form: `SCORE_SCALE`
//! stands for 1.0, so a similarity lies in `[-SCORE_SCALE, SCORE_SCALE]`.
//! Scoring itself happens outside this module (it is floating-point work);
//! the ranking here is exact for every score assignment handed in.

use vstd::prelude::*;
use crate::config::RetrievalConfig;
use crate::types::Passage;

verus! {

/// The fixed-point scale of similarity scores: this value stands for 1.0.
pub const SCORE_SCALE: i64 = 1_000_000;

/// A candidate passage paired with its similarity score against the query,
/// in fixed-point form. Ephemeral: it exists only during ranking.
pub struct ScoredPassage {
    pub passage: Passage,
    pub score: i64,
}

/// A score is a similarity in `[-1, 1]`, scaled.
pub open spec fn score_in_range(sp: ScoredPassage) -> bool {
    -SCORE_SCALE <= sp.score <= SCORE_SCALE
}

/// The adaptive relevance threshold: the fraction `num / den` of the best
/// score, rounded toward zero.
pub open spec fn threshold_of(top: int, num: int, den: int) -> int {
    if top >= 0 {
        (top * num) / den
    } else {
        -(((-top) * num) / den)
    }
}

/// The candidates whose embedding has been computed, in encounter order;
/// the others are excluded from ranking entirely, not scored as zero.
pub open spec fn with_embedding(s: Seq<ScoredPassage>) -> Seq<ScoredPassage>
    decreases s.len(),
{
    if s.len() == 0 {
        Seq::empty()
    } else {
        let rest = with_embedding(s.drop_first());
        if s[0].passage.embedding@.len() > 0 {
            seq![s[0]] + rest
        } else {
            rest
        }
    }
}

/// Stable descending insertion: the new candidate goes after every
/// candidate already placed whose score is at least its own.
pub open spec fn insert_desc(s: Seq<ScoredPassage>, x: ScoredPassage) -> Seq<ScoredPassage>
    decreases s.len(),
{
    if s.len() == 0 {
        seq![x]
    } else if s[0].score >= x.score {
        seq![s[0]] + insert_desc(s.drop_first(), x)
    } else {
        seq![x] + s
    }
}

/// Stable descending sort by score: candidates are inserted in encounter
/// order, so ties keep their original order.
pub open spec fn sort_desc(s: Seq<ScoredPassage>) -> Seq<ScoredPassage>
    decreases s.len(),
{
    if s.len() == 0 {
        Seq::empty()
    } else {
        insert_desc(sort_desc(s.drop_last()), s.last())
    }
}

/// The longest prefix whose scores stay at or above the threshold.
pub open spec fn prefix_at_least(s: Seq<ScoredPassage>, th: int) -> Seq<ScoredPassage>
    decreases s.len(),
{
    if s.len() == 0 {
        Seq::empty()
    } else if s[0].score >= th {
        seq![s[0]] + prefix_at_least(s.drop_first(), th)
    } else {
        Seq::empty()
    }
}

/// At most the first `k` elements.
pub open spec fn take_at_most(s: Seq<ScoredPassage>, k: int) -> Seq<ScoredPassage> {
    if k < s.len() {
        s.take(k)
    } else {
        s
    }
}

/// The passages of the scored candidates, in order.
pub open spec fn passages_of(s: Seq<ScoredPassage>) -> Seq<Passage>
    decreases s.len(),
{
    if s.len() == 0 {
        Seq::empty()
    } else {
        seq![s[0].passage] + passages_of(s.drop_first())
    }
}

/// What `rank` returns: candidates without an embedding dropped, the rest
/// sorted by descending score with ties in encounter order, cut at the
/// adaptive threshold `num/den` of the best score, truncated to `k`.
pub open spec fn rank_of(cands: Seq<ScoredPassage>, k: int, num: int, den: int) -> Seq<Passage> {
    let sorted = sort_desc(with_embedding(cands));
    if sorted.len() == 0 {
        Seq::empty()
    } else {
        let th = threshold_of(sorted[0].score as int, num, den);
        passages_of(take_at_most(prefix_at_least(sorted, th), k))
    }
}

// ---------------------------------------------------------------------------
// Lemmas
// ---------------------------------------------------------------------------

pub proof fn lemma_insert_desc_len(s: Seq<ScoredPassage>, x: ScoredPassage)
    ensures
        insert_desc(s, x).len() == s.len() + 1,
    decreases s.len(),
{
    if s.len() == 0 {
    } else if s[0].score >= x.score {
        lemma_insert_desc_len(s.drop_first(), x);
    } else {
    }
}

pub proof fn lemma_sort_desc_len(s: Seq<ScoredPassage>)
    ensures
        sort_desc(s).len() == s.len(),
    decreases s.len(),
{
    if s.len() == 0 {
    } else {
        lemma_sort_desc_len(s.drop_last());
        lemma_insert_desc_len(sort_desc(s.drop_last()), s.last());
    }
}

/// Inserting at the first position whose score is below the new one is
/// exactly the stable descending insertion.
pub proof fn lemma_insert_desc_at(s: Seq<ScoredPassage>, x: ScoredPassage, p: int)
    requires
        0 <= p <= s.len(),
        forall|j: int| 0 <= j < p ==> (#[trigger] s[j]).score >= x.score,
        p < s.len() ==> s[p].score < x.score,
    ensures
        insert_desc(s, x) == s.insert(p, x),
    decreases p,
{
    if p == 0 {
        if s.len() == 0 {
            assert(insert_desc(s, x) =~= s.insert(0, x));
        } else {
            assert(s[0].score < x.score);
            assert(insert_desc(s, x) == seq![x] + s);
            assert(seq![x] + s =~= s.insert(0, x));
        }
    } else {
        assert(s[0].score >= x.score);
        let d = s.drop_first();
        assert forall|j: int| 0 <= j < p - 1 implies (#[trigger] d[j]).score >= x.score by {
            assert(d[j] == s[j + 1]);
        }
        if p - 1 < d.len() {
            assert(d[p - 1] == s[p]);
        }
        lemma_insert_desc_at(d, x, p - 1);
        assert(insert_desc(s, x) == seq![s[0]] + d.insert(p - 1, x));
        assert(seq![s[0]] + d.insert(p - 1, x) =~= s.insert(p, x));
    }
}

/// The threshold prefix of a sequence whose first `q` scores reach the
/// threshold and whose next does not is exactly the first `q` elements.
pub proof fn lemma_prefix_at_least_is(s: Seq<ScoredPassage>, th: int, q: int)
    requires
        0 <= q <= s.len(),
        forall|j: int| 0 <= j < q ==> (#[trigger] s[j]).score >= th,
        q < s.len() ==> s[q].score < th,
    ensures
        prefix_at_least(s, th) == s.take(q),
    decreases q,
{
    if q == 0 {
        if s.len() == 0 {
            assert(prefix_at_least(s, th) =~= s.take(0));
        } else {
            assert(prefix_at_least(s, th) =~= s.take(0));
        }
    } else {
        assert(s[0].score >= th);
        let d = s.drop_first();
        assert forall|j: int| 0 <= j < q - 1 implies (#[trigger] d[j]).score >= th by {
            assert(d[j] == s[j + 1]);
        }
        if q - 1 < d.len() {
            assert(d[q - 1] == s[q]);
        }
        lemma_prefix_at_least_is(d, th, q - 1);
        assert(prefix_at_least(s, th) == seq![s[0]] + d.take(q - 1));
        assert(seq![s[0]] + d.take(q - 1) =~= s.take(q));
    }
}

pub proof fn lemma_passages_of(s: Seq<ScoredPassage>)
    ensures
        passages_of(s).len() == s.len(),
        forall|i: int| 0 <= i < s.len() ==> #[trigger] passages_of(s)[i] == s[i].passage,
    decreases s.len(),
{
    if s.len() == 0 {
    } else {
        lemma_passages_of(s.drop_first());
        assert forall|i: int|
            0 <= i < s.len() implies #[trigger] passages_of(s)[i] == s[i].passage by {
            if i > 0 {
                assert(passages_of(s)[i] == passages_of(s.drop_first())[i - 1]);
                assert(s.drop_first()[i - 1] == s[i]);
            }
        }
    }
}

/// The stable descending sort is sorted: scores never increase from left
/// to right.
pub proof fn lemma_insert_desc_sorted(s: Seq<ScoredPassage>, x: ScoredPassage)
    requires
        forall|i: int, j: int|
            #![trigger s[i], s[j]]
            0 <= i <= j < s.len() ==> s[i].score >= s[j].score,
    ensures
        ({
            let t = insert_desc(s, x);
            forall|i: int, j: int|
                #![trigger t[i], t[j]]
                0 <= i <= j < t.len() ==> t[i].score >= t[j].score
        }),
    decreases s.len(),
{
    if s.len() == 0 {
    } else if s[0].score >= x.score {
        let d = s.drop_first();
        assert forall|i: int, j: int| #![trigger d[i], d[j]]
            0 <= i <= j < d.len() implies d[i].score >= d[j].score by {
            assert(d[i] == s[i + 1]);
            assert(d[j] == s[j + 1]);
        }
        lemma_insert_desc_sorted(d, x);
        let t = insert_desc(s, x);
        let u = insert_desc(d, x);
        assert(t == seq![s[0]] + u);
        lemma_insert_desc_len(d, x);
        assert forall|i: int, j: int| #![trigger t[i], t[j]]
            0 <= i <= j < t.len() implies t[i].score >= t[j].score by {
            if i == 0 {
                if j > 0 {
                    assert(t[j] == u[j - 1]);
                    // the head dominates both the old elements and x
                    if u == seq![x] + d {
                    }
                    lemma_insert_desc_elems(d, x, j - 1);
                }
            } else {
                assert(t[i] == u[i - 1]);
                assert(t[j] == u[j - 1]);
            }
        }
    } else {
        let t = insert_desc(s, x);
        assert(t == seq![x] + s);
        assert forall|i: int, j: int| #![trigger t[i], t[j]]
            0 <= i <= j < t.len() implies t[i].score >= t[j].score by {
            if i == 0 {
                if j > 0 {
                    assert(t[j] == s[j - 1]);
                    assert(s[0].score >= s[j - 1].score);
                }
            } else {
                assert(t[i] == s[i - 1]);
                assert(t[j] == s[j - 1]);
            }
        }
    }
}

/// Every element of a stable insertion is the inserted one or one of the
/// originals.
pub proof fn lemma_insert_desc_elems(s: Seq<ScoredPassage>, x: ScoredPassage, i: int)
    requires
        0 <= i < insert_desc(s, x).len(),
    ensures
        insert_desc(s, x)[i] == x || exists|j: int|
            0 <= j < s.len() && insert_desc(s, x)[i] == s[j],
    decreases s.len(),
{
    lemma_insert_desc_len(s, x);
    if s.len() == 0 {
    } else if s[0].score >= x.score {
        let t = insert_desc(s, x);
        let d = s.drop_first();
        if i == 0 {
            assert(t[0] == s[0]);
        } else {
            assert(t[i] == insert_desc(d, x)[i - 1]);
            lemma_insert_desc_len(d, x);
            lemma_insert_desc_elems(d, x, i - 1);
            if insert_desc(d, x)[i - 1] == x {
            } else {
                let j = choose|j: int| 0 <= j < d.len() && insert_desc(d, x)[i - 1] == d[j];
                assert(d[j] == s[j + 1]);
            }
        }
    } else {
    }
}

/// The sorted sequence is in descending score order.
pub proof fn lemma_sort_desc_sorted(s: Seq<ScoredPassage>)
    ensures
        ({
            let t = sort_desc(s);
            forall|i: int, j: int|
                #![trigger t[i], t[j]]
                0 <= i <= j < t.len() ==> t[i].score >= t[j].score
        }),
    decreases s.len(),
{
    if s.len() == 0 {
    } else {
        lemma_sort_desc_sorted(s.drop_last());
        lemma_insert_desc_sorted(sort_desc(s.drop_last()), s.last());
    }
}

// ---------------------------------------------------------------------------
// The executable ranker
// ---------------------------------------------------------------------------

/// Ranks the candidates for a query: drops candidates whose embedding is
/// still empty, sorts the rest by descending score with ties in encounter
/// order, keeps only scores within the adaptive threshold of the best, and
/// returns at most `k` passages. An empty candidate set yields an empty
/// result, not an error.
pub fn rank(candidates: Vec<ScoredPassage>, k: usize, cfg: &RetrievalConfig) -> (r: Vec<Passage>)
    requires
        cfg.wf(),
        forall|i: int| 0 <= i < candidates@.len() ==> score_in_range(#[trigger] candidates@[i]),
    ensures
        r@ == rank_of(candidates@, k as int, cfg.threshold_num as int, cfg.threshold_den as int),
        r@.len() <= k,
        candidates@.len() == 0 ==> r@.len() == 0,
{
    let ghost cands0 = candidates@;
    // drop candidates that have no embedding yet
    let mut rest = candidates;
    let mut kept: Vec<ScoredPassage> = Vec::new();
    proof {
        assert(kept@ + with_embedding(rest@) =~= with_embedding(cands0));
    }
    while rest.len() > 0
        invariant
            with_embedding(cands0) == kept@ + with_embedding(rest@),
            forall|i: int| 0 <= i < rest@.len() ==> score_in_range(#[trigger] rest@[i]),
            forall|i: int|
                0 <= i < kept@.len() ==> score_in_range(#[trigger] kept@[i])
                    && kept@[i].passage.embedding@.len() > 0,
        decreases rest@.len(),
    {
        let ghost r0 = rest@;
        let ghost k0 = kept@;
        let x = rest.remove(0);
        proof {
            assert(rest@ =~= r0.drop_first());
            assert(with_embedding(r0) == if r0[0].passage.embedding@.len() > 0 {
                seq![r0[0]] + with_embedding(rest@)
            } else {
                with_embedding(rest@)
            });
            assert forall|i: int|
                0 <= i < rest@.len() implies score_in_range(#[trigger] rest@[i]) by {
                assert(rest@[i] == r0[i + 1]);
            }
        }
        if x.passage.embedding.len() > 0 {
            kept.push(x);
            proof {
                assert(kept@ =~= k0.push(r0[0]));
                assert(k0 + (seq![r0[0]] + with_embedding(rest@)) =~= k0.push(r0[0])
                    + with_embedding(rest@));
            }
        }
    }
    proof {
        assert(with_embedding(rest@) == Seq::<ScoredPassage>::empty());
        assert(kept@ + Seq::<ScoredPassage>::empty() =~= kept@);
        assert(kept@ == with_embedding(cands0));
    }
    // stable descending insertion sort
    let ghost kv = kept@;
    let mut sorted: Vec<ScoredPassage> = Vec::new();
    let mut src = kept;
    proof {
        assert(kv.take(0) =~= Seq::<ScoredPassage>::empty());
        assert(sorted@ =~= sort_desc(kv.take(0)));
    }
    while src.len() > 0
        invariant
            src@.len() <= kv.len(),
            src@ == kv.skip(kv.len() - src@.len()),
            sorted@ == sort_desc(kv.take(kv.len() - src@.len())),
            forall|i: int| 0 <= i < kv.len() ==> score_in_range(#[trigger] kv[i]),
            forall|i: int| 0 <= i < sorted@.len() ==> score_in_range(#[trigger] sorted@[i]),
        decreases src@.len(),
    {
        let ghost done = kv.len() - src@.len();
        let ghost s0 = src@;
        let x = src.remove(0);
        proof {
            assert(src@ =~= s0.drop_first());
            assert(x == kv[done]);
        }
        // find the first position whose score is below the new one
        let mut p: usize = 0;
        while p < sorted.len() && sorted[p].score >= x.score
            invariant
                p <= sorted@.len(),
                forall|j: int| 0 <= j < p ==> (#[trigger] sorted@[j]).score >= x.score,
            decreases sorted@.len() - p,
        {
            p = p + 1;
        }
        let ghost sv0 = sorted@;
        sorted.insert(p, x);
        proof {
            lemma_insert_desc_at(sv0, x, p as int);
            assert(sorted@ == insert_desc(sv0, x));
            assert(kv.take(done + 1) =~= kv.take(done).push(kv[done]));
            assert(kv.take(done + 1).drop_last() =~= kv.take(done));
            assert(kv.take(done + 1).last() == kv[done]);
            assert(sorted@ == sort_desc(kv.take(done + 1)));
            assert(src@ =~= kv.skip(kv.len() - src@.len()));
            lemma_insert_desc_len(sv0, x);
            assert forall|i: int|
                0 <= i < sorted@.len() implies score_in_range(#[trigger] sorted@[i]) by {
                lemma_insert_desc_elems(sv0, x, i);
            }
        }
    }
    proof {
        assert(kv.take(kv.len() as int) =~= kv);
        assert(sorted@ == sort_desc(with_embedding(cands0)));
    }
    let ghost sv = sorted@;
    if sorted.len() == 0 {
        let r: Vec<Passage> = Vec::new();
        return r;
    }
    // the adaptive threshold, computed over non-negative magnitudes
    let top = sorted[0].score;
    proof {
        assert(score_in_range(sv[0]));
        assert(sv[0] == sorted@[0]);
        assert(-1_000_000 <= top <= 1_000_000);
    }
    let mag: u64 = if top >= 0 {
        top as u64
    } else {
        (-top) as u64
    };
    proof {
        assert(mag <= 1_000_000);
        assert((mag as int) * (cfg.threshold_num as int) <= 1_000_000_000_000)
            by (nonlinear_arith)
            requires
                mag <= 1_000_000 && 0 <= cfg.threshold_num <= 1_000_000,
        ;
    }
    let tmag: u64 = (mag * (cfg.threshold_num as u64)) / (cfg.threshold_den as u64);
    proof {
        assert(tmag <= 1_000_000_000_000) by {
            assert(cfg.threshold_den >= 1);
            vstd::arithmetic::div_mod::lemma_div_is_ordered_by_denominator(
                (mag as int) * (cfg.threshold_num as int),
                1,
                cfg.threshold_den as int,
            );
        }
    }
    let th: i64 = if top >= 0 {
        tmag as i64
    } else {
        -(tmag as i64)
    };
    proof {
        assert(th as int == threshold_of(
            sv[0].score as int,
            cfg.threshold_num as int,
            cfg.threshold_den as int,
        ));
    }
    // collect the surviving prefix, at most k passages
    let mut out: Vec<Passage> = Vec::new();
    let mut tail = sorted;
    proof {
        lemma_passages_of(sv);
        assert(tail@ =~= sv.skip(0));
        assert(out@ =~= passages_of(sv.take(0)));
    }
    while tail.len() > 0 && out.len() < k && tail[0].score >= th
        invariant
            out@.len() <= k,
            out@.len() + tail@.len() == sv.len(),
            tail@ == sv.skip(out@.len() as int),
            out@ == passages_of(sv.take(out@.len() as int)),
            forall|j: int| 0 <= j < out@.len() ==> (#[trigger] sv[j]).score >= th,
        decreases tail@.len(),
    {
        let ghost t0 = tail@;
        let ghost m = out@.len() as int;
        let x = tail.remove(0);
        out.push(x.passage);
        proof {
            assert(x == sv[m]);
            assert(tail@ =~= sv.skip(m + 1));
            lemma_passages_of(sv.take(m + 1));
            assert(sv.take(m + 1).drop_first() =~= if m >= 0 {
                sv.take(m + 1).subrange(1, m + 1)
            } else {
                sv.take(m + 1)
            });
            lemma_passages_of(sv.take(m));
            assert forall|j: int|
                0 <= j < out@.len() implies #[trigger] out@[j] == passages_of(
                sv.take(out@.len() as int),
            )[j] by {
                lemma_passages_of(sv.take(out@.len() as int));
                if j < m {
                    assert(out@[j] == passages_of(sv.take(m))[j]);
                    assert(sv.take(m)[j] == sv[j]);
                    assert(sv.take(m + 1)[j] == sv[j]);
                } else {
                    assert(out@[j] == x.passage);
                    assert(sv.take(m + 1)[j] == sv[m]);
                }
            }
            assert(out@ =~= passages_of(sv.take(out@.len() as int)));
        }
    }
    proof {
        let m = out@.len() as int;
        let th_i = th as int;
        if out@.len() == k {
            // truncated at k: everything kept so far reaches the threshold
            assert(m <= sv.len());
            lemma_prefix_at_least_ge(sv, th_i, m);
            assert(take_at_most(prefix_at_least(sv, th_i), k as int) =~= sv.take(m));
        } else if tail@.len() == 0 {
            // everything survived
            assert(m == sv.len());
            lemma_prefix_at_least_is(sv, th_i, m);
            assert(sv.take(m) =~= sv);
            assert(take_at_most(prefix_at_least(sv, th_i), k as int) =~= sv.take(m));
        } else {
            // stopped at the first score below the threshold
            assert(tail@[0] == sv[m]);
            assert(sv[m].score < th);
            lemma_prefix_at_least_is(sv, th_i, m);
            assert(take_at_most(prefix_at_least(sv, th_i), k as int) =~= sv.take(m));
        }
        assert(out@ == passages_of(take_at_most(prefix_at_least(sv, th_i), k as int)));
    }
    out
}

/// When the first `m` scores reach the threshold, the threshold prefix
/// holds at least `m` elements and starts with exactly those.
pub proof fn lemma_prefix_at_least_ge(s: Seq<ScoredPassage>, th: int, m: int)
    requires
        0 <= m <= s.len(),
        forall|j: int| 0 <= j < m ==> (#[trigger] s[j]).score >= th,
    ensures
        prefix_at_least(s, th).len() >= m,
        prefix_at_least(s, th).take(m) == s.take(m),
    decreases m,
{
    if m == 0 {
        assert(prefix_at_least(s, th).take(0) =~= s.take(0));
    } else {
        assert(s[0].score >= th);
        let d = s.drop_first();
        assert forall|j: int| 0 <= j < m - 1 implies (#[trigger] d[j]).score >= th by {
            assert(d[j] == s[j + 1]);
        }
        lemma_prefix_at_least_ge(d, th, m - 1);
        assert(prefix_at_least(s, th) == seq![s[0]] + prefix_at_least(d, th));
        assert(prefix_at_least(s, th).take(m) =~= seq![s[0]] + prefix_at_least(d, th).take(m
            - 1));
        assert(seq![s[0]] + d.take(m - 1) =~= s.take(m));
    }
}


/// When any embedded candidate exists and the best score is non-negative,
/// the ranking is never empty: the top candidate survives its own
/// threshold, since the threshold is at most the top score itself.
pub proof fn lemma_top_survives(cands: Seq<ScoredPassage>, k: int, num: int, den: int)
    requires
        0 < den <= 1_000_000,
        0 <= num <= den,
        k >= 1,
        sort_desc(with_embedding(cands)).len() > 0,
        sort_desc(with_embedding(cands))[0].score >= 0,
    ensures
        rank_of(cands, k, num, den).len() >= 1,
{
    let sorted = sort_desc(with_embedding(cands));
    let top = sorted[0].score as int;
    let th = threshold_of(top, num, den);
    assert(top * num <= top * den) by (nonlinear_arith)
        requires
            top >= 0 && num <= den,
    ;
    vstd::arithmetic::div_mod::lemma_div_is_ordered(top * num, top * den, den);
    vstd::arithmetic::div_mod::lemma_div_by_multiple(top, den);
    assert((top * den) / den == top);
    assert(th <= top);
    let surv = prefix_at_least(sorted, th);
    assert(sorted[0].score >= th);
    assert(surv == seq![sorted[0]] + prefix_at_least(sorted.drop_first(), th));
    assert(surv.len() >= 1);
    let cut = take_at_most(surv, k);
    assert(cut.len() >= 1);
    lemma_passages_of(cut);
}

} // verus!
