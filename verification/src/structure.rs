//! Document structure: numbered-heading sections, blank-line paragraphs and
//! sentence splitting with its fixed-size word-group fallback.

use vstd::prelude::*;
use crate::text::{
    is_space, space_char, trim_of, trim_chars, chars_from_str, string_from_chars, copy_range,
    join_of, join_chars, words_of, split_words, split_char, split_char_of,
};

verus! {

/// Size of the fixed word groups used when a text has no sentence
/// terminator at all.
pub const WORD_GROUP_SIZE: usize = 25;

/// The deep view of a string vector is the sequence of its strings' views.
pub broadcast proof fn strings_deep_view(v: Vec<String>)
    ensures
        #[trigger] v.deep_view() == v@.map_values(|s: String| s@),
{
    assert(v.deep_view() =~= v@.map_values(|s: String| s@));
}

// ---------------------------------------------------------------------------
// Numbered headings
// ---------------------------------------------------------------------------

/// An ASCII decimal digit.
pub open spec fn is_digit(c: char) -> bool {
    '0' <= c && c <= '9'
}

/// Number of leading digits of `s`.
pub open spec fn digits_end_of(s: Seq<char>) -> int
    decreases s.len(),
{
    if s.len() == 0 {
        0
    } else if !is_digit(s[0]) {
        0
    } else {
        1 + digits_end_of(s.drop_first())
    }
}

pub proof fn lemma_digits_end(s: Seq<char>)
    ensures
        0 <= digits_end_of(s) <= s.len(),
        forall|j: int| 0 <= j < digits_end_of(s) ==> is_digit(s[j]),
        digits_end_of(s) < s.len() ==> !is_digit(s[digits_end_of(s)]),
    decreases s.len(),
{
    if s.len() == 0 || !is_digit(s[0]) {
    } else {
        lemma_digits_end(s.drop_first());
        assert forall|j: int| 0 <= j < digits_end_of(s) implies is_digit(s[j]) by {
            if j > 0 {
                assert(s.drop_first()[j - 1] == s[j]);
            }
        }
        if digits_end_of(s) < s.len() {
            assert(s.drop_first()[digits_end_of(s.drop_first())] == s[digits_end_of(s)]);
        }
    }
}

/// Pins `digits_end_of` from a scan's facts.
pub proof fn lemma_digits_end_is(s: Seq<char>, i: int)
    requires
        0 <= i <= s.len(),
        forall|j: int| 0 <= j < i ==> is_digit(s[j]),
        i < s.len() ==> !is_digit(s[i]),
    ensures
        digits_end_of(s) == i,
{
    lemma_digits_end(s);
    let f = digits_end_of(s);
    if f < i {
        assert(is_digit(s[f]));
        assert(false);
    }
    if f > i {
        assert(!is_digit(s[i]));
        assert(false);
    }
}

/// A numbered heading line: one or more digits, a dot, then whitespace
/// (with more text after it, since lines are already trimmed).
pub open spec fn is_heading_of(line: Seq<char>) -> bool {
    let k = digits_end_of(line);
    1 <= k && k + 1 < line.len() && line[k] == '.' && is_space(line[k + 1])
}

fn digit_char_test(c: char) -> (r: bool)
    ensures
        r == is_digit(c),
{
    '0' <= c && c <= '9'
}

/// Whether the line starts a new section.
pub fn is_heading(line: &Vec<char>) -> (r: bool)
    ensures
        r == is_heading_of(line@),
{
    let n = line.len();
    let mut k: usize = 0;
    while k < n && digit_char_test(line[k])
        invariant
            k <= n,
            n == line@.len(),
            forall|j: int| 0 <= j < k ==> is_digit(line@[j]),
        decreases n - k,
    {
        k = k + 1;
    }
    proof {
        lemma_digits_end_is(line@, k as int);
    }
    k >= 1 && k < n - 1 && line[k] == '.' && space_char(line[k + 1])
}

// ---------------------------------------------------------------------------
// Sections
// ---------------------------------------------------------------------------

/// Folds the lines into sections: every heading line starts a new section;
/// `current` is the text accumulated for the open section.
pub open spec fn sections_rec(lines: Seq<Seq<char>>, current: Seq<char>) -> Seq<Seq<char>>
    decreases lines.len(),
{
    if lines.len() == 0 {
        if trim_of(current).len() > 0 {
            seq![trim_of(current)]
        } else {
            Seq::empty()
        }
    } else {
        let line = lines[0];
        if is_heading_of(line) && trim_of(current).len() > 0 {
            seq![trim_of(current)] + sections_rec(lines.drop_first(), line + seq!['\n'])
        } else {
            sections_rec(lines.drop_first(), current + line + seq!['\n'])
        }
    }
}

/// The sections of `s`: the heading-line groups of its lines, each group's
/// lines joined back and trimmed; a text without headings is one section.
pub open spec fn sections_of(s: Seq<char>) -> Seq<Seq<char>> {
    sections_rec(split_char_of(s, '\n'), Seq::empty())
}

/// Splits a (cleaned) text into sections on numbered-heading lines.
pub fn split_sections(text: &str) -> (r: Vec<String>)
    ensures
        r.deep_view() == sections_of(text@),
{
    broadcast use strings_deep_view;

    let cs = chars_from_str(text);
    let lines = split_char(&cs, '\n');
    let ghost lv = lines.deep_view();
    let mut r: Vec<String> = Vec::new();
    let mut current: Vec<char> = Vec::new();
    let mut i: usize = 0;
    proof {
        assert(lv.skip(0) =~= lv);
        assert(r.deep_view() =~= Seq::<Seq<char>>::empty());
        assert(Seq::<Seq<char>>::empty() + sections_rec(lv, Seq::<char>::empty()) =~= sections_rec(
            lv,
            Seq::<char>::empty(),
        ));
        assert(current@ =~= Seq::<char>::empty());
        assert(sections_of(cs@) == sections_rec(lv, current@));
    }
    while i < lines.len()
        invariant
            i <= lines@.len(),
            lv == lines.deep_view(),
            lv.len() == lines@.len(),
            sections_of(cs@) == r.deep_view() + sections_rec(lv.skip(i as int), current@),
        decreases lines@.len() - i,
    {
        let ghost cur0 = current@;
        proof {
            assert(lv[i as int] == lines@[i as int].deep_view());
            assert(lines@[i as int].deep_view() =~= lines@[i as int]@);
            assert(lv.skip(i as int)[0] == lv[i as int]);
            assert(lv.skip(i as int).drop_first() =~= lv.skip(i + 1));
        }
        let heading = is_heading(&lines[i]);
        let trimmed = trim_chars(&current);
        if heading && trimmed.len() > 0 {
            let ghost old_r = r.deep_view();
            let section = string_from_chars(&trimmed);
            r.push(section);
            proof {
                assert(r.deep_view() =~~= old_r.push(trim_of(cur0)));
            }
            current = Vec::new();
            let line = &lines[i];
            let mut j: usize = 0;
            proof {
                assert(current@ =~= line@.take(0));
            }
            while j < line.len()
                invariant
                    j <= line@.len(),
                    current@ == line@.take(j as int),
                decreases line@.len() - j,
            {
                current.push(line[j]);
                j = j + 1;
                proof {
                    assert(line@.take(j as int) =~= line@.take(j - 1).push(line@[j - 1]));
                }
            }
            current.push('\n');
            proof {
                assert(line@.take(line@.len() as int) =~= line@);
                assert(current@ =~= lv[i as int] + seq!['\n']);
                assert(sections_rec(lv.skip(i as int), cur0) == seq![trim_of(cur0)]
                    + sections_rec(lv.skip(i + 1), lv[i as int] + seq!['\n']));
                assert(old_r + (seq![trim_of(cur0)] + sections_rec(lv.skip(i + 1), current@)) =~= (
                old_r + seq![trim_of(cur0)]) + sections_rec(lv.skip(i + 1), current@));
                assert(old_r + seq![trim_of(cur0)] =~= old_r.push(trim_of(cur0)));
            }
        } else {
            let line = &lines[i];
            let mut j: usize = 0;
            proof {
                assert(current@ =~= cur0 + line@.take(0));
            }
            while j < line.len()
                invariant
                    j <= line@.len(),
                    current@ == cur0 + line@.take(j as int),
                decreases line@.len() - j,
            {
                current.push(line[j]);
                j = j + 1;
                proof {
                    assert(cur0 + line@.take(j as int) =~= (cur0 + line@.take(j - 1)).push(
                        line@[j - 1],
                    ));
                }
            }
            current.push('\n');
            proof {
                assert(line@.take(line@.len() as int) =~= line@);
                assert(current@ =~= (cur0 + lv[i as int]) + seq!['\n']);
                assert(sections_rec(lv.skip(i as int), cur0) == sections_rec(
                    lv.skip(i + 1),
                    cur0 + lv[i as int] + seq!['\n'],
                ));
            }
        }
        i = i + 1;
    }
    proof {
        assert(lv.skip(lv.len() as int) =~= Seq::<Seq<char>>::empty());
    }
    let trimmed = trim_chars(&current);
    if trimmed.len() > 0 {
        let ghost old_r = r.deep_view();
        let section = string_from_chars(&trimmed);
        r.push(section);
        proof {
            assert(r.deep_view() =~~= old_r.push(trim_of(current@)));
            assert(old_r + seq![trim_of(current@)] =~= old_r.push(trim_of(current@)));
        }
    } else {
        proof {
            assert(r.deep_view() + Seq::<Seq<char>>::empty() =~= r.deep_view());
        }
    }
    r
}

// ---------------------------------------------------------------------------
// Paragraphs
// ---------------------------------------------------------------------------

/// Index of the first blank-line boundary (`\n\n`) in `s`, or past the end
/// if there is none.
pub open spec fn find_blank_of(s: Seq<char>) -> int
    decreases s.len(),
{
    if s.len() < 2 {
        s.len() as int
    } else if s[0] == '\n' && s[1] == '\n' {
        0
    } else {
        1 + find_blank_of(s.drop_first())
    }
}

/// The pieces of `s` between non-overlapping `\n\n` separators.
pub open spec fn paragraphs_raw_of(s: Seq<char>) -> Seq<Seq<char>>
    decreases s.len(),
{
    let j = find_blank_of(s);
    if 0 <= j && j + 1 < s.len() {
        seq![s.take(j)] + paragraphs_raw_of(s.skip(j + 2))
    } else {
        seq![s]
    }
}

/// Keeps the paragraphs whose trimmed text is non-empty, untrimmed.
pub open spec fn kept_paragraphs_of(ps: Seq<Seq<char>>) -> Seq<Seq<char>>
    decreases ps.len(),
{
    if ps.len() == 0 {
        Seq::empty()
    } else {
        let rest = kept_paragraphs_of(ps.drop_first());
        if trim_of(ps[0]).len() > 0 {
            seq![ps[0]] + rest
        } else {
            rest
        }
    }
}

/// The paragraphs of `s`: pieces between blank lines, blank pieces dropped.
pub open spec fn paragraphs_of(s: Seq<char>) -> Seq<Seq<char>> {
    kept_paragraphs_of(paragraphs_raw_of(s))
}

pub proof fn lemma_find_blank(s: Seq<char>)
    ensures
        0 <= find_blank_of(s) <= s.len(),
        forall|j: int| #![trigger s[j]]
            0 <= j < find_blank_of(s) && j + 1 < s.len() ==> !(s[j] == '\n' && s[j + 1] == '\n'),
        find_blank_of(s) + 1 < s.len() ==> s[find_blank_of(s)] == '\n' && s[find_blank_of(s) + 1]
            == '\n',
        find_blank_of(s) + 1 < s.len() || find_blank_of(s) == s.len(),
    decreases s.len(),
{
    if s.len() < 2 || (s[0] == '\n' && s[1] == '\n') {
    } else {
        lemma_find_blank(s.drop_first());
        let f = find_blank_of(s);
        assert forall|j: int| #![trigger s[j]]
            0 <= j < f && j + 1 < s.len() implies !(s[j] == '\n' && s[j + 1] == '\n') by {
            if j > 0 {
                assert(s.drop_first()[j - 1] == s[j]);
                assert(s.drop_first()[j] == s[j + 1]);
            }
        }
        if f + 1 < s.len() {
            assert(s.drop_first()[f - 1] == s[f]);
            assert(s.drop_first()[f] == s[f + 1]);
        }
    }
}

/// Pins `find_blank_of` from a scan's facts.
pub proof fn lemma_find_blank_is(s: Seq<char>, i: int)
    requires
        0 <= i <= s.len(),
        forall|j: int| #![trigger s[j]]
            0 <= j < i && j + 1 < s.len() ==> !(s[j] == '\n' && s[j + 1] == '\n'),
        i + 1 < s.len() ==> s[i] == '\n' && s[i + 1] == '\n',
        i + 1 >= s.len() ==> i == s.len(),
    ensures
        find_blank_of(s) == i,
{
    lemma_find_blank(s);
    let f = find_blank_of(s);
    if i + 1 < s.len() {
        if i < f {
            assert(!(s[i] == '\n' && s[i + 1] == '\n'));
            assert(false);
        }
        assert(f <= i);
        assert(f + 1 < s.len());
        if f < i {
            assert(!(s[f] == '\n' && s[f + 1] == '\n'));
            assert(false);
        }
    } else {
        assert(i == s.len());
        if f < s.len() {
            assert(f + 1 < s.len());
            assert(!(s[f] == '\n' && s[f + 1] == '\n'));
            assert(false);
        }
    }
}

/// Splits a section into paragraphs on blank-line boundaries, dropping
/// blank paragraphs.
pub fn split_paragraphs(text: &str) -> (r: Vec<String>)
    ensures
        r.deep_view() == paragraphs_of(text@),
{
    broadcast use strings_deep_view;

    let cs = chars_from_str(text);
    let n = cs.len();
    let mut r: Vec<String> = Vec::new();
    let mut start: usize = 0;
    proof {
        assert(cs@.skip(0) =~= cs@);
        assert(r.deep_view() =~= Seq::<Seq<char>>::empty());
        assert(Seq::<Seq<char>>::empty() + kept_paragraphs_of(paragraphs_raw_of(cs@))
            =~= kept_paragraphs_of(paragraphs_raw_of(cs@)));
    }
    loop
        invariant
            start <= n,
            n == cs@.len(),
            cs@ == text@,
            paragraphs_of(cs@) == r.deep_view() + kept_paragraphs_of(
                paragraphs_raw_of(cs@.skip(start as int)),
            ),
        decreases n - start,
    {
        // scan for the next blank-line boundary
        let mut j: usize = start;
        while j < n && !(j + 1 < n && cs[j] == '\n' && cs[j + 1] == '\n')
            invariant
                start <= j <= n,
                n == cs@.len(),
                forall|k: int| #![trigger cs@[k]]
                    start <= k < j && k + 1 < n ==> !(cs@[k] == '\n' && cs@[k + 1] == '\n'),
            decreases n - j,
        {
            j = j + 1;
        }
        let ghost t = cs@.skip(start as int);
        proof {
            assert forall|k: int| #![trigger t[k]]
                0 <= k < j - start && k + 1 < t.len() implies !(t[k] == '\n' && t[k + 1]
                == '\n') by {
                assert(t[k] == cs@[start + k]);
                assert(t[k + 1] == cs@[start + k + 1]);
            }
            if j < n {
                assert(t[j - start] == cs@[j as int]);
                assert(t[j - start + 1] == cs@[j + 1]);
                lemma_find_blank_is(t, j - start);
            } else {
                lemma_find_blank_is(t, (n - start) as int);
            }
        }
        if j < n {
            // boundary at j: piece is cs[start..j], next piece starts at j + 2
            let piece = copy_range(&cs, start, j);
            let trimmed = trim_chars(&piece);
            let ghost ps = paragraphs_raw_of(t);
            let ghost rest = kept_paragraphs_of(paragraphs_raw_of(cs@.skip(j + 2)));
            proof {
                assert(t.take(j - start) =~= cs@.subrange(start as int, j as int));
                assert(t.skip(j - start + 2) =~= cs@.skip(j + 2));
                assert(ps == seq![t.take(j - start)] + paragraphs_raw_of(cs@.skip(j + 2)));
                assert(ps[0] == t.take(j - start));
                assert(ps.drop_first() =~= paragraphs_raw_of(cs@.skip(j + 2)));
                assert(trimmed@ == trim_of(ps[0]));
                assert(kept_paragraphs_of(ps) == if trim_of(ps[0]).len() > 0 {
                    seq![ps[0]] + rest
                } else {
                    rest
                });
            }
            if trimmed.len() > 0 {
                let ghost old_r = r.deep_view();
                r.push(string_from_chars(&piece));
                proof {
                    assert(r.deep_view() =~~= old_r.push(ps[0]));
                    assert(old_r + (seq![ps[0]] + rest) =~= old_r.push(ps[0]) + rest);
                }
            }
            start = j + 2;
        } else {
            // no boundary: the rest is the last piece
            let piece = copy_range(&cs, start, n);
            let trimmed = trim_chars(&piece);
            let ghost ps = paragraphs_raw_of(t);
            proof {
                assert(t =~= cs@.subrange(start as int, n as int));
                assert(ps == seq![t]);
                assert(ps[0] == t);
                assert(ps.drop_first() =~= Seq::<Seq<char>>::empty());
                assert(kept_paragraphs_of(Seq::<Seq<char>>::empty()) =~= Seq::<Seq<char>>::empty());
                assert(trimmed@ == trim_of(ps[0]));
                assert(kept_paragraphs_of(ps) == if trim_of(ps[0]).len() > 0 {
                    seq![ps[0]] + Seq::<Seq<char>>::empty()
                } else {
                    Seq::<Seq<char>>::empty()
                });
            }
            if trimmed.len() > 0 {
                let ghost old_r = r.deep_view();
                r.push(string_from_chars(&piece));
                proof {
                    assert(r.deep_view() =~~= old_r.push(t));
                    assert(seq![t] + Seq::<Seq<char>>::empty() =~= seq![t]);
                    assert(old_r + seq![t] =~= old_r.push(t));
                }
            } else {
                proof {
                    assert(r.deep_view() + Seq::<Seq<char>>::empty() =~= r.deep_view());
                }
            }
            return r;
        }
    }
}


// ---------------------------------------------------------------------------
// Sentences
// ---------------------------------------------------------------------------

/// A sentence terminator.
pub open spec fn is_terminator(c: char) -> bool {
    c == '.' || c == '!' || c == '?'
}

fn terminator_char(c: char) -> (r: bool)
    ensures
        r == is_terminator(c),
{
    c == '.' || c == '!' || c == '?'
}

/// A sentence boundary: a terminator at the end of the text or followed by
/// whitespace.
pub open spec fn boundary_at(s: Seq<char>, j: int) -> bool {
    is_terminator(s[j]) && (j + 1 == s.len() || is_space(s[j + 1]))
}

/// Index of the first sentence boundary in `s`, or `s.len()` if absent.
pub open spec fn find_term_of(s: Seq<char>) -> int
    decreases s.len(),
{
    if s.len() == 0 {
        0
    } else if boundary_at(s, 0) {
        0
    } else {
        1 + find_term_of(s.drop_first())
    }
}

pub proof fn lemma_find_term(s: Seq<char>)
    ensures
        0 <= find_term_of(s) <= s.len(),
        forall|j: int| 0 <= j < find_term_of(s) ==> !boundary_at(s, j),
        find_term_of(s) < s.len() ==> boundary_at(s, find_term_of(s)),
    decreases s.len(),
{
    if s.len() == 0 || boundary_at(s, 0) {
    } else {
        let d = s.drop_first();
        lemma_find_term(d);
        let f = find_term_of(s);
        assert forall|j: int| 0 <= j < f implies !boundary_at(s, j) by {
            if j > 0 {
                assert(d[j - 1] == s[j]);
                if j < s.len() - 1 {
                    assert(d[j] == s[j + 1]);
                }
                assert(boundary_at(d, j - 1) == boundary_at(s, j));
            }
        }
        if f < s.len() {
            assert(d[f - 1] == s[f]);
            if f < s.len() - 1 {
                assert(d[f] == s[f + 1]);
            }
            assert(boundary_at(d, f - 1) == boundary_at(s, f));
        }
    }
}

/// Pins `find_term_of` from a scan's facts.
pub proof fn lemma_find_term_is(s: Seq<char>, i: int)
    requires
        0 <= i <= s.len(),
        forall|j: int| 0 <= j < i ==> !boundary_at(s, j),
        i < s.len() ==> boundary_at(s, i),
    ensures
        find_term_of(s) == i,
{
    lemma_find_term(s);
    let f = find_term_of(s);
    if f < i {
        assert(boundary_at(s, f));
        assert(false);
    }
    if f > i {
        assert(i < s.len());
        assert(!boundary_at(s, i));
        assert(false);
    }
}

/// End of the first matched sentence piece: the boundary terminator plus
/// the one whitespace character after it, when there is one.
pub open spec fn match_end_of(s: Seq<char>) -> int {
    let j = find_term_of(s);
    if j + 2 <= s.len() {
        j + 2
    } else {
        s.len() as int
    }
}

/// The matched sentence pieces of `s`, each running from the end of the
/// previous match through its own boundary.
pub open spec fn match_pieces_of(s: Seq<char>) -> Seq<Seq<char>>
    decreases s.len(),
{
    let j = find_term_of(s);
    if 0 <= j < s.len() {
        let e = match_end_of(s);
        if 1 <= e <= s.len() {
            seq![s.take(e)] + match_pieces_of(s.skip(e))
        } else {
            Seq::empty()
        }
    } else {
        Seq::empty()
    }
}

/// What is left of `s` after its last matched sentence piece.
pub open spec fn tail_after_of(s: Seq<char>) -> Seq<char>
    decreases s.len(),
{
    let j = find_term_of(s);
    if 0 <= j < s.len() {
        let e = match_end_of(s);
        if 1 <= e <= s.len() {
            tail_after_of(s.skip(e))
        } else {
            s
        }
    } else {
        s
    }
}

/// The matched pieces trimmed, dropping any that trim away entirely.
pub open spec fn kept_pieces_of(ps: Seq<Seq<char>>) -> Seq<Seq<char>>
    decreases ps.len(),
{
    if ps.len() == 0 {
        Seq::empty()
    } else {
        let rest = kept_pieces_of(ps.drop_first());
        let tp = trim_of(ps[0]);
        if tp.len() > 0 {
            seq![tp] + rest
        } else {
            rest
        }
    }
}

/// Fixed-size groups of whole words, each group joined with single spaces;
/// the last group may be shorter.
pub open spec fn word_groups_of(ws: Seq<Seq<char>>, n: int) -> Seq<Seq<char>>
    decreases ws.len(),
{
    if ws.len() == 0 {
        Seq::empty()
    } else if ws.len() <= n || n < 1 {
        seq![join_of(ws, seq![' '])]
    } else {
        seq![join_of(ws.take(n), seq![' '])] + word_groups_of(ws.skip(n), n)
    }
}

/// The pieces of a sequence list, concatenated.
pub open spec fn concat_of(ps: Seq<Seq<char>>) -> Seq<char>
    decreases ps.len(),
{
    if ps.len() == 0 {
        Seq::empty()
    } else {
        ps[0] + concat_of(ps.drop_first())
    }
}

/// Sentence splitting loses no text: the matched pieces followed by the
/// trailing remainder concatenate back to the input exactly (trimming and
/// blank-piece dropping happen only afterwards).
pub proof fn lemma_sentence_pieces_cover(s: Seq<char>)
    ensures
        concat_of(match_pieces_of(s)) + tail_after_of(s) == s,
    decreases s.len(),
{
    let j = find_term_of(s);
    if !(0 <= j < s.len()) {
        assert(match_pieces_of(s) == Seq::<Seq<char>>::empty());
        assert(concat_of(Seq::<Seq<char>>::empty()) == Seq::<char>::empty());
        assert(Seq::<char>::empty() + s =~= s);
    } else {
        let e = match_end_of(s);
        if 1 <= e <= s.len() {
            lemma_sentence_pieces_cover(s.skip(e));
            let mp = match_pieces_of(s);
            assert(mp == seq![s.take(e)] + match_pieces_of(s.skip(e)));
            assert(mp[0] == s.take(e));
            assert(mp.drop_first() =~= match_pieces_of(s.skip(e)));
            assert(concat_of(mp) == s.take(e) + concat_of(match_pieces_of(s.skip(e))));
            assert(tail_after_of(s) == tail_after_of(s.skip(e)));
            assert((s.take(e) + concat_of(match_pieces_of(s.skip(e)))) + tail_after_of(s.skip(e))
                =~= s.take(e) + (concat_of(match_pieces_of(s.skip(e))) + tail_after_of(
                s.skip(e),
            )));
            assert(s.take(e) + s.skip(e) =~= s);
        } else {
            assert(match_pieces_of(s) == Seq::<Seq<char>>::empty());
            assert(concat_of(Seq::<Seq<char>>::empty()) == Seq::<char>::empty());
            assert(Seq::<char>::empty() + s =~= s);
        }
    }
}

/// The sentence pieces kept by the splitter: the trimmed matches, and the
/// trailing remainder.
pub open spec fn raw_sentences_of(s: Seq<char>) -> Seq<Seq<char>> {
    let kept = kept_pieces_of(match_pieces_of(s));
    let tail = trim_of(tail_after_of(s));
    if tail.len() > 0 {
        kept + seq![tail]
    } else {
        kept
    }
}

/// The sentences of `s`: terminator-delimited pieces, or fixed-size word
/// groups when the text has no sentence boundary at all or no piece
/// survives, and the text is not blank.
pub open spec fn sentences_of(s: Seq<char>) -> Seq<Seq<char>> {
    let kept = raw_sentences_of(s);
    if (match_pieces_of(s).len() == 0 || kept.len() == 0) && trim_of(s).len() > 0 {
        word_groups_of(words_of(s), WORD_GROUP_SIZE as int)
    } else {
        kept
    }
}

/// Groups the words of `cs` into strings of `WORD_GROUP_SIZE` words each.
fn word_group_strings(cs: &Vec<char>) -> (r: Vec<String>)
    ensures
        r.deep_view() == word_groups_of(words_of(cs@), WORD_GROUP_SIZE as int),
{
    broadcast use strings_deep_view;

    let words = split_words(cs);
    let ghost wv = words.deep_view();
    let n = words.len();
    let mut sep: Vec<char> = Vec::new();
    sep.push(' ');
    proof {
        assert(sep@ =~= seq![' ']);
    }
    let mut r: Vec<String> = Vec::new();
    let mut i: usize = 0;
    proof {
        assert(wv.skip(0) =~= wv);
        assert(r.deep_view() =~= Seq::<Seq<char>>::empty());
        assert(Seq::<Seq<char>>::empty() + word_groups_of(wv, WORD_GROUP_SIZE as int)
            =~= word_groups_of(wv, WORD_GROUP_SIZE as int));
    }
    while i < n
        invariant
            i <= n,
            n == words@.len(),
            wv == words.deep_view(),
            wv.len() == n,
            sep@ == seq![' '],
            word_groups_of(wv, WORD_GROUP_SIZE as int) == r.deep_view() + word_groups_of(
                wv.skip(i as int),
                WORD_GROUP_SIZE as int,
            ),
        decreases n - i,
    {
        let g = if n - i <= WORD_GROUP_SIZE {
            n
        } else {
            i + WORD_GROUP_SIZE
        };
        let mut sub: Vec<Vec<char>> = Vec::new();
        let mut k: usize = i;
        proof {
            assert(sub.deep_view() =~= wv.subrange(i as int, i as int));
        }
        while k < g
            invariant
                i <= k <= g <= n,
                n == words@.len(),
                wv == words.deep_view(),
                wv.len() == n,
                sub.deep_view() == wv.subrange(i as int, k as int),
            decreases g - k,
        {
            let w = copy_range(&words[k], 0, words[k].len());
            proof {
                assert(w@ =~= words@[k as int]@);
                assert(wv[k as int] == words@[k as int].deep_view());
                assert(words@[k as int].deep_view() =~= words@[k as int]@);
            }
            let ghost old_sub = sub.deep_view();
            sub.push(w);
            k = k + 1;
            proof {
                assert(sub.deep_view() =~~= old_sub.push(wv[k - 1]));
                assert(wv.subrange(i as int, k as int) =~= wv.subrange(i as int, k - 1).push(
                    wv[k - 1],
                ));
            }
        }
        let joined = join_chars(&sub, &sep);
        let group = string_from_chars(&joined);
        let ghost old_r = r.deep_view();
        r.push(group);
        proof {
            let m = WORD_GROUP_SIZE as int;
            let t = wv.skip(i as int);
            assert(t.len() == n - i);
            if n - i <= WORD_GROUP_SIZE {
                assert(wv.subrange(i as int, g as int) =~= t);
                assert(word_groups_of(t, m) == seq![join_of(t, seq![' '])]);
                assert(wv.skip(g as int) =~= Seq::<Seq<char>>::empty());
                assert(word_groups_of(wv.skip(g as int), m) == Seq::<Seq<char>>::empty());
                assert(r.deep_view() =~~= old_r.push(join_of(t, seq![' '])));
                assert(old_r + seq![join_of(t, seq![' '])] =~= old_r.push(join_of(t, seq![' '])));
                assert(seq![join_of(t, seq![' '])] + Seq::<Seq<char>>::empty() =~= seq![join_of(
                    t,
                    seq![' '],
                )]);
            } else {
                assert(wv.subrange(i as int, g as int) =~= t.take(m));
                assert(t.skip(m) =~= wv.skip(g as int));
                assert(word_groups_of(t, m) == seq![join_of(t.take(m), seq![' '])]
                    + word_groups_of(wv.skip(g as int), m));
                assert(r.deep_view() =~~= old_r.push(join_of(t.take(m), seq![' '])));
                assert(old_r + (seq![join_of(t.take(m), seq![' '])] + word_groups_of(
                    wv.skip(g as int),
                    m,
                )) =~= old_r.push(join_of(t.take(m), seq![' '])) + word_groups_of(
                    wv.skip(g as int),
                    m,
                ));
            }
        }
        i = g;
    }
    proof {
        assert(wv.skip(n as int) =~= Seq::<Seq<char>>::empty());
        assert(r.deep_view() + Seq::<Seq<char>>::empty() =~= r.deep_view());
    }
    r
}

/// Splits a paragraph into sentences on `.`, `!` and `?` boundaries,
/// keeping any trailing remainder, and falling back to fixed-size word
/// groups when the text has no sentence boundary at all.
pub fn split_sentences(text: &str) -> (r: Vec<String>)
    ensures
        r.deep_view() == sentences_of(text@),
{
    broadcast use strings_deep_view;

    let cs = chars_from_str(text);
    let n = cs.len();
    let mut kept: Vec<String> = Vec::new();
    let mut start: usize = 0;
    proof {
        assert(cs@.skip(0) =~= cs@);
        assert(kept.deep_view() =~= Seq::<Seq<char>>::empty());
        assert(Seq::<Seq<char>>::empty() + kept_pieces_of(match_pieces_of(cs@))
            =~= kept_pieces_of(match_pieces_of(cs@)));
    }
    loop
        invariant
            start <= n,
            n == cs@.len(),
            cs@ == text@,
            kept_pieces_of(match_pieces_of(cs@)) == kept.deep_view() + kept_pieces_of(
                match_pieces_of(cs@.skip(start as int)),
            ),
            tail_after_of(cs@) == tail_after_of(cs@.skip(start as int)),
            start > 0 ==> match_pieces_of(cs@).len() > 0,
        decreases n - start,
    {
        let mut j: usize = start;
        while j < n && !(terminator_char(cs[j]) && (j + 1 == n || space_char(cs[j + 1])))
            invariant
                start <= j <= n,
                n == cs@.len(),
                forall|k: int| start <= k < j ==> !boundary_at(cs@, k),
            decreases n - j,
        {
            j = j + 1;
        }
        let ghost t = cs@.skip(start as int);
        proof {
            assert forall|k: int| 0 <= k < j - start implies !boundary_at(t, k) by {
                assert(t[k] == cs@[start + k]);
                if k < t.len() - 1 {
                    assert(t[k + 1] == cs@[start + k + 1]);
                }
                assert(boundary_at(t, k) == boundary_at(cs@, start + k));
            }
            if j < n {
                assert(t[j - start] == cs@[j as int]);
                if j - start < t.len() - 1 {
                    assert(t[j - start + 1] == cs@[j + 1]);
                }
                assert(boundary_at(cs@, j as int));
                assert(boundary_at(t, j - start));
                lemma_find_term_is(t, j - start);
            } else {
                lemma_find_term_is(t, (n - start) as int);
            }
        }
        if j < n {
            let e = if n - j >= 2 {
                j + 2
            } else {
                n
            };
            let piece = copy_range(&cs, start, e);
            let trimmed = trim_chars(&piece);
            let ghost ps = match_pieces_of(t);
            let ghost rest = kept_pieces_of(match_pieces_of(cs@.skip(e as int)));
            proof {
                assert(match_end_of(t) == e - start);
                assert(t.take(e - start) =~= cs@.subrange(start as int, e as int));
                assert(t.skip(e - start) =~= cs@.skip(e as int));
                assert(ps == seq![t.take(e - start)] + match_pieces_of(cs@.skip(e as int)));
                assert(ps[0] == t.take(e - start));
                assert(ps.drop_first() =~= match_pieces_of(cs@.skip(e as int)));
                assert(trimmed@ == trim_of(ps[0]));
                assert(kept_pieces_of(ps) == if trim_of(ps[0]).len() > 0 {
                    seq![trim_of(ps[0])] + rest
                } else {
                    rest
                });
                assert(tail_after_of(t) == tail_after_of(cs@.skip(e as int)));
            }
            if trimmed.len() > 0 {
                let ghost old_kept = kept.deep_view();
                let sentence = string_from_chars(&trimmed);
                kept.push(sentence);
                proof {
                    assert(kept.deep_view() =~~= old_kept.push(trim_of(ps[0])));
                    assert(old_kept + (seq![trim_of(ps[0])] + rest) =~= old_kept.push(trim_of(
                        ps[0],
                    )) + rest);
                }
            }
            proof {
                if start == 0 {
                    assert(t =~= cs@);
                    assert(match_pieces_of(cs@).len() > 0);
                }
            }
            start = e;
        } else {
            let no_matches = start == 0;
            proof {
                assert(match_pieces_of(t) == Seq::<Seq<char>>::empty());
                assert(kept_pieces_of(Seq::<Seq<char>>::empty()) == Seq::<Seq<char>>::empty());
                assert(kept.deep_view() + Seq::<Seq<char>>::empty() =~= kept.deep_view());
                assert(kept.deep_view() == kept_pieces_of(match_pieces_of(cs@)));
                assert(tail_after_of(t) == t);
                if no_matches {
                    assert(t =~= cs@);
                    assert(match_pieces_of(cs@).len() == 0);
                }
            }
            let tailpiece = copy_range(&cs, start, n);
            let tailtrim = trim_chars(&tailpiece);
            proof {
                assert(t =~= cs@.subrange(start as int, n as int));
                assert(tailtrim@ == trim_of(tail_after_of(cs@)));
            }
            if tailtrim.len() > 0 {
                let ghost old_kept = kept.deep_view();
                let tail = string_from_chars(&tailtrim);
                kept.push(tail);
                proof {
                    assert(kept.deep_view() =~~= old_kept.push(trim_of(tail_after_of(cs@))));
                    assert(old_kept + seq![trim_of(tail_after_of(cs@))] =~= old_kept.push(trim_of(
                        tail_after_of(cs@),
                    )));
                    assert(kept.deep_view() == raw_sentences_of(cs@));
                }
            } else {
                proof {
                    assert(kept.deep_view() == raw_sentences_of(cs@));
                }
            }
            if no_matches || kept.len() == 0 {
                let whole_trim = trim_chars(&cs);
                if whole_trim.len() > 0 {
                    let groups = word_group_strings(&cs);
                    proof {
                        assert(groups.deep_view() == sentences_of(cs@));
                    }
                    return groups;
                }
            }
            return kept;
        }
    }
}

} // verus!
