//! Character-level text utilities: whitespace handling, trimming, splitting,
//! joining and newline normalization, each proved against a spec function
//! over the character sequence, plus decimal rendering of counters.

use vstd::prelude::*;
use vstd::string::StrSliceExecFns;

verus! {

/// The deep view of a character vector is its view.
pub broadcast proof fn chars_deep_view_is_view(v: Vec<char>)
    ensures
        #[trigger] v.deep_view() == v@,
{
    assert(v.deep_view() =~= v@);
}

// ---------------------------------------------------------------------------
// Character classes
// ---------------------------------------------------------------------------

/// Whitespace as this library understands it: the characters with the
/// Unicode White_Space property, the same set the standard library's
/// trimming and whitespace splitting use.
pub open spec fn is_space(c: char) -> bool {
    c == ' ' || c == '\t' || c == '\n' || c == '\r' || c == '\u{0B}' || c == '\u{0C}' || c
        == '\u{85}' || c == '\u{A0}' || c == '\u{1680}' || ('\u{2000}' <= c && c <= '\u{200A}')
        || c == '\u{2028}' || c == '\u{2029}' || c == '\u{202F}' || c == '\u{205F}' || c
        == '\u{3000}'
}

/// Executable test matching `is_space`.
pub fn space_char(c: char) -> (r: bool)
    ensures
        r == is_space(c),
{
    c == ' ' || c == '\t' || c == '\n' || c == '\r' || c == '\u{0B}' || c == '\u{0C}' || c
        == '\u{85}' || c == '\u{A0}' || c == '\u{1680}' || ('\u{2000}' <= c && c <= '\u{200A}')
        || c == '\u{2028}' || c == '\u{2029}' || c == '\u{202F}' || c == '\u{205F}' || c
        == '\u{3000}'
}

// ---------------------------------------------------------------------------
// Conversions between strings and character vectors
// ---------------------------------------------------------------------------

/// The characters of a string slice, as a vector.
pub fn chars_from_str(s: &str) -> (r: Vec<char>)
    ensures
        r@ == s@,
{
    let n = s.unicode_len();
    let mut r: Vec<char> = Vec::new();
    let mut i: usize = 0;
    while i < n
        invariant
            i <= n,
            n == s@.len(),
            r@ == s@.take(i as int),
        decreases n - i,
    {
        r.push(s.get_char(i));
        i = i + 1;
        proof {
            assert(s@.take(i as int) =~= s@.take(i - 1).push(s@[i - 1]));
        }
    }
    proof {
        assert(s@.take(n as int) =~= s@);
    }
    r
}

/// Relies on `String::push`: appends exactly the one given character.
#[verifier::external_body]
pub fn push_char(s: &mut String, c: char)
    ensures
        final(s)@ == old(s)@.push(c),
{
    s.push(c);
}

/// A string holding exactly the given characters.
pub fn string_from_chars(cs: &Vec<char>) -> (r: String)
    ensures
        r@ == cs@,
{
    let mut r = String::new();
    let mut i: usize = 0;
    while i < cs.len()
        invariant
            i <= cs@.len(),
            r@ == cs@.take(i as int),
        decreases cs@.len() - i,
    {
        push_char(&mut r, cs[i]);
        i = i + 1;
        proof {
            assert(cs@.take(i as int) =~= cs@.take(i - 1).push(cs@[i - 1]));
        }
    }
    proof {
        assert(cs@.take(cs@.len() as int) =~= cs@);
    }
    r
}

/// A copy of the characters of `cs` between `a` (inclusive) and `b`
/// (exclusive).
pub fn copy_range(cs: &Vec<char>, a: usize, b: usize) -> (r: Vec<char>)
    requires
        a <= b <= cs@.len(),
    ensures
        r@ == cs@.subrange(a as int, b as int),
{
    let mut r: Vec<char> = Vec::new();
    let mut i: usize = a;
    proof {
        assert(r@ =~= cs@.subrange(a as int, a as int));
    }
    while i < b
        invariant
            a <= i <= b <= cs@.len(),
            r@ == cs@.subrange(a as int, i as int),
        decreases b - i,
    {
        r.push(cs[i]);
        i = i + 1;
        proof {
            assert(cs@.subrange(a as int, i as int) =~= cs@.subrange(a as int, i - 1).push(
                cs@[i - 1],
            ));
        }
    }
    r
}

/// Appends all characters of `other` to `r`.
pub fn extend_chars(r: &mut Vec<char>, other: &Vec<char>)
    ensures
        final(r)@ == old(r)@ + other@,
{
    let mut i: usize = 0;
    proof {
        assert(r@ =~= old(r)@ + other@.take(0));
    }
    while i < other.len()
        invariant
            i <= other@.len(),
            r@ == old(r)@ + other@.take(i as int),
        decreases other@.len() - i,
    {
        r.push(other[i]);
        i = i + 1;
        proof {
            assert(old(r)@ + other@.take(i as int) =~= (old(r)@ + other@.take(i - 1)).push(
                other@[i - 1],
            ));
        }
    }
    proof {
        assert(old(r)@ + other@.take(other@.len() as int) =~= old(r)@ + other@);
    }
}

// ---------------------------------------------------------------------------
// Trimming
// ---------------------------------------------------------------------------

/// The sequence with its leading whitespace removed.
pub open spec fn trim_start_of(s: Seq<char>) -> Seq<char>
    decreases s.len(),
{
    if s.len() > 0 && is_space(s[0]) {
        trim_start_of(s.drop_first())
    } else {
        s
    }
}

/// The sequence with its trailing whitespace removed.
pub open spec fn trim_end_of(s: Seq<char>) -> Seq<char>
    decreases s.len(),
{
    if s.len() > 0 && is_space(s.last()) {
        trim_end_of(s.drop_last())
    } else {
        s
    }
}

/// The sequence with leading and trailing whitespace removed.
pub open spec fn trim_of(s: Seq<char>) -> Seq<char> {
    trim_end_of(trim_start_of(s))
}

proof fn lemma_trim_start_skip(s: Seq<char>, i: int)
    requires
        0 <= i <= s.len(),
        forall|j: int| 0 <= j < i ==> is_space(s[j]),
        i < s.len() ==> !is_space(s[i]),
    ensures
        trim_start_of(s) == s.skip(i),
    decreases i,
{
    if i == 0 {
        assert(s.skip(0) =~= s);
    } else {
        assert(is_space(s[0]));
        assert(s.drop_first() =~= s.skip(1));
        assert forall|j: int| 0 <= j < i - 1 implies is_space(s.skip(1)[j]) by {
            assert(s.skip(1)[j] == s[j + 1]);
        }
        if i - 1 < s.skip(1).len() {
            assert(s.skip(1)[i - 1] == s[i]);
        }
        lemma_trim_start_skip(s.skip(1), i - 1);
        assert(s.skip(1).skip(i - 1) =~= s.skip(i));
    }
}

proof fn lemma_trim_end_take(s: Seq<char>, m: int)
    requires
        0 <= m <= s.len(),
        forall|j: int| m <= j < s.len() ==> is_space(s[j]),
        m > 0 ==> !is_space(s[m - 1]),
    ensures
        trim_end_of(s) == s.take(m),
    decreases s.len() - m,
{
    if m == s.len() {
        assert(s.take(m) =~= s);
        if s.len() > 0 {
            assert(s.last() == s[m - 1]);
        }
    } else {
        assert(is_space(s.last()));
        assert(s.drop_last() =~= s.take(s.len() - 1));
        let t = s.take(s.len() - 1);
        assert forall|j: int| m <= j < t.len() implies is_space(t[j]) by {
            assert(t[j] == s[j]);
        }
        if m > 0 {
            assert(t[m - 1] == s[m - 1]);
        }
        lemma_trim_end_take(t, m);
        assert(t.take(m) =~= s.take(m));
    }
}

/// A copy of `cs` with leading and trailing whitespace removed.
pub fn trim_chars(cs: &Vec<char>) -> (r: Vec<char>)
    ensures
        r@ == trim_of(cs@),
{
    let n = cs.len();
    let mut b: usize = 0;
    while b < n && space_char(cs[b])
        invariant
            b <= n,
            n == cs@.len(),
            forall|j: int| 0 <= j < b ==> is_space(cs@[j]),
        decreases n - b,
    {
        b = b + 1;
    }
    let mut e: usize = n;
    while e > b && space_char(cs[e - 1])
        invariant
            b <= e <= n,
            n == cs@.len(),
            forall|j: int| e <= j < n ==> is_space(cs@[j]),
        decreases e,
    {
        e = e - 1;
    }
    let r = copy_range(cs, b, e);
    proof {
        lemma_trim_start_skip(cs@, b as int);
        let t = cs@.skip(b as int);
        assert forall|j: int| e - b <= j < t.len() implies is_space(t[j]) by {
            assert(t[j] == cs@[b + j]);
        }
        if e > b {
            assert(t[e - b - 1] == cs@[e - 1]);
        }
        lemma_trim_end_take(t, e - b);
        assert(t.take(e - b) =~= cs@.subrange(b as int, e as int));
    }
    r
}

// ---------------------------------------------------------------------------
// Finding and splitting on a separator character
// ---------------------------------------------------------------------------

/// Index of the first occurrence of `c` in `s`, or `s.len()` if absent.
pub open spec fn find_char_of(s: Seq<char>, c: char) -> int
    decreases s.len(),
{
    if s.len() == 0 {
        0
    } else if s[0] == c {
        0
    } else {
        1 + find_char_of(s.drop_first(), c)
    }
}

pub proof fn lemma_find_char(s: Seq<char>, c: char)
    ensures
        0 <= find_char_of(s, c) <= s.len(),
        forall|j: int| 0 <= j < find_char_of(s, c) ==> s[j] != c,
        find_char_of(s, c) < s.len() ==> s[find_char_of(s, c)] == c,
    decreases s.len(),
{
    if s.len() == 0 || s[0] == c {
    } else {
        lemma_find_char(s.drop_first(), c);
        assert forall|j: int| 0 <= j < find_char_of(s, c) implies s[j] != c by {
            if j > 0 {
                assert(s.drop_first()[j - 1] == s[j]);
            }
        }
        if find_char_of(s, c) < s.len() {
            assert(s.drop_first()[find_char_of(s.drop_first(), c)] == s[find_char_of(s, c)]);
        }
    }
}

/// Pins `find_char_of` from a scan's facts.
pub proof fn lemma_find_char_is(s: Seq<char>, c: char, i: int)
    requires
        0 <= i <= s.len(),
        forall|j: int| 0 <= j < i ==> s[j] != c,
        i < s.len() ==> s[i] == c,
    ensures
        find_char_of(s, c) == i,
{
    lemma_find_char(s, c);
    let f = find_char_of(s, c);
    if f < i {
        assert(s[f] == c);
        assert(false);
    }
    if f > i {
        assert(i < s.len());
        assert(s[i] != c);
        assert(false);
    }
}

/// The pieces of `s` between occurrences of `c` (empty pieces included).
pub open spec fn split_char_of(s: Seq<char>, c: char) -> Seq<Seq<char>>
    decreases s.len(),
{
    let j = find_char_of(s, c);
    if 0 <= j < s.len() {
        seq![s.take(j)] + split_char_of(s.skip(j + 1), c)
    } else {
        seq![s]
    }
}

/// The pieces of `cs` between occurrences of `c`, as string splitting
/// produces them: empty pieces kept, to be filtered by the caller.
pub fn split_char(cs: &Vec<char>, c: char) -> (r: Vec<Vec<char>>)
    ensures
        r.deep_view() == split_char_of(cs@, c),
{
    broadcast use chars_deep_view_is_view;

    let n = cs.len();
    let mut r: Vec<Vec<char>> = Vec::new();
    let mut start: usize = 0;
    let mut i: usize = 0;
    proof {
        assert(cs@.skip(0) =~= cs@);
        assert(r.deep_view() =~= Seq::<Seq<char>>::empty());
        assert(Seq::<Seq<char>>::empty() + split_char_of(cs@, c) =~= split_char_of(cs@, c));
    }
    while i < n
        invariant
            start <= i <= n,
            n == cs@.len(),
            forall|j: int| start <= j < i ==> cs@[j] != c,
            split_char_of(cs@, c) == r.deep_view() + split_char_of(cs@.skip(start as int), c),
        decreases n - i,
    {
        if cs[i] == c {
            let piece = copy_range(cs, start, i);
            let ghost t = cs@.skip(start as int);
            proof {
                assert forall|j: int| 0 <= j < i - start implies t[j] != c by {
                    assert(t[j] == cs@[start + j]);
                }
                assert(t[i - start] == cs@[i as int]);
                lemma_find_char_is(t, c, i - start);
                assert(t.take(i - start) =~= cs@.subrange(start as int, i as int));
                assert(t.skip(i - start + 1) =~= cs@.skip(i + 1));
                assert(split_char_of(t, c) == seq![t.take(i - start)] + split_char_of(
                    cs@.skip(i + 1),
                    c,
                ));
            }
            let ghost old_r = r.deep_view();
            r.push(piece);
            proof {
                assert(r.deep_view() =~~= old_r + seq![t.take(i - start)]);
                assert(old_r + (seq![t.take(i - start)] + split_char_of(cs@.skip(i + 1), c)) =~= (
                old_r + seq![t.take(i - start)]) + split_char_of(cs@.skip(i + 1), c));
            }
            start = i + 1;
        }
        i = i + 1;
    }
    let piece = copy_range(cs, start, n);
    let ghost t = cs@.skip(start as int);
    proof {
        assert forall|j: int| 0 <= j < n - start implies t[j] != c by {
            assert(t[j] == cs@[start + j]);
        }
        lemma_find_char_is(t, c, (n - start) as int);
        assert(split_char_of(t, c) == seq![t]);
    }
    let ghost old_r = r.deep_view();
    r.push(piece);
    proof {
        assert(t =~= cs@.subrange(start as int, n as int));
        assert(r.deep_view() =~~= old_r + seq![t]);
    }
    r
}

// ---------------------------------------------------------------------------
// Joining
// ---------------------------------------------------------------------------

/// The pieces joined with `sep` between consecutive pieces.
pub open spec fn join_of(parts: Seq<Seq<char>>, sep: Seq<char>) -> Seq<char>
    decreases parts.len(),
{
    if parts.len() == 0 {
        Seq::empty()
    } else if parts.len() == 1 {
        parts[0]
    } else {
        parts[0] + sep + join_of(parts.drop_first(), sep)
    }
}

pub proof fn lemma_join_push(parts: Seq<Seq<char>>, sep: Seq<char>, x: Seq<char>)
    requires
        parts.len() > 0,
    ensures
        join_of(parts.push(x), sep) == join_of(parts, sep) + sep + x,
    decreases parts.len(),
{
    let p = parts.push(x);
    assert(p[0] == parts[0]);
    if parts.len() == 1 {
        assert(p.len() == 2);
        assert(p.drop_first() =~= seq![x]);
        assert(seq![x].len() == 1);
        assert(join_of(seq![x], sep) == seq![x][0]);
        assert(join_of(p, sep) == p[0] + sep + join_of(p.drop_first(), sep));
        assert(join_of(parts, sep) == parts[0]);
    } else {
        lemma_join_push(parts.drop_first(), sep, x);
        assert(p.drop_first() =~= parts.drop_first().push(x));
        assert(join_of(p, sep) == p[0] + sep + join_of(p.drop_first(), sep));
        assert(join_of(p.drop_first(), sep) == join_of(parts.drop_first(), sep) + sep + x);
        assert(join_of(parts, sep) == parts[0] + sep + join_of(parts.drop_first(), sep));
        assert(parts[0] + sep + (join_of(parts.drop_first(), sep) + sep + x) =~= (parts[0] + sep
            + join_of(parts.drop_first(), sep)) + sep + x);
    }
}

/// The pieces of `parts` joined with the separator `sep`.
pub fn join_chars(parts: &Vec<Vec<char>>, sep: &Vec<char>) -> (r: Vec<char>)
    ensures
        r@ == join_of(parts.deep_view(), sep@),
{
    broadcast use chars_deep_view_is_view;

    let mut r: Vec<char> = Vec::new();
    let mut i: usize = 0;
    proof {
        assert(parts.deep_view().len() == parts@.len());
        assert(parts.deep_view().take(0) =~= Seq::<Seq<char>>::empty());
        assert(r@ =~= join_of(Seq::<Seq<char>>::empty(), sep@));
    }
    while i < parts.len()
        invariant
            i <= parts@.len(),
            parts.deep_view().len() == parts@.len(),
            r@ == join_of(parts.deep_view().take(i as int), sep@),
        decreases parts@.len() - i,
    {
        let ghost pv = parts.deep_view();
        let ghost old_r = r@;
        if i > 0 {
            extend_chars(&mut r, sep);
        }
        extend_chars(&mut r, &parts[i]);
        proof {
            assert(pv[i as int] == parts@[i as int].deep_view());
            assert(pv.take(i + 1) =~= pv.take(i as int).push(pv[i as int]));
            if i == 0 {
                assert(pv.take(1).len() == 1);
                assert(join_of(pv.take(1), sep@) == pv.take(1)[0]);
                assert(pv.take(1)[0] == pv[0]);
                assert(r@ =~= Seq::<char>::empty() + pv[0]);
                assert(Seq::<char>::empty() + pv[0] =~= pv[0]);
            } else {
                lemma_join_push(pv.take(i as int), sep@, pv[i as int]);
                assert(r@ =~= (old_r + sep@) + pv[i as int]);
                assert((old_r + sep@) + pv[i as int] =~= old_r + sep@ + pv[i as int]);
            }
        }
        i = i + 1;
    }
    proof {
        assert(parts.deep_view().take(parts@.len() as int) =~= parts.deep_view());
    }
    r
}

// ---------------------------------------------------------------------------
// Words
// ---------------------------------------------------------------------------

/// Index of the first whitespace character in `s`, or `s.len()` if absent.
pub open spec fn find_space_of(s: Seq<char>) -> int
    decreases s.len(),
{
    if s.len() == 0 {
        0
    } else if is_space(s[0]) {
        0
    } else {
        1 + find_space_of(s.drop_first())
    }
}

pub proof fn lemma_find_space(s: Seq<char>)
    ensures
        0 <= find_space_of(s) <= s.len(),
        forall|j: int| 0 <= j < find_space_of(s) ==> !is_space(s[j]),
        find_space_of(s) < s.len() ==> is_space(s[find_space_of(s)]),
    decreases s.len(),
{
    if s.len() == 0 || is_space(s[0]) {
    } else {
        lemma_find_space(s.drop_first());
        assert forall|j: int| 0 <= j < find_space_of(s, ) implies !is_space(s[j]) by {
            if j > 0 {
                assert(s.drop_first()[j - 1] == s[j]);
            }
        }
        if find_space_of(s) < s.len() {
            assert(s.drop_first()[find_space_of(s.drop_first())] == s[find_space_of(s)]);
        }
    }
}

/// Pins `find_space_of` from a scan's facts.
pub proof fn lemma_find_space_is(s: Seq<char>, i: int)
    requires
        0 <= i <= s.len(),
        forall|j: int| 0 <= j < i ==> !is_space(s[j]),
        i < s.len() ==> is_space(s[i]),
    ensures
        find_space_of(s) == i,
{
    lemma_find_space(s);
    let f = find_space_of(s);
    if f < i {
        assert(is_space(s[f]));
        assert(false);
    }
    if f > i {
        assert(!is_space(s[i]));
        assert(false);
    }
}

/// The whitespace-separated words of `s`, in order.
pub open spec fn words_of(s: Seq<char>) -> Seq<Seq<char>>
    decreases s.len(),
{
    if s.len() == 0 {
        Seq::empty()
    } else if is_space(s[0]) {
        words_of(s.drop_first())
    } else {
        let e = find_space_of(s);
        if 1 <= e <= s.len() {
            seq![s.take(e)] + words_of(s.skip(e))
        } else {
            seq![s]
        }
    }
}

/// Every word is non-empty and holds no whitespace.
pub proof fn lemma_words_wf(s: Seq<char>)
    ensures
        forall|i: int| 0 <= i < words_of(s).len() ==> (#[trigger] words_of(s)[i]).len() > 0,
        forall|i: int, j: int|
            0 <= i < words_of(s).len() && 0 <= j < words_of(s)[i].len() ==> !is_space(
                #[trigger] words_of(s)[i][j],
            ),
    decreases s.len(),
{
    if s.len() == 0 {
    } else if is_space(s[0]) {
        lemma_words_wf(s.drop_first());
        assert(words_of(s) == words_of(s.drop_first()));
    } else {
        lemma_find_space(s);
        let e = find_space_of(s);
        assert(1 <= e <= s.len());
        lemma_words_wf(s.skip(e));
        let w = s.take(e);
        assert(words_of(s) == seq![w] + words_of(s.skip(e)));
        assert(w.len() > 0);
        assert forall|i: int| 0 <= i < words_of(s).len() implies (
        #[trigger] words_of(s)[i]).len() > 0 by {
            if i > 0 {
                assert(words_of(s)[i] == words_of(s.skip(e))[i - 1]);
            }
        }
        assert forall|i: int, j: int|
            0 <= i < words_of(s).len() && 0 <= j < words_of(s)[i].len() implies !is_space(
            #[trigger] words_of(s)[i][j],
        ) by {
            if i == 0 {
                assert(words_of(s)[0] == w);
                assert(w[j] == s[j]);
            } else {
                assert(words_of(s)[i] == words_of(s.skip(e))[i - 1]);
            }
        }
    }
}

/// The whitespace-separated words of `cs`, each as its own vector.
pub fn split_words(cs: &Vec<char>) -> (r: Vec<Vec<char>>)
    ensures
        r.deep_view() == words_of(cs@),
{
    broadcast use chars_deep_view_is_view;

    let n = cs.len();
    let mut r: Vec<Vec<char>> = Vec::new();
    let mut i: usize = 0;
    proof {
        assert(cs@.skip(0) =~= cs@);
        assert(r.deep_view() =~= Seq::<Seq<char>>::empty());
        assert(Seq::<Seq<char>>::empty() + words_of(cs@) =~= words_of(cs@));
    }
    while i < n
        invariant
            i <= n,
            n == cs@.len(),
            words_of(cs@) == r.deep_view() + words_of(cs@.skip(i as int)),
        decreases n - i,
    {
        if space_char(cs[i]) {
            proof {
                let t = cs@.skip(i as int);
                assert(t[0] == cs@[i as int]);
                assert(t.drop_first() =~= cs@.skip(i + 1));
            }
            i = i + 1;
        } else {
            let start = i;
            let mut j: usize = i + 1;
            while j < n && !space_char(cs[j])
                invariant
                    start < j <= n,
                    n == cs@.len(),
                    forall|k: int| start < k < j ==> !is_space(cs@[k]),
                decreases n - j,
            {
                j = j + 1;
            }
            let word = copy_range(cs, start, j);
            let ghost t = cs@.skip(start as int);
            proof {
                assert(t[0] == cs@[start as int]);
                assert forall|k: int| 0 <= k < j - start implies !is_space(t[k]) by {
                    assert(t[k] == cs@[start + k]);
                }
                if j < n {
                    assert(t[j - start] == cs@[j as int]);
                }
                lemma_find_space_is(t, j - start);
                assert(t.take(j - start) =~= cs@.subrange(start as int, j as int));
                assert(t.skip(j - start) =~= cs@.skip(j as int));
                assert(words_of(t) == seq![t.take(j - start)] + words_of(cs@.skip(j as int)));
            }
            let ghost old_r = r.deep_view();
            r.push(word);
            proof {
                assert(r.deep_view() =~~= old_r + seq![t.take(j - start)]);
                assert(old_r + (seq![t.take(j - start)] + words_of(cs@.skip(j as int))) =~= (old_r
                    + seq![t.take(j - start)]) + words_of(cs@.skip(j as int)));
            }
            i = j;
        }
    }
    proof {
        assert(cs@.skip(n as int) =~= Seq::<char>::empty());
        assert(r.deep_view() + Seq::<Seq<char>>::empty() =~= r.deep_view());
    }
    r
}

/// Joining well-formed words with single spaces and splitting again gives
/// the same words back.
pub proof fn lemma_words_join(ws: Seq<Seq<char>>)
    requires
        forall|i: int| 0 <= i < ws.len() ==> (#[trigger] ws[i]).len() > 0,
        forall|i: int, j: int|
            0 <= i < ws.len() && 0 <= j < ws[i].len() ==> !is_space(#[trigger] ws[i][j]),
    ensures
        words_of(join_of(ws, seq![' '])) == ws,
    decreases ws.len(),
{
    if ws.len() == 0 {
        assert(join_of(ws, seq![' ']) == Seq::<char>::empty());
        assert(words_of(Seq::<char>::empty()) =~= ws);
    } else if ws.len() == 1 {
        let w = ws[0];
        assert(join_of(ws, seq![' ']) == w);
        assert(w.len() > 0);
        assert(!is_space(w[0]));
        lemma_find_space_is(w, w.len() as int);
        assert(w.take(w.len() as int) =~= w);
        assert(w.skip(w.len() as int) =~= Seq::<char>::empty());
        assert(words_of(w) == seq![w.take(w.len() as int)] + words_of(w.skip(w.len() as int)));
        assert(words_of(w) =~= ws);
    } else {
        let w = ws[0];
        let d = ws.drop_first();
        let rest_j = join_of(d, seq![' ']);
        let j = join_of(ws, seq![' ']);
        assert(j == w + seq![' '] + rest_j);
        assert(w.len() > 0);
        assert forall|k: int| 0 <= k < w.len() implies !is_space(j[k]) by {
            assert(j[k] == w[k]);
        }
        assert(j[w.len() as int] == ' ');
        lemma_find_space_is(j, w.len() as int);
        assert(j.len() > 0 && !is_space(j[0]));
        assert(j.take(w.len() as int) =~= w);
        assert(words_of(j) == seq![w] + words_of(j.skip(w.len() as int)));
        assert(j.skip(w.len() as int) =~= seq![' '] + rest_j);
        assert((seq![' '] + rest_j)[0] == ' ');
        assert((seq![' '] + rest_j).drop_first() =~= rest_j);
        assert(words_of(seq![' '] + rest_j) == words_of(rest_j));
        assert forall|i: int| 0 <= i < d.len() implies (#[trigger] d[i]).len() > 0 by {
            assert(d[i] == ws[i + 1]);
        }
        assert forall|i: int, jj: int|
            0 <= i < d.len() && 0 <= jj < d[i].len() implies !is_space(#[trigger] d[i][jj]) by {
            assert(d[i] == ws[i + 1]);
            assert(ws[i + 1][jj] == d[i][jj]);
        }
        lemma_words_join(d);
        assert(words_of(j) == seq![w] + d);
        assert(seq![w] + d =~= ws);
    }
}

// ---------------------------------------------------------------------------
// Newline normalization and cleaning
// ---------------------------------------------------------------------------

/// `s` with every `\r\n` pair and every lone `\r` replaced by `\n`.
pub open spec fn normalize_of(s: Seq<char>) -> Seq<char>
    decreases s.len(),
{
    if s.len() == 0 {
        Seq::empty()
    } else if s[0] == '\r' {
        if s.len() >= 2 && s[1] == '\n' {
            seq!['\n'] + normalize_of(s.skip(2))
        } else {
            seq!['\n'] + normalize_of(s.skip(1))
        }
    } else {
        seq![s[0]] + normalize_of(s.skip(1))
    }
}

/// A copy of `cs` with line endings unified to `\n`.
pub fn normalize_newlines(cs: &Vec<char>) -> (r: Vec<char>)
    ensures
        r@ == normalize_of(cs@),
{
    let n = cs.len();
    let mut r: Vec<char> = Vec::new();
    let mut i: usize = 0;
    proof {
        assert(cs@.skip(0) =~= cs@);
        assert(r@ + normalize_of(cs@) =~= normalize_of(cs@));
    }
    while i < n
        invariant
            i <= n,
            n == cs@.len(),
            normalize_of(cs@) == r@ + normalize_of(cs@.skip(i as int)),
        decreases n - i,
    {
        let ghost t = cs@.skip(i as int);
        let ghost old_r = r@;
        proof {
            assert(t[0] == cs@[i as int]);
            if i + 1 < n {
                assert(t[1] == cs@[i + 1]);
            }
        }
        if cs[i] == '\r' {
            if i + 1 < n && cs[i + 1] == '\n' {
                r.push('\n');
                proof {
                    assert(t.len() >= 2 && t[1] == '\n');
                    assert(t.skip(2) =~= cs@.skip(i + 2));
                    assert(old_r + (seq!['\n'] + normalize_of(cs@.skip(i + 2))) =~= old_r.push(
                        '\n',
                    ) + normalize_of(cs@.skip(i + 2)));
                }
                i = i + 2;
            } else {
                r.push('\n');
                proof {
                    assert(!(t.len() >= 2 && t[1] == '\n'));
                    assert(t.skip(1) =~= cs@.skip(i + 1));
                    assert(old_r + (seq!['\n'] + normalize_of(cs@.skip(i + 1))) =~= old_r.push(
                        '\n',
                    ) + normalize_of(cs@.skip(i + 1)));
                }
                i = i + 1;
            }
        } else {
            let c = cs[i];
            r.push(c);
            proof {
                assert(t.skip(1) =~= cs@.skip(i + 1));
                assert(old_r + (seq![t[0]] + normalize_of(cs@.skip(i + 1))) =~= old_r.push(
                    cs@[i as int],
                ) + normalize_of(cs@.skip(i + 1)));
            }
            i = i + 1;
        }
    }
    proof {
        assert(cs@.skip(n as int) =~= Seq::<char>::empty());
        assert(r@ + Seq::<char>::empty() =~= r@);
    }
    r
}

/// Each line trimmed, blank lines dropped, in order.
pub open spec fn kept_lines_of(lines: Seq<Seq<char>>) -> Seq<Seq<char>>
    decreases lines.len(),
{
    if lines.len() == 0 {
        Seq::empty()
    } else {
        let rest = kept_lines_of(lines.drop_first());
        if trim_of(lines[0]).len() > 0 {
            seq![trim_of(lines[0])] + rest
        } else {
            rest
        }
    }
}

/// The lines of the cleaned text: line endings unified, each line trimmed,
/// blank lines dropped.
pub open spec fn clean_lines_of(s: Seq<char>) -> Seq<Seq<char>> {
    kept_lines_of(split_char_of(normalize_of(s), '\n'))
}

/// The cleaned text: its non-blank trimmed lines joined with `\n`.
pub open spec fn clean_of(s: Seq<char>) -> Seq<char> {
    join_of(clean_lines_of(s), seq!['\n'])
}

/// Normalizes the input for segmentation: unifies line endings, trims every
/// line, drops blank lines, and joins what is left with single newlines.
pub fn clean_text(text: &str) -> (r: String)
    ensures
        r@ == clean_of(text@),
{
    broadcast use chars_deep_view_is_view;

    let cs = chars_from_str(text);
    let normalized = normalize_newlines(&cs);
    let lines = split_char(&normalized, '\n');
    let ghost lv = lines.deep_view();
    let mut kept: Vec<Vec<char>> = Vec::new();
    let mut i: usize = 0;
    proof {
        assert(lv.skip(0) =~= lv);
        assert(kept.deep_view() =~= Seq::<Seq<char>>::empty());
        assert(Seq::<Seq<char>>::empty() + kept_lines_of(lv) =~= kept_lines_of(lv));
    }
    while i < lines.len()
        invariant
            i <= lines@.len(),
            lv == lines.deep_view(),
            lv.len() == lines@.len(),
            kept_lines_of(lv) == kept.deep_view() + kept_lines_of(lv.skip(i as int)),
        decreases lines@.len() - i,
    {
        let t = trim_chars(&lines[i]);
        proof {
            assert(lv[i as int] == lines@[i as int].deep_view());
            assert(lines@[i as int].deep_view() =~= lines@[i as int]@);
            assert(t@ == trim_of(lv[i as int]));
            assert(lv.skip(i as int)[0] == lv[i as int]);
            assert(lv.skip(i as int).drop_first() =~= lv.skip(i + 1));
        }
        let tl = t.len();
        if tl > 0 {
            let ghost old_kept = kept.deep_view();
            kept.push(t);
            proof {
                assert(kept.deep_view() =~~= old_kept.push(trim_of(lv[i as int])));
                assert(old_kept + (seq![trim_of(lv[i as int])] + kept_lines_of(lv.skip(i + 1)))
                    =~= old_kept.push(trim_of(lv[i as int])) + kept_lines_of(lv.skip(i + 1)));
            }
        }
        i = i + 1;
    }
    proof {
        assert(lv.skip(lv.len() as int) =~= Seq::<Seq<char>>::empty());
        assert(kept.deep_view() + Seq::<Seq<char>>::empty() =~= kept.deep_view());
    }
    let mut sep: Vec<char> = Vec::new();
    sep.push('\n');
    proof {
        assert(sep@ =~= seq!['\n']);
    }
    let joined = join_chars(&kept, &sep);
    string_from_chars(&joined)
}

// ---------------------------------------------------------------------------
// Decimal rendering
// ---------------------------------------------------------------------------

/// The character for one decimal digit.
pub open spec fn digit_char_of(d: int) -> char {
    if d == 0 {
        '0'
    } else if d == 1 {
        '1'
    } else if d == 2 {
        '2'
    } else if d == 3 {
        '3'
    } else if d == 4 {
        '4'
    } else if d == 5 {
        '5'
    } else if d == 6 {
        '6'
    } else if d == 7 {
        '7'
    } else if d == 8 {
        '8'
    } else {
        '9'
    }
}

/// The usual decimal rendering of a non-negative number.
pub open spec fn decimal_of(n: int) -> Seq<char>
    decreases n,
{
    if n < 10 {
        seq![digit_char_of(n)]
    } else {
        decimal_of(n / 10).push(digit_char_of(n % 10))
    }
}

fn digit_char(d: usize) -> (c: char)
    requires
        d < 10,
    ensures
        c == digit_char_of(d as int),
{
    if d == 0 {
        '0'
    } else if d == 1 {
        '1'
    } else if d == 2 {
        '2'
    } else if d == 3 {
        '3'
    } else if d == 4 {
        '4'
    } else if d == 5 {
        '5'
    } else if d == 6 {
        '6'
    } else if d == 7 {
        '7'
    } else if d == 8 {
        '8'
    } else {
        '9'
    }
}

/// The decimal rendering of `n`, used to number passages in prompts.
pub fn decimal_string(n: usize) -> (r: String)
    ensures
        r@ == decimal_of(n as int),
    decreases n,
{
    if n < 10 {
        let mut r = String::new();
        push_char(&mut r, digit_char(n));
        proof {
            assert(Seq::<char>::empty().push(digit_char_of(n as int)) =~= seq![
                digit_char_of(n as int),
            ]);
        }
        r
    } else {
        let mut r = decimal_string(n / 10);
        push_char(&mut r, digit_char(n % 10));
        r
    }
}

} // verus!
