//! Character-level text model: Unicode white space, trimming, ASCII
//! case-insensitive comparison, searching, and line splitting, each as a
//! spec function over `Seq<char>` with the executable code proved against it.
use vstd::prelude::*;

verus! {

// ---------------------------------------------------------------------------
// White space
// ---------------------------------------------------------------------------

/// The characters with the Unicode `White_Space` property.
pub open spec fn is_ws(c: char) -> bool {
    ||| ('\u{9}' <= c && c <= '\u{d}')
    ||| c == ' '
    ||| c == '\u{85}'
    ||| c == '\u{a0}'
    ||| c == '\u{1680}'
    ||| ('\u{2000}' <= c && c <= '\u{200a}')
    ||| c == '\u{2028}'
    ||| c == '\u{2029}'
    ||| c == '\u{202f}'
    ||| c == '\u{205f}'
    ||| c == '\u{3000}'
}

/// Whether `c` has the Unicode `White_Space` property.
pub fn is_whitespace(c: char) -> (b: bool)
    ensures
        b == is_ws(c),
{
    ('\u{9}' <= c && c <= '\u{d}') || c == ' ' || c == '\u{85}' || c == '\u{a0}' || c == '\u{1680}'
        || ('\u{2000}' <= c && c <= '\u{200a}') || c == '\u{2028}' || c == '\u{2029}' || c
        == '\u{202f}' || c == '\u{205f}' || c == '\u{3000}'
}

// ---------------------------------------------------------------------------
// Trimming
// ---------------------------------------------------------------------------

/// `s` without its leading white space.
pub open spec fn trim_start(s: Seq<char>) -> Seq<char>
    decreases s.len(),
{
    if s.len() > 0 && is_ws(s[0]) {
        trim_start(s.drop_first())
    } else {
        s
    }
}

/// `s` without its trailing white space.
pub open spec fn trim_end(s: Seq<char>) -> Seq<char>
    decreases s.len(),
{
    if s.len() > 0 && is_ws(s.last()) {
        trim_end(s.drop_last())
    } else {
        s
    }
}

/// `s` without its leading and trailing white space.
pub open spec fn trim(s: Seq<char>) -> Seq<char> {
    trim_end(trim_start(s))
}

/// Leading white space of length `k` is what `trim_start` removes.
pub proof fn lemma_trim_start_skip(t: Seq<char>, k: int)
    requires
        0 <= k <= t.len(),
        forall|j: int| 0 <= j < k ==> is_ws(#[trigger] t[j]),
        k == t.len() || !is_ws(t[k]),
    ensures
        trim_start(t) == t.skip(k),
    decreases k,
{
    if k == 0 {
        assert(t.skip(0) =~= t);
    } else {
        let d = t.drop_first();
        assert forall|j: int| 0 <= j < k - 1 implies is_ws(#[trigger] d[j]) by {
            assert(d[j] == t[j + 1]);
        }
        lemma_trim_start_skip(d, k - 1);
        assert(d.skip(k - 1) =~= t.skip(k));
    }
}

/// Trailing white space from index `k` on is what `trim_end` removes.
pub proof fn lemma_trim_end_take(t: Seq<char>, k: int)
    requires
        0 <= k <= t.len(),
        forall|j: int| k <= j < t.len() ==> is_ws(#[trigger] t[j]),
        k == 0 || !is_ws(t[k - 1]),
    ensures
        trim_end(t) == t.take(k),
    decreases t.len() - k,
{
    if k == t.len() {
        assert(t.take(k) =~= t);
    } else {
        let d = t.drop_last();
        lemma_trim_end_take(d, k);
        assert(d.take(k) =~= t.take(k));
    }
}

/// A sequence with no white space at either end is its own trim.
pub proof fn lemma_trim_of_trimmed(v: Seq<char>)
    requires
        v.len() == 0 || (!is_ws(v[0]) && !is_ws(v.last())),
    ensures
        trim(v) == v,
{
    lemma_trim_start_skip(v, 0);
    assert(v.skip(0) =~= v);
    lemma_trim_end_take(v, v.len() as int);
    assert(v.take(v.len() as int) =~= v);
}

/// White space around a text with no white space at its ends is what trimming
/// removes.
pub proof fn lemma_trim_around(lead: Seq<char>, core: Seq<char>, trail: Seq<char>)
    requires
        forall|j: int| 0 <= j < lead.len() ==> is_ws(#[trigger] lead[j]),
        forall|j: int| 0 <= j < trail.len() ==> is_ws(#[trigger] trail[j]),
        core.len() == 0 || (!is_ws(core[0]) && !is_ws(core.last())),
    ensures
        trim(lead + core + trail) == core,
{
    let x = lead + core + trail;
    if core.len() == 0 {
        assert forall|j: int| 0 <= j < x.len() implies is_ws(#[trigger] x[j]) by {
            if j < lead.len() {
                assert(x[j] == lead[j]);
            } else {
                assert(x[j] == trail[j - lead.len()]);
            }
        }
        lemma_trim_start_skip(x, x.len() as int);
        assert(x.skip(x.len() as int) =~= core);
        assert(trim_end(core) == core);
    } else {
        assert forall|j: int| 0 <= j < lead.len() implies is_ws(#[trigger] x[j]) by {
            assert(x[j] == lead[j]);
        }
        assert(x[lead.len() as int] == core[0]);
        lemma_trim_start_skip(x, lead.len() as int);
        let y = core + trail;
        assert(x.skip(lead.len() as int) =~= y);
        assert forall|j: int| core.len() <= j < y.len() implies is_ws(#[trigger] y[j]) by {
            assert(y[j] == trail[j - core.len()]);
        }
        assert(y[core.len() - 1] == core.last());
        lemma_trim_end_take(y, core.len() as int);
        assert(y.take(core.len() as int) =~= core);
    }
}

/// Trimming a sequence after appending a white-space character gives the
/// same result as trimming the sequence alone.
pub proof fn lemma_trim_push_ws(v: Seq<char>, c: char)
    requires
        is_ws(c),
    ensures
        trim(v.push(c)) == trim(v),
{
    lemma_trim_start_push(v, c);
    let t = trim_start(v);
    if t.len() > 0 {
        assert(t.push(c).drop_last() =~= t);
    }
}

pub proof fn lemma_trim_start_push(v: Seq<char>, c: char)
    ensures
        trim_start(v.push(c)) == (if trim_start(v).len() > 0 {
            trim_start(v).push(c)
        } else if is_ws(c) {
            Seq::<char>::empty()
        } else {
            seq![c]
        }),
    decreases v.len(),
{
    if v.len() == 0 {
        assert(v.push(c) =~= seq![c]);
        assert(seq![c].drop_first() =~= Seq::<char>::empty());
        assert(trim_start(Seq::<char>::empty()) == Seq::<char>::empty());
    } else if is_ws(v[0]) {
        assert(v.push(c)[0] == v[0]);
        assert(v.push(c).drop_first() =~= v.drop_first().push(c));
        lemma_trim_start_push(v.drop_first(), c);
    } else {
        assert(v.push(c)[0] == v[0]);
    }
}

/// The bounds `(a, b)` of `trim(cs[lo..hi])` within `cs`.
pub fn trim_range(cs: &Vec<char>, lo: usize, hi: usize) -> (r: (usize, usize))
    requires
        lo <= hi <= cs@.len(),
    ensures
        lo <= r.0 <= r.1 <= hi,
        cs@.subrange(r.0 as int, r.1 as int) == trim(cs@.subrange(lo as int, hi as int)),
        r.0 < r.1 ==> !is_ws(cs@[r.0 as int]) && !is_ws(cs@[r.1 - 1]),
        r.0 == r.1 <==> forall|j: int| lo <= j < hi ==> is_ws(#[trigger] cs@[j]),
{
    let mut a = lo;
    while a < hi && is_whitespace(cs[a])
        invariant
            lo <= a <= hi <= cs@.len(),
            forall|j: int| lo <= j < a ==> is_ws(#[trigger] cs@[j]),
        decreases hi - a,
    {
        a = a + 1;
    }
    let mut b = hi;
    while b > a && is_whitespace(cs[b - 1])
        invariant
            lo <= a <= b <= hi <= cs@.len(),
            forall|j: int| b <= j < hi ==> is_ws(#[trigger] cs@[j]),
        decreases b - a,
    {
        b = b - 1;
    }
    proof {
        if a < hi {
            assert(!is_ws(cs@[a as int]));
        }
        let t = cs@.subrange(lo as int, hi as int);
        assert forall|j: int| 0 <= j < a - lo implies is_ws(#[trigger] t[j]) by {
            assert(t[j] == cs@[lo + j]);
        }
        lemma_trim_start_skip(t, a - lo);
        let u = cs@.subrange(a as int, hi as int);
        assert(t.skip(a - lo) =~= u);
        assert forall|j: int| b - a <= j < u.len() implies is_ws(#[trigger] u[j]) by {
            assert(u[j] == cs@[a + j]);
        }
        lemma_trim_end_take(u, b - a);
        assert(u.take(b - a) =~= cs@.subrange(a as int, b as int));
    }
    (a, b)
}

// ---------------------------------------------------------------------------
// ASCII case-insensitive comparison
// ---------------------------------------------------------------------------

/// The code of `c` with ASCII upper-case letters mapped to lower case.
pub open spec fn ascii_fold(c: char) -> u32 {
    if 'A' <= c && c <= 'Z' {
        (c as u32 + 32) as u32
    } else {
        c as u32
    }
}

/// `a` and `b` are equal once ASCII letters are compared without case.
pub open spec fn eq_ignore_ascii_case(a: Seq<char>, b: Seq<char>) -> bool {
    &&& a.len() == b.len()
    &&& forall|i: int| 0 <= i < a.len() ==> ascii_fold(#[trigger] a[i]) == ascii_fold(b[i])
}

fn ascii_fold_char(c: char) -> (r: u32)
    ensures
        r == ascii_fold(c),
{
    if 'A' <= c && c <= 'Z' {
        c as u32 + 32
    } else {
        c as u32
    }
}

/// Whether `cs[lo..hi]` matches `word` without regard to ASCII case.
pub fn range_eq_ignore_ascii_case(cs: &Vec<char>, lo: usize, hi: usize, word: &Vec<char>) -> (r:
    bool)
    requires
        lo <= hi <= cs@.len(),
    ensures
        r == eq_ignore_ascii_case(cs@.subrange(lo as int, hi as int), word@),
{
    if hi - lo != word.len() {
        return false;
    }
    let ghost t = cs@.subrange(lo as int, hi as int);
    let mut i: usize = 0;
    while i < word.len()
        invariant
            lo <= hi <= cs@.len(),
            hi - lo == word@.len(),
            t == cs@.subrange(lo as int, hi as int),
            0 <= i <= word@.len(),
            forall|j: int| 0 <= j < i ==> ascii_fold(#[trigger] t[j]) == ascii_fold(word@[j]),
        decreases word@.len() - i,
    {
        if ascii_fold_char(cs[lo + i]) != ascii_fold_char(word[i]) {
            assert(t[i as int] == cs@[lo + i]);
            return false;
        }
        assert(t[i as int] == cs@[lo + i]);
        i = i + 1;
    }
    true
}

// ---------------------------------------------------------------------------
// Searching
// ---------------------------------------------------------------------------

/// The first index at or after `i` that holds `c`, or `s.len()` if none does.
pub open spec fn find_from(s: Seq<char>, c: char, i: int) -> int
    decreases s.len() - i,
{
    if i < 0 || i >= s.len() {
        s.len() as int
    } else if s[i] == c {
        i
    } else {
        find_from(s, c, i + 1)
    }
}

/// `find_from` lies between its starting point and the end.
pub proof fn lemma_find_from_bounds(s: Seq<char>, c: char, i: int)
    requires
        0 <= i <= s.len(),
    ensures
        i <= find_from(s, c, i) <= s.len(),
    decreases s.len() - i,
{
    if i < s.len() && s[i] != c {
        lemma_find_from_bounds(s, c, i + 1);
    }
}

/// Characterization of `find_from` by the positions it passes over.
pub proof fn lemma_find_from_is(s: Seq<char>, c: char, i: int, k: int)
    requires
        0 <= i <= k <= s.len(),
        forall|j: int| i <= j < k ==> #[trigger] s[j] != c,
        k == s.len() || s[k] == c,
    ensures
        find_from(s, c, i) == k,
    decreases k - i,
{
    if i < k {
        lemma_find_from_is(s, c, i + 1, k);
    }
}

/// The first index in `[from, to)` holding `c`, or `to`.
pub fn find_char(cs: &Vec<char>, c: char, from: usize, to: usize) -> (r: usize)
    requires
        from <= to <= cs@.len(),
    ensures
        from <= r <= to,
        forall|j: int| from <= j < r ==> #[trigger] cs@[j] != c,
        r < to ==> cs@[r as int] == c,
{
    let mut i = from;
    while i < to && cs[i] != c
        invariant
            from <= i <= to <= cs@.len(),
            forall|j: int| from <= j < i ==> #[trigger] cs@[j] != c,
        decreases to - i,
    {
        i = i + 1;
    }
    i
}

/// The last index holding `c`, or `-1`.
pub open spec fn last_index_of(s: Seq<char>, c: char) -> int
    decreases s.len(),
{
    if s.len() == 0 {
        -1
    } else if s.last() == c {
        s.len() - 1
    } else {
        last_index_of(s.drop_last(), c)
    }
}

/// Characterization of `last_index_of` by the positions after it.
pub proof fn lemma_last_index_of_is(s: Seq<char>, c: char, k: int)
    requires
        -1 <= k < s.len(),
        forall|j: int| k < j < s.len() ==> #[trigger] s[j] != c,
        k == -1 || s[k] == c,
    ensures
        last_index_of(s, c) == k,
    decreases s.len(),
{
    if s.len() > 0 && k < s.len() - 1 {
        let d = s.drop_last();
        assert forall|j: int| k < j < d.len() implies #[trigger] d[j] != c by {
            assert(d[j] == s[j]);
        }
        lemma_last_index_of_is(d, c, k);
    }
}

/// `last_index_of` is an index holding the character with none after it, or
/// `-1` when the character does not occur.
pub proof fn lemma_last_index_of_props(s: Seq<char>, c: char)
    ensures
        -1 <= last_index_of(s, c) < s.len(),
        last_index_of(s, c) >= 0 ==> s[last_index_of(s, c)] == c,
        forall|j: int| last_index_of(s, c) < j < s.len() ==> #[trigger] s[j] != c,
    decreases s.len(),
{
    if s.len() > 0 && s.last() != c {
        let d = s.drop_last();
        lemma_last_index_of_props(d, c);
        assert forall|j: int| last_index_of(s, c) < j < s.len() implies #[trigger] s[j] != c by {
            if j < d.len() {
                assert(s[j] == d[j]);
            }
        }
        if last_index_of(s, c) >= 0 {
            assert(s[last_index_of(s, c)] == d[last_index_of(d, c)]);
        }
    }
}

/// The last index of `c` in `cs`, if any.
pub fn find_last_char(cs: &Vec<char>, c: char) -> (r: Option<usize>)
    ensures
        match r {
            Some(k) => k == last_index_of(cs@, c) && k < cs@.len(),
            None => last_index_of(cs@, c) == -1,
        },
{
    let mut i = cs.len();
    while i > 0 && cs[i - 1] != c
        invariant
            i <= cs@.len(),
            forall|j: int| i <= j < cs@.len() ==> #[trigger] cs@[j] != c,
        decreases i,
    {
        i = i - 1;
    }
    proof {
        lemma_last_index_of_is(cs@, c, i - 1);
    }
    if i == 0 {
        None
    } else {
        Some(i - 1)
    }
}

// ---------------------------------------------------------------------------
// Characters of a string
// ---------------------------------------------------------------------------

/// The characters of `s`, in order.
pub fn chars_of(s: &str) -> (v: Vec<char>)
    ensures
        v@ == s@,
{
    let mut v: Vec<char> = Vec::new();
    for c in it: s.chars()
        invariant
            v@ == it.seq().take(it.index() as int),
    {
        v.push(c);
    }
    v
}

/// A copy of `cs[lo..hi]`.
pub fn copy_range(cs: &Vec<char>, lo: usize, hi: usize) -> (v: Vec<char>)
    requires
        lo <= hi <= cs@.len(),
    ensures
        v@ == cs@.subrange(lo as int, hi as int),
{
    let mut v: Vec<char> = Vec::new();
    let mut i = lo;
    while i < hi
        invariant
            lo <= i <= hi <= cs@.len(),
            v@ == cs@.subrange(lo as int, i as int),
        decreases hi - i,
    {
        v.push(cs[i]);
        i = i + 1;
        assert(v@ =~= cs@.subrange(lo as int, i as int));
    }
    v
}

// ---------------------------------------------------------------------------
// Lines
// ---------------------------------------------------------------------------

/// A line that ended in `\r\n` loses its `\r`.
pub open spec fn strip_cr(l: Seq<char>) -> Seq<char> {
    if l.len() > 0 && l.last() == '\r' {
        l.drop_last()
    } else {
        l
    }
}

/// The lines of `s` that start at or after index `i`: text is split at each
/// `\n`, a `\r` right before a `\n` is dropped, and a final line ending adds
/// no empty line.
pub open spec fn lines_from(s: Seq<char>, i: int) -> Seq<Seq<char>>
    decreases s.len() - i,
{
    if i < 0 || i >= s.len() {
        Seq::empty()
    } else {
        let e = find_from(s, '\n', i);
        if e < s.len() {
            proof {
                lemma_find_from_bounds(s, '\n', i);
            }
            seq![strip_cr(s.subrange(i, e))] + lines_from(s, e + 1)
        } else {
            seq![s.subrange(i, s.len() as int)]
        }
    }
}

/// The lines of `s`.
pub open spec fn lines(s: Seq<char>) -> Seq<Seq<char>> {
    lines_from(s, 0)
}

/// `s` split at the first `c`, if it holds one.
pub open spec fn split_once(s: Seq<char>, c: char) -> Option<(Seq<char>, Seq<char>)> {
    let q = find_from(s, c, 0);
    if q < s.len() {
        Some((s.take(q), s.skip(q + 1)))
    } else {
        None
    }
}

// ---------------------------------------------------------------------------
// Words
// ---------------------------------------------------------------------------

/// The first white-space index at or after `i`, or `s.len()`.
pub open spec fn word_end(s: Seq<char>, i: int) -> int
    decreases s.len() - i,
{
    if i < 0 || i >= s.len() {
        s.len() as int
    } else if is_ws(s[i]) {
        i
    } else {
        word_end(s, i + 1)
    }
}

pub proof fn lemma_word_end_bounds(s: Seq<char>, i: int)
    requires
        0 <= i <= s.len(),
    ensures
        i <= word_end(s, i) <= s.len(),
    decreases s.len() - i,
{
    if i < s.len() && !is_ws(s[i]) {
        lemma_word_end_bounds(s, i + 1);
    }
}

pub proof fn lemma_word_end_is(s: Seq<char>, i: int, k: int)
    requires
        0 <= i <= k <= s.len(),
        forall|j: int| i <= j < k ==> !is_ws(#[trigger] s[j]),
        k == s.len() || is_ws(s[k]),
    ensures
        word_end(s, i) == k,
    decreases k - i,
{
    if i < k {
        lemma_word_end_is(s, i + 1, k);
    }
}

/// The maximal runs of non-white-space characters of `s` from index `i` on.
pub open spec fn words_from(s: Seq<char>, i: int) -> Seq<Seq<char>>
    decreases s.len() - i,
{
    if i < 0 || i >= s.len() {
        Seq::empty()
    } else if is_ws(s[i]) {
        words_from(s, i + 1)
    } else {
        let e = word_end(s, i + 1);
        proof {
            lemma_word_end_bounds(s, i + 1);
        }
        seq![s.subrange(i, e)] + words_from(s, e)
    }
}

/// The maximal runs of non-white-space characters of `s`.
pub open spec fn split_whitespace(s: Seq<char>) -> Seq<Seq<char>> {
    words_from(s, 0)
}

/// A non-empty run of characters none of which is white space.
pub open spec fn is_word(w: Seq<char>) -> bool {
    &&& w.len() > 0
    &&& forall|j: int| 0 <= j < w.len() ==> !is_ws(#[trigger] w[j])
}

/// Positions before `word_end` are not white space.
pub proof fn lemma_word_end_not_ws(s: Seq<char>, i: int, j: int)
    requires
        0 <= i <= j < word_end(s, i),
    ensures
        !is_ws(s[j]),
    decreases j - i,
{
    if i < j {
        lemma_word_end_not_ws(s, i + 1, j);
    }
}

/// Every run that `words_from` yields is a word.
pub proof fn lemma_words_from_are_words(s: Seq<char>, i: int)
    requires
        0 <= i,
    ensures
        forall|k: int| 0 <= k < words_from(s, i).len() ==> #[trigger] is_word(words_from(s, i)[k]),
    decreases s.len() - i,
{
    if i < s.len() {
        if is_ws(s[i]) {
            lemma_words_from_are_words(s, i + 1);
            assert(words_from(s, i) == words_from(s, i + 1));
        } else {
            let e = word_end(s, i + 1);
            lemma_word_end_bounds(s, i + 1);
            lemma_words_from_are_words(s, e);
            let w = s.subrange(i, e);
            assert forall|j: int| 0 <= j < w.len() implies !is_ws(#[trigger] w[j]) by {
                assert(w[j] == s[i + j]);
                if j > 0 {
                    lemma_word_end_not_ws(s, i + 1, i + j);
                }
            }
            let ws = seq![w] + words_from(s, e);
            assert(words_from(s, i) == ws);
            assert(is_word(w));
            assert forall|k: int| 0 <= k < ws.len() implies #[trigger] is_word(ws[k]) by {
                if k > 0 {
                    assert(ws[k] == words_from(s, e)[k - 1]);
                }
            }
        }
    }
}

proof fn lemma_words_from_skip_ws(s: Seq<char>, i: int, k: int)
    requires
        0 <= i <= k <= s.len(),
        forall|j: int| i <= j < k ==> is_ws(#[trigger] s[j]),
    ensures
        words_from(s, i) == words_from(s, k),
    decreases k - i,
{
    if i < k {
        lemma_words_from_skip_ws(s, i + 1, k);
    }
}

proof fn lemma_word_end_shift(pre: Seq<char>, r: Seq<char>, j: int)
    requires
        0 <= j <= r.len(),
    ensures
        word_end(pre + r, pre.len() + j) == pre.len() + word_end(r, j),
    decreases r.len() - j,
{
    let x = pre + r;
    if j < r.len() {
        assert(x[pre.len() + j] == r[j]);
        if !is_ws(r[j]) {
            lemma_word_end_shift(pre, r, j + 1);
        }
    }
}

proof fn lemma_words_shift(pre: Seq<char>, r: Seq<char>, i: int)
    requires
        0 <= i,
    ensures
        words_from(pre + r, pre.len() + i) == words_from(r, i),
    decreases r.len() - i,
{
    let x = pre + r;
    let p = pre.len() as int;
    if i < r.len() {
        assert(x[p + i] == r[i]);
        if is_ws(r[i]) {
            lemma_words_shift(pre, r, i + 1);
        } else {
            lemma_word_end_shift(pre, r, i + 1);
            lemma_word_end_bounds(r, i + 1);
            let e = word_end(r, i + 1);
            assert(x.subrange(p + i, p + e) =~= r.subrange(i, e));
            lemma_words_shift(pre, r, e);
        }
    }
}

/// Text of white space alone holds no words.
pub proof fn law_split_blank(sep: Seq<char>)
    requires
        forall|j: int| 0 <= j < sep.len() ==> is_ws(#[trigger] sep[j]),
    ensures
        split_whitespace(sep) == Seq::<Seq<char>>::empty(),
{
    lemma_words_from_skip_ws(sep, 0, sep.len() as int);
}

/// Leading white space does not change the words.
pub proof fn law_split_leading_ws(sep: Seq<char>, rest: Seq<char>)
    requires
        forall|j: int| 0 <= j < sep.len() ==> is_ws(#[trigger] sep[j]),
    ensures
        split_whitespace(sep + rest) == split_whitespace(rest),
{
    let x = sep + rest;
    assert forall|j: int| 0 <= j < sep.len() implies is_ws(#[trigger] x[j]) by {
        assert(x[j] == sep[j]);
    }
    lemma_words_from_skip_ws(x, 0, sep.len() as int);
    lemma_words_shift(sep, rest, 0);
}

/// A word followed by white space is the first word, and the rest of the
/// text gives the others.
pub proof fn law_split_word(w: Seq<char>, sep: Seq<char>, rest: Seq<char>)
    requires
        is_word(w),
        sep.len() > 0,
        forall|j: int| 0 <= j < sep.len() ==> is_ws(#[trigger] sep[j]),
    ensures
        split_whitespace(w + sep + rest) == seq![w] + split_whitespace(rest),
{
    let y = sep + rest;
    let x = w + sep + rest;
    assert(x =~= w + y);
    assert forall|j: int| 1 <= j < w.len() implies !is_ws(#[trigger] x[j]) by {
        assert(x[j] == w[j]);
    }
    assert(x[w.len() as int] == sep[0]);
    assert(x[0] == w[0]);
    lemma_word_end_is(x, 1, w.len() as int);
    assert(x.subrange(0, w.len() as int) =~= w);
    lemma_words_shift(w, y, 0);
    law_split_leading_ws(sep, rest);
}

/// A single word is its own only word.
pub proof fn law_split_single_word(w: Seq<char>)
    requires
        is_word(w),
    ensures
        split_whitespace(w) == seq![w],
{
    assert forall|j: int| 1 <= j < w.len() implies !is_ws(#[trigger] w[j]) by {}
    lemma_word_end_is(w, 1, w.len() as int);
    assert(w.subrange(0, w.len() as int) =~= w);
    assert(!is_ws(w[0]));
    assert(words_from(w, w.len() as int) == Seq::<Seq<char>>::empty());
    assert(words_from(w, 0) == seq![w] + words_from(w, w.len() as int));
    assert(seq![w] + Seq::<Seq<char>>::empty() =~= seq![w]);
}

/// The end of the word that starts at `from` in `cs`.
pub fn find_word_end(cs: &Vec<char>, from: usize) -> (r: usize)
    requires
        from <= cs@.len(),
    ensures
        r == word_end(cs@, from as int),
        from <= r <= cs@.len(),
{
    let mut i = from;
    while i < cs.len() && !is_whitespace(cs[i])
        invariant
            from <= i <= cs@.len(),
            forall|j: int| from <= j < i ==> !is_ws(#[trigger] cs@[j]),
        decreases cs@.len() - i,
    {
        i = i + 1;
    }
    proof {
        lemma_word_end_is(cs@, from as int, i as int);
    }
    i
}

} // verus!
