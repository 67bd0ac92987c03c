//! Reading the URL out of a `.url` (INI) shortcut and rendering the Markdown
//! that replaces it.
use vstd::prelude::*;

use crate::text::{
    ascii_fold, chars_of, eq_ignore_ascii_case, find_char, find_from, is_ws, lemma_find_from_bounds,
    lemma_find_from_is, lemma_trim_push_ws, lines, lines_from, range_eq_ignore_ascii_case,
    split_once, strip_cr, trim, trim_range,
};

verus! {

/// The key whose value a shortcut's link is taken from.
pub open spec fn url_key() -> Seq<char> {
    seq!['U', 'R', 'L']
}

/// The trimmed value of a line whose trimmed key (the text before its first
/// `=`) is `URL` in any ASCII case; `None` for any other line.
pub open spec fn url_value_of_line(l: Seq<char>) -> Option<Seq<char>> {
    match split_once(l, '=') {
        Some((k, v)) => if eq_ignore_ascii_case(trim(k), url_key()) {
            Some(trim(v))
        } else {
            None
        },
        None => None,
    }
}

/// The value of the first `URL` line among `ls`, if there is one.
pub open spec fn first_url_value(ls: Seq<Seq<char>>) -> Option<Seq<char>>
    decreases ls.len(),
{
    if ls.len() == 0 {
        None
    } else {
        match url_value_of_line(ls[0]) {
            Some(v) => Some(v),
            None => first_url_value(ls.drop_first()),
        }
    }
}

/// The URL of a shortcut: the value of its first `URL` line, unless that
/// value is empty.
pub open spec fn shortcut_url(content: Seq<char>) -> Option<Seq<char>> {
    match first_url_value(lines(content)) {
        Some(v) => if v.len() > 0 {
            Some(v)
        } else {
            None
        },
        None => None,
    }
}

/// The Markdown inline link `[stem](url)` followed by a newline.
pub open spec fn markdown_link(stem: Seq<char>, url: Seq<char>) -> Seq<char> {
    seq!['['] + stem + seq![']', '('] + url + seq![')', '\n']
}

/// The Markdown written for a shortcut with the given content and file stem:
/// the link when the shortcut has a URL and the stem is not empty, else the
/// trimmed content followed by one newline.
pub open spec fn shortcut_body(content: Seq<char>, stem: Seq<char>) -> Seq<char> {
    match shortcut_url(content) {
        Some(u) => if stem.len() > 0 {
            markdown_link(stem, u)
        } else {
            trim(content).push('\n')
        },
        None => trim(content).push('\n'),
    }
}

/// Extracts the URL from `.url` (INI) content: the trimmed value of the
/// first line whose trimmed key is `URL` (in any ASCII case), or `None` when
/// that value is empty or no such line exists. The scan stops at the first
/// `URL` line, so an empty one is not passed over for a later one.
pub fn extract_url<'a>(content: &'a str) -> (r: Option<&'a str>)
    ensures
        match r {
            Some(u) => shortcut_url(content@) == Some(u@),
            None => shortcut_url(content@) is None,
        },
        r matches Some(u) ==> u@.len() > 0 && !is_ws(u@[0]) && !is_ws(u@.last()),
{
    let cs = chars_of(content);
    let n = cs.len();
    let key = vec!['U', 'R', 'L'];
    let ghost s = cs@;
    let mut pos: usize = 0;
    while pos < n
        invariant
            n == cs@.len(),
            s == cs@,
            s == content@,
            key@ == url_key(),
            pos <= n,
            first_url_value(lines_from(s, pos as int)) == first_url_value(lines(s)),
        decreases n - pos,
    {
        let e = find_char(&cs, '\n', pos, n);
        proof {
            lemma_find_from_is(s, '\n', pos as int, e as int);
        }
        let lend = if e < n && e > pos && cs[e - 1] == '\r' {
            e - 1
        } else {
            e
        };
        let ghost line = s.subrange(pos as int, lend as int);
        let ghost rest = if e < n {
            lines_from(s, e + 1)
        } else {
            Seq::<Seq<char>>::empty()
        };
        proof {
            if e < n {
                assert(strip_cr(s.subrange(pos as int, e as int)) =~= line);
            }
            assert(lines_from(s, pos as int) == seq![line] + rest);
            assert((seq![line] + rest).drop_first() =~= rest);
            assert((seq![line] + rest)[0] == line);
        }
        let q = find_char(&cs, '=', pos, lend);
        proof {
            assert forall|j: int| 0 <= j < q - pos implies #[trigger] line[j] != '=' by {
                assert(line[j] == s[pos + j]);
            }
            if q < lend {
                assert(line[q - pos] == s[q as int]);
            }
            lemma_find_from_is(line, '=', 0, q - pos);
        }
        if q < lend {
            let (ka, kb) = trim_range(&cs, pos, q);
            proof {
                assert(line.take(q - pos) =~= s.subrange(pos as int, q as int));
                assert(line.skip(q - pos + 1) =~= s.subrange(q + 1, lend as int));
            }
            if range_eq_ignore_ascii_case(&cs, ka, kb, &key) {
                let (va, vb) = trim_range(&cs, q + 1, lend);
                if va == vb {
                    return None;
                } else {
                    return Some(content.substring_char(va, vb));
                }
            }
        }
        if e < n {
            pos = e + 1;
        } else {
            pos = n;
        }
    }
    None
}

/// Renders the Markdown for a converted `.url` file: `[stem](url)` and a
/// newline.
pub fn to_markdown(stem: &str, url: &str) -> (r: String)
    ensures
        r@ == markdown_link(stem@, url@),
        r@.len() == stem@.len() as int + url@.len() + 5,
        r@[0] == '[',
        r@.subrange(1, stem@.len() as int + 1) == stem@,
        r@[stem@.len() as int + 1] == ']',
        r@[stem@.len() as int + 2] == '(',
        r@.subrange(stem@.len() as int + 3, stem@.len() as int + 3 + url@.len()) == url@,
        r@[r@.len() - 2] == ')',
        r@[r@.len() - 1] == '\n',
{
    let mut r = String::new();
    r.append("[");
    r.append(stem);
    r.append("](");
    r.append(url);
    r.append(")\n");
    proof {
        reveal_strlit("[");
        reveal_strlit("](");
        reveal_strlit(")\n");
        law_link_parts(stem@, url@);
    }
    r
}

/// The text to write for a shortcut with the given content and file stem,
/// or `None` when the content is empty or only white space (such a file is
/// skipped).
pub fn render_body(content: &str, stem: &str) -> (r: Option<String>)
    ensures
        r is None <==> trim(content@).len() == 0,
        r is None <==> forall|j: int| 0 <= j < content@.len() ==> is_ws(#[trigger] content@[j]),
        r matches Some(b) ==> b@ == shortcut_body(content@, stem@),
        r matches Some(b) ==> b@.len() > 0 && b@.last() == '\n',
{
    let cs = chars_of(content);
    let (a, b) = trim_range(&cs, 0, cs.len());
    assert(cs@.subrange(0, cs@.len() as int) =~= content@);
    if a == b {
        return None;
    }
    let body = match extract_url(content) {
        Some(url) => {
            if !stem.is_empty() {
                to_markdown(stem, url)
            } else {
                raw_body(content, a, b)
            }
        },
        None => raw_body(content, a, b),
    };
    Some(body)
}

/// The text `content[a..b]` followed by one newline.
fn raw_body(content: &str, a: usize, b: usize) -> (r: String)
    requires
        a <= b <= content@.len(),
    ensures
        r@ == content@.subrange(a as int, b as int).push('\n'),
{
    let t = content.substring_char(a, b);
    let mut r = String::from_str(t);
    r.append("\n");
    proof {
        reveal_strlit("\n");
        assert(r@ =~= content@.subrange(a as int, b as int).push('\n'));
    }
    r
}

// ---------------------------------------------------------------------------
// Laws
// ---------------------------------------------------------------------------

/// Dropping the `\r` of a `\r\n` line ending never changes whether a line is
/// a `URL` line, nor its value.
pub proof fn lemma_strip_cr_url_value(l: Seq<char>)
    ensures
        url_value_of_line(strip_cr(l)) == url_value_of_line(l),
{
    if l.len() > 0 && l.last() == '\r' {
        let m = l.drop_last();
        lemma_find_from_bounds(m, '=', 0);
        let q = find_from(m, '=', 0);
        assert forall|j: int| 0 <= j < q implies #[trigger] l[j] != '=' by {
            lemma_find_from_not_before(m, '=', 0, j);
            assert(l[j] == m[j]);
        }
        if q < m.len() {
            lemma_find_from_hit(m, '=', 0);
            assert(l[q] == m[q]);
            lemma_find_from_is(l, '=', 0, q);
            assert(l.take(q) =~= m.take(q));
            assert(l.skip(q + 1) =~= m.skip(q + 1).push('\r'));
            lemma_trim_push_ws(m.skip(q + 1), '\r');
        } else {
            lemma_find_from_is(l, '=', 0, l.len() as int);
        }
    }
}

/// Positions passed over by `find_from` do not hold the character.
pub proof fn lemma_find_from_not_before(s: Seq<char>, c: char, i: int, j: int)
    requires
        0 <= i <= j < find_from(s, c, i),
    ensures
        s[j] != c,
    decreases j - i,
{
    if i < j {
        lemma_find_from_not_before(s, c, i + 1, j);
    }
}

/// A position found by `find_from` holds the character.
pub proof fn lemma_find_from_hit(s: Seq<char>, c: char, i: int)
    requires
        0 <= i,
        find_from(s, c, i) < s.len(),
    ensures
        s[find_from(s, c, i)] == c,
    decreases s.len() - i,
{
    if s[i] != c {
        lemma_find_from_hit(s, c, i + 1);
    }
}

/// The lines after a first line that ends in `\n`.
proof fn lemma_lines_after_first(line: Seq<char>, rest: Seq<char>)
    requires
        forall|j: int| 0 <= j < line.len() ==> #[trigger] line[j] != '\n',
    ensures
        lines(line + seq!['\n'] + rest) == seq![strip_cr(line)] + lines(rest),
{
    let s = line + seq!['\n'] + rest;
    let p = line.len() as int;
    assert forall|j: int| 0 <= j < p implies #[trigger] s[j] != '\n' by {
        assert(s[j] == line[j]);
    }
    assert(s[p] == '\n');
    lemma_find_from_is(s, '\n', 0, p);
    assert(s.subrange(0, p) =~= line);
    lemma_lines_shift(line + seq!['\n'], rest, 0);
}

/// Lines of a suffix are the same whatever precedes it.
proof fn lemma_lines_shift(pre: Seq<char>, r: Seq<char>, i: int)
    requires
        0 <= i,
    ensures
        lines_from(pre + r, pre.len() + i) == lines_from(r, i),
    decreases r.len() - i,
{
    let s = pre + r;
    let p = pre.len() as int;
    if i < r.len() {
        lemma_find_from_bounds(r, '\n', i);
        let e = find_from(r, '\n', i);
        assert forall|j: int| p + i <= j < p + e implies #[trigger] s[j] != '\n' by {
            lemma_find_from_not_before(r, '\n', i, j - p);
            assert(s[j] == r[j - p]);
        }
        if e < r.len() {
            lemma_find_from_hit(r, '\n', i);
            assert(s[p + e] == r[e]);
        }
        lemma_find_from_is(s, '\n', p + i, p + e);
        assert(s.subrange(p + i, p + e) =~= r.subrange(i, e));
        if e < r.len() {
            lemma_lines_shift(pre, r, e + 1);
        } else {
            assert(s.subrange(p + i, s.len() as int) =~= r.subrange(i, r.len() as int));
        }
    }
}

/// First key wins: once a line's key is `URL`, that line alone decides the
/// result, whatever lines follow it; an empty value gives no URL rather than
/// a later `URL` line's value.
pub proof fn law_first_url_key_wins(line: Seq<char>, rest: Seq<char>)
    requires
        forall|j: int| 0 <= j < line.len() ==> #[trigger] line[j] != '\n',
        url_value_of_line(line) is Some,
    ensures
        shortcut_url(line + seq!['\n'] + rest) == (if url_value_of_line(line)->0.len() > 0 {
            url_value_of_line(line)
        } else {
            None
        }),
{
    lemma_lines_after_first(line, rest);
    lemma_strip_cr_url_value(line);
    let ls = seq![strip_cr(line)] + lines(rest);
    assert(ls[0] == strip_cr(line));
}

/// A line that is not a `URL` line (no `=`, or another key) is passed over:
/// the result is that of the lines after it.
pub proof fn law_other_lines_skipped(line: Seq<char>, rest: Seq<char>)
    requires
        forall|j: int| 0 <= j < line.len() ==> #[trigger] line[j] != '\n',
        url_value_of_line(line) is None,
    ensures
        shortcut_url(line + seq!['\n'] + rest) == shortcut_url(rest),
{
    lemma_lines_after_first(line, rest);
    lemma_strip_cr_url_value(line);
    let ls = seq![strip_cr(line)] + lines(rest);
    assert(ls[0] == strip_cr(line));
    assert(ls.drop_first() =~= lines(rest));
}

/// A link holds its stem and its URL character for character: `[`, the
/// stem, `](`, the URL, `)` and a newline, and nothing else.
pub proof fn law_link_parts(stem: Seq<char>, url: Seq<char>)
    ensures
        ({
            let m = markdown_link(stem, url);
            &&& m.len() == stem.len() as int + url.len() + 5
            &&& m[0] == '['
            &&& m.subrange(1, stem.len() as int + 1) == stem
            &&& m[stem.len() as int + 1] == ']'
            &&& m[stem.len() as int + 2] == '('
            &&& m.subrange(stem.len() as int + 3, stem.len() as int + 3 + url.len()) == url
            &&& m[m.len() - 2] == ')'
            &&& m[m.len() - 1] == '\n'
        }),
{
    let m = markdown_link(stem, url);
    assert(m.subrange(1, stem.len() as int + 1) =~= stem);
    assert(m.subrange(stem.len() as int + 3, stem.len() as int + 3 + url.len()) =~= url);
}

/// The line `URL=` followed by a value with no white space at its ends, no
/// line break and at least one character gives exactly that value, every
/// character kept, whether or not more lines follow.
pub proof fn law_url_line_gives_its_value(v: Seq<char>, rest: Seq<char>)
    requires
        v.len() > 0,
        !is_ws(v[0]),
        !is_ws(v.last()),
        forall|j: int| 0 <= j < v.len() ==> #[trigger] v[j] != '\n',
    ensures
        shortcut_url(seq!['U', 'R', 'L', '='] + v) == Some(v),
        shortcut_url(seq!['U', 'R', 'L', '='] + v + seq!['\n'] + rest) == Some(v),
{
    let line = seq!['U', 'R', 'L', '='] + v;
    assert forall|j: int| 0 <= j < 3 implies #[trigger] line[j] != '=' by {}
    assert(line[3] == '=');
    lemma_find_from_is(line, '=', 0, 3);
    assert(line.take(3) =~= url_key());
    assert(line.skip(4) =~= v);
    crate::text::lemma_trim_of_trimmed(url_key());
    crate::text::lemma_trim_of_trimmed(v);
    assert(url_value_of_line(line) == Some(v));
    assert forall|j: int| 0 <= j < line.len() implies #[trigger] line[j] != '\n' by {
        if j >= 4 {
            assert(line[j] == v[j - 4]);
        }
    }
    law_first_url_key_wins(line, rest);
    lemma_find_from_is(line, '\n', 0, line.len() as int);
    assert(line.subrange(0, line.len() as int) =~= line);
    let ls = lines(line);
    assert(ls =~= seq![line]);
    assert(ls[0] == line);
}

/// `k` spells `URL` in some mix of ASCII cases.
pub open spec fn spells_url(k: Seq<char>) -> bool {
    &&& k.len() == 3
    &&& (k[0] == 'u' || k[0] == 'U')
    &&& (k[1] == 'r' || k[1] == 'R')
    &&& (k[2] == 'l' || k[2] == 'L')
}

/// White space that does not end a line.
pub open spec fn is_blank(s: Seq<char>) -> bool {
    forall|j: int| 0 <= j < s.len() ==> is_ws(#[trigger] s[j]) && s[j] != '\n'
}

/// No line break in `s`.
pub open spec fn one_line(s: Seq<char>) -> bool {
    forall|j: int| 0 <= j < s.len() ==> #[trigger] s[j] != '\n'
}

/// The line `key=value`, with blanks around the key and the value.
pub open spec fn key_value_line(
    lead1: Seq<char>,
    key: Seq<char>,
    trail1: Seq<char>,
    lead2: Seq<char>,
    value: Seq<char>,
    trail2: Seq<char>,
) -> Seq<char> {
    lead1 + key + trail1 + seq!['='] + lead2 + value + trail2
}

proof fn lemma_key_value_line_split(
    lead1: Seq<char>,
    key: Seq<char>,
    trail1: Seq<char>,
    lead2: Seq<char>,
    value: Seq<char>,
    trail2: Seq<char>,
)
    requires
        is_blank(lead1),
        is_blank(trail1),
        is_blank(lead2),
        is_blank(trail2),
        forall|j: int| 0 <= j < key.len() ==> #[trigger] key[j] != '=',
        key.len() == 0 || (!is_ws(key[0]) && !is_ws(key.last())),
        value.len() == 0 || (!is_ws(value[0]) && !is_ws(value.last())),
    ensures
        split_once(key_value_line(lead1, key, trail1, lead2, value, trail2), '=') == Some(
            (lead1 + key + trail1, lead2 + value + trail2),
        ),
        trim(lead1 + key + trail1) == key,
        trim(lead2 + value + trail2) == value,
{
    let kp = lead1 + key + trail1;
    let vp = lead2 + value + trail2;
    let line = key_value_line(lead1, key, trail1, lead2, value, trail2);
    assert(line =~= kp + seq!['='] + vp);
    assert(!is_ws('='));
    assert forall|j: int| 0 <= j < kp.len() implies #[trigger] line[j] != '=' by {
        assert(line[j] == kp[j]);
        if j < lead1.len() {
            assert(kp[j] == lead1[j]);
        } else if j < lead1.len() + key.len() {
            assert(kp[j] == key[j - lead1.len()]);
        } else {
            assert(kp[j] == trail1[j - lead1.len() - key.len()]);
        }
    }
    assert(line[kp.len() as int] == '=');
    lemma_find_from_is(line, '=', 0, kp.len() as int);
    assert(line.take(kp.len() as int) =~= kp);
    assert(line.skip(kp.len() as int + 1) =~= vp);
    crate::text::lemma_trim_around(lead1, key, trail1);
    crate::text::lemma_trim_around(lead2, value, trail2);
}

/// A line whose key spells `URL` in any ASCII case, with any blanks around
/// the key and the value, gives exactly its value: every character of a
/// value with no white space at its ends is kept, `=`, `#` and `?`
/// included, whether or not more lines follow.
pub proof fn law_url_key_any_case_gives_value(
    lead1: Seq<char>,
    key: Seq<char>,
    trail1: Seq<char>,
    lead2: Seq<char>,
    v: Seq<char>,
    trail2: Seq<char>,
    rest: Seq<char>,
)
    requires
        is_blank(lead1),
        is_blank(trail1),
        is_blank(lead2),
        is_blank(trail2),
        spells_url(key),
        v.len() > 0,
        !is_ws(v[0]),
        !is_ws(v.last()),
        one_line(v),
    ensures
        shortcut_url(key_value_line(lead1, key, trail1, lead2, v, trail2)) == Some(v),
        shortcut_url(key_value_line(lead1, key, trail1, lead2, v, trail2) + seq!['\n'] + rest)
            == Some(v),
{
    let line = key_value_line(lead1, key, trail1, lead2, v, trail2);
    lemma_key_value_line_split(lead1, key, trail1, lead2, v, trail2);
    assert(eq_ignore_ascii_case(key, url_key()));
    assert(url_value_of_line(line) == Some(v));
    lemma_one_line_parts(lead1, key, trail1, lead2, v, trail2);
    law_first_url_key_wins(line, rest);
    lemma_lines_of_one_line(line);
}

proof fn lemma_one_line_parts(
    lead1: Seq<char>,
    key: Seq<char>,
    trail1: Seq<char>,
    lead2: Seq<char>,
    value: Seq<char>,
    trail2: Seq<char>,
)
    requires
        is_blank(lead1),
        is_blank(trail1),
        is_blank(lead2),
        is_blank(trail2),
        one_line(key),
        one_line(value),
    ensures
        one_line(key_value_line(lead1, key, trail1, lead2, value, trail2)),
{
    let line = key_value_line(lead1, key, trail1, lead2, value, trail2);
    let a = lead1.len() as int;
    let b = a + key.len();
    let c = b + trail1.len();
    let d = c + 1;
    let e = d + lead2.len();
    let f = e + value.len();
    assert forall|j: int| 0 <= j < line.len() implies #[trigger] line[j] != '\n' by {
        if j < a {
            assert(line[j] == lead1[j]);
        } else if j < b {
            assert(line[j] == key[j - a]);
        } else if j < c {
            assert(line[j] == trail1[j - b]);
        } else if j < d {
            assert(line[j] == '=');
        } else if j < e {
            assert(line[j] == lead2[j - d]);
        } else if j < f {
            assert(line[j] == value[j - e]);
        } else {
            assert(line[j] == trail2[j - f]);
        }
    }
}

proof fn lemma_lines_of_one_line(line: Seq<char>)
    requires
        one_line(line),
    ensures
        line.len() > 0 ==> lines(line) == seq![line],
        line.len() == 0 ==> lines(line) == Seq::<Seq<char>>::empty(),
{
    if line.len() > 0 {
        lemma_find_from_is(line, '\n', 0, line.len() as int);
        assert(line.subrange(0, line.len() as int) =~= line);
    }
}

/// A line whose key does not spell `URL` (in any case) is passed over,
/// whatever its value: the result is that of the lines after it.
pub proof fn law_other_key_skipped(
    lead1: Seq<char>,
    key: Seq<char>,
    trail1: Seq<char>,
    lead2: Seq<char>,
    value: Seq<char>,
    trail2: Seq<char>,
    rest: Seq<char>,
)
    requires
        is_blank(lead1),
        is_blank(trail1),
        is_blank(lead2),
        is_blank(trail2),
        forall|j: int| 0 <= j < key.len() ==> #[trigger] key[j] != '=',
        one_line(key),
        one_line(value),
        key.len() == 0 || (!is_ws(key[0]) && !is_ws(key.last())),
        value.len() == 0 || (!is_ws(value[0]) && !is_ws(value.last())),
        !spells_url(key),
    ensures
        shortcut_url(key_value_line(lead1, key, trail1, lead2, value, trail2) + seq!['\n'] + rest)
            == shortcut_url(rest),
{
    let line = key_value_line(lead1, key, trail1, lead2, value, trail2);
    lemma_key_value_line_split(lead1, key, trail1, lead2, value, trail2);
    if eq_ignore_ascii_case(key, url_key()) {
        lemma_fold_is(key[0], 'u', 'U');
        lemma_fold_is(key[1], 'r', 'R');
        lemma_fold_is(key[2], 'l', 'L');
        assert(ascii_fold(key[0]) == ascii_fold(url_key()[0]));
        assert(ascii_fold(key[1]) == ascii_fold(url_key()[1]));
        assert(ascii_fold(key[2]) == ascii_fold(url_key()[2]));
        assert(false);
    }
    assert(url_value_of_line(line) is None);
    lemma_one_line_parts(lead1, key, trail1, lead2, value, trail2);
    law_other_lines_skipped(line, rest);
}

/// A line with no `=` is passed over: the result is that of the lines after
/// it.
pub proof fn law_line_without_equals_skipped(line: Seq<char>, rest: Seq<char>)
    requires
        one_line(line),
        forall|j: int| 0 <= j < line.len() ==> #[trigger] line[j] != '=',
    ensures
        shortcut_url(line + seq!['\n'] + rest) == shortcut_url(rest),
{
    lemma_find_from_is(line, '=', 0, line.len() as int);
    law_other_lines_skipped(line, rest);
}

pub proof fn lemma_fold_is(c: char, lower: char, upper: char)
    requires
        'a' <= lower <= 'z',
        upper as u32 == lower as u32 - 32,
        ascii_fold(c) == ascii_fold(lower),
    ensures
        c == lower || c == upper,
{
}

/// Text that has no link (no URL, or an empty stem) is written through as
/// itself without its surrounding white space, and one newline.
pub proof fn law_plain_text_body(lead: Seq<char>, core: Seq<char>, trail: Seq<char>, stem: Seq<char>)
    requires
        forall|j: int| 0 <= j < lead.len() ==> is_ws(#[trigger] lead[j]),
        forall|j: int| 0 <= j < trail.len() ==> is_ws(#[trigger] trail[j]),
        core.len() > 0,
        !is_ws(core[0]),
        !is_ws(core.last()),
        shortcut_url(lead + core + trail) is None || stem.len() == 0,
    ensures
        shortcut_body(lead + core + trail, stem) == core.push('\n'),
{
    crate::text::lemma_trim_around(lead, core, trail);
}

/// A shortcut with a URL and a non-empty stem is written as the link to
/// that URL under that stem.
pub proof fn law_link_body(content: Seq<char>, stem: Seq<char>)
    requires
        shortcut_url(content) is Some,
        stem.len() > 0,
    ensures
        shortcut_body(content, stem) == markdown_link(stem, shortcut_url(content)->0),
{
}

/// First key wins even when empty: a line whose key spells `URL` and whose
/// value is blank gives no URL, whatever lines follow it.
pub proof fn law_empty_url_value_gives_none(
    lead1: Seq<char>,
    key: Seq<char>,
    trail1: Seq<char>,
    blank: Seq<char>,
    rest: Seq<char>,
)
    requires
        is_blank(lead1),
        is_blank(trail1),
        is_blank(blank),
        spells_url(key),
    ensures
        shortcut_url(key_value_line(lead1, key, trail1, blank, Seq::empty(), Seq::empty()) + seq![
            '\n',
        ] + rest) is None,
{
    let e = Seq::<char>::empty();
    let line = key_value_line(lead1, key, trail1, blank, e, e);
    lemma_key_value_line_split(lead1, key, trail1, blank, e, e);
    assert(url_value_of_line(line) == Some(e));
    lemma_one_line_parts(lead1, key, trail1, blank, e, e);
    law_first_url_key_wins(line, rest);
}

} // verus!
