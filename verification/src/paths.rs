//! Input lists, file names, stems and extensions, and the output path of a
//! converted shortcut.
use vstd::prelude::*;

use crate::shortcut::{lemma_fold_is, spells_url};
use crate::text::{
    ascii_fold, chars_of, copy_range, eq_ignore_ascii_case, find_last_char, find_word_end, is_whitespace,
    is_word, is_ws, last_index_of, lemma_words_from_are_words, range_eq_ignore_ascii_case,
    split_whitespace, trim, trim_range, words_from,
};

verus! {

// ---------------------------------------------------------------------------
// Path operations of std
// ---------------------------------------------------------------------------

/// What `Path::file_name` gives for a path: its final component, unless the
/// path has none or ends in `..`.
pub uninterp spec fn path_file_name(path: Seq<char>) -> Option<Seq<char>>;

/// What `Path::parent` gives for a path: the path without its final
/// component, unless it ends in a root or prefix or is empty.
pub uninterp spec fn path_parent(path: Seq<char>) -> Option<Seq<char>>;

/// What `Path::join` gives for a base path and a path adjoined to it.
pub uninterp spec fn path_join(base: Seq<char>, rest: Seq<char>) -> Seq<char>;

/// What `Path::strip_prefix` gives for a path and a base: the rest of the
/// path below the base, unless the base is not a prefix of it.
pub uninterp spec fn path_strip_prefix(path: Seq<char>, base: Seq<char>) -> Option<Seq<char>>;

/// Calls `std::path::Path::strip_prefix`. Its result is claimed to be
/// `path_strip_prefix` of its arguments, with the error mapped to `None`
/// (the rest of a path given as UTF-8 text is UTF-8 text). Which components
/// match follows the separators of the platform the crate is built for, and
/// is not stated.
#[verifier::external_body]
fn strip_prefix_of(path: &str, base: &str) -> (r: Option<String>)
    ensures
        match r {
            Some(rest) => path_strip_prefix(path@, base@) == Some(rest@),
            None => path_strip_prefix(path@, base@) is None,
        },
{
    match std::path::Path::new(path).strip_prefix(base) {
        Ok(rest) => Some(rest.to_string_lossy().into_owned()),
        Err(_) => None,
    }
}

/// Calls `std::path::Path::file_name`. Its result is claimed to be
/// `path_file_name` of the path; a file name of a path given as UTF-8 text is
/// UTF-8 text, so the conversion back to a `String` loses nothing. Which
/// component that is follows the separators of the platform the crate is
/// built for, and is not stated.
#[verifier::external_body]
fn file_name_of(path: &str) -> (r: Option<String>)
    ensures
        match r {
            Some(n) => path_file_name(path@) == Some(n@),
            None => path_file_name(path@) is None,
        },
{
    match std::path::Path::new(path).file_name() {
        Some(n) => Some(n.to_string_lossy().into_owned()),
        None => None,
    }
}

/// Calls `std::path::Path::parent`. Its result is claimed to be
/// `path_parent` of the path (the parent of a path given as UTF-8 text is
/// UTF-8 text). Where the path is cut follows the separators of the platform
/// the crate is built for, and is not stated.
#[verifier::external_body]
fn parent_of(path: &str) -> (r: Option<String>)
    ensures
        match r {
            Some(p) => path_parent(path@) == Some(p@),
            None => path_parent(path@) is None,
        },
{
    match std::path::Path::new(path).parent() {
        Some(p) => Some(p.to_string_lossy().into_owned()),
        None => None,
    }
}

/// Calls `std::path::Path::join`. Its result is claimed to be `path_join` of
/// its two arguments; the separator used, and that an absolute second path
/// replaces the first, follow the platform and are not stated.
#[verifier::external_body]
fn join_path(base: &str, rest: &str) -> (r: String)
    ensures
        r@ == path_join(base@, rest@),
{
    std::path::Path::new(base).join(rest).to_string_lossy().into_owned()
}

// ---------------------------------------------------------------------------
// Stems and extensions
// ---------------------------------------------------------------------------

/// The stem of a file name: the whole name if it holds no `.`, or if its only
/// `.` is its first character; otherwise the part before the last `.`.
pub open spec fn stem_of_name(name: Seq<char>) -> Seq<char> {
    let k = last_index_of(name, '.');
    if k <= 0 {
        name
    } else {
        name.take(k)
    }
}

/// The extension of a file name: none if it holds no `.`, or if its only `.`
/// is its first character; otherwise the part after the last `.`.
pub open spec fn extension_of_name(name: Seq<char>) -> Option<Seq<char>> {
    let k = last_index_of(name, '.');
    if k <= 0 {
        None
    } else {
        Some(name.skip(k + 1))
    }
}

/// The stem of a path's file name, or the empty text if it has no file name.
pub open spec fn path_stem(path: Seq<char>) -> Seq<char> {
    match path_file_name(path) {
        Some(n) => stem_of_name(n),
        None => Seq::empty(),
    }
}

/// The extension `url`, in lower case.
pub open spec fn url_extension() -> Seq<char> {
    seq!['u', 'r', 'l']
}

/// A path names a shortcut when its file name has the extension `url` in any
/// ASCII case.
pub open spec fn is_url_path(path: Seq<char>) -> bool {
    match path_file_name(path) {
        Some(n) => match extension_of_name(n) {
            Some(e) => eq_ignore_ascii_case(e, url_extension()),
            None => false,
        },
        None => false,
    }
}

/// The split of a file name at its last `.`, when that `.` is not the first
/// character: the length of the stem.
fn stem_len(name: &Vec<char>) -> (r: Option<usize>)
    ensures
        match r {
            Some(k) => k == last_index_of(name@, '.') && 0 < k < name@.len(),
            None => last_index_of(name@, '.') <= 0,
        },
{
    match find_last_char(name, '.') {
        Some(k) => if k > 0 {
            Some(k)
        } else {
            None
        },
        None => None,
    }
}

/// The stem of the file name of `path` (`Path::file_stem`), or the empty
/// text when the path has no file name.
pub fn file_stem(path: &str) -> (r: String)
    ensures
        r@ == path_stem(path@),
{
    match file_name_of(path) {
        Some(name) => {
            let cs = chars_of(name.as_str());
            match stem_len(&cs) {
                Some(k) => {
                    let s = name.as_str().substring_char(0, k);
                    String::from_str(s)
                },
                None => name,
            }
        },
        None => String::new(),
    }
}

/// Whether the file name of `path` has the extension `url`, in any ASCII
/// case.
pub fn has_url_extension(path: &str) -> (r: bool)
    ensures
        r == is_url_path(path@),
{
    match file_name_of(path) {
        Some(name) => {
            let cs = chars_of(name.as_str());
            let n = cs.len();
            match stem_len(&cs) {
                Some(k) => {
                    let ext = vec!['u', 'r', 'l'];
                    let r = range_eq_ignore_ascii_case(&cs, k + 1, n, &ext);
                    proof {
                        assert(cs@.subrange(k + 1, cs@.len() as int) =~= cs@.skip(k + 1));
                    }
                    r
                },
                None => false,
            }
        },
        None => false,
    }
}

// ---------------------------------------------------------------------------
// Output paths
// ---------------------------------------------------------------------------

/// The name of the Markdown file made from a stem.
pub open spec fn markdown_file_name(stem: Seq<char>) -> Seq<char> {
    stem + seq!['.', 'm', 'd']
}

/// The directory of `input` relative to the directory it was found under:
/// the part of its parent below `root`, or the empty path when it has no
/// parent or its parent is not under `root` (a file named directly).
pub open spec fn relative_dir(input: Seq<char>, root: Seq<char>) -> Seq<char> {
    match path_parent(input) {
        Some(p) => match path_strip_prefix(p, root) {
            Some(r) => r,
            None => Seq::empty(),
        },
        None => Seq::empty(),
    }
}

/// The directory a converted file goes to. With an output directory, the
/// input's directory below the scanned root is kept under it; without one,
/// the file goes beside the input (its parent, else `.`).
pub open spec fn output_dir_for(
    input: Seq<char>,
    root: Seq<char>,
    output_dir: Option<Seq<char>>,
) -> Seq<char> {
    match output_dir {
        Some(d) => if relative_dir(input, root).len() == 0 {
            d
        } else {
            path_join(d, relative_dir(input, root))
        },
        None => match path_parent(input) {
            Some(p) => p,
            None => seq!['.'],
        },
    }
}

/// The output path of a converted shortcut found under `root` (the input
/// that was scanned, or the file itself when it was named directly):
/// `<stem>.md` beside the input, or, with an output directory, in the same
/// directory structure below the output directory as below `root`.
pub fn determine_output_path(input: &str, root: &str, output_dir: &Option<String>) -> (r: String)
    ensures
        r@ == path_join(
            output_dir_for(
                input@,
                root@,
                match output_dir {
                    Some(d) => Some(d@),
                    None => None,
                },
            ),
            markdown_file_name(path_stem(input@)),
        ),
        output_dir matches Some(d) ==> r@ == (match path_parent(input@) {
            Some(p) => match path_strip_prefix(p, root@) {
                Some(rel) => if rel.len() == 0 {
                    path_join(d@, path_stem(input@) + seq!['.', 'm', 'd'])
                } else {
                    path_join(path_join(d@, rel), path_stem(input@) + seq!['.', 'm', 'd'])
                },
                None => path_join(d@, path_stem(input@) + seq!['.', 'm', 'd']),
            },
            None => path_join(d@, path_stem(input@) + seq!['.', 'm', 'd']),
        }),
        output_dir is None ==> r@ == path_join(
            match path_parent(input@) {
                Some(p) => p,
                None => seq!['.'],
            },
            path_stem(input@) + seq!['.', 'm', 'd'],
        ),
{
    let mut name = file_stem(input);
    name.append(".md");
    proof {
        reveal_strlit(".md");
        assert(name@ =~= markdown_file_name(path_stem(input@)));
    }
    match output_dir {
        Some(dir) => {
            let rel = match parent_of(input) {
                Some(parent) => match strip_prefix_of(parent.as_str(), root) {
                    Some(r) => r,
                    None => String::new(),
                },
                None => String::new(),
            };
            if rel.as_str().is_empty() {
                join_path(dir.as_str(), name.as_str())
            } else {
                let sub = join_path(dir.as_str(), rel.as_str());
                join_path(sub.as_str(), name.as_str())
            }
        },
        None => match parent_of(input) {
            Some(parent) => join_path(parent.as_str(), name.as_str()),
            None => {
                let dot = ".";
                proof {
                    reveal_strlit(".");
                    assert(dot@ =~= seq!['.']);
                }
                join_path(dot, name.as_str())
            },
        },
    }
}

/// Without an output directory the scanned root plays no part: the file
/// goes beside its input, whatever root it was found under.
pub proof fn law_root_only_matters_with_output_dir(input: Seq<char>, root1: Seq<char>, root2: Seq<char>)
    ensures
        output_dir_for(input, root1, None) == output_dir_for(input, root2, None),
        output_dir_for(input, root1, None) == (match path_parent(input) {
            Some(p) => p,
            None => seq!['.'],
        }),
{
}

/// The stem and the extension make up the file name: with an extension `e`
/// (which holds no `.`), the file name is the non-empty stem, a `.` and `e`;
/// without one, the stem is the whole file name, which then holds no `.`
/// but possibly its first character. Spaces and all other characters are
/// kept.
pub proof fn law_stem_and_extension(path: Seq<char>)
    ensures
        match path_file_name(path) {
            Some(n) => match extension_of_name(n) {
                Some(e) => {
                    &&& path_stem(path) + seq!['.'] + e == n
                    &&& path_stem(path).len() > 0
                    &&& forall|j: int| 0 <= j < e.len() ==> #[trigger] e[j] != '.'
                },
                None => {
                    &&& path_stem(path) == n
                    &&& forall|j: int| 0 < j < n.len() ==> #[trigger] n[j] != '.'
                },
            },
            None => path_stem(path) == Seq::<char>::empty(),
        },
{
    if let Some(n) = path_file_name(path) {
        crate::text::lemma_last_index_of_props(n, '.');
        let k = last_index_of(n, '.');
        if k > 0 {
            let e = n.skip(k + 1);
            assert(n.take(k) + seq!['.'] + e =~= n);
            assert forall|j: int| 0 <= j < e.len() implies #[trigger] e[j] != '.' by {
                assert(e[j] == n[k + 1 + j]);
            }
        }
    }
}

// ---------------------------------------------------------------------------
// Input lists
// ---------------------------------------------------------------------------

/// The paths named by an input argument: the white-space separated items of
/// a bracketed list `[item1 item2 ...]`, or else the trimmed argument as a
/// single path.
pub open spec fn input_items(s: Seq<char>) -> Seq<Seq<char>> {
    let t = trim(s);
    if t.len() > 0 && t[0] == '[' && t.last() == ']' {
        split_whitespace(t.subrange(1, t.len() - 1))
    } else {
        seq![t]
    }
}

/// The views of a list of strings.
pub open spec fn string_views(v: Seq<String>) -> Seq<Seq<char>> {
    v.map_values(|w: String| w@)
}

/// Parses a bracket-enclosed, white-space separated list of paths, or a
/// single path.
pub fn parse_input(s: &str) -> (r: Vec<String>)
    ensures
        string_views(r@) == input_items(s@),
{
    let cs = chars_of(s);
    let (a, b) = trim_range(&cs, 0, cs.len());
    proof {
        assert(cs@.subrange(0, cs@.len() as int) =~= s@);
    }
    let ghost t = cs@.subrange(a as int, b as int);
    if b > a && cs[a] == '[' && cs[b - 1] == ']' {
        proof {
            assert(t[0] == cs@[a as int]);
            assert(t.last() == cs@[b - 1]);
            assert(t.subrange(1, t.len() - 1) =~= cs@.subrange(a + 1, b - 1));
        }
        let n = cs.len();
        let lo = a + 1;
        let inner = copy_range(&cs, lo, b - 1);
        let mut out: Vec<String> = Vec::new();
        let mut i: usize = 0;
        while i < inner.len()
            invariant
                cs@ == s@,
                n == cs@.len(),
                lo + inner@.len() <= s@.len(),
                inner@ == s@.subrange(lo as int, lo + inner@.len()),
                i <= inner@.len(),
                string_views(out@) + words_from(inner@, i as int) == split_whitespace(inner@),
            decreases inner@.len() - i,
        {
            if is_whitespace(inner[i]) {
                i = i + 1;
            } else {
                let e = find_word_end(&inner, i + 1);
                let w = s.substring_char(lo + i, lo + e);
                let ghost before = string_views(out@);
                out.push(String::from_str(w));
                proof {
                    assert(w@ =~= inner@.subrange(i as int, e as int));
                    assert(string_views(out@) =~= before.push(inner@.subrange(i as int, e as int)));
                    assert(words_from(inner@, i as int) == seq![inner@.subrange(i as int, e as int)]
                        + words_from(inner@, e as int));
                    assert(before + (seq![inner@.subrange(i as int, e as int)] + words_from(
                        inner@,
                        e as int,
                    )) =~= before.push(inner@.subrange(i as int, e as int)) + words_from(
                        inner@,
                        e as int,
                    ));
                }
                i = e;
            }
        }
        proof {
            assert(string_views(out@) + Seq::<Seq<char>>::empty() =~= string_views(out@));
        }
        out
    } else {
        let single = String::from_str(s.substring_char(a, b));
        let mut out: Vec<String> = Vec::new();
        out.push(single);
        proof {
            assert(string_views(out@) =~= seq![t]);
        }
        out
    }
}

/// Every item of a bracketed list is non-empty and holds no white space.
pub proof fn law_list_items_are_words(s: Seq<char>)
    ensures
        ({
            let t = trim(s);
            t.len() > 0 && t[0] == '[' && t.last() == ']'
        }) ==> forall|k: int|
            0 <= k < input_items(s).len() ==> #[trigger] is_word(input_items(s)[k]),
{
    let t = trim(s);
    if t.len() > 0 && t[0] == '[' && t.last() == ']' {
        lemma_words_from_are_words(t.subrange(1, t.len() - 1), 0);
    }
}

/// An argument that is not a bracketed list names one path: the whole
/// argument without its surrounding white space, inner spaces and all.
pub proof fn law_single_path_is_whole_argument(lead: Seq<char>, core: Seq<char>, trail: Seq<char>)
    requires
        forall|j: int| 0 <= j < lead.len() ==> is_ws(#[trigger] lead[j]),
        forall|j: int| 0 <= j < trail.len() ==> is_ws(#[trigger] trail[j]),
        core.len() == 0 || (!is_ws(core[0]) && !is_ws(core.last())),
        !(core.len() > 0 && core[0] == '[' && core.last() == ']'),
    ensures
        input_items(lead + core + trail) == seq![core],
{
    crate::text::lemma_trim_around(lead, core, trail);
}

/// A bracketed list, with any white space around it, names the words of
/// what stands between the brackets.
pub proof fn law_bracketed_list(lead: Seq<char>, inner: Seq<char>, trail: Seq<char>)
    requires
        forall|j: int| 0 <= j < lead.len() ==> is_ws(#[trigger] lead[j]),
        forall|j: int| 0 <= j < trail.len() ==> is_ws(#[trigger] trail[j]),
    ensures
        input_items(lead + (seq!['['] + inner + seq![']']) + trail) == split_whitespace(inner),
{
    let core = seq!['['] + inner + seq![']'];
    assert(core[0] == '[');
    assert(core.last() == ']');
    crate::text::lemma_trim_around(lead, core, trail);
    assert(core.subrange(1, core.len() - 1) =~= inner);
}

/// A path names a shortcut exactly when its file name has an extension
/// that spells `url` in some mix of ASCII cases.
pub proof fn law_url_extension(path: Seq<char>)
    ensures
        is_url_path(path) <==> (path_file_name(path) matches Some(n) && extension_of_name(
            n,
        ) matches Some(e) && spells_url(e)),
{
    if let Some(n) = path_file_name(path) {
        if let Some(e) = extension_of_name(n) {
            if eq_ignore_ascii_case(e, url_extension()) {
                assert(ascii_fold(e[0]) == ascii_fold(url_extension()[0]));
                assert(ascii_fold(e[1]) == ascii_fold(url_extension()[1]));
                assert(ascii_fold(e[2]) == ascii_fold(url_extension()[2]));
                lemma_fold_is(e[0], 'u', 'U');
                lemma_fold_is(e[1], 'r', 'R');
                lemma_fold_is(e[2], 'l', 'L');
            }
            if spells_url(e) {
                assert forall|i: int| 0 <= i < e.len() implies ascii_fold(#[trigger] e[i])
                    == ascii_fold(url_extension()[i]) by {}
            }
        }
    }
}

} // verus!
