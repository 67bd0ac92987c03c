use std::path::PathBuf;
use url2md::text::is_whitespace;
use url2md::{determine_output_path, file_stem, has_url_extension, parse_input};

fn strings(items: &[&str]) -> Vec<String> {
    items.iter().map(|s| s.to_string()).collect()
}

#[test]
fn parse_input_single_path_is_trimmed() {
    assert_eq!(parse_input("  bookmark.url \n"), strings(&["bookmark.url"]));
}

#[test]
fn parse_input_bracketed_list() {
    assert_eq!(
        parse_input(" [file1.url  file2.url\tdir1] "),
        strings(&["file1.url", "file2.url", "dir1"])
    );
}

#[test]
fn parse_input_empty_brackets_and_empty_input() {
    assert_eq!(parse_input("[]"), Vec::<String>::new());
    assert_eq!(parse_input("[   ]"), Vec::<String>::new());
    assert_eq!(parse_input(""), strings(&[""]));
}

#[test]
fn parse_input_unbalanced_bracket_is_one_path() {
    assert_eq!(parse_input("[a b"), strings(&["[a b"]));
    assert_eq!(parse_input("a b]"), strings(&["a b]"]));
}

#[test]
fn file_stem_follows_path_rules() {
    assert_eq!(file_stem("dir/github.url"), "github");
    assert_eq!(file_stem("a.b.url"), "a.b");
    assert_eq!(file_stem(".url"), ".url");
    assert_eq!(file_stem("noext"), "noext");
    assert_eq!(file_stem("trailing."), "trailing");
    assert_eq!(file_stem(""), "");
    assert_eq!(file_stem("dir/.."), "");
}

#[test]
fn has_url_extension_any_case() {
    assert!(has_url_extension("dir/github.url"));
    assert!(has_url_extension("GITHUB.URL"));
    assert!(has_url_extension("a.b.Url"));
    assert!(!has_url_extension(".url"));
    assert!(!has_url_extension("url"));
    assert!(!has_url_extension("a.url.txt"));
    assert!(!has_url_extension("a.urls"));
    assert!(!has_url_extension(""));
}

fn joined(parts: &[&str]) -> String {
    let mut p = PathBuf::from(parts[0]);
    for part in &parts[1..] {
        p = p.join(part);
    }
    p.to_string_lossy().into_owned()
}

#[test]
fn determine_output_path_beside_input() {
    let input = joined(&["dir", "github.url"]);
    assert_eq!(determine_output_path(&input, "dir", &None), joined(&["dir", "github.md"]));
    assert_eq!(determine_output_path("github.url", "github.url", &None), "github.md");
    assert_eq!(determine_output_path("/", "/", &None), joined(&[".", ".md"]));
}

#[test]
fn determine_output_path_in_output_dir() {
    let out = Some("out".to_string());
    let input = joined(&["x", "google.url"]);
    assert_eq!(determine_output_path(&input, "x", &out), joined(&["out", "google.md"]));
    // A file named directly goes straight into the output directory.
    let input = joined(&["x", "y", "google.url"]);
    assert_eq!(determine_output_path(&input, &input, &out), joined(&["out", "google.md"]));
}

#[test]
fn determine_output_path_preserves_directory_structure() {
    let out = Some("out".to_string());
    let root = joined(&["urls"]);
    let first = joined(&["urls", "work", "github.url"]);
    let second = joined(&["urls", "home", "deep", "github.url"]);
    let first_out = determine_output_path(&first, &root, &out);
    let second_out = determine_output_path(&second, &root, &out);
    assert_eq!(first_out, joined(&["out", "work", "github.md"]));
    assert_eq!(second_out, joined(&["out", "home", "deep", "github.md"]));
    assert_ne!(first_out, second_out);
}

#[test]
fn whitespace_matches_std() {
    for code in 0u32..=0x10FFFF {
        if let Some(c) = char::from_u32(code) {
            assert_eq!(is_whitespace(c), c.is_whitespace(), "char {:#x}", code);
        }
    }
}
