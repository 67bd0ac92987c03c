use url2md::{extract_url, render_body, to_markdown};

#[test]
fn extract_url_standard() {
    assert_eq!(
        extract_url("[InternetShortcut]\nURL=https://github.com"),
        Some("https://github.com")
    );
}

#[test]
fn extract_url_preserves_query_string_with_equals() {
    assert_eq!(
        extract_url("URL=https://x.com/?a=1&b=2"),
        Some("https://x.com/?a=1&b=2")
    );
}

#[test]
fn extract_url_is_case_insensitive() {
    assert_eq!(extract_url("url=https://x.com"), Some("https://x.com"));
}

#[test]
fn extract_url_trims_whitespace_around_key_and_value() {
    assert_eq!(extract_url("  URL  =  https://x.com  "), Some("https://x.com"));
}

#[test]
fn extract_url_empty_value_is_none() {
    assert_eq!(extract_url("URL="), None);
}

#[test]
fn extract_url_no_url_line_is_none() {
    assert_eq!(extract_url("[InternetShortcut]\nIconIndex=0"), None);
}

#[test]
fn extract_url_finds_url_not_on_first_line() {
    assert_eq!(
        extract_url("[InternetShortcut]\nIconIndex=0\nURL=https://x.com"),
        Some("https://x.com")
    );
}

#[test]
fn extract_url_first_key_wins_even_when_empty() {
    assert_eq!(extract_url("URL=\nURL=https://real.com"), None);
}

#[test]
fn to_markdown_formats_link_with_trailing_newline() {
    assert_eq!(
        to_markdown("github", "https://github.com"),
        "[github](https://github.com)\n"
    );
}

// ---------------------------------------------------------------------------

#[test]
fn extract_url_handles_crlf_line_endings() {
    assert_eq!(
        extract_url("[InternetShortcut]\r\nURL=https://x.com\r\nIconIndex=0\r\n"),
        Some("https://x.com")
    );
}

#[test]
fn extract_url_first_key_wins_over_later_value() {
    assert_eq!(
        extract_url("URL=https://first.com\nURL=https://second.com"),
        Some("https://first.com")
    );
}

#[test]
fn extract_url_whitespace_only_value_is_none() {
    assert_eq!(extract_url("URL=   \t\nURL=https://later.com"), None);
}

#[test]
fn extract_url_key_must_be_exactly_url() {
    assert_eq!(extract_url("URLX=https://x.com\nBaseURL=https://y.com"), None);
    assert_eq!(extract_url("URL https://x.com"), None);
}

#[test]
fn extract_url_mixed_case_key() {
    assert_eq!(extract_url("uRl=https://x.com/A=B"), Some("https://x.com/A=B"));
}

#[test]
fn extract_url_unicode_whitespace_is_trimmed() {
    assert_eq!(
        extract_url("\u{3000}URL\u{a0}=\u{2003}https://x.com/\u{e9}\u{2029}"),
        Some("https://x.com/\u{e9}")
    );
}

#[test]
fn extract_url_empty_content_is_none() {
    assert_eq!(extract_url(""), None);
    assert_eq!(extract_url("\n\n"), None);
}

#[test]
fn extract_url_bare_cr_is_not_a_line_break() {
    assert_eq!(extract_url("IconIndex=0\rURL=https://x.com"), None);
}

#[test]
fn to_markdown_with_empty_parts() {
    assert_eq!(to_markdown("", ""), "[]()\n");
}

#[test]
fn render_body_empty_file_is_skipped() {
    assert_eq!(render_body("", "github"), None);
    assert_eq!(render_body("  \r\n\t\n", "github"), None);
}

#[test]
fn render_body_link_for_url() {
    assert_eq!(
        render_body("[InternetShortcut]\r\nURL=https://github.com\r\n", "github"),
        Some("[github](https://github.com)\n".to_string())
    );
}

#[test]
fn render_body_falls_back_to_trimmed_text_without_url() {
    assert_eq!(
        render_body("\n  [InternetShortcut]\nIconIndex=0  \n\n", "github"),
        Some("[InternetShortcut]\nIconIndex=0\n".to_string())
    );
}

#[test]
fn render_body_falls_back_when_url_is_empty() {
    assert_eq!(
        render_body("URL=\nURL=https://real.com\n", "real"),
        Some("URL=\nURL=https://real.com\n".to_string())
    );
}

#[test]
fn render_body_falls_back_when_stem_is_empty() {
    assert_eq!(
        render_body(" URL=https://x.com ", ""),
        Some("URL=https://x.com\n".to_string())
    );
}
