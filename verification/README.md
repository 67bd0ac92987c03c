# url2md

Converts Windows `.url` Internet shortcuts into Markdown links: `github.url`
holding `URL=https://github.com` becomes `github.md` holding
`[github](https://github.com)`. A shortcut without a usable `URL=` line is
written through as its trimmed text; an empty one is skipped.

Layout:

- `src/` is the library, verified with Verus:
  - `text.rs` models text as `Seq<char>`: Unicode white space, trimming,
    ASCII case-insensitive comparison, line and word splitting;
  - `shortcut.rs` extracts the URL (first `URL` key wins), renders the
    Markdown, and proves the laws of the extraction;
  - `paths.rs` parses the input list and computes stems, extensions and
    output paths;
  - `stats.rs` counts outcomes and gives the exit status.
- `app/` is the command-line program: arguments, directory walking, the
  worker pool, progress bars and file I/O.
- `tests/` runs the library on concrete inputs.
