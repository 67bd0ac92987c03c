//! Conversion of Windows `.url` Internet shortcuts to Markdown links.
pub mod paths;
pub mod shortcut;
pub mod stats;
pub mod text;

pub use paths::{determine_output_path, file_stem, has_url_extension, parse_input};
pub use shortcut::{extract_url, render_body, to_markdown};
pub use stats::{worker_count, Outcome, Stats, StatsView};
