//! Text-layout logic for turning extracted PDF text into plain text and
//! Markdown: whitespace and list-marker handling, heading detection,
//! paragraph joining, running header/footer detection and page formatting.

mod blocks;
mod classify;
mod extract;
mod headings;
pub mod laws;
mod lists;
mod output;
mod paragraphs;
mod repetition;
mod sizes;
mod stdlib;
mod text;
mod types;

pub use blocks::{Block, PageBuilder};
pub use classify::{classify_line, AdjacentLine, ClassifyState, LineAction, LineFacts};
pub use extract::{classify_pdf_char, extract_pages, CharKind, SegmentText};
pub use headings::{
    char_counts, is_caption_line, looks_like_bold_heading, looks_like_numbered_bold_heading,
    normalize_outline_text, outline_heading_level, parse_heading_role,
    struct_heading_level, OutlineCandidate, StructNode, StyledSpan,
};
pub use lists::parse_list_marker;
pub use output::{decimal_string, format_pypdf, format_text};
pub use paragraphs::{append_to_paragraph, continues_paragraph, dehyphenate_join, PairGeometry, ParaText, SpanStyle};
pub use repetition::{compute_header_footer_set, hash_digits, is_header_or_footer, normalize_for_repetition};
pub use sizes::{body_size_key, heading_levels, FontSample};
pub use text::{chars_of, collapse_whitespace, is_whitespace, string_from_chars};
pub use types::{BandedLine, ParsedPage};
