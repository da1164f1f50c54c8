//! Page and line records that the layout logic reads.
use vstd::prelude::*;

verus! {

/// A line of projected page text, with where it sits relative to the page's
/// top and bottom bands. A line is in the header band when its top lies
/// within the top 12% of the page, and in the footer band when its bottom
/// lies within the bottom 12%; the caller measures that from the line's box.
#[derive(Clone, Debug)]
pub struct BandedLine {
    pub text: String,
    pub in_header_band: bool,
    pub in_footer_band: bool,
}

/// One parsed page: its 1-based number, its full text, and its projected
/// lines in reading order.
#[derive(Clone, Debug)]
pub struct ParsedPage {
    pub page_number: usize,
    pub text: String,
    pub projected_lines: Vec<BandedLine>,
}

} // verus!
