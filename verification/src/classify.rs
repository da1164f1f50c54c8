//! The per-line decision of block classification: given what is known about
//! a line and which blocks are open, decide whether the line is skipped,
//! joins a code block, is a heading, starts or continues a list item, or
//! starts or continues a paragraph.
use vstd::prelude::*;

use crate::headings::{
    bold_heading, caption_chars, first_outline_level, first_struct_level, is_caption,
    looks_like_bold_heading, looks_like_numbered_bold_heading, numbered_bold_heading,
    outline_heading_level, outline_norm, struct_heading_level, OutlineCandidate, StructNode,
    StyledSpan,
};
use crate::lists::{list_marker, parse_list_marker};
use crate::paragraphs::{continues, continues_paragraph, PairGeometry, SpanStyle};
use crate::text::{
    collapse, collapse_chars, skip_ws_backward, string_from_chars, trim, trim_end, trimmed_chars,
    chars_of,
};

verus! {

/// Which blocks are open while a page is classified line by line.
#[derive(Clone, Copy, Debug, PartialEq, Eq, Structural)]
pub struct ClassifyState {
    /// A paragraph is being accumulated.
    pub paragraph_open: bool,
    /// A fenced code block is being accumulated.
    pub code_open: bool,
    /// A list item was the last block and may take continuation lines.
    pub list_open: bool,
}

/// No block open: the state at the start of a page, and after anything that
/// is not a text line (a table, a horizontal rule, a figure) has ended the
/// open blocks.
pub open spec fn no_block_open() -> ClassifyState {
    ClassifyState { paragraph_open: false, code_open: false, list_open: false }
}

impl ClassifyState {
    /// The state at the start of a page.
    pub fn new() -> (s: Self)
        ensures
            s == no_block_open(),
    {
        ClassifyState { paragraph_open: false, code_open: false, list_open: false }
    }

    /// A table, a horizontal rule or a figure placed between two lines ends
    /// every open block.
    pub fn break_blocks(&mut self)
        ensures
            *final(self) == no_block_open(),
    {
        *self = ClassifyState { paragraph_open: false, code_open: false, list_open: false };
    }
}

/// A line next to the one being classified, as paragraph continuation
/// reads it: its text, its uniform style (if it has one), and the geometry
/// of the pair (measured from the upper line to the lower one).
#[derive(Clone, Debug)]
pub struct AdjacentLine {
    pub text: String,
    pub style: Option<SpanStyle>,
    pub geometry: PairGeometry,
}

/// What is known about one line before it is classified, beyond its text:
/// - `rotated`: some span is rotated well off the horizontal;
/// - `all_mono`: every span is set in a monospace font;
/// - `mcid`: its marked-content id in a tagged PDF;
/// - `outline`: the outline entries of its page, as seen from the line;
/// - `size_level`: the level of the heading size its font size matches;
/// - `style`: its uniform style, if it has one;
/// - `cell_count`: the number of table cells its spans split into;
/// - `spans`: its spans with their styles;
/// - `prev`: the previous line of the page that was not skipped;
/// - `next`: the next line of the page.
#[derive(Clone, Debug)]
pub struct LineFacts {
    pub text: String,
    pub rotated: bool,
    pub all_mono: bool,
    pub mcid: Option<i32>,
    pub outline: Vec<OutlineCandidate>,
    pub size_level: Option<u8>,
    pub style: Option<SpanStyle>,
    pub cell_count: usize,
    pub spans: Vec<StyledSpan>,
    pub prev: Option<AdjacentLine>,
    pub next: Option<AdjacentLine>,
}

/// What to do with a line.
#[derive(Debug, PartialEq, Eq)]
pub enum LineAction {
    /// Nothing: the line is blank or rotated.
    Skip,
    /// Close the paragraph and list item; append this text to the code
    /// block, opening one if none is open.
    CodeLine(String),
    /// Close every open block and emit a heading.
    Heading { level: u8, text: String },
    /// Close the code block and paragraph; emit a list item, which stays
    /// open for continuation lines.
    ListItem { ordered: bool, marker: String, rest: String },
    /// Close the code block; append the line to the open list item.
    ListContinuation,
    /// Close the code block; append the line to the open paragraph.
    ParagraphAppend,
    /// Close every open block and start a paragraph with this text.
    ParagraphStart(String),
}

/// A heading level clamped into `1..=6`.
pub open spec fn clamp_level(l: int) -> u8 {
    if l < 1 {
        1
    } else if l > 6 {
        6
    } else {
        l as u8
    }
}

/// The level of an explicitly or size-marked heading of a line with
/// trimmed text `t`: the struct-tree level, else the outline level, else
/// (unless the line is a caption) the font-size level; clamped into `1..=6`.
pub open spec fn marked_level(f: LineFacts, nodes: Seq<StructNode>, t: Seq<char>) -> Option<u8> {
    let tagged = match f.mcid {
        Some(m) => first_struct_level(nodes, m, 0),
        None => None,
    };
    let outlined = if f.outline@.len() == 0 || outline_norm(t).len() == 0 {
        None
    } else {
        first_outline_level(outline_norm(t), f.outline@, 0)
    };
    let l = if tagged is Some {
        tagged
    } else if outlined is Some {
        outlined
    } else if is_caption(t) {
        None
    } else {
        f.size_level
    };
    match l {
        Some(x) => Some(clamp_level(x as int)),
        None => None,
    }
}

/// The line continues the previous line that was not skipped.
pub open spec fn continues_prev(f: LineFacts) -> bool {
    match f.prev {
        Some(p) => continues(p.text@, f.text@, p.style, f.style, p.geometry),
        None => false,
    }
}

/// A paragraph break sits above the line: no paragraph or list item is open
/// (so there is no previous line to continue), or the line does not
/// continue the previous one.
pub open spec fn breaks_above(s: ClassifyState, f: LineFacts) -> bool {
    !((s.paragraph_open || s.list_open) && continues_prev(f))
}

/// A paragraph break sits below the line: it is the last line, or the next
/// line does not continue it.
pub open spec fn breaks_below(f: LineFacts) -> bool {
    match f.next {
        Some(n) => !continues(f.text@, n.text@, f.style, n.style, n.geometry),
        None => true,
    }
}

/// The abstract action for a line (texts as character sequences).
pub enum ActionView {
    Skip,
    CodeLine(Seq<char>),
    Heading(u8, Seq<char>),
    ListItem(bool, Seq<char>, Seq<char>),
    ListContinuation,
    ParagraphAppend,
    ParagraphStart(Seq<char>),
}

impl View for LineAction {
    type V = ActionView;

    open spec fn view(&self) -> ActionView {
        match self {
            LineAction::Skip => ActionView::Skip,
            LineAction::CodeLine(s) => ActionView::CodeLine(s@),
            LineAction::Heading { level, text } => ActionView::Heading(*level, text@),
            LineAction::ListItem { ordered, marker, rest } => ActionView::ListItem(
                *ordered,
                marker@,
                rest@,
            ),
            LineAction::ListContinuation => ActionView::ListContinuation,
            LineAction::ParagraphAppend => ActionView::ParagraphAppend,
            LineAction::ParagraphStart(s) => ActionView::ParagraphStart(s@),
        }
    }
}

/// The classification of a line with facts `f` in state `s`, given the
/// page's structure-tree nodes and a heading map with `map_len` levels. In
/// priority order: blank or rotated lines are skipped; monospace lines are
/// code; marked headings; list markers (a numbered bold heading is a
/// heading one level below the map); continuation of an open list item;
/// bold body-size headings (one level below the map); continuation of an
/// open paragraph; otherwise a new paragraph. Heading and paragraph texts
/// are whitespace-collapsed.
pub open spec fn line_action(
    s: ClassifyState,
    f: LineFacts,
    nodes: Seq<StructNode>,
    map_len: nat,
) -> ActionView {
    let t = trim(f.text@);
    if t.len() == 0 || f.rotated {
        ActionView::Skip
    } else if f.all_mono {
        ActionView::CodeLine(trim_end(f.text@))
    } else if marked_level(f, nodes, t) is Some {
        ActionView::Heading(marked_level(f, nodes, t)->0, collapse(t))
    } else if list_marker(t) is Some {
        let (ordered, marker, rest) = list_marker(t)->0;
        if ordered && numbered_bold_heading(f.text@, rest, f.spans@, breaks_above(s, f)) {
            ActionView::Heading(clamp_level(map_len + 1int), collapse(t))
        } else {
            ActionView::ListItem(ordered, marker, rest)
        }
    } else if s.list_open && continues_prev(f) {
        ActionView::ListContinuation
    } else if bold_heading(f.text@, f.style, f.cell_count as nat, breaks_above(s, f), breaks_below(f)) {
        ActionView::Heading(clamp_level(map_len + 1int), collapse(t))
    } else if s.paragraph_open && continues_prev(f) {
        ActionView::ParagraphAppend
    } else {
        ActionView::ParagraphStart(collapse(t))
    }
}

/// The open blocks after action `a`.
pub open spec fn next_state(s: ClassifyState, a: ActionView) -> ClassifyState {
    match a {
        ActionView::Skip => s,
        ActionView::CodeLine(_) => ClassifyState {
            paragraph_open: false,
            code_open: true,
            list_open: false,
        },
        ActionView::Heading(_, _) => ClassifyState {
            paragraph_open: false,
            code_open: false,
            list_open: false,
        },
        ActionView::ListItem(_, _, _) => ClassifyState {
            paragraph_open: false,
            code_open: false,
            list_open: true,
        },
        ActionView::ListContinuation => ClassifyState { code_open: false, ..s },
        ActionView::ParagraphAppend => ClassifyState { code_open: false, ..s },
        ActionView::ParagraphStart(_) => ClassifyState {
            paragraph_open: true,
            code_open: false,
            list_open: false,
        },
    }
}

/// Collapsed text of a character vector, as a `String`.
fn collapsed_string(cs: &Vec<char>) -> (s: String)
    ensures
        s@ == collapse(cs@),
{
    string_from_chars(collapse_chars(cs).as_slice())
}

/// Whether the line continues the previous line that was not skipped.
fn prev_continues(facts: &LineFacts) -> (b: bool)
    ensures
        b == continues_prev(*facts),
{
    match &facts.prev {
        Some(p) => continues_paragraph(
            p.text.as_str(),
            facts.text.as_str(),
            p.style,
            facts.style,
            &p.geometry,
        ),
        None => false,
    }
}

/// Whether a paragraph break sits below the line.
fn next_breaks(facts: &LineFacts) -> (b: bool)
    ensures
        b == breaks_below(*facts),
{
    match &facts.next {
        Some(n) => !continues_paragraph(
            facts.text.as_str(),
            n.text.as_str(),
            facts.style,
            n.style,
            &n.geometry,
        ),
        None => true,
    }
}

/// Classify one line of a page: returns the action and updates `state` to
/// the blocks open after it. `struct_nodes` are the page's structure-tree
/// nodes and `heading_map_len` the number of levels in the font-size
/// heading map (at most 6 in practice).
pub fn classify_line(
    state: &mut ClassifyState,
    facts: &LineFacts,
    struct_nodes: &[StructNode],
    heading_map_len: usize,
) -> (a: LineAction)
    requires
        heading_map_len < 255,
    ensures
        a@ == line_action(*old(state), *facts, struct_nodes@, heading_map_len as nat),
        *final(state) == next_state(*old(state), a@),
{
    let t = trimmed_chars(facts.text.as_str());
    if t.len() == 0 || facts.rotated {
        return LineAction::Skip;
    }
    if facts.all_mono {
        // Code detection runs first: monospace content is code even when it
        // is heading-shaped.
        let all = chars_of(facts.text.as_str());
        let n = all.len();
        let j = skip_ws_backward(&all, 0, n);
        assert(all@.subrange(0, n as int) =~= all@);
        let mut kept: Vec<char> = Vec::new();
        let mut k: usize = 0;
        while k < j
            invariant
                k <= j <= n == all@.len(),
                kept@ == all@.subrange(0, k as int),
            decreases j - k,
        {
            kept.push(all[k]);
            assert(all@.subrange(0, k as int + 1) =~= all@.subrange(0, k as int).push(
                all@[k as int],
            ));
            k = k + 1;
        }
        *state = ClassifyState { paragraph_open: false, code_open: true, list_open: false };
        return LineAction::CodeLine(string_from_chars(kept.as_slice()));
    }
    let trimmed = string_from_chars(t.as_slice());
    // Priority chain: tagged-PDF struct tree, then outline, then the
    // font-size map (not for captions, whose distinct font would otherwise
    // promote them).
    let level = match struct_heading_level(facts.mcid, struct_nodes) {
        Some(l) => Some(l),
        None => match outline_heading_level(trimmed.as_str(), facts.outline.as_slice()) {
            Some(l) => Some(l),
            None => if caption_chars(&t) {
                None
            } else {
                facts.size_level
            },
        },
    };
    if let Some(l) = level {
        let clamped = if l < 1 {
            1u8
        } else if l > 6 {
            6u8
        } else {
            l
        };
        *state = ClassifyState { paragraph_open: false, code_open: false, list_open: false };
        return LineAction::Heading { level: clamped, text: collapsed_string(&t) };
    }
    // Headings found by shape sit one level below the deepest size level.
    let deeper = (heading_map_len + 1) as u8;
    let deeper = if deeper > 6 {
        6u8
    } else {
        deeper
    };
    let continues = prev_continues(facts);
    let above = !((state.paragraph_open || state.list_open) && continues);
    match parse_list_marker(trimmed.as_str()) {
        Some((ordered, marker, rest)) => {
            if ordered && looks_like_numbered_bold_heading(
                facts.text.as_str(),
                rest,
                facts.spans.as_slice(),
                above,
            ) {
                *state = ClassifyState { paragraph_open: false, code_open: false, list_open: false };
                return LineAction::Heading { level: deeper, text: collapsed_string(&t) };
            }
            let rest_owned = string_from_chars(chars_of(rest).as_slice());
            *state = ClassifyState { paragraph_open: false, code_open: false, list_open: true };
            return LineAction::ListItem { ordered, marker, rest: rest_owned };
        },
        None => {},
    }
    if state.list_open && continues {
        state.code_open = false;
        return LineAction::ListContinuation;
    }
    let below = next_breaks(facts);
    if looks_like_bold_heading(facts.text.as_str(), facts.style, facts.cell_count, above, below) {
        *state = ClassifyState { paragraph_open: false, code_open: false, list_open: false };
        return LineAction::Heading { level: deeper, text: collapsed_string(&t) };
    }
    if state.paragraph_open && continues {
        state.code_open = false;
        return LineAction::ParagraphAppend;
    }
    *state = ClassifyState { paragraph_open: true, code_open: false, list_open: false };
    LineAction::ParagraphStart(collapsed_string(&t))
}

} // verus!
