//! Assembling a page's blocks from its classified lines: paragraphs grow
//! line by line, monospace lines gather into code blocks, list items take
//! their continuation lines, and headings and non-text blocks close
//! whatever is open.
use vstd::prelude::*;

use crate::classify::{
    classify_line, line_action, next_state, no_block_open, ActionView, ClassifyState, LineAction,
    LineFacts,
};
use crate::headings::StructNode;
use crate::laws::{lemma_classify_keeps_one_block_open, one_block_open};
use crate::paragraphs::{
    append_to_paragraph, dehyphenate_join, dehyphenated, para_appended, style_flags, ParaText,
    SpanStyle,
};
use crate::text::{string_from_chars, trim, trimmed_chars};

verus! {

/// A block of a page, in reading order.
#[derive(Debug)]
pub enum Block {
    /// A heading of level 1 to 6.
    Heading { level: u8, text: String },
    /// A paragraph: plain text, inline-rendered text, uniform style flags.
    Paragraph(ParaText),
    /// Consecutive monospace lines.
    CodeBlock(Vec<String>),
    /// A list item with its nesting level and text (continuations joined).
    ListItem { ordered: bool, marker: String, level: u8, text: String },
    /// A non-text block (a table, a horizontal rule, a figure).
    Break,
}

/// A block with its texts as character sequences.
pub enum BlockView {
    Heading(u8, Seq<char>),
    Paragraph(Seq<char>, Seq<char>, Option<(bool, bool)>),
    Code(Seq<Seq<char>>),
    ListItem(bool, Seq<char>, u8, Seq<char>),
    Break,
}

/// The texts of a sequence of strings.
pub open spec fn lines_view(v: Seq<String>) -> Seq<Seq<char>> {
    v.map_values(|s: String| s@)
}

impl View for Block {
    type V = BlockView;

    open spec fn view(&self) -> BlockView {
        match self {
            Block::Heading { level, text } => BlockView::Heading(*level, text@),
            Block::Paragraph(p) => BlockView::Paragraph(p.raw@, p.inline@, p.uniform),
            Block::CodeBlock(lines) => BlockView::Code(lines_view(lines@)),
            Block::ListItem { ordered, marker, level, text } => BlockView::ListItem(
                *ordered,
                marker@,
                *level,
                text@,
            ),
            Block::Break => BlockView::Break,
        }
    }
}

/// The views of a sequence of blocks.
pub open spec fn blocks_view(v: Seq<Block>) -> Seq<BlockView> {
    v.map_values(|b: Block| b@)
}

/// An open list item.
struct OpenItem {
    ordered: bool,
    marker: String,
    level: u8,
    text: String,
}

/// A page being assembled, as seen from outside: the finished blocks, the
/// classification state, the open paragraph, the open code lines, the open
/// list item, the index of the last line that was not skipped, and the
/// index of the line that started the current run of list items.
#[verifier::ext_equal]
pub struct PageView {
    pub blocks: Seq<BlockView>,
    pub state: ClassifyState,
    pub paragraph: Option<(Seq<char>, Seq<char>, Option<(bool, bool)>)>,
    pub code: Seq<Seq<char>>,
    pub item: Option<(bool, Seq<char>, u8, Seq<char>)>,
    pub last_line: Option<usize>,
    pub list_base: Option<usize>,
}

/// The open blocks of `v`, in the order they are closed.
pub open spec fn open_blocks(v: PageView) -> Seq<BlockView> {
    (match v.paragraph {
        Some(p) => seq![BlockView::Paragraph(p.0, p.1, p.2)],
        None => Seq::empty(),
    }) + (if v.code.len() > 0 {
        seq![BlockView::Code(v.code)]
    } else {
        Seq::empty()
    }) + (match v.item {
        Some(it) => seq![BlockView::ListItem(it.0, it.1, it.2, it.3)],
        None => Seq::empty(),
    })
}

/// `v` with every open block closed, followed by `extra`.
pub open spec fn closed_with(v: PageView, extra: Seq<BlockView>, last_line: Option<usize>) -> PageView {
    PageView {
        blocks: v.blocks + open_blocks(v) + extra,
        state: no_block_open(),
        paragraph: None,
        code: Seq::empty(),
        item: None,
        last_line,
        list_base: None,
    }
}

/// The page after line `index`, with text `text`, uniform style `style`,
/// inline rendering `inline` and list nesting level `level`, is classified
/// as `a`:
/// - a skipped line changes nothing;
/// - a code line closes the paragraph and list item and joins the code
///   block;
/// - a heading closes everything and follows;
/// - a list item closes everything and opens, with the action's text; the
///   run of list items keeps the line that started it;
/// - a list continuation joins the open item (de-hyphenated against it);
/// - a paragraph continuation is appended to the open paragraph;
/// - a new paragraph closes everything and opens with the action's text.
/// Every line that is not skipped becomes the last line; a code line, a
/// heading and a new paragraph end the run of list items.
pub open spec fn line_step(
    v: PageView,
    index: usize,
    a: ActionView,
    text: Seq<char>,
    style: Option<SpanStyle>,
    inline: Seq<char>,
    level: u8,
) -> PageView {
    match a {
        ActionView::Skip => v,
        ActionView::CodeLine(t) => PageView {
            blocks: v.blocks + open_blocks(PageView { code: Seq::empty(), ..v }),
            state: next_state(v.state, a),
            paragraph: None,
            code: v.code.push(t),
            item: None,
            last_line: Some(index),
            list_base: None,
        },
        ActionView::Heading(l, t) => closed_with(v, seq![BlockView::Heading(l, t)], Some(index)),
        ActionView::ListItem(o, m, rest) => PageView {
            blocks: v.blocks + open_blocks(v),
            state: next_state(v.state, a),
            paragraph: None,
            code: Seq::empty(),
            item: Some((o, m, level, rest)),
            last_line: Some(index),
            list_base: Some(
                match v.list_base {
                    Some(b) => b,
                    None => index,
                },
            ),
        },
        ActionView::ListContinuation => PageView {
            state: next_state(v.state, a),
            item: match v.item {
                Some(it) => Some((it.0, it.1, it.2, dehyphenated(it.3, trim(text), inline))),
                None => None,
            },
            last_line: Some(index),
            ..v
        },
        ActionView::ParagraphAppend => PageView {
            state: next_state(v.state, a),
            paragraph: match v.paragraph {
                Some(p) => Some(para_appended(p, text, inline, style)),
                None => None,
            },
            last_line: Some(index),
            ..v
        },
        ActionView::ParagraphStart(t) => PageView {
            blocks: v.blocks + open_blocks(v),
            state: next_state(v.state, a),
            paragraph: Some((t, inline, style_flags(style))),
            code: Seq::empty(),
            item: None,
            last_line: Some(index),
            list_base: None,
        },
    }
}

/// A page whose blocks are being assembled line by line.
pub struct PageBuilder {
    state: ClassifyState,
    blocks: Vec<Block>,
    paragraph: Option<ParaText>,
    code: Vec<String>,
    item: Option<OpenItem>,
    last_line: Option<usize>,
    list_base: Option<usize>,
}

impl View for PageBuilder {
    type V = PageView;

    closed spec fn view(&self) -> PageView {
        PageView {
            blocks: blocks_view(self.blocks@),
            state: self.state,
            paragraph: match self.paragraph {
                Some(p) => Some(p@),
                None => None,
            },
            code: lines_view(self.code@),
            item: match self.item {
                Some(it) => Some((it.ordered, it.marker@, it.level, it.text@)),
                None => None,
            },
            last_line: self.last_line,
            list_base: self.list_base,
        }
    }
}

impl PageBuilder {
    /// The open blocks agree with the classification state, and at most one
    /// of them is open.
    pub closed spec fn wf(&self) -> bool {
        &&& self.paragraph is Some <==> self.state.paragraph_open
        &&& (self.code@.len() > 0) <==> self.state.code_open
        &&& self.item is Some <==> self.state.list_open
        &&& one_block_open(self.state)
    }

    /// An empty page.
    pub fn new() -> (b: Self)
        ensures
            b.wf(),
            b@ == (PageView {
                blocks: Seq::empty(),
                state: no_block_open(),
                paragraph: None,
                code: Seq::empty(),
                item: None,
                last_line: None,
                list_base: None,
            }),
    {
        let b = PageBuilder {
            state: ClassifyState::new(),
            blocks: Vec::new(),
            paragraph: None,
            code: Vec::new(),
            item: None,
            last_line: None,
            list_base: None,
        };
        assert(b@ =~= (PageView {
            blocks: Seq::empty(),
            state: no_block_open(),
            paragraph: None,
            code: Seq::empty(),
            item: None,
            last_line: None,
            list_base: None,
        }));
        b
    }

    /// The index of the last line that was not skipped, since the last
    /// non-text block.
    pub fn last_line(&self) -> (r: Option<usize>)
        ensures
            r == self@.last_line,
    {
        self.last_line
    }

    /// The index of the line whose indent is the base of list nesting for
    /// line `index`: the first item of the current run of list items, or
    /// the line itself when it would start a run.
    pub fn item_base(&self, index: usize) -> (r: usize)
        ensures
            r == match self@.list_base {
                Some(b) => b,
                None => index,
            },
    {
        match self.list_base {
            Some(b) => b,
            None => index,
        }
    }

    fn push_block(&mut self, b: Block)
        ensures
            final(self)@ == (PageView { blocks: old(self)@.blocks.push(b@), ..old(self)@ }),
            final(self).state == old(self).state,
            final(self).paragraph is Some == old(self).paragraph is Some,
            final(self).code@.len() == old(self).code@.len(),
            final(self).item is Some == old(self).item is Some,
    {
        let ghost old_blocks = self.blocks@;
        self.blocks.push(b);
        assert(blocks_view(self.blocks@) =~= blocks_view(old_blocks).push(b@));
        assert(self@ =~= (PageView { blocks: old(self)@.blocks.push(b@), ..old(self)@ }));
    }

    /// Close the open paragraph, if any.
    fn close_paragraph(&mut self)
        ensures
            final(self)@ == (PageView {
                blocks: old(self)@.blocks + match old(self)@.paragraph {
                    Some(p) => seq![BlockView::Paragraph(p.0, p.1, p.2)],
                    None => Seq::empty(),
                },
                paragraph: None,
                ..old(self)@
            }),
            final(self).state == old(self).state,
            final(self).paragraph is None,
            final(self).code@.len() == old(self).code@.len(),
            final(self).item is Some == old(self).item is Some,
    {
        match self.paragraph.take() {
            Some(p) => {
                let ghost pv = p@;
                self.push_block(Block::Paragraph(p));
                assert(self@ =~= (PageView {
                    blocks: old(self)@.blocks + seq![BlockView::Paragraph(pv.0, pv.1, pv.2)],
                    paragraph: None,
                    ..old(self)@
                }));
            },
            None => {
                assert(self@ =~= (PageView {
                    blocks: old(self)@.blocks + Seq::empty(),
                    paragraph: None,
                    ..old(self)@
                }));
            },
        }
    }

    /// Close the open code block, if any.
    fn close_code(&mut self)
        ensures
            final(self)@ == (PageView {
                blocks: old(self)@.blocks + if old(self)@.code.len() > 0 {
                    seq![BlockView::Code(old(self)@.code)]
                } else {
                    Seq::empty()
                },
                code: Seq::empty(),
                ..old(self)@
            }),
            final(self).state == old(self).state,
            final(self).paragraph is Some == old(self).paragraph is Some,
            final(self).code@.len() == 0,
            final(self).item is Some == old(self).item is Some,
    {
        if self.code.len() > 0 {
            let mut lines: Vec<String> = Vec::new();
            std::mem::swap(&mut lines, &mut self.code);
            let ghost cv = lines_view(lines@);
            assert(cv == old(self)@.code);
            self.push_block(Block::CodeBlock(lines));
            assert(lines_view(self.code@) =~= Seq::<Seq<char>>::empty());
            assert(self@ =~= (PageView {
                blocks: old(self)@.blocks + seq![BlockView::Code(cv)],
                code: Seq::empty(),
                ..old(self)@
            }));
        } else {
            assert(lines_view(self.code@) =~= Seq::<Seq<char>>::empty());
            assert(self@ =~= (PageView {
                blocks: old(self)@.blocks + Seq::empty(),
                code: Seq::empty(),
                ..old(self)@
            }));
        }
    }

    /// Close the open list item, if any.
    fn close_item(&mut self)
        ensures
            final(self)@ == (PageView {
                blocks: old(self)@.blocks + match old(self)@.item {
                    Some(it) => seq![BlockView::ListItem(it.0, it.1, it.2, it.3)],
                    None => Seq::empty(),
                },
                item: None,
                ..old(self)@
            }),
            final(self).state == old(self).state,
            final(self).paragraph is Some == old(self).paragraph is Some,
            final(self).code@.len() == old(self).code@.len(),
            final(self).item is None,
    {
        match self.item.take() {
            Some(it) => {
                let ghost iv = (it.ordered, it.marker@, it.level, it.text@);
                self.push_block(
                    Block::ListItem {
                        ordered: it.ordered,
                        marker: it.marker,
                        level: it.level,
                        text: it.text,
                    },
                );
                assert(self@ =~= (PageView {
                    blocks: old(self)@.blocks + seq![BlockView::ListItem(iv.0, iv.1, iv.2, iv.3)],
                    item: None,
                    ..old(self)@
                }));
            },
            None => {
                assert(self@ =~= (PageView {
                    blocks: old(self)@.blocks + Seq::empty(),
                    item: None,
                    ..old(self)@
                }));
            },
        }
    }

    /// Close every open block.
    fn close_all(&mut self)
        ensures
            final(self)@ == (PageView {
                blocks: old(self)@.blocks + open_blocks(old(self)@),
                paragraph: None,
                code: Seq::empty(),
                item: None,
                ..old(self)@
            }),
            final(self).state == old(self).state,
            final(self).paragraph is None,
            final(self).code@.len() == 0,
            final(self).item is None,
    {
        self.close_paragraph();
        self.close_code();
        self.close_item();
        assert(self@ =~= (PageView {
            blocks: old(self)@.blocks + open_blocks(old(self)@),
            paragraph: None,
            code: Seq::empty(),
            item: None,
            ..old(self)@
        }));
    }

    /// Classify line `index` of the page (see `classify_line`) and add it to
    /// the page. `inline` is the line's inline rendering and `list_level`
    /// its nesting level should it be a list item; the line's uniform style
    /// is `facts.style`. Returns the action taken.
    pub fn push_line(
        &mut self,
        index: usize,
        facts: &LineFacts,
        struct_nodes: &[StructNode],
        heading_map_len: usize,
        inline: &str,
        list_level: u8,
    ) -> (a: LineAction)
        requires
            old(self).wf(),
            heading_map_len < 255,
        ensures
            final(self).wf(),
            a@ == line_action(old(self)@.state, *facts, struct_nodes@, heading_map_len as nat),
            final(self)@ == line_step(
                old(self)@,
                index,
                a@,
                facts.text@,
                facts.style,
                inline@,
                list_level,
            ),
    {
        let mut st = self.state;
        let a = classify_line(&mut st, facts, struct_nodes, heading_map_len);
        proof {
            lemma_classify_keeps_one_block_open(
                self.state,
                *facts,
                struct_nodes@,
                heading_map_len as nat,
            );
        }
        let ghost v = self@;
        match &a {
            LineAction::Skip => {},
            LineAction::CodeLine(t) => {
                self.close_paragraph();
                self.close_item();
                let ghost before = self.code@;
                self.code.push(t.clone());
                assert(lines_view(self.code@) =~= lines_view(before).push(t@));
                self.list_base = None;
                self.last_line = Some(index);
                self.state = st;
                assert(open_blocks(PageView { code: Seq::empty(), ..v }) =~= (match v.paragraph {
                    Some(p) => seq![BlockView::Paragraph(p.0, p.1, p.2)],
                    None => Seq::empty(),
                }) + (match v.item {
                    Some(it) => seq![BlockView::ListItem(it.0, it.1, it.2, it.3)],
                    None => Seq::empty(),
                }));
                assert(self@ =~= line_step(v, index, a@, facts.text@, facts.style, inline@, list_level));
            },
            LineAction::Heading { level, text } => {
                self.close_all();
                self.push_block(Block::Heading { level: *level, text: text.clone() });
                self.list_base = None;
                self.last_line = Some(index);
                self.state = st;
                assert(self@ =~= line_step(v, index, a@, facts.text@, facts.style, inline@, list_level));
            },
            LineAction::ListItem { ordered, marker, rest } => {
                self.close_all();
                self.item = Some(
                    OpenItem {
                        ordered: *ordered,
                        marker: marker.clone(),
                        level: list_level,
                        text: rest.clone(),
                    },
                );
                if self.list_base.is_none() {
                    self.list_base = Some(index);
                }
                self.last_line = Some(index);
                self.state = st;
                assert(self@ =~= line_step(v, index, a@, facts.text@, facts.style, inline@, list_level));
            },
            LineAction::ListContinuation => {
                match self.item.take() {
                    Some(mut it) => {
                        let trimmed = string_from_chars(trimmed_chars(facts.text.as_str()).as_slice());
                        dehyphenate_join(&mut it.text, trimmed.as_str(), inline);
                        self.item = Some(it);
                    },
                    None => {},
                }
                self.last_line = Some(index);
                self.state = st;
                assert(self@ =~= line_step(v, index, a@, facts.text@, facts.style, inline@, list_level));
            },
            LineAction::ParagraphAppend => {
                match self.paragraph.take() {
                    Some(mut p) => {
                        append_to_paragraph(&mut p, facts.text.as_str(), inline, facts.style);
                        self.paragraph = Some(p);
                    },
                    None => {},
                }
                self.last_line = Some(index);
                self.state = st;
                assert(self@ =~= line_step(v, index, a@, facts.text@, facts.style, inline@, list_level));
            },
            LineAction::ParagraphStart(t) => {
                self.close_all();
                let mut inl = String::new();
                inl.append(inline);
                let uniform = match facts.style {
                    Some(s) => Some((s.bold, s.italic)),
                    None => None,
                };
                self.paragraph = Some(ParaText { raw: t.clone(), inline: inl, uniform });
                self.list_base = None;
                self.last_line = Some(index);
                self.state = st;
                assert(self@ =~= line_step(v, index, a@, facts.text@, facts.style, inline@, list_level));
            },
        }
        a
    }

    /// A non-text block (a table, a horizontal rule, a figure) between two
    /// lines: it closes every open block, follows them, and leaves no last
    /// line and no run of list items.
    pub fn push_break(&mut self)
        requires
            old(self).wf(),
        ensures
            final(self).wf(),
            final(self)@ == closed_with(old(self)@, seq![BlockView::Break], None),
    {
        let ghost v = self@;
        self.close_all();
        self.push_block(Block::Break);
        self.state.break_blocks();
        self.last_line = None;
        self.list_base = None;
        assert(self@ =~= closed_with(v, seq![BlockView::Break], None));
    }

    /// The page's blocks, with every open block closed.
    pub fn finish(self) -> (blocks: Vec<Block>)
        requires
            self.wf(),
        ensures
            blocks_view(blocks@) == self@.blocks + open_blocks(self@),
    {
        let mut b = self;
        b.close_all();
        b.blocks
    }
}

} // verus!
