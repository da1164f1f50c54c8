//! Character-level text extraction: which PDF characters become text, how
//! they are grouped into segments, and which pages are extracted.
use vstd::prelude::*;

use crate::stdlib::{char_from_u32, is_scalar_value};
use crate::text::{is_ws, skip_ws_backward, skip_ws_forward, string_from_chars, trim};

verus! {

/// What one character of a PDF text page contributes to the text.
#[derive(Clone, Copy, Debug, PartialEq, Eq, Structural)]
pub enum CharKind {
    /// Not text: a null or invalid sentinel, an invalid code point, or a
    /// generated glyph.
    Skip,
    /// A line break, which ends the current segment.
    LineBreak,
    /// A space, whose effect is decided when the next glyph arrives.
    Space,
    /// A visible character.
    Glyph(char),
}

/// The kind of a PDF character with code point `unicode`; `is_generated`
/// says whether the PDF engine synthesized it. `0x02` (STX, used as a
/// hyphen by some encodings) reads as `-`.
pub open spec fn char_kind(unicode: u32, is_generated: bool) -> CharKind {
    if unicode == 0 || unicode == 0xFFFE || unicode == 0xFFFF {
        CharKind::Skip
    } else if unicode != 0x02 && !is_scalar_value(unicode) {
        CharKind::Skip
    } else {
        let c = if unicode == 0x02 {
            '-'
        } else {
            unicode as char
        };
        if c == '\n' || c == '\r' {
            CharKind::LineBreak
        } else if c == ' ' {
            CharKind::Space
        } else if is_generated {
            CharKind::Skip
        } else {
            CharKind::Glyph(c)
        }
    }
}

/// Classify one PDF character (see `char_kind`).
pub fn classify_pdf_char(unicode: u32, is_generated: bool) -> (k: CharKind)
    ensures
        k == char_kind(unicode, is_generated),
{
    // Skip null / invalid sentinels.
    if unicode == 0 || unicode == 0xFFFE || unicode == 0xFFFF {
        return CharKind::Skip;
    }
    let c = if unicode == 0x02 {
        '-'
    } else {
        match char_from_u32(unicode) {
            Some(c) => c,
            None => return CharKind::Skip,
        }
    };
    if c == '\n' || c == '\r' {
        return CharKind::LineBreak;
    }
    if c == ' ' {
        return CharKind::Space;
    }
    // Skip non-space generated characters (synthetic glyphs).
    if is_generated {
        return CharKind::Skip;
    }
    CharKind::Glyph(c)
}

/// A segment as seen from outside: its characters, whether it has started,
/// and whether a space was seen since its last glyph.
pub type SegmentView = (Seq<char>, bool, bool);

/// The view of an optional string.
pub open spec fn opt_view(r: Option<String>) -> Option<Seq<char>> {
    match r {
        Some(t) => Some(t@),
        None => None,
    }
}

/// What ending segment `v` yields: its trimmed text, when it has started
/// and that text is nonempty.
pub open spec fn flushed_text(v: SegmentView) -> Option<Seq<char>> {
    if v.1 && trim(v.0).len() > 0 {
        Some(trim(v.0))
    } else {
        None
    }
}

/// The segment after glyph `c` arrives: joined to a started segment (after
/// its pending space, if any) unless `split`, else the start of a new one.
pub open spec fn after_glyph(v: SegmentView, c: char, split: bool) -> SegmentView {
    if v.1 && !split {
        (if v.2 {
            v.0.push(' ').push(c)
        } else {
            v.0.push(c)
        }, true, false)
    } else {
        (seq![c], true, false)
    }
}

/// The text of the segment being accumulated: its characters, whether it
/// has started, and whether a space was seen since its last glyph.
pub struct SegmentText {
    text: Vec<char>,
    has_content: bool,
    pending_space: bool,
}

impl View for SegmentText {
    type V = SegmentView;

    closed spec fn view(&self) -> SegmentView {
        (self.text@, self.has_content, self.pending_space)
    }
}

impl SegmentText {
    /// A segment that has not started holds no text and no pending space;
    /// a started one holds text.
    #[verifier::type_invariant]
    spec fn wf(&self) -> bool {
        &&& !self.has_content ==> self.text@.len() == 0 && !self.pending_space
        &&& self.has_content ==> self.text@.len() > 0
    }

    /// No segment started yet.
    pub fn new() -> (s: Self)
        ensures
            s@ == (Seq::<char>::empty(), false, false),
    {
        SegmentText { text: Vec::new(), has_content: false, pending_space: false }
    }

    /// Whether a segment has started.
    pub fn has_content(&self) -> (b: bool)
        ensures
            b == self@.1,
    {
        self.has_content
    }

    /// Whether a space was seen since the last glyph.
    pub fn pending_space(&self) -> (b: bool)
        ensures
            b == self@.2,
    {
        self.pending_space
    }

    /// Record that a space was seen; whether it is kept or splits the
    /// segment is decided when the next glyph arrives.
    pub fn mark_pending_space(&mut self)
        ensures
            final(self)@ == (old(self)@.0, old(self)@.1, old(self)@.2 || old(self)@.1),
    {
        proof {
            use_type_invariant(&*self);
        }
        if self.has_content {
            self.pending_space = true;
        }
    }

    /// End the current segment: returns its trimmed text when that is
    /// nonempty, and leaves no segment started.
    pub fn flush(&mut self) -> (r: Option<String>)
        ensures
            final(self)@ == (Seq::<char>::empty(), false, false),
            opt_view(r) == flushed_text(old(self)@),
    {
        proof {
            use_type_invariant(&*self);
        }
        if !self.has_content {
            return None;
        }
        let n = self.text.len();
        let i = skip_ws_forward(&self.text, 0, n);
        let j = skip_ws_backward(&self.text, i, n);
        assert(self.text@.subrange(0, n as int) =~= self.text@);
        let mut out: Vec<char> = Vec::new();
        let mut k = i;
        while k < j
            invariant
                i <= k <= j <= n == self.text@.len(),
                out@ == self.text@.subrange(i as int, k as int),
            decreases j - k,
        {
            out.push(self.text[k]);
            assert(self.text@.subrange(i as int, k as int + 1) =~= self.text@.subrange(
                i as int,
                k as int,
            ).push(self.text@[k as int]));
            k = k + 1;
        }
        *self = SegmentText { text: Vec::new(), has_content: false, pending_space: false };
        if out.len() == 0 {
            None
        } else {
            Some(string_from_chars(out.as_slice()))
        }
    }

    /// Take in a glyph. When a segment has started and `split` is false the
    /// glyph joins it (after the pending space, if any); when `split` is
    /// true the current segment is flushed and returned, and the glyph
    /// starts a new one. With no segment started the glyph starts one and
    /// `split` is not consulted.
    pub fn add_glyph(&mut self, c: char, split: bool) -> (r: Option<String>)
        ensures
            final(self)@ == after_glyph(old(self)@, c, split),
            opt_view(r) == (if old(self)@.1 && split {
                flushed_text(old(self)@)
            } else {
                None
            }),
    {
        proof {
            use_type_invariant(&*self);
        }
        if self.has_content && !split {
            let mut cur = SegmentText::new();
            std::mem::swap(self, &mut cur);
            let SegmentText { mut text, has_content: _, pending_space } = cur;
            if pending_space {
                text.push(' ');
            }
            text.push(c);
            *self = SegmentText { text, has_content: true, pending_space: false };
            return None;
        }
        let flushed = if self.has_content {
            self.flush()
        } else {
            None
        };
        let mut t: Vec<char> = Vec::new();
        t.push(c);
        *self = SegmentText { text: t, has_content: true, pending_space: false };
        flushed
    }
}

/// One character's effect on segment `v`, and the finished segment text it
/// hands back, if any. A line break ends the segment; a space becomes
/// pending; a glyph joins the segment or starts a new one. It splits off a
/// new segment when it is not on the segment's line (`same_line` false), or
/// when a space preceded it and the gap to the segment's last glyph is wide
/// (`wide_gap`).
pub open spec fn char_step(v: SegmentView, kind: CharKind, same_line: bool, wide_gap: bool) -> (
    SegmentView,
    Option<Seq<char>>,
) {
    match kind {
        CharKind::Skip => (v, None),
        CharKind::LineBreak => ((Seq::empty(), false, false), flushed_text(v)),
        CharKind::Space => ((v.0, v.1, v.2 || v.1), None),
        CharKind::Glyph(c) => {
            let split = !same_line || (v.2 && wide_gap);
            (after_glyph(v, c, split), if v.1 && split {
                flushed_text(v)
            } else {
                None
            })
        },
    }
}

/// Whether a glyph with the given measurements joins segment `v` rather
/// than ending it or starting a new one: the segment has started, the glyph
/// is on its line, and it does not follow a space across a wide gap.
pub open spec fn glyph_joins(v: SegmentView, same_line: bool, wide_gap: bool) -> bool {
    v.1 && same_line && !(v.2 && wide_gap)
}

impl SegmentText {
    /// Whether a glyph with these measurements would join the current
    /// segment (see `take_char`); when it does not, it starts a new one.
    pub fn joins(&self, same_line: bool, wide_gap: bool) -> (b: bool)
        ensures
            b == glyph_joins(self@, same_line, wide_gap),
    {
        self.has_content && same_line && !(self.pending_space && wide_gap)
    }

    /// Take in one character of a text page. For a glyph, `same_line` says
    /// whether its box overlaps the segment's box vertically (within 2pt)
    /// and starts less than 15pt right of the segment's last glyph, and
    /// `wide_gap` whether that gap exceeds 1.6 average glyph widths of the
    /// segment; both are consulted only when a segment has started. Returns
    /// the text of a segment that this character ended, if any.
    pub fn take_char(&mut self, kind: CharKind, same_line: bool, wide_gap: bool) -> (r: Option<
        String,
    >)
        ensures
            (final(self)@, opt_view(r)) == char_step(old(self)@, kind, same_line, wide_gap),
    {
        match kind {
            CharKind::Skip => None,
            CharKind::LineBreak => self.flush(),
            CharKind::Space => {
                self.mark_pending_space();
                None
            },
            CharKind::Glyph(c) => {
                // Different line or a column-sized gap always splits; after a
                // space, a gap wide against the average glyph width splits too
                // (table columns), while ordinary word spacing joins.
                let split = !same_line || (self.pending_space && wide_gap);
                self.add_glyph(c, split)
            },
        }
    }
}

/// The 0-based indices of the pages to extract from a document with
/// `page_count` pages: all of them, in order, or only the page with 1-based
/// number `page_num` when one is given.
pub fn extract_pages(page_count: i32, page_num: Option<u32>) -> (r: Vec<i32>)
    ensures
        forall|i: int| 0 <= i < r@.len() - 1 ==> #[trigger] r@[i] < r@[i + 1],
        forall|p: i32|
            #[trigger] r@.contains(p) <==> (0 <= p < page_count && match page_num {
                Some(t) => p + 1 == t,
                None => true,
            }),
{
    let mut r: Vec<i32> = Vec::new();
    let mut i: i32 = 0;
    while i < page_count
        invariant
            0 <= i,
            page_count <= 0 ==> i == 0,
            page_count > 0 ==> i <= page_count,
            forall|k: int| 0 <= k < r@.len() ==> #[trigger] r@[k] < i,
            forall|k: int| 0 <= k < r@.len() - 1 ==> #[trigger] r@[k] < r@[k + 1],
            forall|p: i32|
                #[trigger] r@.contains(p) <==> (0 <= p < i && match page_num {
                    Some(t) => p + 1 == t,
                    None => true,
                }),
        decreases page_count - i,
    {
        let keep = match page_num {
            Some(t) => i as u32 + 1 == t,
            None => true,
        };
        let ghost old_r = r@;
        if keep {
            r.push(i);
        }
        proof {
            assert forall|p: i32|
                #[trigger] r@.contains(p) <==> (0 <= p < i + 1 && match page_num {
                    Some(t) => p + 1 == t,
                    None => true,
                }) by {
                if r@.contains(p) {
                    let k = choose|k: int| 0 <= k < r@.len() && r@[k] == p;
                    if k < old_r.len() {
                        assert(old_r[k] == p);
                    }
                }
                if p == i && keep {
                    assert(r@[old_r.len() as int] == p);
                }
                if old_r.contains(p) {
                    let k = choose|k: int| 0 <= k < old_r.len() && old_r[k] == p;
                    assert(r@[k] == p);
                }
            }
        }
        i = i + 1;
    }
    r
}

} // verus!
