//! Paragraph grouping: when one line continues another, and how a line's
//! text is appended to a running paragraph.
use vstd::prelude::*;

use crate::stdlib::{is_lower, is_lowercase};
use crate::text::{
    chars_of, collapse, collapse_chars, is_ascii_lower, is_ascii_lowercase, is_ws,
    skip_ws_backward, skip_ws_forward, string_from_chars, trim, trim_end, trim_start,
    trimmed_chars,
};
use vstd::string::StringExecFns;

verus! {

/// The emphasis a whole line (or span) is set in.
#[derive(Clone, Copy, Debug, PartialEq, Eq, Structural)]
pub struct SpanStyle {
    pub bold: bool,
    pub italic: bool,
    pub mono: bool,
}

/// `prev` after appending `to_append` across a line break: when `prev` ends
/// with `-` and `check` starts with an ASCII lowercase letter the hyphen is
/// dropped and the texts are concatenated, otherwise they are joined with a
/// single space. Nothing is appended when `check` is empty, and an empty
/// `prev` just becomes `to_append`.
pub open spec fn dehyphenated(prev: Seq<char>, check: Seq<char>, to_append: Seq<char>) -> Seq<char> {
    if check.len() == 0 {
        prev
    } else if prev.len() == 0 {
        to_append
    } else if prev.last() == '-' && is_ascii_lower(check[0]) {
        prev.drop_last() + to_append
    } else {
        prev + seq![' '] + to_append
    }
}

/// Append `to_append` onto `prev`, de-hyphenating across the boundary. When
/// `prev` ends with `-` and `check` (the plain text of the continuation) starts
/// with an ASCII lowercase letter, the trailing hyphen is dropped and the text
/// concatenated directly (`co-` + `operate` → `cooperate`); otherwise the join
/// is a single space.
///
/// `check` and `to_append` are separate so a caller tracking a styled `inline`
/// representation can test the condition against the raw text while appending
/// the inline-rendered chunk. Plain-text callers pass the same string twice.
pub fn dehyphenate_join(prev: &mut String, check: &str, to_append: &str)
    ensures
        final(prev)@ == dehyphenated(old(prev)@, check@, to_append@),
{
    let check_chars = chars_of(check);
    if check_chars.len() == 0 {
        return ;
    }
    let prev_chars = chars_of(prev.as_str());
    let n = prev_chars.len();
    if n == 0 {
        prev.append(to_append);
        return ;
    }
    if prev_chars[n - 1] == '-' && is_ascii_lowercase(check_chars[0]) {
        let mut kept: Vec<char> = Vec::new();
        let mut i: usize = 0;
        while i + 1 < n
            invariant
                i < n == prev_chars@.len(),
                kept@ == prev_chars@.take(i as int),
            decreases n - i,
        {
            kept.push(prev_chars[i]);
            assert(prev_chars@.take(i as int + 1) =~= prev_chars@.take(i as int).push(
                prev_chars@[i as int],
            ));
            i = i + 1;
        }
        assert(kept@ =~= prev_chars@.drop_last());
        let mut joined = string_from_chars(kept.as_slice());
        joined.append(to_append);
        *prev = joined;
    } else {
        prev.append(" ");
        assert(" "@ == seq![' ']) by {
            reveal_strlit(" ");
        }
        prev.append(to_append);
    }
}

/// The text side of a paragraph being accumulated.
///
/// - `raw`: plain text (no emphasis markers);
/// - `inline`: per-line markdown with emphasis baked in;
/// - `uniform`: `Some((bold, italic))` while every line so far was uniformly
///   styled with those same flags, `None` as soon as that breaks.
#[derive(Clone, Debug)]
pub struct ParaText {
    pub raw: String,
    pub inline: String,
    pub uniform: Option<(bool, bool)>,
}

/// The `(bold, italic)` flags of an optional uniform style.
pub open spec fn style_flags(s: Option<SpanStyle>) -> Option<(bool, bool)> {
    match s {
        Some(st) => Some((st.bold, st.italic)),
        None => None,
    }
}

/// The running uniform flags after a line with uniform style `next` joins
/// a paragraph whose flags are `cur`.
pub open spec fn merged_uniform(cur: Option<(bool, bool)>, next: Option<SpanStyle>) -> Option<
    (bool, bool),
> {
    match (cur, next) {
        (Some(c), Some(s)) => if c == (s.bold, s.italic) {
            Some(c)
        } else {
            None
        },
        _ => None,
    }
}

/// A paragraph `(raw, inline, uniform)` after a line with text `text`,
/// inline rendering `inline` and uniform style `uniform` is appended (see
/// `append_to_paragraph`).
pub open spec fn para_appended(
    p: (Seq<char>, Seq<char>, Option<(bool, bool)>),
    text: Seq<char>,
    inline: Seq<char>,
    uniform: Option<SpanStyle>,
) -> (Seq<char>, Seq<char>, Option<(bool, bool)>) {
    let next_raw = collapse(trim(text));
    if next_raw.len() == 0 {
        p
    } else if p.0.len() == 0 {
        (next_raw, p.1 + inline, style_flags(uniform))
    } else {
        (
            dehyphenated(p.0, next_raw, next_raw),
            dehyphenated(p.1, next_raw, inline),
            merged_uniform(p.2, uniform),
        )
    }
}

/// Append a line to a paragraph accumulator. `next_text` is the line's
/// plain text, `next_inline` its inline-rendered markdown, and
/// `next_uniform` its uniform style if it has one. Returns whether the line
/// contributed anything (a line whose collapsed text is empty is skipped,
/// and the caller then keeps its previous "last line").
///
/// De-hyphenation runs on the `raw` boundary; the `inline` boundary uses the
/// same raw lowercase test but checks its own trailing character, so a
/// hyphen tucked inside an emphasis wrap is not stripped.
pub fn append_to_paragraph(
    accum: &mut ParaText,
    next_text: &str,
    next_inline: &str,
    next_uniform: Option<SpanStyle>,
) -> (appended: bool)
    ensures
        ({
            let next_raw = collapse(trim(next_text@));
            &&& appended == (next_raw.len() > 0)
            &&& !appended ==> final(accum)@ == old(accum)@
            &&& appended && old(accum).raw@.len() == 0 ==> {
                &&& final(accum).raw@ == next_raw
                &&& final(accum).inline@ == old(accum).inline@ + next_inline@
                &&& final(accum).uniform == style_flags(next_uniform)
            }
            &&& appended && old(accum).raw@.len() > 0 ==> {
                &&& final(accum).raw@ == dehyphenated(old(accum).raw@, next_raw, next_raw)
                &&& final(accum).inline@ == dehyphenated(old(accum).inline@, next_raw, next_inline@)
                &&& final(accum).uniform == merged_uniform(old(accum).uniform, next_uniform)
            }
        }),
        final(accum)@ == para_appended(old(accum)@, next_text@, next_inline@, next_uniform),
{
    let trimmed = trimmed_chars(next_text);
    let next_raw = string_from_chars(collapse_chars(&trimmed).as_slice());
    if next_raw.as_str().is_empty() {
        return false;
    }
    if accum.raw.as_str().is_empty() {
        accum.raw.append(next_raw.as_str());
        accum.inline.append(next_inline);
        accum.uniform = match next_uniform {
            Some(s) => Some((s.bold, s.italic)),
            None => None,
        };
        return true;
    }
    dehyphenate_join(&mut accum.raw, next_raw.as_str(), next_raw.as_str());
    dehyphenate_join(&mut accum.inline, next_raw.as_str(), next_inline);
    accum.uniform = match (accum.uniform, next_uniform) {
        (Some(cur), Some(s)) => if cur.0 == s.bold && cur.1 == s.italic {
            Some(cur)
        } else {
            None
        },
        _ => None,
    };
    true
}

} // verus!

verus! {

impl View for ParaText {
    type V = (Seq<char>, Seq<char>, Option<(bool, bool)>);

    open spec fn view(&self) -> Self::V {
        (self.raw@, self.inline@, self.uniform)
    }
}

/// The geometric facts about two consecutive lines that decide paragraph
/// continuation, measured from the lines' boxes, font sizes and anchors:
/// - `centered_mismatch`: exactly one of the two lines is centered;
/// - `size_close`: their dominant font sizes differ by at most 2.5pt;
/// - `same_region`: both lie in the same layout region;
/// - `indent_shift`: the second line is left-anchored and indented more than
///   6pt right of the first;
/// - `gap_ok`: the vertical gap between them is at most 1.5 line heights.
#[derive(Clone, Copy, Debug, PartialEq, Eq, Structural)]
pub struct PairGeometry {
    pub centered_mismatch: bool,
    pub size_close: bool,
    pub same_region: bool,
    pub indent_shift: bool,
    pub gap_ok: bool,
}

/// Characters that close a sentence or clause at the end of a line.
pub open spec fn is_closing(c: char) -> bool {
    ||| c == '.'
    ||| c == '!'
    ||| c == '?'
    ||| c == ':'
    ||| c == ';'
    ||| c == '\u{201D}'
    ||| c == '"'
    ||| c == ')'
    ||| c == ']'
    ||| c == '\u{3002}'
    ||| c == '\u{300F}'
    ||| c == '\u{300D}'
}

fn is_closing_char(c: char) -> (b: bool)
    ensures
        b == is_closing(c),
{
    c == '.' || c == '!' || c == '?' || c == ':' || c == ';' || c == '\u{201D}' || c == '"' || c
        == ')' || c == ']' || c == '\u{3002}' || c == '\u{300F}' || c == '\u{300D}'
}

/// A line continues a paragraph across a region boundary only when the
/// previous line ends without closing punctuation and the next line starts
/// with a lowercase letter.
pub open spec fn wraps_across_regions(prev: Seq<char>, cur: Seq<char>) -> bool {
    let p = trim_end(prev);
    let c = trim_start(cur);
    &&& !(p.len() > 0 && is_closing(p.last()))
    &&& c.len() > 0
    &&& is_lower(c[0])
}

/// Whether the second of two consecutive lines continues the paragraph of
/// the first: the anchors must not differ in centering, the font sizes must
/// be close, uniform bold must not switch on or off, and then either the
/// lines sit in different regions and the text wraps across them, or they
/// share a region, the second is not indented right of the first, and the
/// gap between them is small.
pub open spec fn continues(
    prev_text: Seq<char>,
    cur_text: Seq<char>,
    prev_style: Option<SpanStyle>,
    cur_style: Option<SpanStyle>,
    geom: PairGeometry,
) -> bool {
    if geom.centered_mismatch || !geom.size_close {
        false
    } else if prev_style is Some && cur_style is Some && prev_style->0.bold != cur_style->0.bold {
        false
    } else if !geom.same_region {
        wraps_across_regions(prev_text, cur_text)
    } else {
        !geom.indent_shift && geom.gap_ok
    }
}

/// Decide whether the line `cur_text` continues the paragraph whose last
/// line is `prev_text`, given the lines' uniform styles and their geometry.
pub fn continues_paragraph(
    prev_text: &str,
    cur_text: &str,
    prev_style: Option<SpanStyle>,
    cur_style: Option<SpanStyle>,
    geom: &PairGeometry,
) -> (b: bool)
    ensures
        b == continues(prev_text@, cur_text@, prev_style, cur_style, *geom),
{
    // Anchor only signals a paragraph break when one of the lines is clearly
    // centered while the other isn't.
    if geom.centered_mismatch {
        return false;
    }
    if !geom.size_close {
        return false;
    }
    // Uniform-bold ↔ non-bold transition is a paragraph break.
    if let (Some(p), Some(c)) = (prev_style, cur_style) {
        if p.bold != c.bold {
            return false;
        }
    }
    if !geom.same_region {
        // Cross-region continuation: a paragraph can wrap from the bottom of
        // one column into the top of the next.
        let pc = chars_of(prev_text);
        let pn = pc.len();
        let pe = skip_ws_backward(&pc, 0, pn);
        assert(pc@.subrange(0, pn as int) =~= pc@);
        let ends_open = !(pe > 0 && is_closing_char(pc[pe - 1]));
        let cc = chars_of(cur_text);
        let cn = cc.len();
        let cs = skip_ws_forward(&cc, 0, cn);
        assert(cc@.subrange(0, cn as int) =~= cc@);
        let starts_lower = cs < cn && is_lowercase(cc[cs]);
        return ends_open && starts_lower;
    }
    if geom.indent_shift {
        return false;
    }
    geom.gap_ok
}

} // verus!
