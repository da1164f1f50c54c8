//! Heading detection: caption lines, struct-tree roles, outline entries,
//! bold body-size headings and numbered bold headings.
use vstd::prelude::*;

use crate::paragraphs::SpanStyle;
use crate::stdlib::{char_lowercase, char_to_lowercase, is_alpha, is_alphabetic};
use crate::text::{
    chars_of, is_ascii_digit, is_digit, is_whitespace, is_ws, skip_ws_backward, skip_ws_forward,
    trim, trim_start, trimmed_chars,
};

verus! {

/// `c` with ASCII uppercase letters mapped to lowercase.
pub open spec fn ascii_fold(c: char) -> char {
    if 'A' <= c <= 'Z' {
        ((c as u32) + 32) as char
    } else {
        c
    }
}

/// Equality ignoring ASCII case (as `str::eq_ignore_ascii_case`).
pub open spec fn eq_ignore_ascii_case(a: Seq<char>, b: Seq<char>) -> bool {
    &&& a.len() == b.len()
    &&& forall|i: int| 0 <= i < a.len() ==> ascii_fold(#[trigger] a[i]) == ascii_fold(b[i])
}

fn fold_char(c: char) -> (r: char)
    ensures
        r == ascii_fold(c),
{
    if 'A' <= c && c <= 'Z' {
        let u = (c as u32) + 32;
        let b = u as u8;
        b as char
    } else {
        c
    }
}

fn chars_eq_ignore_ascii_case(a: &Vec<char>, lit: &str) -> (b: bool)
    ensures
        b == eq_ignore_ascii_case(a@, lit@),
{
    let l = chars_of(lit);
    if a.len() != l.len() {
        return false;
    }
    let mut i: usize = 0;
    while i < a.len()
        invariant
            a@.len() == l@.len(),
            l@ == lit@,
            i <= a@.len(),
            forall|k: int| 0 <= k < i ==> ascii_fold(#[trigger] a@[k]) == ascii_fold(l@[k]),
        decreases a@.len() - i,
    {
        if fold_char(a[i]) != fold_char(l[i]) {
            return false;
        }
        i = i + 1;
    }
    true
}

/// The words a caption starts with ("Figure 7", "Fig. 12.", "Table 3:",
/// "Tab. 5", "Equation (4)", ...), compared ignoring ASCII case.
pub open spec fn is_caption_word(w: Seq<char>) -> bool {
    ||| eq_ignore_ascii_case(w, "Figure"@)
    ||| eq_ignore_ascii_case(w, "Figures"@)
    ||| eq_ignore_ascii_case(w, "Fig."@)
    ||| eq_ignore_ascii_case(w, "Fig"@)
    ||| eq_ignore_ascii_case(w, "Table"@)
    ||| eq_ignore_ascii_case(w, "Tables"@)
    ||| eq_ignore_ascii_case(w, "Tab."@)
    ||| eq_ignore_ascii_case(w, "Tab"@)
    ||| eq_ignore_ascii_case(w, "Equation"@)
    ||| eq_ignore_ascii_case(w, "Eq."@)
    ||| eq_ignore_ascii_case(w, "Eq"@)
    ||| eq_ignore_ascii_case(w, "Scheme"@)
    ||| eq_ignore_ascii_case(w, "Chart"@)
    ||| eq_ignore_ascii_case(w, "Plate"@)
    ||| eq_ignore_ascii_case(w, "Photo"@)
    ||| eq_ignore_ascii_case(w, "Algorithm"@)
    ||| eq_ignore_ascii_case(w, "Listing"@)
}

fn caption_word(w: &Vec<char>) -> (b: bool)
    ensures
        b == is_caption_word(w@),
{
    chars_eq_ignore_ascii_case(w, "Figure") || chars_eq_ignore_ascii_case(w, "Figures")
        || chars_eq_ignore_ascii_case(w, "Fig.") || chars_eq_ignore_ascii_case(w, "Fig")
        || chars_eq_ignore_ascii_case(w, "Table") || chars_eq_ignore_ascii_case(w, "Tables")
        || chars_eq_ignore_ascii_case(w, "Tab.") || chars_eq_ignore_ascii_case(w, "Tab")
        || chars_eq_ignore_ascii_case(w, "Equation") || chars_eq_ignore_ascii_case(w, "Eq.")
        || chars_eq_ignore_ascii_case(w, "Eq") || chars_eq_ignore_ascii_case(w, "Scheme")
        || chars_eq_ignore_ascii_case(w, "Chart") || chars_eq_ignore_ascii_case(w, "Plate")
        || chars_eq_ignore_ascii_case(w, "Photo") || chars_eq_ignore_ascii_case(w, "Algorithm")
        || chars_eq_ignore_ascii_case(w, "Listing")
}

/// Number of characters at the start of `t` that are alphabetic or `.`.
pub open spec fn word_len(t: Seq<char>) -> nat
    decreases t.len(),
{
    if t.len() > 0 && (is_alpha(t[0]) || t[0] == '.') {
        1 + word_len(t.drop_first())
    } else {
        0
    }
}

/// What may follow a caption word: a digit, `(` and a digit, or the start
/// of a roman numeral (`I`, `V`, `X`, `L`, `C`).
pub open spec fn starts_caption_number(r: Seq<char>) -> bool {
    &&& r.len() > 0
    &&& {
        ||| is_digit(r[0])
        ||| (r[0] == '(' && r.len() > 1 && is_digit(r[1]))
        ||| r[0] == 'I'
        ||| r[0] == 'V'
        ||| r[0] == 'X'
        ||| r[0] == 'L'
        ||| r[0] == 'C'
    }
}

/// A caption line: after leading whitespace, a caption word followed
/// (after optional whitespace) by a number.
pub open spec fn is_caption(text: Seq<char>) -> bool {
    let t = trim_start(text);
    let w = word_len(t) as int;
    &&& is_caption_word(t.subrange(0, w))
    &&& starts_caption_number(trim_start(t.subrange(w, t.len() as int)))
}

/// `is_caption_line` on a character vector.
pub fn caption_chars(cs: &Vec<char>) -> (b: bool)
    ensures
        b == is_caption(cs@),
{
    let n = cs.len();
    let start = skip_ws_forward(cs, 0, n);
    assert(cs@.subrange(0, n as int) =~= cs@);
    let ghost t = cs@.subrange(start as int, n as int);
    let mut k = start;
    while k < n && (is_alphabetic(cs[k]) || cs[k] == '.')
        invariant
            start <= k <= n == cs@.len(),
            t == cs@.subrange(start as int, n as int),
            word_len(t) == (k - start) + word_len(cs@.subrange(k as int, n as int)),
        decreases n - k,
    {
        assert(cs@.subrange(k as int, n as int).drop_first() =~= cs@.subrange(
            k as int + 1,
            n as int,
        ));
        k = k + 1;
    }
    let ghost w = (k - start) as int;
    assert(word_len(t) == w);
    let mut word: Vec<char> = Vec::new();
    let mut q = start;
    while q < k
        invariant
            start <= q <= k <= n == cs@.len(),
            word@ == cs@.subrange(start as int, q as int),
        decreases k - q,
    {
        word.push(cs[q]);
        assert(cs@.subrange(start as int, q as int + 1) =~= cs@.subrange(start as int, q as int).push(
            cs@[q as int],
        ));
        q = q + 1;
    }
    assert(word@ =~= t.subrange(0, w));
    if !caption_word(&word) {
        return false;
    }
    let r = skip_ws_forward(cs, k, n);
    assert(t.subrange(w, t.len() as int) =~= cs@.subrange(k as int, n as int));
    if r >= n {
        return false;
    }
    let c0 = cs[r];
    is_ascii_digit(c0) || (c0 == '(' && r + 1 < n && is_ascii_digit(cs[r + 1])) || c0 == 'I' || c0
        == 'V' || c0 == 'X' || c0 == 'L' || c0 == 'C'
}

/// Recognize caption-prefix lines like "Figure 7", "Fig. 12.", "Table 3:",
/// "Tab. 5", "Equation (4)" — these routinely render in a slightly distinct
/// font/size that would otherwise promote them to a document-level heading.
pub fn is_caption_line(text: &str) -> (b: bool)
    ensures
        b == is_caption(text@),
{
    let cs = chars_of(text);
    caption_chars(&cs)
}

} // verus!

verus! {

/// The value of a sequence of ASCII digits.
pub open spec fn digits_value(s: Seq<char>) -> nat
    decreases s.len(),
{
    if s.len() == 0 {
        0
    } else {
        digits_value(s.drop_last()) * 10 + ((s.last() as u32) - 48) as nat
    }
}

/// `s` without one leading `+`, if it has one.
pub open spec fn without_plus(s: Seq<char>) -> Seq<char> {
    if s.len() > 0 && s[0] == '+' {
        s.drop_first()
    } else {
        s
    }
}

/// Every character of `s` is an ASCII digit.
pub open spec fn all_digits(s: Seq<char>) -> bool {
    forall|i: int| 0 <= i < s.len() ==> is_digit(#[trigger] s[i])
}

/// What `u8::from_str` gives for the characters `s`: an optional `+`, then
/// one or more ASCII digits whose value fits in a `u8`; `None` otherwise.
pub open spec fn parse_u8(s: Seq<char>) -> Option<u8> {
    let b = without_plus(s);
    if b.len() == 0 || !all_digits(b) {
        None
    } else if digits_value(b) <= 255 {
        Some(digits_value(b) as u8)
    } else {
        None
    }
}

proof fn lemma_digits_value_grows(s: Seq<char>, c: char)
    requires
        is_digit(c),
    ensures
        digits_value(s.push(c)) >= digits_value(s),
        digits_value(s.push(c)) == digits_value(s) * 10 + ((c as u32) - 48) as nat,
{
    assert(s.push(c).drop_last() =~= s);
}

/// `parse_u8` of `cs` from position `from` on.
fn parse_u8_from(cs: &Vec<char>, from: usize) -> (r: Option<u8>)
    requires
        from <= cs@.len(),
    ensures
        r == parse_u8(cs@.subrange(from as int, cs@.len() as int)),
{
    let n = cs.len();
    let ghost s = cs@.subrange(from as int, n as int);
    let mut start = from;
    if from < n && cs[from] == '+' {
        start = from + 1;
    }
    let ghost b = cs@.subrange(start as int, n as int);
    assert(b =~= without_plus(s));
    if start == n {
        return None;
    }
    // `acc` is the value read so far, capped at 256.
    let mut acc: u32 = 0;
    let mut i = start;
    while i < n
        invariant
            start <= i <= n == cs@.len(),
            b == cs@.subrange(start as int, n as int),
            s == cs@.subrange(from as int, n as int),
            b == without_plus(s),
            forall|k: int| start <= k < i ==> is_digit(#[trigger] cs@[k]),
            acc as nat == if digits_value(cs@.subrange(start as int, i as int)) <= 256 {
                digits_value(cs@.subrange(start as int, i as int))
            } else {
                256
            },
        decreases n - i,
    {
        let c = cs[i];
        if !is_ascii_digit(c) {
            assert(b[i - start] == c);
            assert(!is_digit(b[i - start]));
            assert(!all_digits(b));
            return None;
        }
        let ghost pre = cs@.subrange(start as int, i as int);
        assert(cs@.subrange(start as int, i as int + 1) =~= pre.push(c));
        proof {
            lemma_digits_value_grows(pre, c);
        }
        let d = (c as u32) - 48;
        let next = acc * 10 + d;
        acc = if next > 256 {
            256
        } else {
            next
        };
        i = i + 1;
    }
    assert(cs@.subrange(start as int, n as int) =~= b);
    assert forall|k: int| 0 <= k < b.len() implies is_digit(#[trigger] b[k]) by {
        assert(b[k] == cs@[start + k]);
    }
    if acc <= 255 {
        Some(acc as u8)
    } else {
        None
    }
}

/// The heading level a struct-tree role names: `H1`..`H6` (or lowercase
/// `h`), surrounding whitespace ignored, the number read as `u8::from_str`
/// reads it.
pub open spec fn role_level(role: Seq<char>) -> Option<u8> {
    let t = trim(role);
    if t.len() == 0 || !(t[0] == 'H' || t[0] == 'h') {
        None
    } else {
        match parse_u8(t.subrange(1, t.len() as int)) {
            Some(n) => if 1 <= n <= 6 {
                Some(n)
            } else {
                None
            },
            None => None,
        }
    }
}

/// Parse a struct-tree role string like "H1" or "H3" into a heading level.
/// Returns None for non-heading roles (P, L, Figure, Table, ...).
pub fn parse_heading_role(role: &str) -> (r: Option<u8>)
    ensures
        r == role_level(role@),
{
    let cs = trimmed_chars(role);
    let n = cs.len();
    if n == 0 || !(cs[0] == 'H' || cs[0] == 'h') {
        return None;
    }
    match parse_u8_from(&cs, 1) {
        Some(v) => if 1 <= v && v <= 6 {
            Some(v)
        } else {
            None
        },
        None => None,
    }
}

/// A node of a tagged PDF's structure tree: its role (`H1`, `P`, `Table`,
/// ...) and the marked-content ids it covers.
#[derive(Clone, Debug)]
pub struct StructNode {
    pub role: String,
    pub mcids: Vec<i32>,
}

/// The level of the first node, from position `i` on, that covers `mcid`
/// and whose role names a heading level.
pub open spec fn first_struct_level(nodes: Seq<StructNode>, mcid: i32, i: int) -> Option<u8>
    decreases nodes.len() - i,
{
    if i >= nodes.len() || i < 0 {
        None
    } else if nodes[i].mcids@.contains(mcid) && role_level(nodes[i].role@) is Some {
        role_level(nodes[i].role@)
    } else {
        first_struct_level(nodes, mcid, i + 1)
    }
}

/// Highest-priority heading source: a struct-tree node `H1`..`H6` directly
/// tagging a line via its marked-content id. Available only for tagged PDFs.
pub fn struct_heading_level(mcid: Option<i32>, struct_nodes: &[StructNode]) -> (r: Option<u8>)
    ensures
        r == match mcid {
            Some(m) => first_struct_level(struct_nodes@, m, 0),
            None => None,
        },
{
    if mcid.is_none() {
        return None;
    }
    let m = mcid.unwrap();
    let mut i: usize = 0;
    while i < struct_nodes.len()
        invariant
            i <= struct_nodes@.len(),
            mcid == Some(m),
            first_struct_level(struct_nodes@, m, 0) == first_struct_level(
                struct_nodes@,
                m,
                i as int,
            ),
        decreases struct_nodes@.len() - i,
    {
        let node = &struct_nodes[i];
        let mut covers = false;
        let mut k: usize = 0;
        while k < node.mcids.len()
            invariant
                k <= node.mcids@.len(),
                covers == node.mcids@.take(k as int).contains(m),
            decreases node.mcids@.len() - k,
        {
            let ghost ids = node.mcids@;
            if node.mcids[k] == m {
                covers = true;
            }
            assert(ids.take(k as int + 1) =~= ids.take(k as int).push(ids[k as int]));
            assert(ids.take(k as int + 1)[k as int] == ids[k as int]);
            assert(ids.take(k as int + 1).contains(m) ==> (ids.take(k as int).contains(m)
                || ids[k as int] == m)) by {
                if ids.take(k as int + 1).contains(m) {
                    let q = choose|q: int| 0 <= q < k + 1 && #[trigger] ids.take(k as int + 1)[q] == m;
                    if q < k {
                        assert(ids.take(k as int)[q] == m);
                    }
                }
            }
            assert(ids.take(k as int).contains(m) ==> ids.take(k as int + 1).contains(m)) by {
                if ids.take(k as int).contains(m) {
                    let q = choose|q: int| 0 <= q < k && #[trigger] ids.take(k as int)[q] == m;
                    assert(ids.take(k as int + 1)[q] == m);
                }
            }
            k = k + 1;
        }
        assert(node.mcids@.take(node.mcids@.len() as int) =~= node.mcids@);
        if covers {
            if let Some(level) = parse_heading_role(node.role.as_str()) {
                assert(struct_nodes@[i as int].mcids@.contains(m));
                assert(role_level(struct_nodes@[i as int].role@) == Some(level));
                assert(first_struct_level(struct_nodes@, m, i as int) == Some(level));
                return Some(level);
            }
        }
        i = i + 1;
    }
    None
}

} // verus!

verus! {

/// The outline-matching form of `s` before a trailing space is dropped:
/// whitespace runs become one space (none at the start), and every other
/// character is replaced by its lowercase mapping.
pub open spec fn outline_raw(s: Seq<char>) -> Seq<char>
    decreases s.len(),
{
    if s.len() == 0 {
        Seq::empty()
    } else {
        let init = s.drop_last();
        let c = s.last();
        let r = outline_raw(init);
        if is_ws(c) {
            if init.len() == 0 || is_ws(init.last()) {
                r
            } else {
                r.push(' ')
            }
        } else {
            r + char_lowercase(c)
        }
    }
}

/// Lowercased, whitespace-collapsed text for comparing outline titles with
/// line text.
pub open spec fn outline_norm(s: Seq<char>) -> Seq<char> {
    let r = outline_raw(s);
    if r.len() > 0 && r.last() == ' ' {
        r.drop_last()
    } else {
        r
    }
}

/// Lowercase + collapse whitespace, for forgiving outline-title vs line-text
/// comparison.
pub fn normalize_outline_text(s: &str) -> (out: Vec<char>)
    ensures
        out@ == outline_norm(s@),
{
    let cs = chars_of(s);
    let mut out: Vec<char> = Vec::new();
    let mut prev_space = true;
    let mut i: usize = 0;
    while i < cs.len()
        invariant
            i <= cs@.len(),
            out@ == outline_raw(cs@.take(i as int)),
            prev_space == (i == 0 || is_ws(cs@[i - 1])),
        decreases cs@.len() - i,
    {
        let c = cs[i];
        assert(cs@.take(i as int + 1).drop_last() =~= cs@.take(i as int));
        if is_whitespace(c) {
            if !prev_space {
                out.push(' ');
                prev_space = true;
            }
        } else {
            let lc = char_to_lowercase(c);
            let ghost before = out@;
            let mut k: usize = 0;
            while k < lc.len()
                invariant
                    k <= lc@.len(),
                    out@ == before + lc@.take(k as int),
                decreases lc@.len() - k,
            {
                out.push(lc[k]);
                assert(lc@.take(k as int + 1) =~= lc@.take(k as int).push(lc@[k as int]));
                k = k + 1;
            }
            assert(lc@.take(lc@.len() as int) =~= lc@);
            prev_space = false;
        }
        i = i + 1;
    }
    assert(cs@.take(cs@.len() as int) =~= cs@);
    let n = out.len();
    if n > 0 && out[n - 1] == ' ' {
        out.pop();
    }
    out
}

/// An outline (bookmark) entry as seen from one line: its title, its level,
/// and whether its target position agrees with the line's (`y_ok`: the entry
/// has no usable in-page y, or its y lies within 1.5 row heights of the
/// line's top).
#[derive(Clone, Debug)]
pub struct OutlineCandidate {
    pub title: String,
    pub level: u8,
    pub y_ok: bool,
}

/// Number of `". "` occurrences in `s`.
pub open spec fn sentence_breaks(s: Seq<char>) -> nat
    decreases s.len(),
{
    if s.len() < 2 {
        0
    } else {
        (if s[0] == '.' && s[1] == ' ' {
            1nat
        } else {
            0nat
        }) + sentence_breaks(s.drop_first())
    }
}

/// The outline entry `e` names the line whose normalized text is `nl`: the
/// entry's normalized title is nonempty, its position agrees, the line is
/// heading-shaped (at most three times the title's length or 120
/// characters, and fewer than two sentence breaks), and one of the two
/// texts is a prefix of the other.
pub open spec fn outline_entry_matches(nl: Seq<char>, e: OutlineCandidate) -> bool {
    let nt = outline_norm(e.title@);
    let max_len = if 3 * nt.len() > 120 {
        3 * nt.len()
    } else {
        120
    };
    &&& nt.len() > 0
    &&& e.y_ok
    &&& nl.len() <= max_len
    &&& sentence_breaks(nl) < 2
    &&& (nt.is_prefix_of(nl) || nl.is_prefix_of(nt))
}

/// The level, capped at 6, of the first entry from position `i` on that
/// names the line `nl`.
pub open spec fn first_outline_level(nl: Seq<char>, entries: Seq<OutlineCandidate>, i: int) -> Option<u8>
    decreases entries.len() - i,
{
    if i < 0 || i >= entries.len() {
        None
    } else if outline_entry_matches(nl, entries[i]) {
        Some(if entries[i].level > 6 { 6u8 } else { entries[i].level })
    } else {
        first_outline_level(nl, entries, i + 1)
    }
}

fn count_sentence_breaks(s: &Vec<char>) -> (n: usize)
    ensures
        n == sentence_breaks(s@),
{
    let len = s.len();
    let mut n: usize = 0;
    let mut i: usize = 0;
    assert(s@.subrange(0, len as int) =~= s@);
    while i + 1 < len
        invariant
            i <= len == s@.len(),
            len > 0 ==> i < len,
            n <= i,
            sentence_breaks(s@) == n + sentence_breaks(s@.subrange(i as int, len as int)),
        decreases len - i,
    {
        assert(s@.subrange(i as int, len as int).drop_first() =~= s@.subrange(
            i as int + 1,
            len as int,
        ));
        if s[i] == '.' && s[i + 1] == ' ' {
            n = n + 1;
        }
        i = i + 1;
    }
    n
}

fn is_prefix(a: &Vec<char>, b: &Vec<char>) -> (r: bool)
    ensures
        r == a@.is_prefix_of(b@),
{
    if a.len() > b.len() {
        return false;
    }
    let mut i: usize = 0;
    while i < a.len()
        invariant
            a@.len() <= b@.len(),
            i <= a@.len(),
            forall|k: int| 0 <= k < i ==> a@[k] == b@[k],
        decreases a@.len() - i,
    {
        if a[i] != b[i] {
            assert(a@[i as int] != b@.subrange(0, a@.len() as int)[i as int]);
            return false;
        }
        i = i + 1;
    }
    assert(a@ =~= b@.subrange(0, a@.len() as int));
    true
}

/// Second-priority heading source: a document outline (bookmark) entry that
/// points at this page near this line, with a title that prefix-matches the
/// line text. Used on untagged PDFs that ship a table of contents.
pub fn outline_heading_level(line_text: &str, outline: &[OutlineCandidate]) -> (r: Option<u8>)
    ensures
        r == (if outline@.len() == 0 || outline_norm(line_text@).len() == 0 {
            None
        } else {
            first_outline_level(outline_norm(line_text@), outline@, 0)
        }),
{
    if outline.len() == 0 {
        return None;
    }
    let nl = normalize_outline_text(line_text);
    if nl.len() == 0 {
        return None;
    }
    let breaks = count_sentence_breaks(&nl);
    let mut i: usize = 0;
    while i < outline.len()
        invariant
            i <= outline@.len(),
            nl@ == outline_norm(line_text@),
            nl@.len() > 0,
            outline@.len() > 0,
            breaks == sentence_breaks(nl@),
            first_outline_level(nl@, outline@, 0) == first_outline_level(nl@, outline@, i as int),
        decreases outline@.len() - i,
    {
        let entry = &outline[i];
        let nt = normalize_outline_text(entry.title.as_str());
        if nt.len() > 0 && entry.y_ok {
            let title_len = nt.len() as u128;
            let max_len: u128 = if 3 * title_len > 120 {
                3 * title_len
            } else {
                120
            };
            if (nl.len() as u128) <= max_len && breaks < 2 && (is_prefix(&nt, &nl) || is_prefix(
                &nl,
                &nt,
            )) {
                assert(outline_entry_matches(nl@, outline@[i as int]));
                let level = if entry.level > 6 {
                    6u8
                } else {
                    entry.level
                };
                assert(first_outline_level(nl@, outline@, i as int) == Some(level));
                return Some(level);
            }
        }
        i = i + 1;
    }
    None
}

} // verus!

verus! {

/// Number of non-whitespace characters of `s`.
pub open spec fn nonws_count(s: Seq<char>) -> nat
    decreases s.len(),
{
    if s.len() == 0 {
        0
    } else {
        nonws_count(s.drop_last()) + if is_ws(s.last()) {
            0nat
        } else {
            1nat
        }
    }
}

/// Number of alphabetic non-whitespace characters of `s`.
pub open spec fn alpha_count(s: Seq<char>) -> nat
    decreases s.len(),
{
    if s.len() == 0 {
        0
    } else {
        alpha_count(s.drop_last()) + if !is_ws(s.last()) && is_alpha(s.last()) {
            1nat
        } else {
            0nat
        }
    }
}

/// At least half of the non-whitespace characters of `s` are alphabetic
/// (and there is at least one): real headings are mostly letters, while
/// bold rows of numbers are table cells.
pub open spec fn mostly_alpha(s: Seq<char>) -> bool {
    nonws_count(s) > 0 && 2 * alpha_count(s) >= nonws_count(s)
}

/// `(non-whitespace count, alphabetic count)` of `s`.
pub fn char_counts(s: &Vec<char>) -> (r: (usize, usize))
    ensures
        r.0 == nonws_count(s@),
        r.1 == alpha_count(s@),
        r.1 <= r.0,
{
    let mut total: usize = 0;
    let mut alpha: usize = 0;
    let mut i: usize = 0;
    while i < s.len()
        invariant
            i <= s@.len(),
            total == nonws_count(s@.take(i as int)),
            alpha == alpha_count(s@.take(i as int)),
            alpha <= total <= i,
        decreases s@.len() - i,
    {
        let c = s[i];
        assert(s@.take(i as int + 1).drop_last() =~= s@.take(i as int));
        if !is_whitespace(c) {
            total = total + 1;
            if is_alphabetic(c) {
                alpha = alpha + 1;
            }
        }
        i = i + 1;
    }
    assert(s@.take(s@.len() as int) =~= s@);
    (total, alpha)
}

fn mostly_alphabetic(s: &Vec<char>) -> (b: bool)
    ensures
        b == mostly_alpha(s@),
{
    let (total, alpha) = char_counts(s);
    total > 0 && alpha >= total - alpha
}

/// Number of pieces of `s`, split at non-overlapping double spaces from the
/// left, that hold a non-whitespace character; `cur` says whether the piece
/// in progress already holds one.
pub open spec fn double_space_tokens(s: Seq<char>, cur: bool) -> nat
    decreases s.len(),
{
    if s.len() == 0 {
        if cur {
            1
        } else {
            0
        }
    } else if s.len() >= 2 && s[0] == ' ' && s[1] == ' ' {
        (if cur {
            1nat
        } else {
            0nat
        }) + double_space_tokens(s.subrange(2, s.len() as int), false)
    } else {
        double_space_tokens(s.drop_first(), cur || !is_ws(s[0]))
    }
}

fn count_double_space_tokens(s: &Vec<char>) -> (n: usize)
    ensures
        n == double_space_tokens(s@, false),
{
    let len = s.len();
    let mut n: usize = 0;
    let mut cur = false;
    let mut i: usize = 0;
    assert(s@.subrange(0, len as int) =~= s@);
    while i < len
        invariant
            i <= len == s@.len(),
            n + (if cur { 1int } else { 0int }) <= i,
            double_space_tokens(s@, false) == n + double_space_tokens(
                s@.subrange(i as int, len as int),
                cur,
            ),
        decreases len - i,
    {
        if i + 1 < len && s[i] == ' ' && s[i + 1] == ' ' {
            assert(s@.subrange(i as int, len as int).subrange(2, len - i) =~= s@.subrange(
                i as int + 2,
                len as int,
            ));
            if cur {
                n = n + 1;
            }
            cur = false;
            i = i + 2;
        } else {
            assert(s@.subrange(i as int, len as int).drop_first() =~= s@.subrange(
                i as int + 1,
                len as int,
            ));
            if !is_whitespace(s[i]) {
                cur = true;
            }
            i = i + 1;
        }
    }
    if cur {
        n = n + 1;
    }
    n
}

/// Maximum characters in a bold body-size heading candidate; a longer bold
/// line is almost always a bold sentence inside a paragraph.
pub open spec fn bold_heading_max_chars() -> nat {
    80
}

/// A line looks like a section heading set in body-size bold text: its
/// trimmed text is nonempty, at most 80 characters, not a caption, uniformly
/// bold and not monospace, mostly alphabetic, not shaped like a table row
/// (fewer than three cells, and fewer than three double-space-separated
/// tokens), and stands alone with paragraph breaks above and below.
pub open spec fn bold_heading(
    text: Seq<char>,
    style: Option<SpanStyle>,
    cell_count: nat,
    breaks_above: bool,
    breaks_below: bool,
) -> bool {
    let t = trim(text);
    &&& t.len() > 0
    &&& t.len() <= bold_heading_max_chars()
    &&& !is_caption(t)
    &&& style is Some
    &&& style->0.bold
    &&& !style->0.mono
    &&& mostly_alpha(t)
    &&& cell_count < 3
    &&& double_space_tokens(t, false) < 3
    &&& breaks_above
    &&& breaks_below
}

/// Returns true if a line looks like a section heading rendered in
/// body-size bold text (a common style in academic and technical PDFs where
/// headings use the body font size and differ only in weight). `style` is
/// the line's uniform style, `cell_count` the number of table cells its
/// spans split into, and `breaks_above` / `breaks_below` whether the
/// neighbouring lines (if any) do not continue the same paragraph.
pub fn looks_like_bold_heading(
    text: &str,
    style: Option<SpanStyle>,
    cell_count: usize,
    breaks_above: bool,
    breaks_below: bool,
) -> (b: bool)
    ensures
        b == bold_heading(text@, style, cell_count as nat, breaks_above, breaks_below),
{
    let t = trimmed_chars(text);
    if t.len() == 0 || t.len() > 80 {
        return false;
    }
    // Captions ("Figure 7", "Table 3.") are commonly bold body-sized lines.
    if caption_chars(&t) {
        return false;
    }
    let st = match style {
        Some(s) => s,
        None => return false,
    };
    if !st.bold || st.mono {
        return false;
    }
    // Lines dominated by digits / punctuation are table cells.
    if !mostly_alphabetic(&t) {
        return false;
    }
    // A line that splits into three or more cells is a table header row.
    if cell_count >= 3 {
        return false;
    }
    if count_double_space_tokens(&t) >= 3 {
        return false;
    }
    breaks_above && breaks_below
}

/// A span of a line with the style its font implies.
#[derive(Clone, Debug)]
pub struct StyledSpan {
    pub text: String,
    pub bold: bool,
    pub mono: bool,
}

/// A span text made only of list-marker characters: digits, `.`, `)`, `(`.
pub open spec fn is_marker_text(t: Seq<char>) -> bool {
    forall|i: int|
        0 <= i < t.len() ==> (is_digit(#[trigger] t[i]) || t[i] == '.' || t[i] == ')' || t[i]
            == '(')
}

/// A span that carries heading body text: nonempty after trimming and not
/// just marker characters.
pub open spec fn is_body_span(s: StyledSpan) -> bool {
    trim(s.text@).len() > 0 && !is_marker_text(trim(s.text@))
}

/// The body spans of a line are all bold and not monospace, and there is at
/// least one.
pub open spec fn spans_bold_body(spans: Seq<StyledSpan>) -> bool {
    &&& exists|i: int| 0 <= i < spans.len() && #[trigger] is_body_span(spans[i])
    &&& forall|i: int|
        0 <= i < spans.len() && #[trigger] is_body_span(spans[i]) ==> spans[i].bold
            && !spans[i].mono
}

/// Number of `.`, `?` and `!` characters in `s`.
pub open spec fn sentence_punct_count(s: Seq<char>) -> nat
    decreases s.len(),
{
    if s.len() == 0 {
        0
    } else {
        sentence_punct_count(s.drop_last()) + if s.last() == '.' || s.last() == '?' || s.last()
            == '!' {
            1nat
        } else {
            0nat
        }
    }
}

/// A numbered line ("1. **Foo**") is a section heading: the text after the
/// marker, trimmed, is nonempty and at most 80 characters; the line is not a
/// caption; that text is not several sentences (ending in `.` with two or
/// more sentence marks); the body spans are all bold and not monospace; the
/// text is mostly alphabetic; and the line follows a paragraph break.
pub open spec fn numbered_bold_heading(
    line_text: Seq<char>,
    rest: Seq<char>,
    spans: Seq<StyledSpan>,
    breaks_above: bool,
) -> bool {
    let r = trim(rest);
    &&& r.len() > 0
    &&& r.len() <= bold_heading_max_chars()
    &&& !is_caption(line_text)
    &&& !(r.last() == '.' && sentence_punct_count(r) >= 2)
    &&& spans_bold_body(spans)
    &&& mostly_alpha(r)
    &&& breaks_above
}

fn sentence_puncts(s: &Vec<char>) -> (n: usize)
    ensures
        n == sentence_punct_count(s@),
{
    let mut n: usize = 0;
    let mut i: usize = 0;
    while i < s.len()
        invariant
            i <= s@.len(),
            n <= i,
            n == sentence_punct_count(s@.take(i as int)),
        decreases s@.len() - i,
    {
        assert(s@.take(i as int + 1).drop_last() =~= s@.take(i as int));
        if s[i] == '.' || s[i] == '?' || s[i] == '!' {
            n = n + 1;
        }
        i = i + 1;
    }
    assert(s@.take(s@.len() as int) =~= s@);
    n
}

fn marker_text(t: &Vec<char>) -> (b: bool)
    ensures
        b == is_marker_text(t@),
{
    let mut i: usize = 0;
    while i < t.len()
        invariant
            i <= t@.len(),
            forall|k: int|
                0 <= k < i ==> (is_digit(#[trigger] t@[k]) || t@[k] == '.' || t@[k] == ')'
                    || t@[k] == '('),
        decreases t@.len() - i,
    {
        let c = t[i];
        if !(is_ascii_digit(c) || c == '.' || c == ')' || c == '(') {
            return false;
        }
        i = i + 1;
    }
    true
}

/// Returns true if a numbered line like "1. **Foo**" is a section heading
/// rather than the first item of an ordered list. `rest` is the text after
/// the list marker, `spans` the line's spans with their styles, and
/// `breaks_above` whether the previous line (if any) does not continue the
/// same paragraph. A paragraph break below is deliberately not required.
pub fn looks_like_numbered_bold_heading(
    line_text: &str,
    rest: &str,
    spans: &[StyledSpan],
    breaks_above: bool,
) -> (b: bool)
    ensures
        b == numbered_bold_heading(line_text@, rest@, spans@, breaks_above),
{
    let r = trimmed_chars(rest);
    if r.len() == 0 || r.len() > 80 {
        return false;
    }
    if is_caption_line(line_text) {
        return false;
    }
    if r[r.len() - 1] == '.' && sentence_puncts(&r) >= 2 {
        // "1. Sentence one. Sentence two." is not a heading.
        return false;
    }
    let mut saw_bold_body = false;
    let mut saw_non_bold_body = false;
    let mut i: usize = 0;
    while i < spans.len()
        invariant
            i <= spans@.len(),
            saw_bold_body == exists|k: int| 0 <= k < i && #[trigger] is_body_span(spans@[k]),
            saw_non_bold_body == exists|k: int|
                0 <= k < i && #[trigger] is_body_span(spans@[k]) && !spans@[k].bold,
            forall|k: int| 0 <= k < i && #[trigger] is_body_span(spans@[k]) ==> !spans@[k].mono,
        decreases spans@.len() - i,
    {
        let span = &spans[i];
        let t = trimmed_chars(span.text.as_str());
        if t.len() == 0 || marker_text(&t) {
            i = i + 1;
            continue;
        }
        assert(is_body_span(spans@[i as int]));
        if span.mono {
            assert(!spans_bold_body(spans@));
            return false;
        }
        saw_bold_body = true;
        if !span.bold {
            saw_non_bold_body = true;
        }
        i = i + 1;
    }
    if !saw_bold_body || saw_non_bold_body {
        return false;
    }
    if !mostly_alphabetic(&r) {
        return false;
    }
    breaks_above
}

} // verus!
