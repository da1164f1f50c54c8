//! Plain-text renderings of a parsed document.
use vstd::prelude::*;

use crate::text::string_from_chars;
use crate::types::ParsedPage;
use vstd::string::StringExecFns;

verus! {

/// The ASCII digit for `d` (`0 <= d < 10`).
pub open spec fn digit_char(d: nat) -> char {
    ((48 + d) as u32) as char
}

/// The decimal representation of `n`, without leading zeros.
pub open spec fn decimal(n: nat) -> Seq<char>
    decreases n,
{
    if n < 10 {
        seq![digit_char(n)]
    } else {
        decimal(n / 10).push(digit_char(n % 10))
    }
}

fn digit(d: usize) -> (c: char)
    requires
        d < 10,
    ensures
        c == digit_char(d as nat),
{
    match d {
        0 => '0',
        1 => '1',
        2 => '2',
        3 => '3',
        4 => '4',
        5 => '5',
        6 => '6',
        7 => '7',
        8 => '8',
        _ => '9',
    }
}

fn decimal_chars(n: usize) -> (v: Vec<char>)
    ensures
        v@ == decimal(n as nat),
    decreases n,
{
    if n < 10 {
        let mut v = Vec::new();
        v.push(digit(n));
        v
    } else {
        let mut v = decimal_chars(n / 10);
        v.push(digit(n % 10));
        v
    }
}

/// The decimal representation of `n` as a string (what `n.to_string()`
/// gives).
pub fn decimal_string(n: usize) -> (s: String)
    ensures
        s@ == decimal(n as nat),
{
    string_from_chars(decimal_chars(n).as_slice())
}

/// The texts of `pages` joined with `sep` between consecutive pages.
pub open spec fn join_texts(pages: Seq<ParsedPage>, sep: Seq<char>) -> Seq<char>
    decreases pages.len(),
{
    if pages.len() == 0 {
        Seq::empty()
    } else if pages.len() == 1 {
        pages[0].text@
    } else {
        join_texts(pages.drop_last(), sep) + sep + pages.last().text@
    }
}

/// Format pypdf-style pages as plain text.
///
/// Pages are joined with a single newline, mirroring the common
/// `"\n".join(page.extract_text() for page in reader.pages)` idiom used
/// with pypdf. No `--- Page N ---` headers are added, since pypdf itself
/// emits none.
pub fn format_pypdf(pages: &[ParsedPage]) -> (out: String)
    ensures
        out@ == join_texts(pages@, seq!['\n']),
{
    let mut out = String::new();
    let mut i: usize = 0;
    while i < pages.len()
        invariant
            i <= pages@.len(),
            out@ == join_texts(pages@.take(i as int), seq!['\n']),
        decreases pages@.len() - i,
    {
        assert(pages@.take(i as int + 1).drop_last() =~= pages@.take(i as int));
        if i > 0 {
            out.append("\n");
            assert("\n"@ == seq!['\n']) by {
                reveal_strlit("\n");
            }
        }
        out.append(pages[i].text.as_str());
        i = i + 1;
    }
    assert(pages@.take(pages@.len() as int) =~= pages@);
    out
}

/// The block that `format_text` emits for one page:
/// `"\n--- Page N ---\n"` followed by the page's text.
pub open spec fn page_block(p: ParsedPage) -> Seq<char> {
    "\n--- Page "@ + decimal(p.page_number as nat) + " ---\n"@ + p.text@
}

/// The page blocks of `pages` joined with a blank line between blocks.
pub open spec fn join_blocks(pages: Seq<ParsedPage>) -> Seq<char>
    decreases pages.len(),
{
    if pages.len() == 0 {
        Seq::empty()
    } else if pages.len() == 1 {
        page_block(pages[0])
    } else {
        join_blocks(pages.drop_last()) + "\n\n"@ + page_block(pages.last())
    }
}

/// Format parsed pages as plain text with page headers.
pub fn format_text(pages: &[ParsedPage]) -> (out: String)
    ensures
        out@ == join_blocks(pages@),
{
    let mut out = String::new();
    let mut i: usize = 0;
    while i < pages.len()
        invariant
            i <= pages@.len(),
            out@ == join_blocks(pages@.take(i as int)),
        decreases pages@.len() - i,
    {
        assert(pages@.take(i as int + 1).drop_last() =~= pages@.take(i as int));
        if i > 0 {
            out.append("\n\n");
        }
        let ghost before = out@;
        out.append("\n--- Page ");
        let num = decimal_string(pages[i].page_number);
        out.append(num.as_str());
        out.append(" ---\n");
        out.append(pages[i].text.as_str());
        assert(out@ =~= before + page_block(pages@[i as int]));
        i = i + 1;
    }
    assert(pages@.take(pages@.len() as int) =~= pages@);
    out
}

} // verus!
