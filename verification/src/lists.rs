//! List-marker recognition.
use vstd::prelude::*;

use crate::text::{chars_of, is_ascii_digit, is_digit, is_whitespace, is_ws, skip_ws_forward, string_from_chars, trim_start};
use vstd::string::StrSliceExecFns;

verus! {

/// Characters recognized as bullet markers when followed by whitespace:
/// `•` `·` `◦` `▪` `▸` `▶` `●` `○` `■` `□`, glyphs that are unlikely to
/// start a line of ordinary prose.
pub open spec fn is_bullet(c: char) -> bool {
    ||| c == '\u{2022}'
    ||| c == '\u{00B7}'
    ||| c == '\u{25E6}'
    ||| c == '\u{25AA}'
    ||| c == '\u{25B8}'
    ||| c == '\u{25B6}'
    ||| c == '\u{25CF}'
    ||| c == '\u{25CB}'
    ||| c == '\u{25A0}'
    ||| c == '\u{25A1}'
}

fn is_bullet_char(c: char) -> (b: bool)
    ensures
        b == is_bullet(c),
{
    c == '\u{2022}' || c == '\u{00B7}' || c == '\u{25E6}' || c == '\u{25AA}' || c == '\u{25B8}'
        || c == '\u{25B6}' || c == '\u{25CF}' || c == '\u{25CB}' || c == '\u{25A0}' || c
        == '\u{25A1}'
}

/// Number of ASCII digits at the start of `t`.
pub open spec fn leading_digits(t: Seq<char>) -> nat
    decreases t.len(),
{
    if t.len() > 0 && is_digit(t[0]) {
        1 + leading_digits(t.drop_first())
    } else {
        0
    }
}

/// The list marker at the start of `text`, as `(ordered, marker, rest)`:
/// - a bullet (`is_bullet`) followed by whitespace: `(false, bullet, rest)`;
/// - one to three ASCII digits, then `.` or `)`, then whitespace:
///   `(true, digits + punct, rest)`;
/// where leading whitespace of `text` is ignored and `rest` is what follows
/// the marker's whitespace, with its own leading whitespace dropped.
pub open spec fn list_marker(text: Seq<char>) -> Option<(bool, Seq<char>, Seq<char>)> {
    let t = trim_start(text);
    if t.len() == 0 {
        None
    } else if is_bullet(t[0]) && t.len() >= 2 && is_ws(t[1]) {
        Some((false, seq![t[0]], trim_start(t.subrange(2, t.len() as int))))
    } else if is_digit(t[0]) {
        let d = leading_digits(t) as int;
        if d <= 3 && d + 2 <= t.len() && (t[d] == '.' || t[d] == ')') && is_ws(t[d + 1]) {
            Some((true, t.subrange(0, d + 1), trim_start(t.subrange(d + 2, t.len() as int))))
        } else {
            None
        }
    } else {
        None
    }
}

/// Detect a list marker at the start of `text`. Returns `(ordered, marker_str,
/// remainder)` when matched; otherwise `None`.
///
/// Recognizes:
/// - Unicode bullet characters followed by whitespace.
/// - Decimal-prefix markers like `1.` / `1)` / `12.` / `12)` followed by
///   whitespace — kept strict (digits only) so things like footnote callers
///   (`1` alone) and section refs (`A.1`) don't match.
pub fn parse_list_marker(text: &str) -> (r: Option<(bool, String, &str)>)
    ensures
        match (r, list_marker(text@)) {
            (None, None) => true,
            (Some((o, m, rest)), Some((o2, m2, rest2))) => o == o2 && m@ == m2 && rest@ == rest2,
            _ => false,
        },
{
    let cs = chars_of(text);
    let n = cs.len();
    let lead = skip_ws_forward(&cs, 0, n);
    assert(cs@.subrange(0, n as int) =~= cs@);
    let ghost t = cs@.subrange(lead as int, n as int);
    assert(trim_start(text@) == t);
    if lead == n {
        return None;
    }
    let first = cs[lead];
    assert(t[0] == first);
    if is_bullet_char(first) && lead + 1 < n && is_whitespace(cs[lead + 1]) {
        let start = skip_ws_forward(&cs, lead + 2, n);
        assert(t.subrange(2, t.len() as int) =~= cs@.subrange(lead + 2, n as int));
        let mut m: Vec<char> = Vec::new();
        m.push(first);
        let marker = string_from_chars(m.as_slice());
        assert(m@ =~= seq![t[0]]);
        let rest = text.substring_char(start, n);
        return Some((false, marker, rest));
    }
    if is_ascii_digit(first) {
        let mut k = lead;
        while k < n && is_ascii_digit(cs[k])
            invariant
                lead <= k <= n == cs@.len(),
                t == cs@.subrange(lead as int, n as int),
                leading_digits(t) == (k - lead) + leading_digits(cs@.subrange(k as int, n as int)),
                forall|q: int| lead <= q < k ==> is_digit(#[trigger] cs@[q]),
            decreases n - k,
        {
            assert(cs@.subrange(k as int, n as int).drop_first() =~= cs@.subrange(
                k as int + 1,
                n as int,
            ));
            k = k + 1;
        }
        let d = k - lead;
        assert(leading_digits(t) == d);
        if d <= 3 && k < n && k + 1 < n && (cs[k] == '.' || cs[k] == ')') && is_whitespace(cs[k + 1]) {
            assert(t[d as int] == cs@[k as int]);
            assert(t[d as int + 1] == cs@[k as int + 1]);
            let start = skip_ws_forward(&cs, k + 2, n);
            assert(t.subrange(d as int + 2, t.len() as int) =~= cs@.subrange(k + 2, n as int));
            let mut m: Vec<char> = Vec::new();
            let mut q = lead;
            while q <= k
                invariant
                    lead <= q <= k + 1,
                    k < n == cs@.len(),
                    m@ == cs@.subrange(lead as int, q as int),
                decreases k + 1 - q,
            {
                m.push(cs[q]);
                assert(cs@.subrange(lead as int, q as int + 1) =~= cs@.subrange(lead as int, q as int).push(cs@[q as int]));
                q = q + 1;
            }
            assert(m@ =~= t.subrange(0, d as int + 1));
            let marker = string_from_chars(m.as_slice());
            let rest = text.substring_char(start, n);
            return Some((true, marker, rest));
        }
        return None;
    }
    None
}

} // verus!
