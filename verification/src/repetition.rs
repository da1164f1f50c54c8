//! Running header/footer detection: lines that repeat in the top or bottom
//! band of many pages are page chrome, not content.
use vstd::hash_set::StringHashSet;
use vstd::prelude::*;

use crate::stdlib::{lowercase, push_char, to_lowercase};
use crate::types::{BandedLine, ParsedPage};
use crate::text::{trim, trimmed_chars, chars_of, collapse, collapse_chars, is_ascii_digit, is_digit, string_from_chars};

verus! {

/// Every run of ASCII digits replaced by a single `#`.
pub open spec fn hash_digit_runs(t: Seq<char>) -> Seq<char>
    decreases t.len(),
{
    if t.len() == 0 {
        Seq::empty()
    } else {
        let init = t.drop_last();
        let c = t.last();
        let r = hash_digit_runs(init);
        if !is_digit(c) {
            r.push(c)
        } else if init.len() > 0 && is_digit(init.last()) {
            r
        } else {
            r.push('#')
        }
    }
}

/// The key under which a line is matched across pages: whitespace
/// collapsed, lowercased, and digit runs replaced by `#`.
pub open spec fn repetition_key(s: Seq<char>) -> Seq<char> {
    hash_digit_runs(lowercase(collapse(s)))
}

/// Normalize a line for cross-page header/footer matching. Lowercases,
/// collapses whitespace, and replaces every run of ASCII digits with `#` so
/// `Page 1 of 6` and `Page 2 of 6` collapse to the same key.
pub fn normalize_for_repetition(s: &str) -> (out: String)
    ensures
        out@ == repetition_key(s@),
{
    let cs = chars_of(s);
    normalize_chars(&cs)
}

/// `normalize_for_repetition` on a character vector.
pub fn normalize_chars(s: &Vec<char>) -> (out: String)
    ensures
        out@ == repetition_key(s@),
{
    let collapsed = string_from_chars(collapse_chars(s).as_slice());
    let lowered = to_lowercase(collapsed.as_str());
    hash_digits(lowered.as_str())
}

/// Replace every run of ASCII digits in `lowered` by a single `#`: the last
/// step of `normalize_for_repetition`, after whitespace collapsing and
/// lowercasing.
pub fn hash_digits(lowered: &str) -> (out: String)
    ensures
        out@ == hash_digit_runs(lowered@),
{
    let cs = chars_of(lowered);
    let mut out = String::new();
    let mut in_digits = false;
    let mut i: usize = 0;
    while i < cs.len()
        invariant
            i <= cs@.len(),
            out@ == hash_digit_runs(cs@.take(i as int)),
            in_digits == (i > 0 && is_digit(cs@[i - 1])),
        decreases cs@.len() - i,
    {
        let c = cs[i];
        assert(cs@.take(i as int + 1).drop_last() =~= cs@.take(i as int));
        if is_ascii_digit(c) {
            if !in_digits {
                push_char(&mut out, '#');
                in_digits = true;
            }
        } else {
            push_char(&mut out, c);
            in_digits = false;
        }
        i = i + 1;
    }
    assert(cs@.take(cs@.len() as int) =~= cs@);
    out
}

} // verus!

verus! {

/// The key of a line: `repetition_key` of its trimmed text.
pub open spec fn line_key(l: BandedLine) -> Seq<char> {
    repetition_key(trim(l.text@))
}

/// Whether `l` lies in the footer band (`footer`) or the header band.
pub open spec fn in_band(l: BandedLine, footer: bool) -> bool {
    if footer {
        l.in_footer_band
    } else {
        l.in_header_band
    }
}

/// Line `j` of page `i` lies in the given band and has the nonempty key
/// `key`.
pub open spec fn marks_at(pages: Seq<ParsedPage>, i: int, j: int, footer: bool, key: Seq<char>) -> bool {
    &&& 0 <= i < pages.len()
    &&& 0 <= j < pages[i].projected_lines@.len()
    &&& in_band(pages[i].projected_lines@[j], footer)
    &&& line_key(pages[i].projected_lines@[j]) == key
    &&& key.len() > 0
}

/// Numbers of the pages having, among the lines before position `(i0, j0)`
/// in reading order, one that marks `key` in the given band.
pub open spec fn seen_before(
    pages: Seq<ParsedPage>,
    i0: int,
    j0: int,
    footer: bool,
    key: Seq<char>,
) -> Set<usize> {
    Set::new(
        |n: usize|
            exists|i: int, j: int|
                #![trigger marks_at(pages, i, j, footer, key)]
                (i < i0 || (i == i0 && j < j0)) && marks_at(pages, i, j, footer, key)
                    && pages[i].page_number == n,
    )
}

/// Numbers of the pages on which some line in the given band has key `key`.
pub open spec fn pages_marking(pages: Seq<ParsedPage>, footer: bool, key: Seq<char>) -> Set<usize> {
    seen_before(pages, pages.len() as int, 0, footer, key)
}

/// How many distinct pages a key must appear on to count as running chrome:
/// half the pages, rounded up, and never fewer than two.
pub open spec fn repetition_threshold(n: nat) -> nat {
    let half = (n + 1) / 2;
    if half > 2 {
        half as nat
    } else {
        2
    }
}

/// `key` is a running header or footer of `pages`: the document has at
/// least two pages and the key appears in one band on at least
/// `repetition_threshold` distinct pages.
pub open spec fn is_running(pages: Seq<ParsedPage>, key: Seq<char>) -> bool {
    &&& pages.len() >= 2
    &&& (pages_marking(pages, false, key).len() >= repetition_threshold(pages.len())
        || pages_marking(pages, true, key).len() >= repetition_threshold(pages.len()))
}

/// Per-band tally of the distinct pages on which a key was seen.
struct Tally {
    footer: bool,
    key: String,
    pages: Vec<usize>,
}

/// Some tally for `(footer, key)` holds page `n`.
spec fn tally_has(t: Seq<Tally>, footer: bool, key: Seq<char>, n: usize) -> bool {
    exists|a: int|
        0 <= a < t.len() && #[trigger] t[a].footer == footer && t[a].key@ == key
            && t[a].pages@.contains(n)
}

/// Tallies have distinct `(band, key)` pairs, hold each page once, and have
/// nonempty keys.
spec fn tallies_ok(t: Seq<Tally>) -> bool {
    &&& forall|a: int, b: int|
        0 <= a < t.len() && 0 <= b < t.len() && a != b ==> (#[trigger] t[a].footer != #[trigger] t[b].footer
            || t[a].key@ != t[b].key@)
    &&& forall|a: int| 0 <= a < t.len() ==> (#[trigger] t[a].pages@).no_duplicates()
}

/// Record that page `n` has key `key` in the given band.
fn tally(t: &mut Vec<Tally>, footer: bool, key: &String, n: usize)
    requires
        tallies_ok(old(t)@),
    ensures
        tallies_ok(final(t)@),
        forall|f: bool, k: Seq<char>, m: usize|
            #[trigger] tally_has(final(t)@, f, k, m) <==> (tally_has(old(t)@, f, k, m) || (f
                == footer && k == key@ && m == n)),
{
    let mut a: usize = 0;
    while a < t.len()
        invariant
            a <= t@.len(),
            t@ == old(t)@,
            tallies_ok(t@),
            forall|b: int| 0 <= b < a ==> (#[trigger] t@[b].footer != footer || t@[b].key@ != key@),
        decreases t@.len() - a,
    {
        if t[a].footer == footer && t[a].key == *key {
            let mut p: usize = 0;
            let mut found = false;
            while p < t[a].pages.len()
                invariant
                    a < t@.len(),
                    t@ == old(t)@,
                    p <= t@[a as int].pages@.len(),
                    found == t@[a as int].pages@.take(p as int).contains(n),
                decreases t@[a as int].pages@.len() - p,
            {
                let ghost ps = t@[a as int].pages@;
                if t[a].pages[p] == n {
                    found = true;
                }
                assert(ps.take(p as int + 1) =~= ps.take(p as int).push(ps[p as int]));
                assert(ps.take(p as int + 1)[p as int] == ps[p as int]);
                assert(ps.take(p as int + 1).contains(n) ==> (ps.take(p as int).contains(n)
                    || ps[p as int] == n)) by {
                    if ps.take(p as int + 1).contains(n) {
                        let q = choose|q: int|
                            0 <= q < p + 1 && #[trigger] ps.take(p as int + 1)[q] == n;
                        if q < p {
                            assert(ps.take(p as int)[q] == n);
                        }
                    }
                }
                assert(ps.take(p as int).contains(n) ==> ps.take(p as int + 1).contains(n)) by {
                    if ps.take(p as int).contains(n) {
                        let q = choose|q: int| 0 <= q < p && #[trigger] ps.take(p as int)[q] == n;
                        assert(ps.take(p as int + 1)[q] == n);
                    }
                }
                p = p + 1;
            }
            assert(t@[a as int].pages@.take(p as int) =~= t@[a as int].pages@);
            if !found {
                let ghost old_t = t@;
                let mut entry = t.remove(a);
                entry.pages.push(n);
                t.insert(a, entry);
                assert(t@[a as int].pages@ == old_t[a as int].pages@.push(n));
                assert forall|b: int| 0 <= b < t@.len() && b != a implies t@[b] == old_t[b] by {}
                assert forall|f: bool, k: Seq<char>, m: usize|
                    #[trigger] tally_has(t@, f, k, m) <==> (tally_has(old_t, f, k, m) || (f
                        == footer && k == key@ && m == n)) by {
                    if tally_has(t@, f, k, m) {
                        let b = choose|b: int|
                            0 <= b < t@.len() && #[trigger] t@[b].footer == f && t@[b].key@ == k
                                && t@[b].pages@.contains(m);
                        if b != a {
                            assert(old_t[b].footer == f);
                        } else if m != n {
                            let q = choose|q: int| 0 <= q < t@[b].pages@.len() && t@[b].pages@[q] == m;
                            assert(old_t[b].pages@[q] == m);
                            assert(old_t[b].footer == f);
                        }
                    }
                    if tally_has(old_t, f, k, m) {
                        let b = choose|b: int|
                            0 <= b < old_t.len() && #[trigger] old_t[b].footer == f
                                && old_t[b].key@ == k && old_t[b].pages@.contains(m);
                        if b == a {
                            let q = choose|q: int| 0 <= q < old_t[b].pages@.len() && old_t[b].pages@[q] == m;
                            assert(t@[b].pages@[q] == m);
                        }
                        assert(t@[b].footer == f);
                    }
                    if f == footer && k == key@ && m == n {
                        assert(t@[a as int].pages@[t@[a as int].pages@.len() - 1] == n);
                        assert(t@[a as int].footer == f);
                    }
                }
            }
            return ;
        }
        a = a + 1;
    }
    let ghost old_t = t@;
    let mut pages: Vec<usize> = Vec::new();
    pages.push(n);
    t.push(Tally { footer, key: key.clone(), pages });
    assert(t@[old_t.len() as int].pages@[0] == n);
    assert forall|f: bool, k: Seq<char>, m: usize|
        #[trigger] tally_has(t@, f, k, m) <==> (tally_has(old_t, f, k, m) || (f == footer && k
            == key@ && m == n)) by {
        if tally_has(t@, f, k, m) {
            let b = choose|b: int|
                0 <= b < t@.len() && #[trigger] t@[b].footer == f && t@[b].key@ == k
                    && t@[b].pages@.contains(m);
            if b < old_t.len() {
                assert(old_t[b].footer == f);
            }
        }
        if tally_has(old_t, f, k, m) {
            let b = choose|b: int|
                0 <= b < old_t.len() && #[trigger] old_t[b].footer == f && old_t[b].key@ == k
                    && old_t[b].pages@.contains(m);
            assert(t@[b].footer == f);
        }
        if f == footer && k == key@ && m == n {
            assert(t@[old_t.len() as int].footer == f);
        }
    }
}

} // verus!

verus! {

proof fn lemma_seen_step(
    pages: Seq<ParsedPage>,
    i: int,
    j: int,
    f: bool,
    k: Seq<char>,
    n: usize,
)
    requires
        0 <= i < pages.len(),
        0 <= j < pages[i].projected_lines@.len(),
    ensures
        seen_before(pages, i, j + 1, f, k).contains(n) <==> (seen_before(pages, i, j, f, k).contains(n)
            || (marks_at(pages, i, j, f, k) && pages[i].page_number == n)),
{
    if seen_before(pages, i, j + 1, f, k).contains(n) {
        let (a, b) = choose|a: int, b: int|
            (a < i || (a == i && b < j + 1)) && #[trigger] marks_at(pages, a, b, f, k)
                && pages[a].page_number == n;
        if !(a == i && b == j) {
            assert((a < i || (a == i && b < j)) && marks_at(pages, a, b, f, k) && pages[a].page_number
                == n);
        }
    }
    if marks_at(pages, i, j, f, k) && pages[i].page_number == n {
        assert((i < i || (i == i && j < j + 1)) && marks_at(pages, i, j, f, k)
            && pages[i].page_number == n);
    }
}

proof fn lemma_seen_next_page(pages: Seq<ParsedPage>, i: int, f: bool, k: Seq<char>)
    requires
        0 <= i < pages.len(),
    ensures
        seen_before(pages, i, pages[i].projected_lines@.len() as int, f, k) == seen_before(
            pages,
            i + 1,
            0,
            f,
            k,
        ),
{
    let m = pages[i].projected_lines@.len() as int;
    assert forall|n: usize|
        seen_before(pages, i, m, f, k).contains(n) <==> seen_before(pages, i + 1, 0, f, k).contains(
            n,
        ) by {
        if seen_before(pages, i + 1, 0, f, k).contains(n) {
            let (a, b) = choose|a: int, b: int|
                (a < i + 1 || (a == i + 1 && b < 0)) && #[trigger] marks_at(pages, a, b, f, k)
                    && pages[a].page_number == n;
            assert((a < i || (a == i && b < m)) && marks_at(pages, a, b, f, k)
                && pages[a].page_number == n);
        }
        if seen_before(pages, i, m, f, k).contains(n) {
            let (a, b) = choose|a: int, b: int|
                (a < i || (a == i && b < m)) && #[trigger] marks_at(pages, a, b, f, k)
                    && pages[a].page_number == n;
            assert((a < i + 1 || (a == i + 1 && b < 0)) && marks_at(pages, a, b, f, k)
                && pages[a].page_number == n);
        }
    }
    assert(seen_before(pages, i, m, f, k) =~= seen_before(pages, i + 1, 0, f, k));
}

/// A tally's pages are exactly the pages marking its key, once all pages
/// have been tallied.
proof fn lemma_tally_is_marking(t: Seq<Tally>, pages: Seq<ParsedPage>, b: int)
    requires
        tallies_ok(t),
        0 <= b < t.len(),
        forall|f: bool, k: Seq<char>, n: usize|
            #![trigger tally_has(t, f, k, n)]
            #![trigger pages_marking(pages, f, k).contains(n)]
            tally_has(t, f, k, n) <==> pages_marking(pages, f, k).contains(n),
    ensures
        t[b].pages@.to_set() == pages_marking(pages, t[b].footer, t[b].key@),
        t[b].pages@.len() == pages_marking(pages, t[b].footer, t[b].key@).len(),
{
    let f = t[b].footer;
    let k = t[b].key@;
    assert forall|n: usize|
        t[b].pages@.to_set().contains(n) <==> pages_marking(pages, f, k).contains(n) by {
        if t[b].pages@.contains(n) {
            assert(tally_has(t, f, k, n));
        }
        if pages_marking(pages, f, k).contains(n) {
            assert(tally_has(t, f, k, n));
            let a = choose|a: int|
                0 <= a < t.len() && #[trigger] t[a].footer == f && t[a].key@ == k
                    && t[a].pages@.contains(n);
            if a != b {
                assert(t[a].footer != t[b].footer || t[a].key@ != t[b].key@);
            }
        }
    }
    assert(t[b].pages@.to_set() =~= pages_marking(pages, f, k));
    t[b].pages@.unique_seq_to_set();
}

/// The key of one line: `normalize_for_repetition` of its trimmed text.
fn line_key_of(line: &BandedLine) -> (r: String)
    ensures
        r@ == line_key(*line),
{
    let t = trimmed_chars(line.text.as_str());
    normalize_chars(&t)
}

/// Cross-page repetition detector. Returns the set of normalized strings that
/// appear in the top or bottom band of at least half the pages (and never
/// fewer than two). The caller uses this to filter lines before
/// classification.
///
/// Header and footer bands are tallied separately, so a company name that
/// appears as a header on some pages and as a footer on others is not
/// counted across the two.
pub fn compute_header_footer_set(pages: &[ParsedPage]) -> (set: StringHashSet)
    ensures
        forall|k: Seq<char>| #[trigger] set@.contains(k) <==> is_running(pages@, k),
{
    let mut set = StringHashSet::new();
    if pages.len() < 2 {
        return set;
    }
    let mut t: Vec<Tally> = Vec::new();
    let mut i: usize = 0;
    while i < pages.len()
        invariant
            i <= pages@.len(),
            tallies_ok(t@),
            forall|f: bool, k: Seq<char>, n: usize|
                #![trigger tally_has(t@, f, k, n)]
                #![trigger seen_before(pages@, i as int, 0, f, k).contains(n)]
                tally_has(t@, f, k, n) <==> seen_before(pages@, i as int, 0, f, k).contains(n),
        decreases pages@.len() - i,
    {
        let page = &pages[i];
        let mut j: usize = 0;
        assert forall|f: bool, k: Seq<char>, n: usize|
            #![trigger tally_has(t@, f, k, n)]
            tally_has(t@, f, k, n) <==> seen_before(pages@, i as int, 0, f, k).contains(n) by {}
        while j < page.projected_lines.len()
            invariant
                i < pages@.len(),
                *page == pages@[i as int],
                j <= page.projected_lines@.len(),
                tallies_ok(t@),
                forall|f: bool, k: Seq<char>, n: usize|
                    #![trigger tally_has(t@, f, k, n)]
                    #![trigger seen_before(pages@, i as int, j as int, f, k).contains(n)]
                    tally_has(t@, f, k, n) <==> seen_before(pages@, i as int, j as int, f, k).contains(
                        n,
                    ),
            decreases page.projected_lines@.len() - j,
        {
            let line = &page.projected_lines[j];
            let key = line_key_of(line);
            let ghost t0 = t@;
            if !key.as_str().is_empty() {
                if line.in_header_band {
                    tally(&mut t, false, &key, page.page_number);
                }
                if line.in_footer_band {
                    tally(&mut t, true, &key, page.page_number);
                }
            }
            assert forall|f: bool, k: Seq<char>, n: usize|
                #![trigger tally_has(t@, f, k, n)]
                #![trigger seen_before(pages@, i as int, j as int + 1, f, k).contains(n)]
                tally_has(t@, f, k, n) <==> seen_before(pages@, i as int, j as int + 1, f, k).contains(
                    n,
                ) by {
                lemma_seen_step(pages@, i as int, j as int, f, k, n);
                assert(tally_has(t0, f, k, n) <==> seen_before(pages@, i as int, j as int, f, k).contains(n));
            }
            j = j + 1;
        }
        proof {
            assert forall|f: bool, k: Seq<char>, n: usize|
                #![trigger tally_has(t@, f, k, n)]
                #![trigger seen_before(pages@, i as int + 1, 0, f, k).contains(n)]
                tally_has(t@, f, k, n) <==> seen_before(pages@, i as int + 1, 0, f, k).contains(n) by {
                lemma_seen_next_page(pages@, i as int, f, k);
            }
        }
        i = i + 1;
    }
    let n = pages.len();
    let half = n / 2 + n % 2;
    let threshold = if half > 2 {
        half
    } else {
        2
    };
    assert(threshold == repetition_threshold(pages@.len()));
    let mut a: usize = 0;
    while a < t.len()
        invariant
            a <= t@.len(),
            tallies_ok(t@),
            threshold == repetition_threshold(pages@.len()),
            pages@.len() >= 2,
            forall|f: bool, k: Seq<char>, m: usize|
                #![trigger tally_has(t@, f, k, m)]
                #![trigger pages_marking(pages@, f, k).contains(m)]
                tally_has(t@, f, k, m) <==> pages_marking(pages@, f, k).contains(m),
            forall|k: Seq<char>|
                #[trigger] set@.contains(k) <==> exists|b: int|
                    0 <= b < a && #[trigger] t@[b].key@ == k && t@[b].pages@.len() >= threshold,
        decreases t@.len() - a,
    {
        if t[a].pages.len() >= threshold {
            set.insert(t[a].key.clone());
        }
        proof {
            assert forall|k: Seq<char>|
                #[trigger] set@.contains(k) <==> exists|b: int|
                    0 <= b < a + 1 && #[trigger] t@[b].key@ == k && t@[b].pages@.len() >= threshold by {
                if t@[a as int].key@ == k && t@[a as int].pages@.len() >= threshold {
                    assert(t@[a as int].key@ == k);
                }
            }
        }
        a = a + 1;
    }
    proof {
        assert forall|k: Seq<char>| #[trigger] set@.contains(k) <==> is_running(pages@, k) by {
            if set@.contains(k) {
                let b = choose|b: int|
                    0 <= b < t@.len() && #[trigger] t@[b].key@ == k && t@[b].pages@.len() >= threshold;
                lemma_tally_is_marking(t@, pages@, b);
            }
            if is_running(pages@, k) {
                let f = if pages_marking(pages@, false, k).len() >= threshold {
                    false
                } else {
                    true
                };
                let pm = pages_marking(pages@, f, k);
                if exists|b: int| 0 <= b < t@.len() && #[trigger] t@[b].footer == f && t@[b].key@ == k {
                    let b = choose|b: int|
                        0 <= b < t@.len() && #[trigger] t@[b].footer == f && t@[b].key@ == k;
                    lemma_tally_is_marking(t@, pages@, b);
                    assert(t@[b].key@ == k);
                } else {
                    assert forall|m: usize| !pm.contains(m) by {
                        if pm.contains(m) {
                            assert(tally_has(t@, f, k, m));
                        }
                    }
                    assert(pm =~= Set::<usize>::empty());
                }
            }
        }
    }
    set
}

} // verus!

verus! {

/// Returns true if `line` matches the running header/footer set: the line
/// sits in the top or bottom band AND its normalized text is in
/// `header_footer`.
pub fn is_header_or_footer(line: &BandedLine, header_footer: &StringHashSet) -> (b: bool)
    ensures
        b == ((line.in_header_band || line.in_footer_band) && header_footer@.contains(
            line_key(*line),
        )),
{
    if header_footer.is_empty() {
        return false;
    }
    if !(line.in_header_band || line.in_footer_band) {
        return false;
    }
    let norm = line_key_of(line);
    header_footer.contains(norm.as_str())
}

} // verus!
