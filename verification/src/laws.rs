//! Properties that hold of the layout logic on every input.
use vstd::prelude::*;

use crate::blocks::{closed_with, line_step, open_blocks, BlockView, PageView};
use crate::classify::{
    breaks_above, line_action, marked_level, next_state, ActionView, ClassifyState, LineFacts,
};
use crate::extract::{char_kind, char_step, flushed_text, CharKind, SegmentView};
use crate::headings::{
    all_digits, digits_value, without_plus, bold_heading, first_struct_level, outline_entry_matches,
    outline_norm, sentence_breaks, sentence_punct_count, OutlineCandidate, first_outline_level, is_body_span, is_caption, numbered_bold_heading, role_level,
    StructNode, StyledSpan,
};
use crate::lists::{is_bullet, leading_digits, list_marker};
use crate::output::{decimal, digit_char, join_blocks, join_texts};
use crate::paragraphs::{
    continues, dehyphenated, merged_uniform, style_flags, PairGeometry, SpanStyle,
};
use crate::repetition::{
    hash_digit_runs, in_band, is_running, line_key, marks_at, pages_marking, repetition_key, repetition_threshold,
};
use crate::sizes::{
    has_key, heading_size_qualifies, is_heading_map, key_alpha, key_chars, key_lines, FontSample,
};
use crate::stdlib::{is_lower, lowercase};
use crate::text::{collapse, is_digit, is_ws, trim, trim_end, trim_start};
use crate::types::ParsedPage;

verus! {

/// The shape of collapsed text: its only whitespace is `' '`, it neither
/// starts nor ends with a space, and no two spaces are adjacent.
pub open spec fn collapsed_shape(r: Seq<char>) -> bool {
    &&& forall|i: int| 0 <= i < r.len() && is_ws(#[trigger] r[i]) ==> r[i] == ' '
    &&& r.len() > 0 ==> r[0] != ' ' && r.last() != ' '
    &&& forall|i: int| 0 <= i < r.len() - 1 ==> !(#[trigger] r[i] == ' ' && r[i + 1] == ' ')
}

/// Collapsing whitespace leaves only single spaces between non-whitespace
/// characters: no other whitespace, none at either end, and no run of two.
pub proof fn lemma_collapse_shape(s: Seq<char>)
    ensures
        collapsed_shape(collapse(s)),
    decreases s.len(),
{
    if s.len() > 0 {
        lemma_collapse_shape(s.drop_last());
        let r0 = collapse(s.drop_last());
        let r = collapse(s);
        if !is_ws(s.last()) {
            assert(s.last() != ' ');
            if s.drop_last().len() > 0 && is_ws(s.drop_last().last()) && r0.len() > 0 {
                assert(r == r0.push(' ').push(s.last()));
                assert forall|i: int| 0 <= i < r.len() - 1 implies !(#[trigger] r[i] == ' ' && r[i
                    + 1] == ' ') by {
                    if i < r0.len() - 1 {
                        assert(r[i] == r0[i] && r[i + 1] == r0[i + 1]);
                    } else if i == r0.len() - 1 {
                        assert(r[i] == r0.last());
                    }
                }
                assert forall|i: int| 0 <= i < r.len() && is_ws(#[trigger] r[i]) implies r[i]
                    == ' ' by {
                    if i < r0.len() {
                        assert(r[i] == r0[i]);
                    }
                }
                assert(r[0] == r0[0]);
            } else {
                assert(r == r0.push(s.last()));
                assert forall|i: int| 0 <= i < r.len() - 1 implies !(#[trigger] r[i] == ' ' && r[i
                    + 1] == ' ') by {
                    if i < r0.len() - 1 {
                        assert(r[i] == r0[i] && r[i + 1] == r0[i + 1]);
                    }
                }
                assert forall|i: int| 0 <= i < r.len() && is_ws(#[trigger] r[i]) implies r[i]
                    == ' ' by {
                    if i < r0.len() {
                        assert(r[i] == r0[i]);
                    }
                }
                if r0.len() > 0 {
                    assert(r[0] == r0[0]);
                }
            }
        }
    }
}

/// Text that already has the collapsed shape, except possibly for one
/// trailing space, collapses to itself without that space.
proof fn lemma_collapse_of_shaped(r: Seq<char>)
    requires
        forall|i: int| 0 <= i < r.len() && is_ws(#[trigger] r[i]) ==> r[i] == ' ',
        r.len() > 0 ==> r[0] != ' ',
        forall|i: int| 0 <= i < r.len() - 1 ==> !(#[trigger] r[i] == ' ' && r[i + 1] == ' '),
    ensures
        collapse(r) == if r.len() > 0 && r.last() == ' ' {
            r.drop_last()
        } else {
            r
        },
    decreases r.len(),
{
    if r.len() > 0 {
        let p = r.drop_last();
        let c = r.last();
        assert forall|i: int| 0 <= i < p.len() - 1 implies !(#[trigger] p[i] == ' ' && p[i + 1]
            == ' ') by {
            assert(p[i] == r[i] && p[i + 1] == r[i + 1]);
        }
        assert forall|i: int| 0 <= i < p.len() && is_ws(#[trigger] p[i]) implies p[i] == ' ' by {
            assert(p[i] == r[i]);
        }
        if p.len() > 0 {
            assert(p[0] == r[0]);
        }
        lemma_collapse_of_shaped(p);
        if c == ' ' {
            if p.len() > 0 {
                assert(!(r[p.len() - 1] == ' ' && r[p.len() as int] == ' '));
                assert(p.last() != ' ');
            }
            assert(collapse(r) == collapse(p));
        } else {
            assert(!is_ws(c) || c == ' ');
            if p.len() > 0 && p.last() == ' ' {
                assert(p.len() >= 2) by {
                    if p.len() == 1 {
                        assert(r[0] == ' ');
                    }
                }
                let q = p.drop_last();
                assert(q.len() > 0);
                assert(collapse(r) == collapse(p).push(' ').push(c));
                assert(collapse(r) =~= r);
            } else {
                if p.len() > 0 {
                    assert(!is_ws(p.last()));
                }
                assert(collapse(r) =~= r);
            }
        }
    }
}

/// Collapsing whitespace twice is the same as collapsing it once.
pub proof fn lemma_collapse_idempotent(s: Seq<char>)
    ensures
        collapse(collapse(s)) == collapse(s),
{
    lemma_collapse_shape(s);
    lemma_collapse_of_shaped(collapse(s));
}

/// The non-whitespace characters of `s`, in order.
pub open spec fn non_ws(s: Seq<char>) -> Seq<char> {
    s.filter(|c: char| !is_ws(c))
}

/// Collapsing whitespace keeps every non-whitespace character, in order,
/// and adds none.
pub proof fn lemma_collapse_keeps_content(s: Seq<char>)
    ensures
        non_ws(collapse(s)) == non_ws(s),
    decreases s.len(),
{
    reveal(Seq::filter);
    if s.len() > 0 {
        lemma_collapse_keeps_content(s.drop_last());
        let r0 = collapse(s.drop_last());
        let c = s.last();
        let pred = |c: char| !is_ws(c);
        assert(non_ws(s) == if pred(c) {
            non_ws(s.drop_last()).push(c)
        } else {
            non_ws(s.drop_last())
        });
        if !is_ws(c) {
            if s.drop_last().len() > 0 && is_ws(s.drop_last().last()) && r0.len() > 0 {
                let m = r0.push(' ');
                assert(m.drop_last() =~= r0);
                assert(non_ws(m) == non_ws(r0));
                assert(m.push(c).drop_last() =~= m);
                assert(non_ws(m.push(c)) == non_ws(m).push(c));
            } else {
                assert(r0.push(c).drop_last() =~= r0);
            }
        }
    }
}

/// Replacing digit runs by `#` leaves no ASCII digit behind.
pub proof fn lemma_hash_digit_runs_digit_free(t: Seq<char>)
    ensures
        forall|i: int| 0 <= i < hash_digit_runs(t).len() ==> !is_digit(#[trigger] hash_digit_runs(t)[i]),
    decreases t.len(),
{
    if t.len() > 0 {
        lemma_hash_digit_runs_digit_free(t.drop_last());
        let r0 = hash_digit_runs(t.drop_last());
        let r = hash_digit_runs(t);
        assert forall|i: int| 0 <= i < r.len() implies !is_digit(#[trigger] r[i]) by {
            if i < r0.len() {
                assert(r[i] == r0[i]);
            }
        }
    }
}

/// A repetition key holds no ASCII digit: every digit run became `#`, so
/// `Page 1 of 6` and `Page 12 of 60` can share a key.
pub proof fn lemma_repetition_key_digit_free(s: Seq<char>)
    ensures
        forall|i: int|
            0 <= i < repetition_key(s).len() ==> !is_digit(#[trigger] repetition_key(s)[i]),
{
    lemma_hash_digit_runs_digit_free(lowercase(collapse(s)));
}

/// Two texts of the same length that differ only where both hold digits
/// have the same digit-run replacement: which digits a run holds does not
/// matter, only where the runs are.
pub proof fn lemma_hash_digit_runs_ignores_digit_values(a: Seq<char>, b: Seq<char>)
    requires
        a.len() == b.len(),
        forall|i: int| 0 <= i < a.len() ==> (#[trigger] a[i] == b[i] || (is_digit(a[i]) && is_digit(b[i]))),
    ensures
        hash_digit_runs(a) == hash_digit_runs(b),
    decreases a.len(),
{
    if a.len() > 0 {
        let a0 = a.drop_last();
        let b0 = b.drop_last();
        assert forall|i: int| 0 <= i < a0.len() implies (#[trigger] a0[i] == b0[i] || (is_digit(
            a0[i],
        ) && is_digit(b0[i]))) by {
            assert(a0[i] == a[i] && b0[i] == b[i]);
        }
        lemma_hash_digit_runs_ignores_digit_values(a0, b0);
        assert(a.last() == b.last() || (is_digit(a.last()) && is_digit(b.last()))) by {
            assert(a[a.len() - 1] == b[b.len() - 1] || (is_digit(a[a.len() - 1]) && is_digit(
                b[b.len() - 1],
            )));
        }
        if a0.len() > 0 {
            assert(a0.last() == b0.last() || (is_digit(a0.last()) && is_digit(b0.last()))) by {
                assert(a[a0.len() - 1] == b[a0.len() - 1] || (is_digit(a[a0.len() - 1])
                    && is_digit(b[a0.len() - 1])));
            }
        }
    }
}

/// Some line of page `pg` lies in the given band and has the nonempty key
/// `k`.
pub open spec fn page_marks(pg: ParsedPage, footer: bool, k: Seq<char>) -> bool {
    exists|j: int|
        0 <= j < pg.projected_lines@.len() && in_band(#[trigger] pg.projected_lines@[j], footer)
            && line_key(pg.projected_lines@[j]) == k && k.len() > 0
}

/// The pages marking a key are the numbers of the pages with a marking
/// line, wherever those pages stand in the sequence.
proof fn lemma_pages_marking_by_page(pages: Seq<ParsedPage>, f: bool, k: Seq<char>, n: usize)
    ensures
        pages_marking(pages, f, k).contains(n) <==> exists|i: int|
            0 <= i < pages.len() && #[trigger] page_marks(pages[i], f, k) && pages[i].page_number
                == n,
{
    if pages_marking(pages, f, k).contains(n) {
        let (i, j) = choose|i: int, j: int|
            (i < pages.len() as int || (i == pages.len() as int && j < 0)) && #[trigger] marks_at(
                pages,
                i,
                j,
                f,
                k,
            ) && pages[i].page_number == n;
        assert(in_band(pages[i].projected_lines@[j], f));
        assert(page_marks(pages[i], f, k));
    }
    if exists|i: int|
        0 <= i < pages.len() && #[trigger] page_marks(pages[i], f, k) && pages[i].page_number == n {
        let i = choose|i: int|
            0 <= i < pages.len() && #[trigger] page_marks(pages[i], f, k) && pages[i].page_number
                == n;
        let j = choose|j: int|
            0 <= j < pages[i].projected_lines@.len() && in_band(
                #[trigger] pages[i].projected_lines@[j],
                f,
            ) && line_key(pages[i].projected_lines@[j]) == k && k.len() > 0;
        assert(marks_at(pages, i, j, f, k));
    }
}

/// Reordering the pages does not change which pages mark a key.
proof fn lemma_pages_marking_reordered(p: Seq<ParsedPage>, q: Seq<ParsedPage>, f: bool, k: Seq<char>)
    requires
        q.to_multiset() == p.to_multiset(),
    ensures
        pages_marking(q, f, k) == pages_marking(p, f, k),
{
    broadcast use vstd::seq_lib::group_to_multiset_ensures;

    assert forall|n: usize|
        pages_marking(q, f, k).contains(n) <==> pages_marking(p, f, k).contains(n) by {
        lemma_pages_marking_by_page(p, f, k, n);
        lemma_pages_marking_by_page(q, f, k, n);
        if pages_marking(q, f, k).contains(n) {
            let i = choose|i: int|
                0 <= i < q.len() && #[trigger] page_marks(q[i], f, k) && q[i].page_number == n;
            assert(q.contains(q[i]));
            assert(q.to_multiset().count(q[i]) > 0);
            assert(p.contains(q[i]));
            let i2 = choose|i2: int| 0 <= i2 < p.len() && p[i2] == q[i];
            assert(page_marks(p[i2], f, k));
        }
        if pages_marking(p, f, k).contains(n) {
            let i = choose|i: int|
                0 <= i < p.len() && #[trigger] page_marks(p[i], f, k) && p[i].page_number == n;
            assert(p.contains(p[i]));
            assert(p.to_multiset().count(p[i]) > 0);
            assert(q.contains(p[i]));
            let i2 = choose|i2: int| 0 <= i2 < q.len() && q[i2] == p[i];
            assert(page_marks(q[i2], f, k));
        }
    }
    assert(pages_marking(q, f, k) =~= pages_marking(p, f, k));
}

/// Running header/footer detection does not depend on page order: any
/// reordering of the pages has exactly the same running headers and
/// footers, so `compute_header_footer_set` gives the same set for it.
pub proof fn lemma_running_ignores_page_order(p: Seq<ParsedPage>, q: Seq<ParsedPage>)
    requires
        q.to_multiset() == p.to_multiset(),
    ensures
        forall|k: Seq<char>| #[trigger] is_running(q, k) == is_running(p, k),
{
    broadcast use vstd::seq_lib::group_to_multiset_ensures;

    assert(q.len() == q.to_multiset().len());
    assert(p.len() == p.to_multiset().len());
    assert forall|k: Seq<char>| #[trigger] is_running(q, k) == is_running(p, k) by {
        lemma_pages_marking_reordered(p, q, false, k);
        lemma_pages_marking_reordered(p, q, true, k);
    }
}

/// Every character of `q` is an ASCII digit.
pub open spec fn digits_only(q: Seq<char>) -> bool {
    forall|i: int| 0 <= i < q.len() ==> is_digit(#[trigger] q[i])
}

/// A nonempty run of digits becomes a single `#`.
proof fn lemma_hash_digit_run(q: Seq<char>)
    requires
        q.len() > 0,
        digits_only(q),
    ensures
        hash_digit_runs(q) == seq!['#'],
    decreases q.len(),
{
    if q.len() > 1 {
        let q0 = q.drop_last();
        assert(digits_only(q0)) by {
            assert forall|i: int| 0 <= i < q0.len() implies is_digit(#[trigger] q0[i]) by {
                assert(q0[i] == q[i]);
            }
        }
        lemma_hash_digit_run(q0);
        assert(is_digit(q[q.len() - 1]));
        assert(is_digit(q0[q0.len() - 1])) by {
            assert(q0[q0.len() - 1] == q[q0.len() - 1]);
        }
    } else {
        assert(is_digit(q[0]));
        assert(q.last() == q[0]);
        assert(q.drop_last() =~= Seq::<char>::empty());
        assert(hash_digit_runs(q.drop_last()) =~= Seq::<char>::empty());
        assert(hash_digit_runs(q) =~= seq!['#']);
    }
}

/// Digit-run replacement works piecewise across a boundary that does not
/// split a digit run.
proof fn lemma_hash_digit_runs_concat(x: Seq<char>, y: Seq<char>)
    requires
        x.len() == 0 || y.len() == 0 || !is_digit(x.last()) || !is_digit(y[0]),
    ensures
        hash_digit_runs(x + y) == hash_digit_runs(x) + hash_digit_runs(y),
    decreases y.len(),
{
    if y.len() == 0 {
        assert(x + y =~= x);
        assert(hash_digit_runs(x) + hash_digit_runs(y) =~= hash_digit_runs(x));
    } else {
        let y0 = y.drop_last();
        let c = y.last();
        assert((x + y).drop_last() =~= x + y0);
        assert((x + y).last() == c);
        if y0.len() > 0 {
            assert(y0[0] == y[0]);
        }
        lemma_hash_digit_runs_concat(x, y0);
        if !is_digit(c) {
            assert(hash_digit_runs(x + y) =~= (hash_digit_runs(x) + hash_digit_runs(y0)).push(c));
        } else if y0.len() > 0 {
            assert((x + y0).last() == y0.last());
        } else {
            assert(x + y0 =~= x);
            assert(hash_digit_runs(y0) =~= Seq::<char>::empty());
            assert(hash_digit_runs(x) + hash_digit_runs(y0) =~= hash_digit_runs(x));
            assert(hash_digit_runs(x + y) =~= hash_digit_runs(x).push('#'));
            assert(hash_digit_runs(y) =~= seq!['#']);
        }
    }
}

/// Which digits a digit run holds, and how many, does not matter: replacing
/// a maximal run of ASCII digits (not preceded or followed by a digit) by
/// any other nonempty run of digits keeps the digit-run replacement, as
/// `Page 1 of 6` and `Page 12 of 6` share one. Applied run by run, this
/// covers texts that differ in any number of digit runs.
pub proof fn lemma_hash_digit_runs_ignore_runs(
    p: Seq<char>,
    q1: Seq<char>,
    q2: Seq<char>,
    r: Seq<char>,
)
    requires
        q1.len() > 0,
        q2.len() > 0,
        digits_only(q1),
        digits_only(q2),
        p.len() == 0 || !is_digit(p.last()),
        r.len() == 0 || !is_digit(r[0]),
    ensures
        hash_digit_runs(p + q1 + r) == hash_digit_runs(p + q2 + r),
{
    lemma_hash_digit_run(q1);
    lemma_hash_digit_run(q2);
    lemma_hash_digit_runs_concat(p, q1);
    lemma_hash_digit_runs_concat(p, q2);
    assert((p + q1).last() == q1.last());
    assert((p + q2).last() == q2.last());
    assert(is_digit(q1[q1.len() - 1]));
    assert(is_digit(q2[q2.len() - 1]));
    lemma_hash_digit_runs_concat(p + q1, r);
    lemma_hash_digit_runs_concat(p + q2, r);
}

/// Text without ASCII digits is left as it is by digit-run replacement.
proof fn lemma_hash_digit_runs_of_digit_free(t: Seq<char>)
    requires
        forall|i: int| 0 <= i < t.len() ==> !is_digit(#[trigger] t[i]),
    ensures
        hash_digit_runs(t) == t,
    decreases t.len(),
{
    if t.len() > 0 {
        let t0 = t.drop_last();
        assert forall|i: int| 0 <= i < t0.len() implies !is_digit(#[trigger] t0[i]) by {
            assert(t0[i] == t[i]);
        }
        lemma_hash_digit_runs_of_digit_free(t0);
        assert(!is_digit(t[t.len() - 1]));
        assert(t0.push(t.last()) =~= t);
    }
}

/// Replacing digit runs is idempotent: a second pass changes nothing.
pub proof fn lemma_hash_digit_runs_idempotent(t: Seq<char>)
    ensures
        hash_digit_runs(hash_digit_runs(t)) == hash_digit_runs(t),
{
    lemma_hash_digit_runs_digit_free(t);
    lemma_hash_digit_runs_of_digit_free(hash_digit_runs(t));
}

/// The numbers of the pages of `pages`.
pub open spec fn page_numbers(pages: Seq<ParsedPage>) -> Set<usize> {
    pages.map_values(|p: ParsedPage| p.page_number).to_set()
}

proof fn lemma_marking_finite(pages: Seq<ParsedPage>, f: bool, k: Seq<char>)
    ensures
        pages_marking(pages, f, k).finite(),
        pages_marking(pages, f, k).subset_of(page_numbers(pages)),
{
    let all = page_numbers(pages);
    assert forall|n: usize| pages_marking(pages, f, k).contains(n) implies all.contains(n) by {
        let (i, j) = choose|i: int, j: int|
            (i < pages.len() as int || (i == pages.len() as int && j < 0)) && #[trigger] marks_at(
                pages,
                i,
                j,
                f,
                k,
            ) && pages[i].page_number == n;
        let ns = pages.map_values(|p: ParsedPage| p.page_number);
        assert(ns[i] == n);
    }
    vstd::seq_lib::seq_to_set_is_finite(pages.map_values(|p: ParsedPage| p.page_number));
    vstd::set_lib::lemma_set_subset_finite(all, pages_marking(pages, f, k));
}

/// A running header or footer is a nonempty key that occurs, in the same
/// band, on at least two different pages; a single-page document has none.
pub proof fn lemma_running_needs_two_pages(pages: Seq<ParsedPage>, k: Seq<char>)
    requires
        is_running(pages, k),
    ensures
        pages.len() >= 2,
        k.len() > 0,
        exists|f: bool, i1: int, j1: int, i2: int, j2: int|
            #[trigger] marks_at(pages, i1, j1, f, k) && #[trigger] marks_at(pages, i2, j2, f, k)
                && pages[i1].page_number != pages[i2].page_number,
{
    let f = if pages_marking(pages, false, k).len() >= repetition_threshold(pages.len()) {
        false
    } else {
        true
    };
    let pm = pages_marking(pages, f, k);
    lemma_marking_finite(pages, f, k);
    assert(pm.len() >= 2);
    let n1 = pm.choose();
    vstd::set::axiom_set_choose_len(pm);
    let rest = pm.remove(n1);
    assert(rest.len() >= 1);
    let n2 = rest.choose();
    vstd::set::axiom_set_choose_len(rest);
    let (i1, j1) = choose|i: int, j: int|
        (i < pages.len() as int || (i == pages.len() as int && j < 0)) && #[trigger] marks_at(
            pages,
            i,
            j,
            f,
            k,
        ) && pages[i].page_number == n1;
    let (i2, j2) = choose|i: int, j: int|
        (i < pages.len() as int || (i == pages.len() as int && j < 0)) && #[trigger] marks_at(
            pages,
            i,
            j,
            f,
            k,
        ) && pages[i].page_number == n2;
    assert(marks_at(pages, i1, j1, f, k) && marks_at(pages, i2, j2, f, k)
        && pages[i1].page_number != pages[i2].page_number);
}

/// What `trim_start` drops is a whitespace prefix, and what it keeps starts
/// with a non-whitespace character (or is empty).
pub proof fn lemma_trim_start_split(s: Seq<char>) -> (k: int)
    ensures
        0 <= k <= s.len(),
        trim_start(s) == s.subrange(k, s.len() as int),
        forall|i: int| 0 <= i < k ==> is_ws(#[trigger] s[i]),
        k < s.len() ==> !is_ws(s[k]),
    decreases s.len(),
{
    if s.len() > 0 && is_ws(s[0]) {
        let k0 = lemma_trim_start_split(s.drop_first());
        assert(s.drop_first().subrange(k0, s.drop_first().len() as int) =~= s.subrange(
            k0 + 1,
            s.len() as int,
        ));
        assert forall|i: int| 0 <= i < k0 + 1 implies is_ws(#[trigger] s[i]) by {
            if i > 0 {
                assert(s[i] == s.drop_first()[i - 1]);
            }
        }
        k0 + 1
    } else {
        assert(s.subrange(0, s.len() as int) =~= s);
        0
    }
}

/// What `trim_end` drops is a whitespace suffix, and what it keeps ends
/// with a non-whitespace character (or is empty).
pub proof fn lemma_trim_end_split(s: Seq<char>) -> (j: int)
    ensures
        0 <= j <= s.len(),
        trim_end(s) == s.subrange(0, j),
        forall|i: int| j <= i < s.len() ==> is_ws(#[trigger] s[i]),
        j > 0 ==> !is_ws(s[j - 1]),
    decreases s.len(),
{
    if s.len() > 0 && is_ws(s.last()) {
        let j0 = lemma_trim_end_split(s.drop_last());
        assert(s.drop_last().subrange(0, j0) =~= s.subrange(0, j0));
        assert forall|i: int| j0 <= i < s.len() implies is_ws(#[trigger] s[i]) by {
            if i < s.len() - 1 {
                assert(s[i] == s.drop_last()[i]);
            }
        }
        if j0 > 0 {
            assert(s[j0 - 1] == s.drop_last()[j0 - 1]);
        }
        j0
    } else {
        assert(s.subrange(0, s.len() as int) =~= s);
        s.len() as int
    }
}

/// Trimmed text neither starts nor ends with whitespace.
pub proof fn lemma_trim_has_no_outer_whitespace(s: Seq<char>)
    ensures
        trim(s).len() > 0 ==> !is_ws(trim(s)[0]) && !is_ws(trim(s).last()),
{
    let k = lemma_trim_start_split(s);
    let t = trim_start(s);
    let j = lemma_trim_end_split(t);
    if trim(s).len() > 0 {
        assert(trim(s)[0] == t[0]);
        assert(t[0] == s[k]);
        assert(trim(s).last() == t[j - 1]);
    }
}

/// Every segment of text that extraction hands out is nonempty and has no
/// whitespace at either end.
pub proof fn lemma_segment_text_trimmed(v: SegmentView, kind: CharKind, same_line: bool, wide_gap: bool)
    ensures
        (char_step(v, kind, same_line, wide_gap).1 matches Some(t) ==> t.len() > 0 && !is_ws(t[0])
            && !is_ws(t.last())),
        (flushed_text(v) matches Some(t) ==> t.len() > 0 && !is_ws(t[0]) && !is_ws(t.last())),
{
    lemma_trim_has_no_outer_whitespace(v.0);
}

proof fn lemma_leading_digits(t: Seq<char>)
    ensures
        leading_digits(t) <= t.len(),
        forall|i: int| 0 <= i < leading_digits(t) ==> is_digit(#[trigger] t[i]),
        leading_digits(t) < t.len() ==> !is_digit(t[leading_digits(t) as int]),
    decreases t.len(),
{
    if t.len() > 0 && is_digit(t[0]) {
        lemma_leading_digits(t.drop_first());
        assert forall|i: int| 0 <= i < leading_digits(t) implies is_digit(#[trigger] t[i]) by {
            if i > 0 {
                assert(t[i] == t.drop_first()[i - 1]);
            }
        }
    }
}

/// A recognized list marker splits the text exactly: after leading
/// whitespace comes the marker, then at least one whitespace character,
/// then the rest, which does not start with whitespace. An ordered marker
/// is one to three digits followed by `.` or `)`; an unordered one is a
/// single bullet character.
pub proof fn lemma_list_marker_splits_text(text: Seq<char>)
    requires
        (list_marker(text) is Some),
    ensures
        ({
            let (ordered, marker, rest) = list_marker(text)->0;
            &&& exists|w: Seq<char>|
                w.len() >= 1 && (forall|i: int| 0 <= i < w.len() ==> is_ws(#[trigger] w[i]))
                    && trim_start(text) == marker + w + rest
            &&& rest.len() > 0 ==> !is_ws(rest[0])
            &&& ordered ==> {
                &&& 2 <= marker.len() <= 4
                &&& (marker.last() == '.' || marker.last() == ')')
                &&& forall|i: int| 0 <= i < marker.len() - 1 ==> is_digit(#[trigger] marker[i])
            }
            &&& !ordered ==> marker.len() == 1 && is_bullet(marker[0])
        }),
{
    let t = trim_start(text);
    let (ordered, marker, rest) = list_marker(text)->0;
    let start = if ordered {
        lemma_leading_digits(t);
        leading_digits(t) as int + 2
    } else {
        2
    };
    let tail = t.subrange(start, t.len() as int);
    let k = lemma_trim_start_split(tail);
    let w = t.subrange(start - 1, start + k);
    assert(rest == tail.subrange(k, tail.len() as int));
    assert(marker == t.subrange(0, start - 1));
    assert forall|i: int| 0 <= i < w.len() implies is_ws(#[trigger] w[i]) by {
        if i > 0 {
            assert(w[i] == tail[i - 1]);
        }
    }
    assert(t =~= marker + w + rest);
    if rest.len() > 0 {
        assert(rest[0] == tail[k]);
    }
}

/// A struct-tree role names a heading level between 1 and 6, or none.
pub proof fn lemma_role_level_range(role: Seq<char>)
    ensures
        (role_level(role) matches Some(n) ==> 1 <= n <= 6),
{
}

/// An outline match yields a level of at most 6.
pub proof fn lemma_outline_level_capped(
    nl: Seq<char>,
    entries: Seq<crate::headings::OutlineCandidate>,
    i: int,
)
    ensures
        (first_outline_level(nl, entries, i) matches Some(l) ==> l <= 6),
    decreases entries.len() - i,
{
    if 0 <= i < entries.len() {
        lemma_outline_level_capped(nl, entries, i + 1);
    }
}

/// Joining across a line break keeps the earlier text (less at most its
/// trailing hyphen) in front, puts the appended text at the end, and adds
/// at most one space between them.
pub proof fn lemma_dehyphenated_keeps_both(prev: Seq<char>, check: Seq<char>, to_append: Seq<char>)
    requires
        check.len() > 0,
    ensures
        ({
            let r = dehyphenated(prev, check, to_append);
            &&& to_append.is_suffix_of(r)
            &&& (prev.is_prefix_of(r) || (prev.last() == '-' && prev.drop_last().is_prefix_of(r)))
            &&& r.len() <= prev.len() + to_append.len() + 1
        }),
{
    let r = dehyphenated(prev, check, to_append);
    if prev.len() == 0 {
        assert(prev.is_prefix_of(r));
        assert(r.subrange(0, 0) =~= prev);
        assert(r.subrange(r.len() - to_append.len(), r.len() as int) =~= to_append);
    } else if prev.last() == '-' && crate::text::is_ascii_lower(check[0]) {
        assert(r.subrange(0, prev.len() - 1) =~= prev.drop_last());
        assert(r.subrange(r.len() - to_append.len(), r.len() as int) =~= to_append);
    } else {
        assert(r.subrange(0, prev.len() as int) =~= prev);
        assert(r.subrange(r.len() - to_append.len(), r.len() as int) =~= to_append);
    }
}

/// The samples of `s` whose size key is above `c`, in order: what is left
/// of the heading-size candidates when the body size is raised so that
/// only the sizes keyed above `c` still count as larger than body text.
pub open spec fn keep_above(s: Seq<FontSample>, c: int) -> Seq<FontSample>
    decreases s.len(),
{
    if s.len() == 0 {
        Seq::empty()
    } else {
        let r = keep_above(s.drop_last(), c);
        if s.last().key > c {
            r.push(s.last())
        } else {
            r
        }
    }
}

proof fn lemma_has_key_last(s: Seq<FontSample>, k: u32)
    requires
        s.len() > 0,
    ensures
        has_key(s, k) <==> (has_key(s.drop_last(), k) || s.last().key == k),
{
    if has_key(s, k) {
        let i = choose|i: int| 0 <= i < s.len() && #[trigger] s[i].key == k;
        if i < s.len() - 1 {
            assert(s.drop_last()[i].key == k);
        }
    }
    if has_key(s.drop_last(), k) {
        let i = choose|i: int| 0 <= i < s.drop_last().len() && #[trigger] s.drop_last()[i].key == k;
        assert(s[i].key == k);
    }
    if s.last().key == k {
        assert(s[s.len() - 1].key == k);
    }
}

/// Keeping the samples above `c` keeps the totals of the sizes above `c`
/// and removes the others.
proof fn lemma_keep_above_totals(s: Seq<FontSample>, c: int, k: u32)
    ensures
        key_lines(keep_above(s, c), k) == if k > c { key_lines(s, k) } else { 0 },
        key_chars(keep_above(s, c), k) == if k > c { key_chars(s, k) } else { 0 },
        key_alpha(keep_above(s, c), k) == if k > c { key_alpha(s, k) } else { 0 },
        has_key(keep_above(s, c), k) <==> (k > c && has_key(s, k)),
    decreases s.len(),
{
    let t = keep_above(s, c);
    if s.len() == 0 {
        assert(!has_key(t, k));
        assert(!has_key(s, k));
    } else {
        lemma_keep_above_totals(s.drop_last(), c, k);
        lemma_has_key_last(s, k);
        if s.last().key > c {
            assert(t.drop_last() =~= keep_above(s.drop_last(), c));
            assert(t.last() == s.last());
            lemma_has_key_last(t, k);
        }
    }
}

/// A size qualifies as a heading size among the samples above `c` exactly
/// when it is above `c` and qualifies among all of them.
proof fn lemma_keep_above_qualifies(s: Seq<FontSample>, c: int, k: u32)
    ensures
        heading_size_qualifies(keep_above(s, c), k) <==> (k > c && heading_size_qualifies(s, k)),
{
    lemma_keep_above_totals(s, c, k);
}

/// Position `j` of both maps holds the same size.
spec fn agree_at(r1: Seq<(u32, u8)>, r2: Seq<(u32, u8)>, j: int) -> bool {
    j < r1.len() && r1[j].0 == r2[j].0
}

proof fn lemma_heading_map_prefix_at(
    s: Seq<FontSample>,
    c: int,
    r1: Seq<(u32, u8)>,
    r2: Seq<(u32, u8)>,
    i: int,
)
    requires
        is_heading_map(s, r1),
        is_heading_map(keep_above(s, c), r2),
        0 <= i < r2.len(),
        forall|j: int| 0 <= j < i ==> #[trigger] agree_at(r1, r2, j),
    ensures
        i < r1.len(),
        r1[i].0 == r2[i].0,
{
    let s2 = keep_above(s, c);
    let x = r2[i].0;
    assert(heading_size_qualifies(s2, x));
    lemma_keep_above_qualifies(s, c, x);
    assert(heading_size_qualifies(s, x));
    // Where `x` sits in the full map: not before `i`, so `r1[i] >= x`.
    if exists|p: int| 0 <= p < r1.len() && #[trigger] r1[p].0 == x {
        let p = choose|p: int| 0 <= p < r1.len() && #[trigger] r1[p].0 == x;
        if p < i {
            assert(agree_at(r1, r2, p));
            assert(r2[p].0 > r2[i].0);
        }
        assert(p >= i);
        if p > i {
            assert(r1[i].0 > r1[p].0);
        }
    } else {
        assert(r1.len() == 6 && x < r1[5].0);
        assert(r2.len() <= 6);
        if i < 5 {
            assert(r1[i].0 > r1[5].0);
        }
    }
    assert(i < r1.len());
    assert(r1[i].0 >= x);
    // And `r1[i]` is a candidate above `c`, so it sits in the smaller map
    // at or after `i`: `r1[i] <= x`.
    let y = r1[i].0;
    assert(heading_size_qualifies(s, y));
    lemma_keep_above_qualifies(s, c, y);
    assert(heading_size_qualifies(s2, y));
    if exists|q: int| 0 <= q < r2.len() && #[trigger] r2[q].0 == y {
        let q = choose|q: int| 0 <= q < r2.len() && #[trigger] r2[q].0 == y;
        if q < i {
            assert(agree_at(r1, r2, q));
            assert(r1[q].0 > r1[i].0);
        }
        if q > i {
            assert(r2[i].0 > r2[q].0);
        }
    } else {
        assert(r2.len() == 6 && y < r2[5].0);
        if i < 5 {
            assert(r2[i].0 > r2[5].0);
        }
    }
}

proof fn lemma_heading_map_prefix_upto(
    s: Seq<FontSample>,
    c: int,
    r1: Seq<(u32, u8)>,
    r2: Seq<(u32, u8)>,
    n: int,
)
    requires
        is_heading_map(s, r1),
        is_heading_map(keep_above(s, c), r2),
        0 <= n <= r2.len(),
    ensures
        forall|j: int| 0 <= j < n ==> #[trigger] agree_at(r1, r2, j),
    decreases n,
{
    if n > 0 {
        lemma_heading_map_prefix_upto(s, c, r1, r2, n - 1);
        lemma_heading_map_prefix_at(s, c, r1, r2, n - 1);
        assert(agree_at(r1, r2, n - 1));
    }
}

/// Raising the body size only drops heading levels from the end: when the
/// candidates shrink to those sized above some key `c`, the new heading map
/// is a prefix of the old one, the remaining sizes keeping their levels.
pub proof fn lemma_heading_map_shrinks_from_end(
    s: Seq<FontSample>,
    c: int,
    r1: Seq<(u32, u8)>,
    r2: Seq<(u32, u8)>,
)
    requires
        is_heading_map(s, r1),
        is_heading_map(keep_above(s, c), r2),
    ensures
        r2.len() <= r1.len(),
        r2 == r1.subrange(0, r2.len() as int),
{
    lemma_heading_map_prefix_upto(s, c, r1, r2, r2.len() as int);
    if r2.len() > 0 {
        assert(agree_at(r1, r2, r2.len() - 1));
    }
    assert forall|j: int| 0 <= j < r2.len() implies r2[j] == r1.subrange(0, r2.len() as int)[j] by {
        assert(agree_at(r1, r2, j));
        assert(r1[j].1 == j + 1);
        assert(r2[j].1 == j + 1);
    }
    assert(r2 =~= r1.subrange(0, r2.len() as int));
}

/// Asking for one page number extracts at most that one page.
pub proof fn lemma_one_page_requested(r: Seq<i32>, page_count: i32, t: u32)
    requires
        forall|i: int| 0 <= i < r.len() - 1 ==> #[trigger] r[i] < r[i + 1],
        forall|p: i32| #[trigger] r.contains(p) <==> (0 <= p < page_count && p + 1 == t),
    ensures
        r.len() <= 1,
        r.len() == 1 ==> r[0] + 1 == t,
{
    if r.len() >= 2 {
        assert(r.contains(r[0]));
        assert(r.contains(r[1]));
        assert(r[0] < r[1]);
    }
    if r.len() == 1 {
        assert(r.contains(r[0]));
    }
}

/// At most one block is open at a time: a paragraph, a list item, or a
/// code block. Every classification step keeps this so.
pub open spec fn one_block_open(s: ClassifyState) -> bool {
    &&& !(s.paragraph_open && s.list_open)
    &&& s.code_open ==> !s.paragraph_open && !s.list_open
}

/// Classifying a line never leaves two blocks open at once, a line only
/// continues a paragraph or list item that is open, and a heading closes
/// every block.
pub proof fn lemma_classify_keeps_one_block_open(
    s: ClassifyState,
    f: LineFacts,
    nodes: Seq<StructNode>,
    map_len: nat,
)
    requires
        one_block_open(s),
    ensures
        one_block_open(next_state(s, line_action(s, f, nodes, map_len))),
        line_action(s, f, nodes, map_len) == ActionView::ParagraphAppend ==> s.paragraph_open,
        line_action(s, f, nodes, map_len) == ActionView::ListContinuation ==> s.list_open,
        (line_action(s, f, nodes, map_len) is Heading) ==> next_state(
            s,
            line_action(s, f, nodes, map_len),
        ) == (ClassifyState { paragraph_open: false, code_open: false, list_open: false }),
{
}

/// Assembling a page only ever adds blocks after those already finished:
/// a line or a non-text block never changes or reorders a finished block.
pub proof fn lemma_finished_blocks_stay(
    v: PageView,
    index: usize,
    a: ActionView,
    text: Seq<char>,
    style: Option<SpanStyle>,
    inline: Seq<char>,
    level: u8,
)
    ensures
        v.blocks.is_prefix_of(line_step(v, index, a, text, style, inline, level).blocks),
        v.blocks.is_prefix_of(closed_with(v, seq![BlockView::Break], None).blocks),
{
    let w = line_step(v, index, a, text, style, inline, level);
    assert(w.blocks.subrange(0, v.blocks.len() as int) =~= v.blocks);
    let c = closed_with(v, seq![BlockView::Break], None);
    assert(c.blocks.subrange(0, v.blocks.len() as int) =~= v.blocks);
}

/// A line that continues an open paragraph or list item is never made a
/// heading by its shape (bold, or numbered and bold): only a structure-tree,
/// outline or font-size level can make it one.
pub proof fn lemma_continued_line_is_no_shape_heading(
    s: ClassifyState,
    f: LineFacts,
    nodes: Seq<StructNode>,
    map_len: nat,
)
    requires
        s.paragraph_open || s.list_open,
        f.prev matches Some(p) && continues(p.text@, f.text@, p.style, f.style, p.geometry),
    ensures
        (line_action(s, f, nodes, map_len) is Heading) ==> marked_level(f, nodes, trim(f.text@)) is Some,
{
}

/// In an open list, a line with a list marker that continues the open item
/// (and has no structure-tree, outline or font-size level) is the next list
/// item, with the marker and text the marker splits off.
pub proof fn lemma_next_item_of_open_list(
    s: ClassifyState,
    f: LineFacts,
    nodes: Seq<StructNode>,
    map_len: nat,
)
    requires
        s.list_open,
        f.prev matches Some(p) && continues(p.text@, f.text@, p.style, f.style, p.geometry),
        trim(f.text@).len() > 0,
        !f.rotated,
        !f.all_mono,
        marked_level(f, nodes, trim(f.text@)) is None,
        list_marker(trim(f.text@)) is Some,
    ensures
        (list_marker(trim(f.text@)) matches Some(x) && line_action(s, f, nodes, map_len)
            == ActionView::ListItem(x.0, x.1, x.2)),
{
}

/// A heading found by shape rather than by an explicit level is either a
/// uniformly bold, non-monospace line, or an ordered list line whose body
/// spans are bold.
pub proof fn lemma_shape_heading_is_bold(
    s: ClassifyState,
    f: LineFacts,
    nodes: Seq<StructNode>,
    map_len: nat,
)
    requires
        line_action(s, f, nodes, map_len) is Heading,
        marked_level(f, nodes, trim(f.text@)) is None,
    ensures
        (f.style matches Some(st) && st.bold && !st.mono) || (list_marker(trim(f.text@)) matches Some(
            x,
        ) && x.0 && exists|i: int| 0 <= i < f.spans@.len() && #[trigger] f.spans@[i].bold),
{
    let t = trim(f.text@);
    if list_marker(t) matches Some(x) && x.0 && numbered_bold_heading(
        f.text@,
        x.2,
        f.spans@,
        breaks_above(s, f),
    ) {
        let i = choose|i: int| 0 <= i < f.spans@.len() && #[trigger] is_body_span(f.spans@[i]);
        assert(f.spans@[i].bold);
    }
}

/// What a bold body-size heading must be: a uniformly bold, non-monospace
/// line of 1 to 80 characters (trimmed) that is not a caption, splits into
/// fewer than three table cells, and has paragraph breaks above and below.
pub proof fn lemma_bold_heading_requirements(
    text: Seq<char>,
    style: Option<SpanStyle>,
    cell_count: nat,
    above: bool,
    below: bool,
)
    requires
        bold_heading(text, style, cell_count, above, below),
    ensures
        style matches Some(st) && st.bold && !st.mono,
        1 <= trim(text).len() <= 80,
        !is_caption(trim(text)),
        cell_count < 3,
        above,
        below,
{
}

/// What a numbered bold heading must be: its text after the marker is 1 to
/// 80 characters (trimmed), the line is not a caption, it has a paragraph
/// break above, and its body spans are all bold and not monospace, with at
/// least one.
pub proof fn lemma_numbered_heading_requirements(
    line_text: Seq<char>,
    rest: Seq<char>,
    spans: Seq<StyledSpan>,
    above: bool,
)
    requires
        numbered_bold_heading(line_text, rest, spans, above),
    ensures
        1 <= trim(rest).len() <= 80,
        !is_caption(line_text),
        above,
        exists|i: int| 0 <= i < spans.len() && #[trigger] spans[i].bold && !spans[i].mono,
        forall|i: int| 0 <= i < spans.len() && #[trigger] is_body_span(spans[i]) ==> spans[i].bold && !spans[i].mono,
{
    let i = choose|i: int| 0 <= i < spans.len() && #[trigger] is_body_span(spans[i]);
    assert(spans[i].bold && !spans[i].mono);
}

/// A glyph that is not on a started segment's line always ends the
/// segment, whatever the gap and whether a space is pending: the segment's
/// trimmed text is handed out (when nonempty) and the glyph starts a new
/// segment.
pub proof fn lemma_glyph_on_another_line_splits(v: SegmentView, c: char, wide_gap: bool)
    requires
        v.1,
    ensures
        char_step(v, CharKind::Glyph(c), false, wide_gap) == ((seq![c], true, false), if trim(
            v.0,
        ).len() > 0 {
            Some(trim(v.0))
        } else {
            None
        }),
{
}

/// After a space, a glyph across a wide gap ends a started segment even on
/// the same line.
pub proof fn lemma_wide_gap_after_space_splits(v: SegmentView, c: char)
    requires
        v.1,
        v.2,
    ensures
        char_step(v, CharKind::Glyph(c), true, true) == ((seq![c], true, false), if trim(v.0).len()
            > 0 {
            Some(trim(v.0))
        } else {
            None
        }),
{
}

/// A glyph on a started segment's line joins it, after one space when a
/// space is pending, unless it follows that space across a wide gap; no
/// text is handed out.
pub proof fn lemma_glyph_on_line_joins(v: SegmentView, c: char, wide_gap: bool)
    requires
        v.1,
        !(v.2 && wide_gap),
    ensures
        char_step(v, CharKind::Glyph(c), true, wide_gap) == ((
            if v.2 {
                v.0 + seq![' ', c]
            } else {
                v.0 + seq![c]
            },
            true,
            false,
        ), None::<Seq<char>>),
{
    assert(v.0.push(' ').push(c) =~= v.0 + seq![' ', c]);
    assert(v.0.push(c) =~= v.0 + seq![c]);
}

/// A line break ends the segment: its trimmed text is handed out when it
/// started and is nonempty, and nothing is left started or pending.
pub proof fn lemma_line_break_ends_segment(v: SegmentView, same_line: bool, wide_gap: bool)
    ensures
        char_step(v, CharKind::LineBreak, same_line, wide_gap) == ((Seq::<char>::empty(), false, false), if v.1
            && trim(v.0).len() > 0 {
            Some(trim(v.0))
        } else {
            None
        }),
{
}

/// The reasons a line cannot continue the previous line's paragraph: one of
/// them is centered and the other not; their font sizes are not close;
/// both are uniformly styled and exactly one of them is bold (in either
/// order); or, in the same region, the line is indented right of the
/// previous one or too far below it. Two lines with none of these, in the
/// same region, do continue.
pub proof fn lemma_paragraph_breaks(
    prev: Seq<char>,
    cur: Seq<char>,
    prev_style: Option<SpanStyle>,
    cur_style: Option<SpanStyle>,
    g: PairGeometry,
)
    ensures
        g.centered_mismatch ==> !continues(prev, cur, prev_style, cur_style, g),
        !g.size_close ==> !continues(prev, cur, prev_style, cur_style, g),
        (prev_style matches Some(p) && cur_style matches Some(c) && p.bold != c.bold) ==> !continues(
            prev,
            cur,
            prev_style,
            cur_style,
            g,
        ),
        g.same_region && (g.indent_shift || !g.gap_ok) ==> !continues(prev, cur, prev_style, cur_style, g),
        (!g.centered_mismatch && g.size_close && !(prev_style matches Some(p) && cur_style matches Some(
            c,
        ) && p.bold != c.bold) && g.same_region && !g.indent_shift && g.gap_ok) ==> continues(
            prev,
            cur,
            prev_style,
            cur_style,
            g,
        ),
{
}

/// Across regions a line continues the previous one only when it starts
/// (after whitespace) with a lowercase letter and the previous line does
/// not end (before whitespace) with closing punctuation.
pub proof fn lemma_cross_region_continuation(
    prev: Seq<char>,
    cur: Seq<char>,
    prev_style: Option<SpanStyle>,
    cur_style: Option<SpanStyle>,
    g: PairGeometry,
)
    requires
        !g.same_region,
        continues(prev, cur, prev_style, cur_style, g),
    ensures
        trim_start(cur).len() > 0 && is_lower(trim_start(cur)[0]),
        trim_end(prev).len() > 0 ==> {
            let e = trim_end(prev).last();
            e != '.' && e != '!' && e != '?' && e != ':' && e != ';' && e != ')' && e != ']' && e
                != '"'
        },
{
}

/// Page blocks are joined by a blank line: appending a page to a nonempty
/// document adds `"\n\n"` and then the page's block `"\n--- Page N ---\n"`
/// followed by its text; a single page is just its block; no pages give no
/// text.
pub proof fn lemma_format_text_joins_pages(p: Seq<ParsedPage>, q: ParsedPage)
    ensures
        p.len() > 0 ==> join_blocks(p.push(q)) == join_blocks(p) + "\n\n"@ + ("\n--- Page "@ + decimal(
            q.page_number as nat,
        ) + " ---\n"@ + q.text@),
        join_blocks(seq![q]) == "\n--- Page "@ + decimal(q.page_number as nat) + " ---\n"@ + q.text@,
        join_blocks(Seq::<ParsedPage>::empty()) == Seq::<char>::empty(),
{
    if p.len() > 0 {
        assert(p.push(q).drop_last() =~= p);
    }
}

/// pypdf-style output joins page texts with one newline: appending a page
/// to a nonempty document adds `'\n'` and its text; a single page is its
/// text; no pages give no text.
pub proof fn lemma_format_pypdf_joins_pages(p: Seq<ParsedPage>, q: ParsedPage)
    ensures
        p.len() > 0 ==> join_texts(p.push(q), seq!['\n']) == join_texts(p, seq!['\n']) + seq!['\n']
            + q.text@,
        join_texts(seq![q], seq!['\n']) == q.text@,
        join_texts(Seq::<ParsedPage>::empty(), seq!['\n']) == Seq::<char>::empty(),
{
    if p.len() > 0 {
        assert(p.push(q).drop_last() =~= p);
    }
}

/// What a PDF character becomes: the null and non-character sentinels
/// (`0`, `0xFFFE`, `0xFFFF`) and code points that are no `char` are
/// skipped; `0x02` reads as a hyphen; `\n` and `\r` break the line; a space
/// is a space even when generated; any other generated character is
/// skipped; and any other character is a glyph of itself.
pub proof fn lemma_pdf_char_kinds(u: u32, generated: bool)
    ensures
        (u == 0 || u == 0xFFFE || u == 0xFFFF) ==> char_kind(u, generated) == CharKind::Skip,
        (u > 0x10FFFF || (0xD800 <= u && u <= 0xDFFF)) ==> char_kind(u, generated) == CharKind::Skip,
        u == 2 ==> char_kind(u, generated) == if generated {
            CharKind::Skip
        } else {
            CharKind::Glyph('-')
        },
        (u == 10 || u == 13) ==> char_kind(u, generated) == CharKind::LineBreak,
        u == 32 ==> char_kind(u, generated) == CharKind::Space,
        (u != 0 && u != 2 && u != 10 && u != 13 && u != 32 && u != 0xFFFE && u != 0xFFFF && u
            <= 0x10FFFF && !(0xD800 <= u && u <= 0xDFFF)) ==> char_kind(u, generated) == if generated {
            CharKind::Skip
        } else {
            CharKind::Glyph(u as char)
        },
{
}

/// A space only marks a started segment as having a pending space, and a
/// skipped character changes nothing; neither hands out text.
pub proof fn lemma_space_and_skip(v: SegmentView, same_line: bool, wide_gap: bool)
    ensures
        char_step(v, CharKind::Space, same_line, wide_gap) == ((v.0, v.1, v.1 || v.2), None::<Seq<char>>),
        char_step(v, CharKind::Skip, same_line, wide_gap) == (v, None::<Seq<char>>),
{
}

/// Joining across a line break: with a continuation, an empty text becomes
/// the appended text; a text ending in `-` before a continuation starting
/// with an ASCII lowercase letter loses its hyphen and is concatenated;
/// anything else is joined with exactly one space; an empty continuation
/// changes nothing.
pub proof fn lemma_dehyphenated_result(prev: Seq<char>, check: Seq<char>, to_append: Seq<char>)
    ensures
        check.len() == 0 ==> dehyphenated(prev, check, to_append) == prev,
        check.len() > 0 && prev.len() == 0 ==> dehyphenated(prev, check, to_append) == to_append,
        check.len() > 0 && prev.len() > 0 && prev.last() == '-' && 'a' <= check[0] <= 'z'
            ==> dehyphenated(prev, check, to_append) == prev.subrange(0, prev.len() - 1) + to_append,
        check.len() > 0 && prev.len() > 0 && !(prev.last() == '-' && 'a' <= check[0] <= 'z')
            ==> dehyphenated(prev, check, to_append) == prev + seq![' '] + to_append,
{
}

/// The struct-tree roles `H1` to `H6` (either case) name levels 1 to 6;
/// `H0`, `H7` to `H9`, a bare `H` and roles starting with another letter
/// name none.
pub proof fn lemma_heading_roles(d: char, c: char)
    ensures
        ('1' <= d <= '6') ==> role_level(seq!['H', d]) == Some((d as u32 - 48) as u8) && role_level(
            seq!['h', d],
        ) == Some((d as u32 - 48) as u8),
        (d == '0' || ('7' <= d <= '9')) ==> role_level(seq!['H', d]) is None,
        role_level(seq!['H']) is None,
        (c != 'H' && c != 'h' && !is_ws(c)) ==> role_level(seq![c, d]) is None,
{
    lemma_trim_of_non_ws(seq!['H']);
    if !is_ws(c) {
        let t = trim(seq![c, d]);
        let k = lemma_trim_start_split(seq![c, d]);
        assert(k == 0);
        assert(trim_start(seq![c, d])[0] == c);
        let j = lemma_trim_end_split(trim_start(seq![c, d]));
        assert(j >= 1);
        assert(t[0] == c);
    }
    if '0' <= d <= '9' {
        lemma_trim_of_non_ws(seq!['H', d]);
        lemma_trim_of_non_ws(seq!['h', d]);
        let b = seq!['H', d].subrange(1, 2);
        assert(b =~= seq![d]);
        assert(b.last() == d);
        assert(b.drop_last() =~= Seq::<char>::empty());
        assert(digits_value(b.drop_last()) == 0);
        assert(without_plus(b) == b);
        assert(all_digits(b));
        assert(digits_value(b) == (d as u32 - 48) as nat);
        let b2 = seq!['h', d].subrange(1, 2);
        assert(b2 =~= seq![d]);
    }
    assert(seq!['H'].subrange(1, 1) =~= Seq::<char>::empty());
}

/// A sequence without whitespace at its ends trims to itself.
proof fn lemma_trim_of_non_ws(t: Seq<char>)
    requires
        t.len() > 0,
        !is_ws(t[0]),
        !is_ws(t.last()),
    ensures
        trim(t) == t,
{
    assert(trim_start(t) == t);
    assert(trim_end(t) == t);
}

/// The decimal representation of a page number is a nonempty run of ASCII
/// digits, without a leading zero unless it is `0`, whose value is the
/// number.
pub proof fn lemma_decimal_digits(n: nat)
    ensures
        decimal(n).len() > 0,
        forall|i: int| 0 <= i < decimal(n).len() ==> '0' <= #[trigger] decimal(n)[i] <= '9',
        decimal(n).len() > 1 ==> decimal(n)[0] != '0',
        digits_value(decimal(n)) == n,
    decreases n,
{
    if n < 10 {
        let c = digit_char(n);
        assert((c as u32) == 48 + n);
        assert(decimal(n) == seq![c]);
        assert(seq![c].last() == c);
        assert(seq![c].drop_last() =~= Seq::<char>::empty());
        assert(digits_value(seq![c].drop_last()) == 0);
        assert(digits_value(seq![c]) == ((c as u32) - 48) as nat);
    } else {
        lemma_decimal_digits(n / 10);
        let d = decimal(n / 10);
        let c = digit_char(n % 10);
        assert((c as u32) == 48 + n % 10);
        assert(decimal(n) == d.push(c));
        assert(d.push(c).drop_last() =~= d);
        assert(d.push(c).last() == c);
        assert(digits_value(d.push(c)) == digits_value(d) * 10 + ((c as u32) - 48) as nat);
        assert forall|i: int| 0 <= i < decimal(n).len() implies '0' <= #[trigger] decimal(n)[i] <= '9' by {
            if i < d.len() {
                assert(decimal(n)[i] == d[i]);
            }
        }
        assert(decimal(n)[0] == d[0]);
        if d.len() == 1 {
            assert(d.last() == d[0]);
            assert(d.drop_last() =~= Seq::<char>::empty());
            assert(digits_value(d.drop_last()) == 0);
            assert(digits_value(d) == ((d[0] as u32) - 48) as nat);
            assert(n / 10 >= 1);
        }
        assert(n == (n / 10) * 10 + n % 10);
    }
}

/// A key is a running header or footer exactly when the document has at
/// least two pages and, in one band, the key appears on at least two
/// distinct pages and on at least half of the pages.
pub proof fn lemma_running_threshold(pages: Seq<ParsedPage>, k: Seq<char>)
    ensures
        is_running(pages, k) <==> pages.len() >= 2 && exists|f: bool|
            #![trigger pages_marking(pages, f, k)]
            pages_marking(pages, f, k).len() >= 2 && 2 * pages_marking(pages, f, k).len()
                >= pages.len(),
{
    let n = pages.len();
    assert forall|f: bool| #[trigger] pages_marking(pages, f, k).len() >= repetition_threshold(n)
        <==> (pages_marking(pages, f, k).len() >= 2 && 2 * pages_marking(pages, f, k).len() >= n) by {
        let m = pages_marking(pages, f, k).len();
        assert(m >= (n + 1) / 2 <==> 2 * m >= n) by (nonlinear_arith);
    }
    if is_running(pages, k) {
        if pages_marking(pages, false, k).len() >= repetition_threshold(n) {
            assert(pages_marking(pages, false, k).len() >= 2);
        } else {
            assert(pages_marking(pages, true, k).len() >= 2);
        }
    }
}

/// A line counts for a key in a band only through a line of some page that
/// lies in that band (the header band, or the footer band for `footer`)
/// and whose trimmed text has that nonempty key; page numbers, not pages,
/// are counted.
pub proof fn lemma_marking_needs_a_line_in_band(
    pages: Seq<ParsedPage>,
    footer: bool,
    k: Seq<char>,
    n: usize,
)
    ensures
        pages_marking(pages, footer, k).contains(n) <==> exists|i: int, j: int|
            #![trigger pages[i].projected_lines@[j]]
            0 <= i < pages.len() && 0 <= j < pages[i].projected_lines@.len() && pages[i].page_number
                == n && (if footer {
                pages[i].projected_lines@[j].in_footer_band
            } else {
                pages[i].projected_lines@[j].in_header_band
            }) && repetition_key(trim(pages[i].projected_lines@[j].text@)) == k && k.len() > 0,
{
    if pages_marking(pages, footer, k).contains(n) {
        let (i, j) = choose|i: int, j: int|
            (i < pages.len() as int || (i == pages.len() as int && j < 0)) && #[trigger] marks_at(
                pages,
                i,
                j,
                footer,
                k,
            ) && pages[i].page_number == n;
        assert(if footer {
            pages[i].projected_lines@[j].in_footer_band
        } else {
            pages[i].projected_lines@[j].in_header_band
        });
    }
    if exists|i: int, j: int|
        #![trigger pages[i].projected_lines@[j]]
        0 <= i < pages.len() && 0 <= j < pages[i].projected_lines@.len() && pages[i].page_number
            == n && (if footer {
            pages[i].projected_lines@[j].in_footer_band
        } else {
            pages[i].projected_lines@[j].in_header_band
        }) && repetition_key(trim(pages[i].projected_lines@[j].text@)) == k && k.len() > 0 {
        let (i, j) = choose|i: int, j: int|
            #![trigger pages[i].projected_lines@[j]]
            0 <= i < pages.len() && 0 <= j < pages[i].projected_lines@.len() && pages[i].page_number
                == n && (if footer {
                pages[i].projected_lines@[j].in_footer_band
            } else {
                pages[i].projected_lines@[j].in_header_band
            }) && repetition_key(trim(pages[i].projected_lines@[j].text@)) == k && k.len() > 0;
        let l = pages[i].projected_lines@[j];
        assert(in_band(l, footer));
        assert(line_key(l) == k);
        assert(marks_at(pages, i, j, footer, k));
        assert((i < pages.len() as int || (i == pages.len() as int && j < 0)) && marks_at(
            pages,
            i,
            j,
            footer,
            k,
        ) && pages[i].page_number == n);
    }
}

/// The priority chain of line classification: blank and rotated lines are
/// skipped; monospace lines are code (kept as they are, less trailing
/// whitespace); then a structure-tree heading role wins over everything
/// else; a font-size level applies unless the line is a caption; and every
/// heading or new paragraph carries the trimmed, whitespace-collapsed text.
pub proof fn lemma_classification_priorities(
    s: ClassifyState,
    f: LineFacts,
    nodes: Seq<StructNode>,
    map_len: nat,
    m: i32,
    x: u8,
)
    ensures
        (trim(f.text@).len() == 0 || f.rotated) ==> line_action(s, f, nodes, map_len)
            == ActionView::Skip,
        (trim(f.text@).len() > 0 && !f.rotated && f.all_mono) ==> line_action(s, f, nodes, map_len)
            == ActionView::CodeLine(trim_end(f.text@)),
        (trim(f.text@).len() > 0 && !f.rotated && !f.all_mono && f.mcid == Some(m)
            && first_struct_level(nodes, m, 0) == Some(x) && 1 <= x <= 6) ==> line_action(
            s,
            f,
            nodes,
            map_len,
        ) == ActionView::Heading(x, collapse(trim(f.text@))),
        (trim(f.text@).len() > 0 && !f.rotated && !f.all_mono && f.mcid is None && f.outline@.len()
            == 0 && !is_caption(trim(f.text@)) && f.size_level == Some(x) && 1 <= x <= 6)
            ==> line_action(s, f, nodes, map_len) == ActionView::Heading(
            x,
            collapse(trim(f.text@)),
        ),
        (f.mcid is None && f.outline@.len() == 0 && is_caption(trim(f.text@))) ==> marked_level(
            f,
            nodes,
            trim(f.text@),
        ) is None,
        line_action(s, f, nodes, map_len) matches ActionView::Heading(l, t) ==> 1 <= l <= 6 && t
            == collapse(trim(f.text@)),
        line_action(s, f, nodes, map_len) matches ActionView::ParagraphStart(t) ==> t == collapse(
            trim(f.text@),
        ),
        (line_action(s, f, nodes, map_len) is Heading && marked_level(f, nodes, trim(f.text@))
            is None) ==> (line_action(s, f, nodes, map_len) matches ActionView::Heading(l, _) && l
            == if map_len + 1 > 6 {
            6
        } else {
            map_len + 1
        }),
{
}

/// With six or more distinct qualifying heading sizes, the heading map
/// holds exactly six levels.
pub proof fn lemma_heading_map_takes_six(
    s: Seq<FontSample>,
    r: Seq<(u32, u8)>,
    k: Seq<u32>,
)
    requires
        is_heading_map(s, r),
        k.len() == 6,
        forall|i: int, j: int| 0 <= i < j < 6 ==> #[trigger] k[i] > #[trigger] k[j],
        forall|i: int| 0 <= i < 6 ==> heading_size_qualifies(s, #[trigger] k[i]),
    ensures
        r.len() == 6,
{
    if r.len() < 6 {
        // Every qualifying size is in the map, at positions that increase as
        // the sizes decrease.
        assert forall|i: int| 0 <= i < 6 implies #[trigger] in_map(r, k[i]) by {
            assert(heading_size_qualifies(s, k[i]));
        }
        lemma_position_at_least(r, k, 5);
        let p5 = choose|p: int| 0 <= p < r.len() && #[trigger] r[p].0 == k[5];
        assert(in_map(r, k[5]));
        assert(p5 >= 5);
    }
}

/// Size `x` has a level in map `r`.
spec fn in_map(r: Seq<(u32, u8)>, x: u32) -> bool {
    exists|p: int| 0 <= p < r.len() && #[trigger] r[p].0 == x
}

proof fn lemma_position_at_least(r: Seq<(u32, u8)>, k: Seq<u32>, i: int)
    requires
        0 <= i < 6,
        k.len() == 6,
        forall|a: int, b: int| 0 <= a < b < r.len() ==> #[trigger] r[a].0 > #[trigger] r[b].0,
        forall|a: int, b: int| 0 <= a < b < 6 ==> #[trigger] k[a] > #[trigger] k[b],
        forall|a: int| 0 <= a < 6 ==> #[trigger] in_map(r, k[a]),
    ensures
        forall|p: int| 0 <= p < r.len() && #[trigger] r[p].0 == k[i] ==> p >= i,
    decreases i,
{
    if i > 0 {
        lemma_position_at_least(r, k, i - 1);
        assert(in_map(r, k[i - 1]));
        let q = choose|q: int| 0 <= q < r.len() && #[trigger] r[q].0 == k[i - 1];
        assert(q >= i - 1);
        assert(k[i - 1] > k[i]);
        assert forall|p: int| 0 <= p < r.len() && #[trigger] r[p].0 == k[i] implies p >= i by {
            if p < q {
                assert(r[p].0 > r[q].0);
            }
        }
    }
}

/// Sizes whose lines hold fewer than 25 non-whitespace characters in all,
/// or that are mostly not letters, or whose lines average more than 200
/// characters, never get a heading level.
pub proof fn lemma_heading_map_skips_noise(s: Seq<FontSample>, r: Seq<(u32, u8)>, k: u32)
    requires
        is_heading_map(s, r),
        key_chars(s, k) < 25 || 2 * key_alpha(s, k) < key_chars(s, k) || key_chars(s, k) > 200
            * key_lines(s, k),
    ensures
        forall|i: int| 0 <= i < r.len() ==> #[trigger] r[i].0 != k,
{
}

/// Outline matching: a line with two or more sentence breaks (`". "`)
/// matches no entry; and a level found comes from an entry at or after `i`
/// whose position agrees with the line, whose normalized title is nonempty
/// and is a prefix of the normalized line or has it as a prefix, capped at
/// 6.
pub proof fn lemma_outline_match_needs(nl: Seq<char>, e: Seq<OutlineCandidate>, i: int)
    ensures
        sentence_breaks(nl) >= 2 ==> first_outline_level(nl, e, i) is None,
        first_outline_level(nl, e, i) matches Some(l) ==> exists|j: int|
            i <= j < e.len() && #[trigger] e[j].y_ok && outline_norm(e[j].title@).len() > 0 && (
            outline_norm(e[j].title@).is_prefix_of(nl) || nl.is_prefix_of(outline_norm(e[j].title@)))
                && l == (if e[j].level > 6 {
                6
            } else {
                e[j].level
            }),
    decreases e.len() - i,
{
    if 0 <= i < e.len() {
        lemma_outline_match_needs(nl, e, i + 1);
        if let Some(l) = first_outline_level(nl, e, i) {
            if !outline_entry_matches(nl, e[i]) {
                let j = choose|j: int|
                    i + 1 <= j < e.len() && #[trigger] e[j].y_ok && outline_norm(e[j].title@).len()
                        > 0 && (outline_norm(e[j].title@).is_prefix_of(nl) || nl.is_prefix_of(
                        outline_norm(e[j].title@),
                    )) && l == (if e[j].level > 6 {
                        6
                    } else {
                        e[j].level
                    });
                assert(i <= j);
            } else {
                assert(e[i].y_ok);
            }
        }
    }
}

/// A numbered line whose text after the marker is several sentences (it
/// ends with `.` and holds two or more of `.`, `?`, `!`) is not a numbered
/// heading.
pub proof fn lemma_numbered_heading_not_prose(
    line_text: Seq<char>,
    rest: Seq<char>,
    spans: Seq<StyledSpan>,
    above: bool,
)
    requires
        trim(rest).len() > 0,
        trim(rest).last() == '.',
        sentence_punct_count(trim(rest)) >= 2,
    ensures
        !numbered_bold_heading(line_text, rest, spans, above),
{
}

/// An ordered list marker is recognized whenever the text (after leading
/// whitespace) is one to three ASCII digits, then `.` or `)`, then
/// whitespace: the marker is the digits with their punctuation, and the
/// rest is what follows, without its leading whitespace.
pub proof fn lemma_ordered_marker_recognized(text: Seq<char>, d: int)
    requires
        1 <= d <= 3,
        d + 2 <= trim_start(text).len(),
        forall|i: int| 0 <= i < d ==> is_digit(#[trigger] trim_start(text)[i]),
        trim_start(text)[d] == '.' || trim_start(text)[d] == ')',
        is_ws(trim_start(text)[d + 1]),
    ensures
        list_marker(text) == Some(
            (
                true,
                trim_start(text).subrange(0, d + 1),
                trim_start(trim_start(text).subrange(d + 2, trim_start(text).len() as int)),
            ),
        ),
{
    let t = trim_start(text);
    lemma_leading_digits(t);
    let ld = leading_digits(t) as int;
    if ld < d {
        assert(is_digit(t[ld]));
    }
    if ld > d {
        assert(is_digit(t[d]));
    }
    assert(ld == d);
    assert(is_digit(t[0]));
}

/// A bullet followed by whitespace is an unordered marker, and four or more
/// leading ASCII digits are no marker.
pub proof fn lemma_bullet_and_long_numbers(text: Seq<char>)
    ensures
        ({
            let t = trim_start(text);
            t.len() >= 2 && is_bullet(t[0]) && is_ws(t[1]) ==> list_marker(text) == Some(
                (false, seq![t[0]], trim_start(t.subrange(2, t.len() as int))),
            )
        }),
        ({
            let t = trim_start(text);
            t.len() >= 4 && is_digit(t[0]) && is_digit(t[1]) && is_digit(t[2]) && is_digit(t[3])
                ==> list_marker(text) is None
        }),
{
    let t = trim_start(text);
    if t.len() >= 4 && is_digit(t[0]) && is_digit(t[1]) && is_digit(t[2]) && is_digit(t[3]) {
        lemma_leading_digits_at_least(t, 4);
    }
}

proof fn lemma_leading_digits_at_least(t: Seq<char>, n: int)
    requires
        0 <= n <= t.len(),
        forall|i: int| 0 <= i < n ==> is_digit(#[trigger] t[i]),
    ensures
        leading_digits(t) >= n,
    decreases n,
{
    if n > 0 {
        assert forall|i: int| 0 <= i < n - 1 implies is_digit(#[trigger] t.drop_first()[i]) by {
            assert(t.drop_first()[i] == t[i + 1]);
        }
        lemma_leading_digits_at_least(t.drop_first(), n - 1);
        assert(is_digit(t[0]));
    }
}

/// Page assembly keeps reading order: a heading after an open paragraph
/// puts the paragraph, then the heading, after the finished blocks; a new
/// paragraph likewise closes the open one first; consecutive code lines
/// gather into the open code block without finishing anything; and a
/// paragraph continuation joins the open paragraph's plain text across the
/// line break.
pub proof fn lemma_assembly_order(
    v: PageView,
    index: usize,
    text: Seq<char>,
    style: Option<SpanStyle>,
    inline: Seq<char>,
    level: u8,
    l: u8,
    t: Seq<char>,
)
    requires
        v.code.len() == 0,
        v.item is None,
        v.paragraph is Some,
    ensures
        (v.paragraph matches Some(p) && line_step(
            v,
            index,
            ActionView::Heading(l, t),
            text,
            style,
            inline,
            level,
        ).blocks == v.blocks + seq![BlockView::Paragraph(p.0, p.1, p.2), BlockView::Heading(l, t)]),
        (v.paragraph matches Some(p) && line_step(
            v,
            index,
            ActionView::ParagraphStart(t),
            text,
            style,
            inline,
            level,
        ).blocks == v.blocks + seq![BlockView::Paragraph(p.0, p.1, p.2)]),
        line_step(v, index, ActionView::ParagraphStart(t), text, style, inline, level).paragraph
            == Some((t, inline, style_flags(style))),
        (v.paragraph matches Some(p) && (p.0.len() > 0 && collapse(trim(text)).len() > 0 ==> (
        line_step(
            v,
            index,
            ActionView::ParagraphAppend,
            text,
            style,
            inline,
            level,
        ).paragraph matches Some(q) && q.0 == dehyphenated(
            p.0,
            collapse(trim(text)),
            collapse(trim(text)),
        )))),
{
    let p = v.paragraph.unwrap();
    assert(v.blocks + open_blocks(v) + seq![BlockView::Heading(l, t)] =~= v.blocks + seq![
        BlockView::Paragraph(p.0, p.1, p.2),
        BlockView::Heading(l, t),
    ]);
    assert(v.blocks + open_blocks(v) =~= v.blocks + seq![BlockView::Paragraph(p.0, p.1, p.2)]);
}

/// Consecutive code lines gather into one code block: with code open, a
/// code line adds nothing to the finished blocks and joins the open lines.
pub proof fn lemma_code_lines_gather(
    v: PageView,
    index: usize,
    text: Seq<char>,
    style: Option<SpanStyle>,
    inline: Seq<char>,
    level: u8,
    t: Seq<char>,
)
    requires
        v.paragraph is None,
        v.item is None,
    ensures
        line_step(v, index, ActionView::CodeLine(t), text, style, inline, level).blocks == v.blocks,
        line_step(v, index, ActionView::CodeLine(t), text, style, inline, level).code == v.code.push(t),
{
    assert(v.blocks + open_blocks(PageView { code: Seq::empty(), ..v }) =~= v.blocks);
}

/// Text that already has the collapsed shape (only single spaces between
/// non-whitespace characters) is left as it is by collapsing.
pub proof fn lemma_collapse_keeps_collapsed(r: Seq<char>)
    requires
        collapsed_shape(r),
    ensures
        collapse(r) == r,
{
    lemma_collapse_of_shaped(r);
}

/// A paragraph stays uniformly styled only while every line has a uniform
/// style with the same bold and italic flags as the paragraph so far.
pub proof fn lemma_uniform_style_merge(cur: Option<(bool, bool)>, next: Option<SpanStyle>)
    ensures
        merged_uniform(cur, next) == (if cur is Some && next is Some && cur->0 == (
            next->0.bold,
            next->0.italic,
        ) {
            cur
        } else {
            None
        }),
        style_flags(next) == (if next is Some {
            Some((next->0.bold, next->0.italic))
        } else {
            None
        }),
{
}

/// A size qualifies for a heading level exactly when its lines hold at
/// least 25 non-whitespace characters in all, at most 200 per line on
/// average, and at least half of them are letters.
pub proof fn lemma_heading_size_thresholds(s: Seq<FontSample>, k: u32)
    ensures
        heading_size_qualifies(s, k) <==> (key_lines(s, k) > 0 && key_chars(s, k) >= 25
            && key_chars(s, k) <= 200 * key_lines(s, k) && 2 * key_alpha(s, k) >= key_chars(s, k)),
    decreases s.len(),
{
    lemma_key_lines_counts(s, k);
}

proof fn lemma_key_lines_counts(s: Seq<FontSample>, k: u32)
    ensures
        has_key(s, k) <==> key_lines(s, k) > 0,
        key_lines(s, k) >= 0,
    decreases s.len(),
{
    if s.len() > 0 {
        lemma_key_lines_counts(s.drop_last(), k);
        lemma_has_key_last(s, k);
    } else {
        assert(!has_key(s, k));
    }
}

/// The structure-tree level of a line is the heading level of the first
/// node, from position `i` on, that covers the line's marked-content id
/// and has a heading role.
pub proof fn lemma_struct_level_source(nodes: Seq<StructNode>, m: i32, i: int)
    requires
        0 <= i,
    ensures
        first_struct_level(nodes, m, i) matches Some(l) ==> exists|j: int|
            i <= j < nodes.len() && #[trigger] nodes[j].mcids@.contains(m) && role_level(
                nodes[j].role@,
            ) == Some(l) && forall|q: int|
                i <= q < j ==> !(#[trigger] nodes[q].mcids@.contains(m) && role_level(nodes[q].role@)
                    is Some),
        (forall|q: int|
            i <= q < nodes.len() ==> !(#[trigger] nodes[q].mcids@.contains(m) && role_level(
                nodes[q].role@,
            ) is Some)) ==> first_struct_level(nodes, m, i) is None,
    decreases nodes.len() - i,
{
    if i < nodes.len() {
        lemma_struct_level_source(nodes, m, i + 1);
        if let Some(l) = first_struct_level(nodes, m, i) {
            if !(nodes[i].mcids@.contains(m) && role_level(nodes[i].role@) is Some) {
                let j = choose|j: int|
                    i + 1 <= j < nodes.len() && #[trigger] nodes[j].mcids@.contains(m) && role_level(
                        nodes[j].role@,
                    ) == Some(l) && forall|q: int|
                        i + 1 <= q < j ==> !(#[trigger] nodes[q].mcids@.contains(m) && role_level(
                            nodes[q].role@,
                        ) is Some);
                assert forall|q: int| i <= q < j implies !(#[trigger] nodes[q].mcids@.contains(m)
                    && role_level(nodes[q].role@) is Some) by {}
            }
        }
    }
}

/// A line without a list marker or an explicit level that continues the
/// open list item joins it, and one that continues the open paragraph joins
/// that, even when it is bold.
pub proof fn lemma_continuations(s: ClassifyState, f: LineFacts, nodes: Seq<StructNode>, map_len: nat)
    requires
        one_block_open(s),
        f.prev matches Some(p) && continues(p.text@, f.text@, p.style, f.style, p.geometry),
        trim(f.text@).len() > 0,
        !f.rotated,
        !f.all_mono,
        marked_level(f, nodes, trim(f.text@)) is None,
        list_marker(trim(f.text@)) is None,
    ensures
        s.list_open ==> line_action(s, f, nodes, map_len) == ActionView::ListContinuation,
        s.paragraph_open ==> line_action(s, f, nodes, map_len) == ActionView::ParagraphAppend,
{
}

} // verus!
