//! Font-size statistics: the body size (the character-weighted most common
//! size) and the heading-size levels. Sizes are identified by an integer
//! key (the size in hundredths of a point, rounded), which orders sizes as
//! the sizes themselves are ordered.
use std::collections::HashMap;
use vstd::prelude::*;

verus! {

/// One line's contribution to the font-size statistics: the key of its
/// dominant size, its character count and its alphabetic character count.
#[derive(Clone, Copy, Debug, PartialEq, Eq, Structural)]
pub struct FontSample {
    pub key: u32,
    pub chars: usize,
    pub alpha: usize,
}

/// Number of samples with key `k`.
pub open spec fn key_lines(s: Seq<FontSample>, k: u32) -> int
    decreases s.len(),
{
    if s.len() == 0 {
        0
    } else {
        key_lines(s.drop_last(), k) + if s.last().key == k {
            1int
        } else {
            0int
        }
    }
}

/// Total characters of the samples with key `k`.
pub open spec fn key_chars(s: Seq<FontSample>, k: u32) -> int
    decreases s.len(),
{
    if s.len() == 0 {
        0
    } else {
        key_chars(s.drop_last(), k) + if s.last().key == k {
            s.last().chars as int
        } else {
            0int
        }
    }
}

/// Total alphabetic characters of the samples with key `k`.
pub open spec fn key_alpha(s: Seq<FontSample>, k: u32) -> int
    decreases s.len(),
{
    if s.len() == 0 {
        0
    } else {
        key_alpha(s.drop_last(), k) + if s.last().key == k {
            s.last().alpha as int
        } else {
            0int
        }
    }
}

/// Some sample has key `k`.
pub open spec fn has_key(s: Seq<FontSample>, k: u32) -> bool {
    exists|i: int| 0 <= i < s.len() && #[trigger] s[i].key == k
}

/// Per-key totals of a sample sequence.
struct Agg {
    key: u32,
    lines: u128,
    chars: u128,
    alpha: u128,
}

/// `t` holds exactly one entry per key of `s`, with that key's totals.
spec fn aggregates(t: Seq<Agg>, s: Seq<FontSample>) -> bool {
    &&& forall|a: int, b: int|
        0 <= a < t.len() && 0 <= b < t.len() && a != b ==> #[trigger] t[a].key != #[trigger] t[b].key
    &&& forall|a: int|
        0 <= a < t.len() ==> {
            &&& has_key(s, #[trigger] t[a].key)
            &&& t[a].lines == key_lines(s, t[a].key)
            &&& t[a].chars == key_chars(s, t[a].key)
            &&& t[a].alpha == key_alpha(s, t[a].key)
        }
    &&& forall|k: u32| #[trigger] has_key(s, k) ==> exists|a: int| 0 <= a < t.len() && #[trigger] t[a].key == k
}

proof fn lemma_totals_bounded(s: Seq<FontSample>, k: u32)
    ensures
        0 <= key_lines(s, k) <= s.len(),
        0 <= key_chars(s, k) <= s.len() * (usize::MAX as int),
        0 <= key_alpha(s, k) <= s.len() * (usize::MAX as int),
    decreases s.len(),
{
    if s.len() > 0 {
        lemma_totals_bounded(s.drop_last(), k);
        let m = usize::MAX as int;
        let n = s.len() as int;
        assert((n - 1) * m + m == n * m) by (nonlinear_arith);
    }
}

proof fn lemma_step(s: Seq<FontSample>, i: int, k: u32)
    requires
        0 <= i < s.len(),
    ensures
        key_lines(s.take(i + 1), k) == key_lines(s.take(i), k) + if s[i].key == k {
            1int
        } else {
            0int
        },
        key_chars(s.take(i + 1), k) == key_chars(s.take(i), k) + if s[i].key == k {
            s[i].chars as int
        } else {
            0int
        },
        key_alpha(s.take(i + 1), k) == key_alpha(s.take(i), k) + if s[i].key == k {
            s[i].alpha as int
        } else {
            0int
        },
        has_key(s.take(i + 1), k) == (has_key(s.take(i), k) || s[i].key == k),
{
    assert(s.take(i + 1).drop_last() =~= s.take(i));
    assert(s.take(i + 1).last() == s[i]);
    if has_key(s.take(i + 1), k) {
        let j = choose|j: int| 0 <= j < i + 1 && #[trigger] s.take(i + 1)[j].key == k;
        if j < i {
            assert(s.take(i)[j].key == k);
        }
    }
    if has_key(s.take(i), k) {
        let j = choose|j: int| 0 <= j < i && #[trigger] s.take(i)[j].key == k;
        assert(s.take(i + 1)[j].key == k);
    }
    if s[i].key == k {
        assert(s.take(i + 1)[i].key == k);
    }
}

fn aggregate(samples: &[FontSample]) -> (t: Vec<Agg>)
    ensures
        aggregates(t@, samples@),
{
    broadcast use vstd::std_specs::hash::group_hash_axioms;

    let mut t: Vec<Agg> = Vec::new();
    // Where each size key's tally sits in `t`.
    let mut index: HashMap<u32, usize> = HashMap::new();
    let mut i: usize = 0;
    assert(samples@.take(0) =~= Seq::<FontSample>::empty());
    while i < samples.len()
        invariant
            i <= samples@.len(),
            aggregates(t@, samples@.take(i as int)),
            forall|k: u32|
                #[trigger] index@.contains_key(k) ==> index@[k] < t@.len() && t@[index@[k] as int].key
                    == k,
            forall|b: int| 0 <= b < t@.len() ==> #[trigger] index@.contains_key(t@[b].key),
        decreases samples@.len() - i,
    {
        let smp = &samples[i];
        let ghost old_t = t@;
        let ghost pre = samples@.take(i as int);
        let ghost post = samples@.take(i as int + 1);
        proof {
            lemma_totals_bounded(pre, smp.key);
            let m = usize::MAX as int;
            assert(i * m + m <= 0xFFFF_FFFF_FFFF_FFFF_FFFF_FFFF_FFFF_FFFFint) by (nonlinear_arith)
                requires
                    i + 1 <= m,
                    0 <= m <= 0xFFFF_FFFF_FFFF_FFFFint,
            ;
            assert(pre.len() == i);
        }
        // Find the tally of this size, as the map from size keys to tallies
        // records it.
        let (found, a) = match index.get(&smp.key) {
            Some(pos) => (true, *pos),
            None => (false, t.len()),
        };
        assert(found ==> a < t@.len() && t@[a as int].key == smp.key);
        assert(!found ==> forall|b: int| 0 <= b < t@.len() ==> #[trigger] t@[b].key != smp.key);
        if found {
            proof {
                lemma_step(samples@, i as int, smp.key);
                assert(t@[a as int].lines == key_lines(pre, smp.key));
                assert(t@[a as int].chars == key_chars(pre, smp.key));
                assert(t@[a as int].alpha == key_alpha(pre, smp.key));
            }
            let cur = t.remove(a);
            let next = Agg {
                key: cur.key,
                lines: cur.lines + 1,
                chars: cur.chars + smp.chars as u128,
                alpha: cur.alpha + smp.alpha as u128,
            };
            t.insert(a, next);
        } else {
            proof {
                lemma_step(samples@, i as int, smp.key);
                assert(!has_key(pre, smp.key)) by {
                    if has_key(pre, smp.key) {
                        let b = choose|b: int| 0 <= b < old_t.len() && #[trigger] old_t[b].key
                            == smp.key;
                    }
                }
                assert(key_lines(pre, smp.key) == 0 && key_chars(pre, smp.key) == 0 && key_alpha(
                    pre,
                    smp.key,
                ) == 0) by {
                    lemma_absent_totals(pre, smp.key);
                }
            }
            t.push(Agg { key: smp.key, lines: 1, chars: smp.chars as u128, alpha: smp.alpha as u128 });
            index.insert(smp.key, a);
        }
        proof {
            assert forall|b: int| 0 <= b < t@.len() implies {
                &&& has_key(post, #[trigger] t@[b].key)
                &&& t@[b].lines == key_lines(post, t@[b].key)
                &&& t@[b].chars == key_chars(post, t@[b].key)
                &&& t@[b].alpha == key_alpha(post, t@[b].key)
            } by {
                lemma_step(samples@, i as int, t@[b].key);
                if t@[b].key != smp.key {
                    assert(t@[b] == old_t[b]);
                }
            }
            assert forall|k: u32| #[trigger] has_key(post, k) implies exists|b: int|
                0 <= b < t@.len() && #[trigger] t@[b].key == k by {
                lemma_step(samples@, i as int, k);
                if k == smp.key {
                    if found {
                        assert(t@[a as int].key == k);
                    } else {
                        assert(t@[old_t.len() as int].key == k);
                    }
                } else {
                    let b = choose|b: int| 0 <= b < old_t.len() && #[trigger] old_t[b].key == k;
                    assert(t@[b].key == k);
                }
            }
            assert forall|x: int, y: int|
                0 <= x < t@.len() && 0 <= y < t@.len() && x != y implies #[trigger] t@[x].key
                != #[trigger] t@[y].key by {
                if !found {
                    if x == old_t.len() {
                        assert(t@[y] == old_t[y]);
                    } else if y == old_t.len() {
                        assert(t@[x] == old_t[x]);
                    }
                }
            }
        }
        i = i + 1;
    }
    assert(samples@.take(samples@.len() as int) =~= samples@);
    t
}

proof fn lemma_absent_totals(s: Seq<FontSample>, k: u32)
    requires
        !has_key(s, k),
    ensures
        key_lines(s, k) == 0,
        key_chars(s, k) == 0,
        key_alpha(s, k) == 0,
    decreases s.len(),
{
    if s.len() > 0 {
        assert(!has_key(s.drop_last(), k)) by {
            if has_key(s.drop_last(), k) {
                let j = choose|j: int| 0 <= j < s.len() - 1 && #[trigger] s.drop_last()[j].key == k;
                assert(s[j].key == k);
            }
        }
        assert(s.last().key != k) by {
            if s.last().key == k {
                assert(s[s.len() - 1].key == k);
            }
        }
        lemma_absent_totals(s.drop_last(), k);
    }
}

/// Key of the body size: a key with the greatest total character count
/// (any of them when several tie). `None` when there are no samples.
pub fn body_size_key(samples: &[FontSample]) -> (r: Option<u32>)
    ensures
        r is None <==> samples@.len() == 0,
        r matches Some(k) ==> has_key(samples@, k) && forall|i: int|
            0 <= i < samples@.len() ==> key_chars(samples@, #[trigger] samples@[i].key)
                <= key_chars(samples@, k),
{
    let t = aggregate(samples);
    if t.len() == 0 {
        if samples.len() > 0 {
            assert(has_key(samples@, samples@[0].key));
        }
        return None;
    }
    let mut best: usize = 0;
    let mut a: usize = 1;
    while a < t.len()
        invariant
            0 < t@.len(),
            best < a <= t@.len(),
            forall|b: int| 0 <= b < a ==> #[trigger] t@[b].chars <= t@[best as int].chars,
        decreases t@.len() - a,
    {
        if t[a].chars > t[best].chars {
            best = a;
        }
        a = a + 1;
    }
    proof {
        assert(has_key(samples@, t@[best as int].key));
        assert forall|i: int| 0 <= i < samples@.len() implies key_chars(
            samples@,
            #[trigger] samples@[i].key,
        ) <= key_chars(samples@, t@[best as int].key) by {
            assert(has_key(samples@, samples@[i].key));
            let b = choose|b: int| 0 <= b < t@.len() && #[trigger] t@[b].key == samples@[i].key;
            assert(t@[b].chars <= t@[best as int].chars);
        }
    }
    Some(t[best].key)
}

} // verus!

verus! {

/// A font size qualifies as a heading size: it occurs, its lines hold at
/// least 25 characters in all, at most 200 characters per line on average,
/// and at least half of its characters are alphabetic.
pub open spec fn heading_size_qualifies(s: Seq<FontSample>, k: u32) -> bool {
    &&& has_key(s, k)
    &&& key_chars(s, k) >= 25
    &&& key_chars(s, k) <= 200 * key_lines(s, k)
    &&& 2 * key_alpha(s, k) >= key_chars(s, k)
}

/// `r` is the heading-size map of `s`: at most six qualifying sizes, largest
/// first and strictly decreasing, numbered 1, 2, ... in that order, and
/// every qualifying size is among them unless six larger ones already are.
pub open spec fn is_heading_map(s: Seq<FontSample>, r: Seq<(u32, u8)>) -> bool {
    &&& r.len() <= 6
    &&& forall|i: int| 0 <= i < r.len() ==> heading_size_qualifies(s, #[trigger] r[i].0)
    &&& forall|i: int| 0 <= i < r.len() ==> #[trigger] r[i].1 == i + 1
    &&& forall|i: int, j: int| 0 <= i < j < r.len() ==> #[trigger] r[i].0 > #[trigger] r[j].0
    &&& forall|k: u32|
        #[trigger] heading_size_qualifies(s, k) ==> (exists|i: int|
            0 <= i < r.len() && #[trigger] r[i].0 == k) || (r.len() == 6 && k < r[5].0)
}

fn agg_qualifies(g: &Agg) -> (b: bool)
    requires
        g.lines <= usize::MAX,
    ensures
        b == (g.chars >= 25 && g.chars <= 200 * g.lines && 2 * g.alpha >= g.chars),
{
    g.chars >= 25 && g.chars <= 200 * g.lines && (g.alpha >= g.chars || g.alpha >= g.chars
        - g.alpha)
}

/// Build the heading-size → level map: the qualifying sizes, largest first,
/// at most six of them, numbered 1, 2, ... in that order. `samples` are the
/// lines set larger than the body size (rotated and caption lines already
/// left out), each with its dominant size's key and its non-whitespace and
/// alphabetic character counts.
pub fn heading_levels(samples: &[FontSample]) -> (r: Vec<(u32, u8)>)
    ensures
        is_heading_map(samples@, r@),
{
    let t = aggregate(samples);
    // Each size's line count is at most the number of samples.
    let sample_count = samples.len();
    proof {
        assert forall|a: int| 0 <= a < t@.len() implies #[trigger] t@[a].lines <= sample_count by {
            lemma_totals_bounded(samples@, t@[a].key);
            assert(t@[a].lines == key_lines(samples@, t@[a].key));
        }
    }
    let mut r: Vec<(u32, u8)> = Vec::new();
    let mut done = false;
    while r.len() < 6 && !done
        invariant
            aggregates(t@, samples@),
            forall|a: int| 0 <= a < t@.len() ==> #[trigger] t@[a].lines <= usize::MAX,
            r@.len() <= 6,
            forall|i: int|
                0 <= i < r@.len() ==> heading_size_qualifies(samples@, #[trigger] r@[i].0),
            forall|i: int| 0 <= i < r@.len() ==> #[trigger] r@[i].1 == i + 1,
            forall|i: int, j: int| 0 <= i < j < r@.len() ==> #[trigger] r@[i].0 > #[trigger] r@[j].0,
            forall|k: u32|
                #[trigger] heading_size_qualifies(samples@, k) && r@.len() > 0 && k >= r@.last().0
                    ==> exists|i: int| 0 <= i < r@.len() && #[trigger] r@[i].0 == k,
            done ==> forall|k: u32|
                #[trigger] heading_size_qualifies(samples@, k) ==> exists|i: int|
                    0 <= i < r@.len() && #[trigger] r@[i].0 == k,
        decreases 6 - r@.len(), if done { 0int } else { 1int },
    {
        let n = r.len();
        let mut best: Option<usize> = None;
        let mut a: usize = 0;
        while a < t.len()
            invariant
                a <= t@.len(),
                n == r@.len(),
                n < 6,
                forall|i: int|
                    0 <= i < r@.len() ==> heading_size_qualifies(samples@, #[trigger] r@[i].0),
                forall|i: int| 0 <= i < r@.len() ==> #[trigger] r@[i].1 == i + 1,
                forall|i: int, j: int|
                    0 <= i < j < r@.len() ==> #[trigger] r@[i].0 > #[trigger] r@[j].0,
                forall|k: u32|
                    #[trigger] heading_size_qualifies(samples@, k) && r@.len() > 0 && k
                        >= r@.last().0 ==> exists|i: int| 0 <= i < r@.len() && #[trigger] r@[i].0 == k,
                aggregates(t@, samples@),
                forall|b: int| 0 <= b < t@.len() ==> #[trigger] t@[b].lines <= usize::MAX,
                best matches Some(x) ==> x < a && heading_size_qualifies(samples@, t@[x as int].key)
                    && (n == 0 || t@[x as int].key < r@[n - 1].0),
                forall|b: int|
                    0 <= b < a && heading_size_qualifies(samples@, #[trigger] t@[b].key) && (n == 0
                        || t@[b].key < r@[n - 1].0) ==> (best is Some && t@[b].key
                        <= t@[best->0 as int].key),
            decreases t@.len() - a,
        {
            let g = &t[a];
            if agg_qualifies(g) && (n == 0 || g.key < r[n - 1].0) {
                let better = match best {
                    Some(x) => g.key > t[x].key,
                    None => true,
                };
                if better {
                    best = Some(a);
                }
            }
            a = a + 1;
        }
        match best {
            Some(x) => {
                let k = t[x].key;
                assert(n < 6);
                let level = (n + 1) as u8;
                assert(level == n + 1);
                let ghost old_r = r@;
                r.push((k, level));
                proof {
                    assert forall|q: u32|
                        #[trigger] heading_size_qualifies(samples@, q) && r@.len() > 0 && q
                            >= r@.last().0 implies exists|i: int|
                        0 <= i < r@.len() && #[trigger] r@[i].0 == q by {
                        if q == k {
                            assert(r@[n as int].0 == q);
                        } else {
                            let b = choose|b: int| 0 <= b < t@.len() && #[trigger] t@[b].key == q;
                            if n == 0 || q < old_r[n - 1].0 {
                                assert(t@[b].key <= k);
                            } else {
                                let i = choose|i: int| 0 <= i < old_r.len() && #[trigger] old_r[i].0 == q;
                                assert(r@[i].0 == q);
                            }
                        }
                    }
                    assert forall|i: int, j: int| 0 <= i < j < r@.len() implies #[trigger] r@[i].0
                        > #[trigger] r@[j].0 by {
                        if j == n {
                            if i < n - 1 {
                                assert(old_r[i].0 > old_r[n - 1].0);
                            }
                        } else {
                            assert(old_r[i].0 > old_r[j].0);
                        }
                    }
                    assert forall|i: int| 0 <= i < r@.len() implies heading_size_qualifies(
                        samples@,
                        #[trigger] r@[i].0,
                    ) by {
                        if i < n {
                            assert(r@[i] == old_r[i]);
                        }
                    }
                    assert forall|i: int| 0 <= i < r@.len() implies #[trigger] r@[i].1 == i + 1 by {
                        if i < n {
                            assert(r@[i] == old_r[i]);
                        }
                    }
                }
            },
            None => {
                proof {
                    assert forall|q: u32| #[trigger] heading_size_qualifies(samples@, q) implies exists|i: int|
                        0 <= i < r@.len() && #[trigger] r@[i].0 == q by {
                        let b = choose|b: int| 0 <= b < t@.len() && #[trigger] t@[b].key == q;
                        assert(heading_size_qualifies(samples@, t@[b].key));
                    }
                }
                done = true;
            },
        }

    }
    proof {
        assert forall|k: u32| #[trigger] heading_size_qualifies(samples@, k) implies (exists|i: int|
            0 <= i < r@.len() && #[trigger] r@[i].0 == k) || (r@.len() == 6 && k < r@[5].0) by {
            if !done && !(k < r@[5].0) {
                assert(r@.last() == r@[5]);
            }
        }
    }
    r
}

} // verus!
