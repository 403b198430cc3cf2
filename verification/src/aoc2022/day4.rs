//! Camp cleanup: pairs of section ranges, written `a-b,c-d`.
use crate::parsing::{digits_from, lemma_digits_from_bound, number_at, parse_u64_at, split_lines, span_view, text_lines};
use vstd::prelude::*;

verus! {

/// True when the range `outside` holds all of the range `inside`.
pub fn is_contained(outside: (u32, u32), inside: (u32, u32)) -> (r: bool)
    ensures
        r == (outside.0 <= inside.0 && outside.1 >= inside.1),
{
    outside.0 <= inside.0 && outside.1 >= inside.1
}

/// True when `v` lies in the inclusive range `range`.
pub open spec fn in_range(range: (u32, u32), v: u32) -> bool {
    range.0 <= v <= range.1
}

/// One of the two ranges holds the other.
pub open spec fn nested(p: ((u32, u32), (u32, u32))) -> bool {
    (p.0.0 <= p.1.0 && p.0.1 >= p.1.1) || (p.1.0 <= p.0.0 && p.1.1 >= p.0.1)
}

/// The ranges share a section: an end of one lies in the other.
pub open spec fn overlapping(p: ((u32, u32), (u32, u32))) -> bool {
    in_range(p.0, p.1.0) || in_range(p.0, p.1.1) || in_range(p.1, p.0.0) || in_range(p.1, p.0.1)
}

/// How many of the first `n` pairs are nested (or overlapping).
pub open spec fn count_pairs(pairs: Seq<((u32, u32), (u32, u32))>, n: int, overlap: bool) -> int
    decreases n,
{
    if n <= 0 {
        0
    } else {
        count_pairs(pairs, n - 1, overlap) + if (if overlap { overlapping(pairs[n - 1]) } else { nested(pairs[n - 1]) }) {
            1int
        } else {
            0int
        }
    }
}

/// Both ranges of a pair are written low end first.
pub open spec fn ranges_ok(p: ((u32, u32), (u32, u32))) -> bool {
    p.0.0 <= p.0.1 && p.1.0 <= p.1.1
}

/// Section `v` lies in the inclusive range `r`.
pub open spec fn section_in(r: (u32, u32), v: u32) -> bool {
    r.0 <= v && v <= r.1
}

/// Some section lies in both ranges.
pub open spec fn shares_section(p: ((u32, u32), (u32, u32))) -> bool {
    exists|v: u32| #[trigger] section_in(p.0, v) && #[trigger] section_in(p.1, v)
}

/// Every section of range `inner` lies in range `outer`.
pub open spec fn holds_all(outer: (u32, u32), inner: (u32, u32)) -> bool {
    forall|v: u32| #[trigger] section_in(inner, v) ==> section_in(outer, v)
}

/// Two ranges overlap exactly when some section lies in both.
pub proof fn lemma_overlap_shares_section(p: ((u32, u32), (u32, u32)))
    requires
        ranges_ok(p),
    ensures
        overlapping(p) <==> shares_section(p),
{
    if overlapping(p) {
        if in_range(p.0, p.1.0) {
            assert(section_in(p.0, p.1.0) && section_in(p.1, p.1.0));
        } else if in_range(p.0, p.1.1) {
            assert(section_in(p.0, p.1.1) && section_in(p.1, p.1.1));
        } else if in_range(p.1, p.0.0) {
            assert(section_in(p.0, p.0.0) && section_in(p.1, p.0.0));
        } else {
            assert(section_in(p.0, p.0.1) && section_in(p.1, p.0.1));
        }
    }
    if shares_section(p) {
        let v = choose|v: u32| #[trigger] section_in(p.0, v) && #[trigger] section_in(p.1, v);
        assert(section_in(p.0, v) && section_in(p.1, v));
        assert(overlapping(p));
    }
}

/// Whether two ranges overlap does not depend on their order in the pair.
pub proof fn lemma_overlap_symmetric(p: ((u32, u32), (u32, u32)))
    ensures
        overlapping(p) == overlapping((p.1, p.0)),
{
}

/// A pair is nested exactly when one range holds every section of the
/// other; nested ranges overlap.
pub proof fn lemma_nested_holds_all(p: ((u32, u32), (u32, u32)))
    requires
        ranges_ok(p),
    ensures
        nested(p) <==> (holds_all(p.0, p.1) || holds_all(p.1, p.0)),
        nested(p) ==> overlapping(p),
{
    if holds_all(p.0, p.1) {
        assert(section_in(p.1, p.1.0) && section_in(p.1, p.1.1));
    }
    if holds_all(p.1, p.0) {
        assert(section_in(p.0, p.0.0) && section_in(p.0, p.0.1));
    }
    if nested(p) {
        assert(section_in(p.0, p.1.0) || section_in(p.1, p.0.0));
    }
}

/// Of well-formed pairs, the count is the number of pairs whose ranges
/// share a section (`overlap`), or of which one range holds the other.
pub proof fn lemma_count_pairs_counts(pairs: Seq<((u32, u32), (u32, u32))>, n: int, overlap: bool)
    requires
        0 <= n <= pairs.len(),
        forall|i: int| 0 <= i < pairs.len() ==> ranges_ok(#[trigger] pairs[i]),
    ensures
        count_pairs(pairs, n, overlap) == pairs.take(n).filter(
            |p: ((u32, u32), (u32, u32))|
                if overlap {
                    shares_section(p)
                } else {
                    holds_all(p.0, p.1) || holds_all(p.1, p.0)
                },
        ).len(),
    decreases n,
{
    let f = |p: ((u32, u32), (u32, u32))|
        if overlap {
            shares_section(p)
        } else {
            holds_all(p.0, p.1) || holds_all(p.1, p.0)
        };
    reveal_with_fuel(Seq::filter, 1);
    if n > 0 {
        lemma_count_pairs_counts(pairs, n - 1, overlap);
        assert(pairs.take(n).drop_last() =~= pairs.take(n - 1));
        assert(pairs.take(n).last() == pairs[n - 1]);
        lemma_overlap_shares_section(pairs[n - 1]);
        lemma_nested_holds_all(pairs[n - 1]);
    } else {
        assert(pairs.take(0) =~= Seq::<((u32, u32), (u32, u32))>::empty());
    }
}

fn count_matching(pairs: &[((u32, u32), (u32, u32))], overlap: bool) -> (r: usize)
    ensures
        r == count_pairs(pairs@, pairs.len() as int, overlap),
{
    let mut count: usize = 0;
    let mut i: usize = 0;
    while i < pairs.len()
        invariant
            i <= pairs.len(),
            count == count_pairs(pairs@, i as int, overlap),
            count <= i,
        decreases pairs.len() - i,
    {
        let (first, second) = pairs[i];
        let hit = if overlap {
            (first.0 <= second.0 && second.0 <= first.1) || (first.0 <= second.1 && second.1 <= first.1) || (second.0
                <= first.0 && first.0 <= second.1) || (second.0 <= first.1 && first.1 <= second.1)
        } else {
            is_contained(first, second) || is_contained(second, first)
        };
        if hit {
            count += 1;
        }
        i += 1;
    }
    count
}

/// How many pairs have one range inside the other.
pub fn calculate_part1(pairs: &[((u32, u32), (u32, u32))]) -> (r: usize)
    ensures
        r == count_pairs(pairs@, pairs.len() as int, false),
{
    count_matching(pairs, false)
}

/// How many pairs have ranges that overlap.
pub fn calculate_part2(pairs: &[((u32, u32), (u32, u32))]) -> (r: usize)
    ensures
        r == count_pairs(pairs@, pairs.len() as int, true),
{
    count_matching(pairs, true)
}

/// A number that fits in `u32` is written at `i`.
pub open spec fn u32_at(s: Seq<u8>, i: int) -> bool {
    digits_from(s, i) > 0 && number_at(s, i) <= u32::MAX
}

/// Reads a `u32` at `i` followed by the byte `sep` (or the end when `sep`
/// is `None`), returning the number and the position after the separator.
fn number_then(s: &[u8], i: usize, sep: Option<u8>) -> (r: Option<(u32, usize)>)
    requires
        i <= s.len(),
    ensures
        r matches Some((v, j)) ==> u32_at(s@, i as int) && v == number_at(s@, i as int) && match sep {
            Some(c) => {
                &&& i + digits_from(s@, i as int) < s.len()
                &&& s@[i + digits_from(s@, i as int)] == c
                &&& j == i + digits_from(s@, i as int) + 1
            },
            None => i + digits_from(s@, i as int) == s.len() && j == s.len(),
        },
        r is None ==> !(u32_at(s@, i as int) && match sep {
            Some(c) => i + digits_from(s@, i as int) < s.len() && s@[i + digits_from(s@, i as int)] == c,
            None => i + digits_from(s@, i as int) == s.len(),
        }),
{
    proof {
        lemma_digits_from_bound(s@, i as int);
    }
    match parse_u64_at(s, i) {
        Ok((n, v)) => {
            if v > 4294967295u64 {
                return None;
            }
            let e = i + n;
            match sep {
                Some(c) => {
                    if e < s.len() && s[e] == c {
                        Some((v as u32, e + 1))
                    } else {
                        None
                    }
                },
                None => {
                    if e == s.len() {
                        Some((v as u32, e))
                    } else {
                        None
                    }
                },
            }
        },
        Err(_) => None,
    }
}

/// Where the numbers of a line `a-b,c-d` start.
pub open spec fn pair_starts(s: Seq<u8>) -> (int, int, int) {
    let i1 = digits_from(s, 0) + 1;
    let i2 = i1 + digits_from(s, i1) + 1;
    let i3 = i2 + digits_from(s, i2) + 1;
    (i1, i2, i3)
}

/// The line is `a-b,c-d` with four numbers that fit in `u32`.
pub open spec fn pair_ok(s: Seq<u8>) -> bool {
    let (i1, i2, i3) = pair_starts(s);
    &&& u32_at(s, 0) && i1 - 1 < s.len() && s[i1 - 1] == 45
    &&& u32_at(s, i1) && i2 - 1 < s.len() && s[i2 - 1] == 44
    &&& u32_at(s, i2) && i3 - 1 < s.len() && s[i3 - 1] == 45
    &&& u32_at(s, i3) && i3 + digits_from(s, i3) == s.len()
}

/// The two ranges of a line `a-b,c-d`.
pub open spec fn pair_value(s: Seq<u8>) -> ((u32, u32), (u32, u32)) {
    let (i1, i2, i3) = pair_starts(s);
    ((number_at(s, 0) as u32, number_at(s, i1) as u32), (number_at(s, i2) as u32, number_at(s, i3) as u32))
}

/// Reads `a-b,c-d`, the whole line.
pub fn parse_pair(line: &[u8]) -> (r: Option<((u32, u32), (u32, u32))>)
    ensures
        r is Some <==> pair_ok(line@),
        r matches Some(p) ==> p == pair_value(line@),
{
    let (a, i1) = number_then(line, 0, Some(45))?;
    proof {
        lemma_digits_from_bound(line@, 0);
    }
    let (b, i2) = number_then(line, i1, Some(44))?;
    proof {
        lemma_digits_from_bound(line@, i1 as int);
    }
    let (c, i3) = number_then(line, i2, Some(45))?;
    proof {
        lemma_digits_from_bound(line@, i2 as int);
    }
    let (d, _) = number_then(line, i3, None)?;
    Some(((a, b), (c, d)))
}

/// Reads one pair per line; `None` when a line is not a pair.
pub fn parse_input(input: &[u8]) -> (r: Option<Vec<((u32, u32), (u32, u32))>>)
    ensures
        r is Some <==> forall|k: int|
            0 <= k < text_lines(input@).len() ==> pair_ok(
                input@.subrange(#[trigger] text_lines(input@)[k].0, text_lines(input@)[k].0 + text_lines(input@)[k].1),
            ),
        r matches Some(pairs) ==> pairs.len() == text_lines(input@).len() && forall|k: int|
            0 <= k < pairs.len() ==> #[trigger] pairs@[k] == pair_value(
                input@.subrange(text_lines(input@)[k].0, text_lines(input@)[k].0 + text_lines(input@)[k].1),
            ),
{
    let lines = split_lines(input);
    let mut pairs: Vec<((u32, u32), (u32, u32))> = Vec::new();
    let mut k: usize = 0;
    while k < lines.len()
        invariant
            span_view(lines@) == text_lines(input@),
            forall|j: int| 0 <= j < lines.len() ==> #[trigger] lines@[j].0 + lines@[j].1 <= input.len(),
            k <= lines.len(),
            pairs.len() == k,
            forall|j: int|
                0 <= j < k ==> pair_ok(
                    input@.subrange(#[trigger] text_lines(input@)[j].0, text_lines(input@)[j].0 + text_lines(input@)[j].1),
                ),
            forall|j: int|
                0 <= j < k ==> #[trigger] pairs@[j] == pair_value(
                    input@.subrange(text_lines(input@)[j].0, text_lines(input@)[j].0 + text_lines(input@)[j].1),
                ),
        decreases lines.len() - k,
    {
        let (st, l) = lines[k];
        let line = &input[st..st + l];
        proof {
            assert(text_lines(input@)[k as int] == (st as int, l as int));
        }
        let p = match parse_pair(line) {
            Some(p) => p,
            None => {
                return None;
            },
        };
        let ghost before = pairs@;
        pairs.push(p);
        proof {
            assert forall|j: int|
                0 <= j < k + 1 implies #[trigger] pairs@[j] == pair_value(
                input@.subrange(text_lines(input@)[j].0, text_lines(input@)[j].0 + text_lines(input@)[j].1),
            ) by {
                if j < k {
                    assert(pairs@[j] == before[j]);
                }
            }
        }
        k += 1;
    }
    Some(pairs)
}

} // verus!
