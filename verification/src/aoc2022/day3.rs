//! Rucksack reorganization: the item types packed in two compartments, and
//! the badge shared by each group of three elves.
use crate::parsing::{split_lines, span_view, text_lines};
use vstd::prelude::*;

verus! {

/// The priority of an item type: `a` to `z` are 1 to 26, `A` to `Z` are 27
/// to 52, anything else 0.
pub open spec fn priority(b: u8) -> u32 {
    if 97 <= b <= 122 {
        (b - 97 + 1) as u32
    } else if 65 <= b <= 90 {
        (b - 65 + 27) as u32
    } else {
        0
    }
}

/// The priorities of the items of every line of a text.
pub open spec fn rucksacks(s: Seq<u8>) -> Seq<Seq<u32>> {
    text_lines(s).map_values(|span: (int, int)| s.subrange(span.0, span.0 + span.1).map_values(|b: u8| priority(b)))
}

/// The priorities of the items of every line.
pub fn parse_input(input: &[u8]) -> (r: Vec<Vec<u32>>)
    ensures
        r@.map_values(|v: Vec<u32>| v@) == rucksacks(input@),
{
    let lines = split_lines(input);
    let ghost tl = text_lines(input@);
    let mut out: Vec<Vec<u32>> = Vec::new();
    let mut k: usize = 0;
    while k < lines.len()
        invariant
            span_view(lines@) == tl,
            tl == text_lines(input@),
            forall|j: int| 0 <= j < lines.len() ==> #[trigger] lines@[j].0 + lines@[j].1 <= input.len(),
            k <= lines.len(),
            out.len() == k,
            forall|j: int| 0 <= j < k ==> (#[trigger] out@[j])@ == rucksacks(input@)[j],
        decreases lines.len() - k,
    {
        let (st, l) = lines[k];
        proof {
            assert(tl[k as int] == (st as int, l as int));
        }
        let mut row: Vec<u32> = Vec::new();
        let mut x: usize = 0;
        while x < l
            invariant
                st + l <= input.len(),
                x <= l,
                row@ == input@.subrange(st as int, st + x).map_values(|b: u8| priority(b)),
            decreases l - x,
        {
            let b = input[st + x];
            let p: u32 = if b >= 97 && b <= 122 {
                (b - 97 + 1) as u32
            } else if b >= 65 && b <= 90 {
                (b - 65 + 27) as u32
            } else {
                0
            };
            row.push(p);
            proof {
                assert(input@.subrange(st as int, st + x + 1).map_values(|b: u8| priority(b)) =~= input@.subrange(
                    st as int,
                    st + x,
                ).map_values(|b: u8| priority(b)).push(p));
            }
            x += 1;
        }
        proof {
            assert(span_view(lines@).len() == lines@.len());
            assert(rucksacks(input@)[k as int] == input@.subrange(st as int, st + l).map_values(|b: u8| priority(b)));
        }
        out.push(row);
        k += 1;
    }
    proof {
        assert(span_view(lines@).len() == lines@.len());
        assert(out@.map_values(|v: Vec<u32>| v@) =~= rucksacks(input@));
    }
    out
}

/// The last item of `b` that also occurs in every one of `sets`.
pub open spec fn last_shared(b: Seq<u32>, sets: Seq<Seq<u32>>) -> Option<u32>
    decreases b.len(),
{
    if b.len() == 0 {
        None
    } else if forall|k: int| 0 <= k < sets.len() ==> (#[trigger] sets[k]).contains(b.last()) {
        Some(b.last())
    } else {
        last_shared(b.drop_last(), sets)
    }
}

/// What `last_shared` finds is an item of `b` held by every one of `sets`,
/// with no such item after it in `b`; it finds nothing exactly when no item
/// of `b` is held by all of them.
pub proof fn lemma_last_shared_law(b: Seq<u32>, sets: Seq<Seq<u32>>)
    ensures
        last_shared(b, sets) matches Some(v) ==> exists|i: int|
            0 <= i < b.len() && #[trigger] b[i] == v && (forall|k: int| 0 <= k < sets.len() ==> (#[trigger] sets[k]).contains(v))
                && forall|j: int|
                i < j < b.len() ==> exists|k: int| 0 <= k < sets.len() && !(#[trigger] sets[k]).contains(#[trigger] b[j]),
        last_shared(b, sets) is None <==> forall|j: int|
            0 <= j < b.len() ==> exists|k: int| 0 <= k < sets.len() && !(#[trigger] sets[k]).contains(#[trigger] b[j]),
    decreases b.len(),
{
    if b.len() > 0 {
        let t = b.drop_last();
        lemma_last_shared_law(t, sets);
        let n = b.len() - 1;
        assert forall|j: int| 0 <= j < t.len() implies t[j] == b[j] by {}
        if forall|k: int| 0 <= k < sets.len() ==> (#[trigger] sets[k]).contains(b.last()) {
            assert(b[n] == b.last());
        } else {
            let k0 = choose|k: int| 0 <= k < sets.len() && !(#[trigger] sets[k]).contains(b.last());
            assert(b[n] == b.last());
            assert(!sets[k0].contains(b[n]));
            if last_shared(t, sets) is Some {
                let v = last_shared(t, sets)->0;
                let i = choose|i: int|
                    0 <= i < t.len() && #[trigger] t[i] == v && (forall|k: int| 0 <= k < sets.len() ==> (#[trigger] sets[k]).contains(v))
                        && forall|j: int|
                        i < j < t.len() ==> exists|k: int| 0 <= k < sets.len() && !(#[trigger] sets[k]).contains(#[trigger] t[j]);
                assert(b[i] == v);
                assert forall|j: int| i < j < b.len() implies exists|k: int|
                    0 <= k < sets.len() && !(#[trigger] sets[k]).contains(#[trigger] b[j]) by {
                    if j < n {
                        assert(t[j] == b[j]);
                    } else {
                        assert(!sets[k0].contains(b[j]));
                    }
                }
            } else {
                assert forall|j: int| 0 <= j < b.len() implies exists|k: int|
                    0 <= k < sets.len() && !(#[trigger] sets[k]).contains(#[trigger] b[j]) by {
                    if j < n {
                        assert(t[j] == b[j]);
                    } else {
                        assert(!sets[k0].contains(b[j]));
                    }
                }
            }
        }
    }
}

/// Item priorities: `a` to `z` are 1 to 26 and `A` to `Z` are 27 to 52 in
/// alphabetical order, so different letters have different priorities.
pub proof fn lemma_priority_law(b: u8, c: u8)
    ensures
        97 <= b <= 122 ==> priority(b) == b - 96,
        65 <= b <= 90 ==> priority(b) == b - 64 + 26,
        (97 <= b <= 122 || 65 <= b <= 90) && (97 <= c <= 122 || 65 <= c <= 90) && b != c ==> priority(b) != priority(c),
{
}

/// The item of the second compartment, last in its order, that the first
/// also holds.
pub open spec fn misplaced(line: Seq<u32>) -> Option<u32> {
    let half = (line.len() / 2) as int;
    last_shared(line.subrange(half, line.len() as int), seq![line.subrange(0, half)])
}

/// The badge of a group: the last item of the third rucksack that the
/// first two also hold.
pub open spec fn badge(a: Seq<u32>, b: Seq<u32>, c: Seq<u32>) -> Option<u32> {
    last_shared(c, seq![a, b])
}

/// Every value is a priority.
pub open spec fn priorities_ok(lines: Seq<Seq<u32>>) -> bool {
    forall|k: int, i: int| 0 <= k < lines.len() && 0 <= i < lines[k].len() ==> #[trigger] lines[k][i] <= 52
}

/// The sum of the first `n` values that `f` gives.
pub open spec fn sum_of_values(values: Seq<u32>, n: int) -> int
    decreases n,
{
    if n <= 0 {
        0
    } else {
        sum_of_values(values, n - 1) + values[n - 1]
    }
}

/// Which priorities occur in `items`.
fn presence(items: &[u32]) -> (r: [bool; 53])
    requires
        forall|i: int| 0 <= i < items.len() ==> #[trigger] items@[i] <= 52,
    ensures
        forall|v: int| 0 <= v < 53 ==> (#[trigger] r[v] <==> items@.contains(v as u32)),
{
    let mut seen: [bool; 53] = [false; 53];
    let mut i: usize = 0;
    while i < items.len()
        invariant
            i <= items.len(),
            forall|k: int| 0 <= k < items.len() ==> #[trigger] items@[k] <= 52,
            forall|v: int| 0 <= v < 53 ==> (#[trigger] seen[v] <==> items@.subrange(0, i as int).contains(v as u32)),
        decreases items.len() - i,
    {
        let ghost before = seen;
        seen[items[i] as usize] = true;
        proof {
            assert forall|v: int| 0 <= v < 53 implies (#[trigger] seen[v] <==> items@.subrange(0, i + 1).contains(
                v as u32,
            )) by {
                let s1 = items@.subrange(0, i + 1);
                let s0 = items@.subrange(0, i as int);
                assert(s1 =~= s0.push(items@[i as int]));
                if s0.contains(v as u32) {
                    let k = choose|k: int| 0 <= k < s0.len() && s0[k] == v as u32;
                    assert(s1[k] == v as u32);
                }
                if s1.contains(v as u32) && v as u32 != items@[i as int] {
                    let k = choose|k: int| 0 <= k < s1.len() && s1[k] == v as u32;
                    assert(s0[k] == v as u32);
                }
                if v as u32 == items@[i as int] {
                    assert(s1[i as int] == v as u32);
                }
            }
        }
        i += 1;
    }
    proof {
        assert(items@.subrange(0, items.len() as int) =~= items@);
    }
    seen
}

/// The last item of `items` marked in all of `marks`.
fn last_marked(items: &[u32], first: &[bool; 53], second: &[bool; 53], Ghost(sets): Ghost<Seq<Seq<u32>>>) -> (r: Option<u32>)
    requires
        forall|i: int| 0 <= i < items.len() ==> #[trigger] items@[i] <= 52,
        sets.len() == 1 || sets.len() == 2,
        forall|v: int| 0 <= v < 53 ==> (#[trigger] first[v] <==> sets[0].contains(v as u32)),
        sets.len() == 2 ==> forall|v: int| 0 <= v < 53 ==> (#[trigger] second[v] <==> sets[1].contains(v as u32)),
        sets.len() == 1 ==> forall|v: int| 0 <= v < 53 ==> #[trigger] second[v],
    ensures
        r == last_shared(items@, sets),
{
    let mut i: usize = items.len();
    proof {
        assert(items@.subrange(0, i as int) =~= items@);
    }
    while i > 0
        invariant
            i <= items.len(),
            forall|k: int| 0 <= k < items.len() ==> #[trigger] items@[k] <= 52,
            sets.len() == 1 || sets.len() == 2,
            forall|v: int| 0 <= v < 53 ==> (#[trigger] first[v] <==> sets[0].contains(v as u32)),
            sets.len() == 2 ==> forall|v: int| 0 <= v < 53 ==> (#[trigger] second[v] <==> sets[1].contains(v as u32)),
            sets.len() == 1 ==> forall|v: int| 0 <= v < 53 ==> #[trigger] second[v],
            last_shared(items@, sets) == last_shared(items@.subrange(0, i as int), sets),
        decreases i,
    {
        let v = items[i - 1];
        let ghost s = items@.subrange(0, i as int);
        proof {
            assert(s.last() == v);
            assert(s.drop_last() =~= items@.subrange(0, i - 1));
        }
        if first[v as usize] && second[v as usize] {
            proof {
                assert forall|k: int| 0 <= k < sets.len() implies (#[trigger] sets[k]).contains(v) by {
                    assert(first[v as int]);
                    assert(second[v as int]);
                }
            }
            return Some(v);
        }
        proof {
            if sets.len() == 1 {
                assert(!sets[0].contains(v));
            } else {
                assert(!sets[0].contains(v) || !sets[1].contains(v));
            }
        }
        i -= 1;
    }
    None
}

/// The sum of the priorities of the misplaced items; `None` when a
/// rucksack holds none.
pub fn calculate_part1(lines: &Vec<Vec<u32>>) -> (r: Option<u32>)
    requires
        priorities_ok(lines@.map_values(|v: Vec<u32>| v@)),
        lines.len() * 52 <= u32::MAX,
    ensures
        r is Some <==> forall|k: int| 0 <= k < lines.len() ==> #[trigger] misplaced(lines@[k]@) is Some,
        r matches Some(v) ==> v == sum_of_values(
            Seq::new(lines.len() as nat, |k: int| misplaced(lines@[k]@)->0),
            lines.len() as int,
        ),
{
    let ghost vals = Seq::new(lines.len() as nat, |k: int| misplaced(lines@[k]@)->0);
    let mut total: u32 = 0;
    let mut k: usize = 0;
    while k < lines.len()
        invariant
            k <= lines.len(),
            lines.len() * 52 <= u32::MAX,
            priorities_ok(lines@.map_values(|v: Vec<u32>| v@)),
            forall|j: int| 0 <= j < k ==> #[trigger] misplaced(lines@[j]@) is Some,
            vals == Seq::new(lines.len() as nat, |j: int| misplaced(lines@[j]@)->0),
            total == sum_of_values(vals, k as int),
            total <= 52 * k,
        decreases lines.len() - k,
    {
        let line = &lines[k];
        let half = line.len() / 2;
        proof {
            assert forall|i: int| 0 <= i < line.len() implies #[trigger] line@[i] <= 52 by {
                assert(lines@.map_values(|v: Vec<u32>| v@)[k as int][i] == line@[i]);
            }
        }
        let sl = line.as_slice();
        let left = presence(&sl[0..half]);
        let all: [bool; 53] = [true; 53];
        let ghost sets = seq![line@.subrange(0, half as int)];
        proof {
            assert(sl@.subrange(0, half as int) == line@.subrange(0, half as int));
        }
        let found = last_marked(&sl[half..line.len()], &left, &all, Ghost(sets));
        proof {
            assert(sl@.subrange(half as int, line.len() as int) == line@.subrange(half as int, line.len() as int));
            assert(misplaced(lines@[k as int]@) == found);
        }
        let v = match found {
            Some(v) => v,
            None => {
                return None;
            },
        };
        proof {
            lemma_last_shared_in(line@.subrange(half as int, line.len() as int), sets);
        }
        total = total + v;
        k += 1;
    }
    Some(total)
}

/// The sum of the priorities of the badges of the groups of three; `None`
/// when a group has none.
pub fn calculate_part2(lines: &Vec<Vec<u32>>) -> (r: Option<u32>)
    requires
        priorities_ok(lines@.map_values(|v: Vec<u32>| v@)),
        lines.len() % 3 == 0,
        lines.len() * 52 <= u32::MAX,
    ensures
        r is Some <==> forall|g: int|
            0 <= g < lines.len() / 3 ==> #[trigger] badge(lines@[3 * g]@, lines@[3 * g + 1]@, lines@[3 * g + 2]@)
                is Some,
        r matches Some(v) ==> v == sum_of_values(
            Seq::new(
                (lines.len() / 3) as nat,
                |g: int| badge(lines@[3 * g]@, lines@[3 * g + 1]@, lines@[3 * g + 2]@)->0,
            ),
            (lines.len() / 3) as int,
        ),
{
    let groups = lines.len() / 3;
    let ghost vals = Seq::new(
        groups as nat,
        |g: int| badge(lines@[3 * g]@, lines@[3 * g + 1]@, lines@[3 * g + 2]@)->0,
    );
    let mut total: u32 = 0;
    let mut g: usize = 0;
    while g < groups
        invariant
            groups == lines.len() / 3,
            lines.len() % 3 == 0,
            g <= groups,
            lines.len() * 52 <= u32::MAX,
            priorities_ok(lines@.map_values(|v: Vec<u32>| v@)),
            forall|h: int|
                0 <= h < g ==> #[trigger] badge(lines@[3 * h]@, lines@[3 * h + 1]@, lines@[3 * h + 2]@)
                    is Some,
            vals == Seq::new(
                groups as nat,
                |h: int| badge(lines@[3 * h]@, lines@[3 * h + 1]@, lines@[3 * h + 2]@)->0,
            ),
            total == sum_of_values(vals, g as int),
            total <= 52 * g,
        decreases groups - g,
    {
        let a = &lines[3 * g];
        let b = &lines[3 * g + 1];
        let c = &lines[3 * g + 2];
        proof {
            let m = lines@.map_values(|v: Vec<u32>| v@);
            assert forall|i: int| 0 <= i < a.len() implies #[trigger] a@[i] <= 52 by {
                assert(m[3 * g][i] == a@[i]);
            }
            assert forall|i: int| 0 <= i < b.len() implies #[trigger] b@[i] <= 52 by {
                assert(m[3 * g + 1][i] == b@[i]);
            }
            assert forall|i: int| 0 <= i < c.len() implies #[trigger] c@[i] <= 52 by {
                assert(m[3 * g + 2][i] == c@[i]);
            }
        }
        let first = presence(a.as_slice());
        let second = presence(b.as_slice());
        let ghost sets = seq![a@, b@];
        let found = last_marked(c.as_slice(), &first, &second, Ghost(sets));
        proof {
            assert(badge(lines@[3 * g as int]@, lines@[3 * g + 1]@, lines@[3 * g + 2]@) == found);
        }
        let v = match found {
            Some(v) => v,
            None => {
                return None;
            },
        };
        proof {
            lemma_last_shared_in(c@, sets);
        }
        total = total + v;
        g += 1;
    }
    Some(total)
}

proof fn lemma_last_shared_in(b: Seq<u32>, sets: Seq<Seq<u32>>)
    requires
        forall|i: int| 0 <= i < b.len() ==> #[trigger] b[i] <= 52,
    ensures
        last_shared(b, sets) matches Some(v) ==> v <= 52,
    decreases b.len(),
{
    if b.len() > 0 {
        lemma_last_shared_in(b.drop_last(), sets);
    }
}

} // verus!
