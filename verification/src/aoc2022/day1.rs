//! Calorie counting: the elves' food items, one number per line, with a
//! blank line between elves.
use crate::sort::{sort_values, sorted_values};
use crate::parsing::{parse_i32_text, signed_text, split_lines, span_view, text_lines};
use vstd::prelude::*;

verus! {

/// The sum of a sequence of numbers.
pub open spec fn seq_sum(s: Seq<i64>) -> int
    decreases s.len(),
{
    if s.len() == 0 {
        0
    } else {
        seq_sum(s.drop_last()) + s.last()
    }
}

/// The numbers of the lines of a text, `None` for a line that is not an
/// `i32`; blank lines stand for `None` too but separate the groups.
pub open spec fn line_number(s: Seq<u8>, span: (int, int)) -> Option<int> {
    let b = s.subrange(span.0, span.0 + span.1);
    if signed_text(b) is Some && i32::MIN <= signed_text(b)->0 <= i32::MAX {
        Some(signed_text(b)->0)
    } else {
        None
    }
}

/// The totals of the groups of the first `n` lines, and the running total
/// of the group still open.
pub open spec fn group_state(s: Seq<u8>, lines: Seq<(int, int)>, n: int) -> (Seq<i64>, int)
    decreases n,
{
    if n <= 0 {
        (Seq::empty(), 0)
    } else {
        let (done, cur) = group_state(s, lines, n - 1);
        if lines[n - 1].1 == 0 {
            (done.push(cur as i64), 0)
        } else {
            (done, cur + line_number(s, lines[n - 1])->0)
        }
    }
}

/// Every line of the text is blank or an `i32`, and no running total leaves
/// the `i64` range.
pub open spec fn calories_ok(s: Seq<u8>) -> bool {
    let lines = text_lines(s);
    &&& forall|k: int| 0 <= k < lines.len() && lines[k].1 > 0 ==> line_number(s, #[trigger] lines[k]) is Some
    &&& forall|k: int| 0 <= k <= lines.len() ==> i64::MIN <= #[trigger] group_state(s, lines, k).1 <= i64::MAX
}

/// The total of every group: the finished groups and the last one.
pub open spec fn group_totals(s: Seq<u8>) -> Seq<i64> {
    let (done, cur) = group_state(s, text_lines(s), text_lines(s).len() as int);
    done.push(cur as i64)
}

/// The calories carried by each elf, smallest first; `None` when a line is
/// neither blank nor a number.
pub fn parse_input(input: &[u8]) -> (r: Option<Vec<i64>>)
    ensures
        r is Some <==> calories_ok(input@),
        r matches Some(totals) ==> sorted_values(totals@) && totals@.to_multiset() == group_totals(input@).to_multiset(),
{
    let lines = split_lines(input);
    let ghost tl = text_lines(input@);
    let mut totals: Vec<i64> = Vec::new();
    let mut current: i64 = 0;
    let mut k: usize = 0;
    while k < lines.len()
        invariant
            span_view(lines@) == tl,
            tl == text_lines(input@),
            forall|j: int| 0 <= j < lines.len() ==> #[trigger] lines@[j].0 + lines@[j].1 <= input.len(),
            k <= lines.len(),
            (totals@, current as int) == group_state(input@, tl, k as int),
            forall|j: int| 0 <= j < k && tl[j].1 > 0 ==> line_number(input@, #[trigger] tl[j]) is Some,
            forall|j: int| 0 <= j <= k ==> i64::MIN <= #[trigger] group_state(input@, tl, j).1 <= i64::MAX,
        decreases lines.len() - k,
    {
        let (st, l) = lines[k];
        proof {
            assert(tl[k as int] == (st as int, l as int));
        }
        if l == 0 {
            totals.push(current);
            current = 0;
        } else {
            let line = &input[st..st + l];
            match parse_i32_text(line) {
                Some(v) => {
                    proof {
                        assert(line@ == input@.subrange(st as int, st + l));
                    }
                    if (v < 0 && current < i64::MIN - (v as i64)) || (v > 0 && current > i64::MAX - (v as i64)) {
                        proof {
                            assert(group_state(input@, tl, k + 1).1 == current + v);
                            assert(!calories_ok(input@));
                        }
                        return None;
                    }
                    current = current + v as i64;
                },
                None => {
                    proof {
                        assert(line@ == input@.subrange(st as int, st + l));
                        assert(line_number(input@, tl[k as int]) is None);
                    }
                    return None;
                },
            }
        }
        k += 1;
    }
    totals.push(current);
    Some(sort_values(totals.as_slice()))
}

/// The sum of the values of a slice.
fn sum_of(values: &[i64]) -> (r: i64)
    requires
        forall|k: int| 0 <= k <= values.len() ==> i64::MIN <= #[trigger] seq_sum(values@.subrange(0, k)) <= i64::MAX,
    ensures
        r == seq_sum(values@),
{
    let mut total: i64 = 0;
    let mut i: usize = 0;
    proof {
        assert(values@.subrange(0, 0) =~= Seq::<i64>::empty());
    }
    while i < values.len()
        invariant
            i <= values.len(),
            total == seq_sum(values@.subrange(0, i as int)),
            forall|k: int| 0 <= k <= values.len() ==> i64::MIN <= #[trigger] seq_sum(values@.subrange(0, k)) <= i64::MAX,
        decreases values.len() - i,
    {
        proof {
            assert(values@.subrange(0, i + 1).drop_last() =~= values@.subrange(0, i as int));
            assert(i64::MIN <= seq_sum(values@.subrange(0, i + 1)) <= i64::MAX);
        }
        total = total + values[i];
        i += 1;
    }
    proof {
        assert(values@.subrange(0, values.len() as int) =~= values@);
    }
    total
}

/// The number of values a sum of the last `count` takes.
pub open spec fn tail_len(len: int, count: int) -> int {
    if len < count {
        len
    } else {
        count
    }
}

/// The last `count` values, or all of them when there are fewer.
pub open spec fn tail(s: Seq<i64>, count: int) -> Seq<i64> {
    s.subrange(s.len() - tail_len(s.len() as int, count), s.len() as int)
}

/// Every running sum of `s` fits in an `i64`.
pub open spec fn sums_fit(s: Seq<i64>) -> bool {
    forall|k: int| 0 <= k <= s.len() ==> i64::MIN <= #[trigger] seq_sum(s.subrange(0, k)) <= i64::MAX
}

/// The sum of the last `count` totals, or of all of them when there are
/// fewer.
fn sum_of_last(totals: &[i64], count: usize) -> (r: i64)
    requires
        sums_fit(tail(totals@, count as int)),
    ensures
        r == seq_sum(tail(totals@, count as int)),
{
    let k = if totals.len() < count {
        totals.len()
    } else {
        count
    };
    let last = &totals[totals.len() - k..totals.len()];
    proof {
        assert(last@ == tail(totals@, count as int));
    }
    sum_of(last)
}

/// The calories of the last elf of the list, which carries the most when
/// the list is sorted (0 without elves).
pub fn calculate_part1(totals: &[i64]) -> (r: i64)
    requires
        sums_fit(tail(totals@, 1)),
    ensures
        r == seq_sum(tail(totals@, 1)),
{
    sum_of_last(totals, 1)
}

/// The calories of the last three elves of the list together: the three
/// carrying the most when the list is sorted.
pub fn calculate_part2(totals: &[i64]) -> (r: i64)
    requires
        sums_fit(tail(totals@, 3)),
    ensures
        r == seq_sum(tail(totals@, 3)),
{
    sum_of_last(totals, 3)
}

/// When the totals are sorted, the answer of the first part is the largest
/// total.
pub proof fn lemma_part1_is_largest(totals: Seq<i64>)
    requires
        sorted_values(totals),
        totals.len() > 0,
    ensures
        seq_sum(tail(totals, 1)) == totals.last(),
        forall|i: int| 0 <= i < totals.len() ==> #[trigger] totals[i] <= seq_sum(tail(totals, 1)),
{
    let t = tail(totals, 1);
    assert(t.len() == 1);
    assert(t.drop_last() =~= Seq::<i64>::empty());
    assert(seq_sum(t.drop_last()) == 0);
    assert(t.last() == totals.last());
    assert(seq_sum(t) == seq_sum(t.drop_last()) + t.last());
    assert forall|i: int| 0 <= i < totals.len() implies #[trigger] totals[i] <= seq_sum(t) by {
        assert(totals[i] <= totals[totals.len() - 1]);
    }
}

/// When the totals are sorted and there are at least three, the answer of
/// the second part is the three largest together: no three different elves
/// carry more.
pub proof fn lemma_part2_is_largest_three(totals: Seq<i64>)
    requires
        sorted_values(totals),
        totals.len() >= 3,
    ensures
        seq_sum(tail(totals, 3)) == totals[totals.len() - 3] + totals[totals.len() - 2] + totals[totals.len() - 1],
        forall|i: int, j: int, k: int|
            0 <= i < j < k < totals.len() ==> #[trigger] totals[i] + #[trigger] totals[j] + #[trigger] totals[k] <= seq_sum(
                tail(totals, 3),
            ),
{
    let n = totals.len() as int;
    let t = tail(totals, 3);
    assert(t.len() == 3);
    assert(t[0] == totals[n - 3] && t[1] == totals[n - 2] && t[2] == totals[n - 1]);
    let t1 = t.drop_last().drop_last();
    assert(t1.len() == 1 && t1.last() == t[0]);
    assert(t1.drop_last() =~= Seq::<i64>::empty());
    assert(seq_sum(t1.drop_last()) == 0);
    assert(seq_sum(t1) == t[0]);
    assert(seq_sum(t.drop_last()) == t[0] + t[1]);
    assert(seq_sum(t) == t[0] + t[1] + t[2]);
    assert forall|i: int, j: int, k: int|
        0 <= i < j < k < totals.len() implies #[trigger] totals[i] + #[trigger] totals[j] + #[trigger] totals[k] <= seq_sum(t) by {
        assert(totals[k] <= totals[n - 1]);
        assert(j <= n - 2);
        assert(totals[j] <= totals[n - 2]);
        assert(i <= n - 3);
        assert(totals[i] <= totals[n - 3]);
    }
}

} // verus!
