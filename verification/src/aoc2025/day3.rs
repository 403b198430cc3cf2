//! Battery banks: from each bank, turn on a number of batteries, keeping
//! their order, so that their digits spell the largest number.
use crate::parsing::{split_lines, span_view, text_lines, ErrorKind, ParseResult};
use vstd::prelude::*;

verus! {

/// A bank of batteries, each with a joltage digit from 1 to 9.
pub struct Bank {
    pub batteries: Vec<u8>,
}

/// True for the bytes `1` to `9`.
pub open spec fn is_battery_byte(b: u8) -> bool {
    49 <= b <= 57
}

/// The number of battery bytes in the run that starts at `i`.
pub open spec fn battery_run(s: Seq<u8>, i: int) -> int
    decreases s.len() - i,
{
    if i < 0 || i >= s.len() || !is_battery_byte(s[i]) {
        0
    } else {
        1 + battery_run(s, i + 1)
    }
}

/// The number that a sequence of digits spells.
pub open spec fn num(s: Seq<u8>) -> int
    decreases s.len(),
{
    if s.len() == 0 {
        0
    } else {
        num(s.drop_last()) * 10 + s.last()
    }
}

/// The index of the first largest value among `b[lo..hi]`.
pub open spec fn first_max(b: Seq<u8>, lo: int, hi: int) -> int
    decreases hi - lo,
{
    if hi - lo <= 1 {
        lo
    } else {
        let m = first_max(b, lo, hi - 1);
        if b[hi - 1] > b[m] {
            hi - 1
        } else {
            m
        }
    }
}

/// The digits chosen greedily: `k` of them from `b[start..]`, each the first
/// largest among those that leave enough room for the rest.
pub open spec fn greedy(b: Seq<u8>, start: int, k: int) -> Seq<u8>
    decreases k,
{
    if k <= 0 {
        Seq::empty()
    } else {
        let m = first_max(b, start, b.len() - (k - 1));
        seq![b[m]] + greedy(b, m + 1, k - 1)
    }
}

/// Every battery has a digit from 1 to 9.
pub open spec fn digits_ok(b: Seq<u8>) -> bool {
    forall|i: int| 0 <= i < b.len() ==> 1 <= #[trigger] b[i] <= 9
}

/// The largest joltage of the first `n` banks, `k` batteries each, summed.
pub open spec fn joltage_sum(banks: Seq<Bank>, k: int, n: int) -> int
    decreases n,
{
    if n <= 0 {
        0
    } else {
        joltage_sum(banks, k, n - 1) + num(greedy(banks[n - 1].batteries@, 0, k))
    }
}

/// The first largest value is in range, at least every value there, and
/// larger than every value before it.
pub proof fn lemma_first_max(b: Seq<u8>, lo: int, hi: int)
    requires
        0 <= lo < hi <= b.len(),
    ensures
        lo <= first_max(b, lo, hi) < hi,
        forall|j: int| lo <= j < hi ==> #[trigger] b[j] <= b[first_max(b, lo, hi)],
        forall|j: int| lo <= j < first_max(b, lo, hi) ==> #[trigger] b[j] < b[first_max(b, lo, hi)],
    decreases hi - lo,
{
    if hi - lo > 1 {
        lemma_first_max(b, lo, hi - 1);
    }
}

/// Appending a digit shifts the number one place.
pub proof fn lemma_num_push(s: Seq<u8>, d: u8)
    ensures
        num(s.push(d)) == num(s) * 10 + d,
{
    assert(s.push(d).drop_last() =~= s);
}

/// The number of `n` digits up to 9 is below `10^n`, and not negative.
pub proof fn lemma_num_bound(s: Seq<u8>)
    requires
        forall|i: int| 0 <= i < s.len() ==> #[trigger] s[i] <= 9,
    ensures
        0 <= num(s) < vstd::arithmetic::power::pow(10, s.len()),
    decreases s.len(),
{
    vstd::arithmetic::power::lemma_pow_positive(10, s.len());
    if s.len() > 0 {
        let t = s.drop_last();
        assert forall|i: int| 0 <= i < t.len() implies #[trigger] t[i] <= 9 by {
            assert(t[i] == s[i]);
        }
        lemma_num_bound(t);
        vstd::arithmetic::power::lemma_pow_adds(10, t.len(), 1);
        vstd::arithmetic::power::lemma_pow1(10);
        assert(num(t) * 10 + s.last() < vstd::arithmetic::power::pow(10, t.len()) * 10) by (nonlinear_arith)
            requires
                num(t) < vstd::arithmetic::power::pow(10, t.len()),
                s.last() <= 9,
                0 <= num(t);
    }
}

/// A prefix of a sequence of digits spells no more than the whole.
pub proof fn lemma_num_prefix(s: Seq<u8>, i: int)
    requires
        0 <= i <= s.len(),
    ensures
        num(s.subrange(0, i)) <= num(s),
    decreases s.len() - i,
{
    if i < s.len() {
        lemma_num_prefix(s.drop_last(), i);
        assert(s.drop_last().subrange(0, i) =~= s.subrange(0, i));
        lemma_num_nonneg(s.drop_last());
        assert(num(s.drop_last()) <= num(s.drop_last()) * 10 + s.last()) by (nonlinear_arith)
            requires
                num(s.drop_last()) >= 0;
    } else {
        assert(s.subrange(0, i) =~= s);
    }
}

/// A sequence of bytes spells a non-negative number.
pub proof fn lemma_num_nonneg(s: Seq<u8>)
    ensures
        num(s) >= 0,
    decreases s.len(),
{
    if s.len() > 0 {
        lemma_num_nonneg(s.drop_last());
    }
}

/// The greedy choice from `b[start..]` has `k` digits, taken in order.
pub proof fn lemma_greedy_len(b: Seq<u8>, start: int, k: int)
    requires
        0 <= k,
        0 <= start,
        start + k <= b.len(),
    ensures
        greedy(b, start, k).len() == k,
        forall|i: int| 0 <= i < k ==> exists|j: int| start <= j < b.len() && b[j] == #[trigger] greedy(b, start, k)[i],
    decreases k,
{
    if k > 0 {
        let m = first_max(b, start, b.len() - (k - 1));
        lemma_first_max(b, start, b.len() - (k - 1));
        lemma_greedy_len(b, m + 1, k - 1);
        let g = greedy(b, start, k);
        assert forall|i: int| 0 <= i < k implies exists|j: int| start <= j < b.len() && b[j] == #[trigger] g[i] by {
            if i == 0 {
                assert(b[m] == g[0]);
            } else {
                assert(g[i] == greedy(b, m + 1, k - 1)[i - 1]);
            }
        }
    }
}

/// Indices into `b[start..n]`, strictly increasing.
pub open spec fn increasing_in(idx: Seq<int>, start: int, n: int) -> bool {
    &&& forall|i: int| 0 <= i < idx.len() ==> start <= #[trigger] idx[i] < n
    &&& forall|i: int, j: int| 0 <= i < j < idx.len() ==> #[trigger] idx[i] < #[trigger] idx[j]
}

/// The digits of `b` at the given indices.
pub open spec fn picked(b: Seq<u8>, idx: Seq<int>) -> Seq<u8> {
    idx.map_values(|j: int| b[j])
}

/// A leading digit weighs ten to the power of the number of digits after it.
pub proof fn lemma_num_front(d: u8, s: Seq<u8>)
    ensures
        num(seq![d] + s) == d * vstd::arithmetic::power::pow(10, s.len()) + num(s),
    decreases s.len(),
{
    let t = seq![d] + s;
    if s.len() == 0 {
        assert(t.drop_last() =~= Seq::<u8>::empty());
        assert(t.last() == d);
        vstd::arithmetic::power::lemma_pow0(10);
        assert(num(t) == num(t.drop_last()) * 10 + t.last());
    } else {
        lemma_num_front(d, s.drop_last());
        assert(t.drop_last() =~= seq![d] + s.drop_last());
        assert(t.last() == s.last());
        assert(num(t) == num(t.drop_last()) * 10 + t.last());
        vstd::arithmetic::power::lemma_pow_adds(10, s.drop_last().len(), 1);
        vstd::arithmetic::power::lemma_pow1(10);
        assert(s.len() == s.drop_last().len() + 1);
        let p = vstd::arithmetic::power::pow(10, s.drop_last().len());
        assert(vstd::arithmetic::power::pow(10, s.len()) == p * 10);
        assert((d * p + num(s.drop_last())) * 10 + s.last() == d * (p * 10) + (num(s.drop_last()) * 10
            + s.last())) by (nonlinear_arith);
    }
}

proof fn lemma_increasing_spread(idx: Seq<int>, start: int, n: int, j: int)
    requires
        increasing_in(idx, start, n),
        0 <= j < idx.len(),
    ensures
        idx[j] >= idx[0] + j,
    decreases j,
{
    if j > 0 {
        lemma_increasing_spread(idx, start, n, j - 1);
        assert(idx[j - 1] < idx[j]);
    }
}

/// The greedy choice spells the largest number among all choices of `k`
/// batteries, in order, from `b[start..]`.
pub proof fn lemma_greedy_is_largest(b: Seq<u8>, start: int, k: int, idx: Seq<int>)
    requires
        digits_ok(b),
        0 <= start,
        idx.len() == k,
        increasing_in(idx, start, b.len() as int),
    ensures
        num(picked(b, idx)) <= num(greedy(b, start, k)),
    decreases k,
{
    if k == 0 {
        assert(picked(b, idx) =~= Seq::<u8>::empty());
    } else {
        let n = b.len() as int;
        lemma_increasing_spread(idx, start, n, k - 1);
        let hi = n - (k - 1);
        let m = first_max(b, start, hi);
        lemma_first_max(b, start, hi);
        let i0 = idx[0];
        let rest = idx.subrange(1, k);
        assert(increasing_in(rest, i0 + 1, n)) by {
            assert forall|i: int| 0 <= i < rest.len() implies i0 + 1 <= #[trigger] rest[i] < n by {
                assert(rest[i] == idx[i + 1]);
                assert(idx[0] < idx[i + 1]);
            }
            assert forall|i: int, j: int| 0 <= i < j < rest.len() implies #[trigger] rest[i] < #[trigger] rest[j] by {
                assert(rest[i] == idx[i + 1] && rest[j] == idx[j + 1]);
            }
        }
        assert(picked(b, idx) =~= seq![b[i0]] + picked(b, rest));
        let g = greedy(b, start, k);
        let grest = greedy(b, m + 1, k - 1);
        assert(g == seq![b[m]] + grest);
        lemma_num_front(b[i0], picked(b, rest));
        lemma_num_front(b[m], grest);
        lemma_greedy_len(b, m + 1, k - 1);
        lemma_greedy_len(b, i0 + 1, k - 1);
        let p = vstd::arithmetic::power::pow(10, (k - 1) as nat);
        assert(picked(b, rest).len() == k - 1);
        assert(b[i0] <= b[m]);
        if b[i0] < b[m] {
            assert forall|i: int| 0 <= i < picked(b, rest).len() implies #[trigger] picked(b, rest)[i] <= 9 by {
                assert(picked(b, rest)[i] == b[rest[i]]);
            }
            lemma_num_bound(picked(b, rest));
            lemma_num_nonneg(grest);
            vstd::arithmetic::power::lemma_pow_positive(10, (k - 1) as nat);
            assert(b[i0] * p + num(picked(b, rest)) <= b[m] * p + num(grest)) by (nonlinear_arith)
                requires
                    p > 0,
                    b[i0] + 1 <= b[m],
                    num(picked(b, rest)) < p,
                    num(grest) >= 0;
        } else {
            assert(m <= i0) by {
                if i0 < m {
                    assert(b[i0] < b[m]);
                }
            }
            assert(increasing_in(rest, m + 1, n)) by {
                assert forall|i: int| 0 <= i < rest.len() implies m + 1 <= #[trigger] rest[i] < n by {
                    assert(i0 + 1 <= rest[i]);
                }
            }
            lemma_greedy_is_largest(b, m + 1, k - 1, rest);
        }
    }
}

/// The greedy choice is itself a choice of `k` batteries, in order.
pub proof fn lemma_greedy_is_a_choice(b: Seq<u8>, start: int, k: int)
    requires
        0 <= k,
        0 <= start,
        start + k <= b.len(),
    ensures
        exists|idx: Seq<int>| idx.len() == k && increasing_in(idx, start, b.len() as int) && picked(b, idx) == greedy(b, start, k),
    decreases k,
{
    if k == 0 {
        let idx = Seq::<int>::empty();
        assert(picked(b, idx) =~= greedy(b, start, k));
    } else {
        let n = b.len() as int;
        let m = first_max(b, start, n - (k - 1));
        lemma_first_max(b, start, n - (k - 1));
        lemma_greedy_is_a_choice(b, m + 1, k - 1);
        let rest = choose|idx: Seq<int>| idx.len() == k - 1 && increasing_in(idx, m + 1, n) && picked(b, idx) == greedy(b, m + 1, k - 1);
        let idx = seq![m] + rest;
        assert(increasing_in(idx, start, n)) by {
            assert forall|i: int| 0 <= i < idx.len() implies start <= #[trigger] idx[i] < n by {
                if i > 0 {
                    assert(idx[i] == rest[i - 1]);
                }
            }
            assert forall|i: int, j: int| 0 <= i < j < idx.len() implies #[trigger] idx[i] < #[trigger] idx[j] by {
                assert(idx[j] == rest[j - 1]);
                if i > 0 {
                    assert(idx[i] == rest[i - 1]);
                }
            }
        }
        assert(picked(b, idx) =~= seq![b[m]] + picked(b, rest));
    }
}

impl Bank {
    /// Reads a bank: the run of digits `1` to `9` at the start of the input,
    /// which may be empty.
    pub fn parse(input: &[u8]) -> (r: ParseResult<Bank>)
        ensures
            r matches Ok((n, bank)) && n == battery_run(input@, 0) && bank.batteries@.len() == n && forall|i: int|
                0 <= i < n ==> #[trigger] bank.batteries@[i] == input@[i] - 48,
    {
        let mut batteries: Vec<u8> = Vec::new();
        let mut i: usize = 0;
        while i < input.len() && input[i] >= 49 && input[i] <= 57
            invariant
                i <= input.len(),
                battery_run(input@, 0) == i + battery_run(input@, i as int),
                batteries@.len() == i,
                forall|j: int| 0 <= j < i ==> #[trigger] batteries@[j] == input@[j] - 48,
            decreases input.len() - i,
        {
            batteries.push(input[i] - 48);
            i += 1;
        }
        Ok((i, Bank { batteries }))
    }

    /// The first largest battery among those from `start_ix` on that leave
    /// `left` batteries after it, with its index.
    pub fn search_largest_joltage(&self, start_ix: usize, left: usize) -> (r: (usize, u64))
        requires
            start_ix + left < self.batteries.len(),
        ensures
            r.0 == first_max(self.batteries@, start_ix as int, self.batteries.len() - left),
            r.1 == self.batteries@[r.0 as int],
    {
        let b = &self.batteries;
        let hi = b.len() - left;
        let mut best = start_ix;
        let mut j = start_ix + 1;
        while j < hi
            invariant
                start_ix < j <= hi,
                hi == b.len() - left,
                hi <= b.len(),
                best == first_max(b@, start_ix as int, j as int),
                start_ix <= best < j,
            decreases hi - j,
        {
            if b[j] > b[best] {
                best = j;
            }
            j += 1;
        }
        (best, b[best] as u64)
    }

    /// The largest number spelled by `digits` batteries taken in order.
    pub fn largest_joltage(&self, digits: usize) -> (r: u64)
        requires
            digits <= self.batteries.len(),
            num(greedy(self.batteries@, 0, digits as int)) <= u64::MAX,
        ensures
            r == num(greedy(self.batteries@, 0, digits as int)),
    {
        let ghost b = self.batteries@;
        let ghost whole = greedy(b, 0, digits as int);
        let mut curr_ix: usize = 0;
        let mut value: u64 = 0;
        let mut left = digits;
        let ghost mut picked: Seq<u8> = Seq::empty();
        proof {
            assert(picked + greedy(b, 0, digits as int) =~= whole);
            lemma_greedy_len(b, 0, digits as int);
        }
        while left > 0
            invariant
                b == self.batteries@,
                whole == greedy(b, 0, digits as int),
                whole.len() == digits,
                num(whole) <= u64::MAX,
                left <= digits,
                curr_ix + left <= b.len(),
                picked.len() == digits - left,
                picked + greedy(b, curr_ix as int, left as int) == whole,
                value == num(picked),
            decreases left,
        {
            let (ix, v) = self.search_largest_joltage(curr_ix, left - 1);
            proof {
                lemma_first_max(b, curr_ix as int, b.len() - (left - 1));
                let rest = greedy(b, ix + 1, left - 1);
                assert(greedy(b, curr_ix as int, left as int) == seq![b[ix as int]] + rest);
                assert(picked.push(b[ix as int]) + rest =~= picked + (seq![b[ix as int]] + rest));
                lemma_num_push(picked, b[ix as int]);
                assert(picked.push(b[ix as int]) =~= whole.subrange(0, picked.len() + 1int)) by {
                    lemma_greedy_len(b, ix + 1, (left - 1) as int);
                }
                lemma_num_prefix(whole, picked.len() + 1int);
                lemma_num_nonneg(picked);
            }
            value = value * 10 + v;
            proof {
                picked = picked.push(b[ix as int]);
            }
            curr_ix = ix + 1;
            left -= 1;
        }
        proof {
            assert(picked =~= whole);
        }
        value
    }
}

/// Reads one bank per line; `None` unless every line is only digits `1` to
/// `9`.
pub fn parse_banks(input: &[u8]) -> (r: Option<Vec<Bank>>)
    ensures
        r is Some <==> forall|k: int|
            0 <= k < text_lines(input@).len() ==> #[trigger] battery_run(
                input@.subrange(text_lines(input@)[k].0, text_lines(input@)[k].0 + text_lines(input@)[k].1),
                0,
            ) == text_lines(input@)[k].1,
        r matches Some(banks) ==> {
            &&& banks.len() == text_lines(input@).len()
            &&& forall|k: int| 0 <= k < banks.len() ==> (#[trigger] banks@[k]).batteries@.len() == text_lines(input@)[k].1
            &&& forall|k: int, i: int|
                0 <= k < banks.len() && 0 <= i < banks@[k].batteries@.len() ==> #[trigger] banks@[k].batteries@[i]
                    == input@[text_lines(input@)[k].0 + i] - 48
        },
{
    let lines = split_lines(input);
    let ghost tl = text_lines(input@);
    let mut banks: Vec<Bank> = Vec::new();
    let mut k: usize = 0;
    while k < lines.len()
        invariant
            span_view(lines@) == tl,
            tl == text_lines(input@),
            forall|j: int| 0 <= j < lines.len() ==> #[trigger] lines@[j].0 + lines@[j].1 <= input.len(),
            k <= lines.len(),
            banks.len() == k,
            forall|j: int| 0 <= j < k ==> #[trigger] battery_run(input@.subrange(tl[j].0, tl[j].0 + tl[j].1), 0) == tl[j].1,
            forall|j: int| 0 <= j < k ==> (#[trigger] banks@[j]).batteries@.len() == tl[j].1,
            forall|j: int, i: int|
                0 <= j < k && 0 <= i < banks@[j].batteries@.len() ==> #[trigger] banks@[j].batteries@[i] == input@[tl[j].0
                    + i] - 48,
        decreases lines.len() - k,
    {
        let (st, l) = lines[k];
        let line = &input[st..st + l];
        proof {
            assert(tl[k as int] == (st as int, l as int));
        }
        match Bank::parse(line) {
            Ok((n, bank)) => {
                if n != l {
                    return None;
                }
                let ghost before = banks@;
                banks.push(bank);
                proof {
                    assert(line@ == input@.subrange(tl[k as int].0, tl[k as int].0 + tl[k as int].1));
                    assert forall|j: int| 0 <= j < k + 1 implies (#[trigger] banks@[j]).batteries@.len() == tl[j].1 by {
                        if j < k {
                            assert(banks@[j] == before[j]);
                        }
                    }
                    assert forall|j: int, i: int|
                        0 <= j < k + 1 && 0 <= i < banks@[j].batteries@.len() implies #[trigger] banks@[j].batteries@[i]
                            == input@[tl[j].0 + i] - 48 by {
                        if j < k {
                            assert(banks@[j] == before[j]);
                        } else {
                            assert(line@[i] == input@[st + i]);
                        }
                    }
                }
            },
            Err(_) => {
                return None;
            },
        }
        k += 1;
    }
    Some(banks)
}

/// The sum over the banks of their largest joltage with `digits` batteries.
fn total_joltage(banks: &[Bank], digits: usize) -> (r: u64)
    requires
        forall|k: int| 0 <= k < banks.len() ==> digits <= (#[trigger] banks@[k]).batteries.len(),
        forall|k: int| 0 <= k < banks.len() ==> digits_ok((#[trigger] banks@[k]).batteries@),
        joltage_sum(banks@, digits as int, banks.len() as int) <= u64::MAX,
    ensures
        r == joltage_sum(banks@, digits as int, banks.len() as int),
{
    let mut total: u64 = 0;
    let mut i: usize = 0;
    while i < banks.len()
        invariant
            i <= banks.len(),
            forall|k: int| 0 <= k < banks.len() ==> digits <= (#[trigger] banks@[k]).batteries.len(),
            forall|k: int| 0 <= k < banks.len() ==> digits_ok((#[trigger] banks@[k]).batteries@),
            joltage_sum(banks@, digits as int, banks.len() as int) <= u64::MAX,
            total == joltage_sum(banks@, digits as int, i as int),
        decreases banks.len() - i,
    {
        proof {
            lemma_joltage_sum_monotone(banks@, digits as int, i + 1, banks.len() as int);
            lemma_num_nonneg(greedy(banks@[i as int].batteries@, 0, digits as int));
            lemma_joltage_sum_nonneg(banks@, digits as int, i as int);
        }
        let j = banks[i].largest_joltage(digits);
        total = total + j;
        i += 1;
    }
    total
}

proof fn lemma_joltage_sum_nonneg(banks: Seq<Bank>, k: int, n: int)
    ensures
        joltage_sum(banks, k, n) >= 0,
    decreases n,
{
    if n > 0 {
        lemma_joltage_sum_nonneg(banks, k, n - 1);
        lemma_num_nonneg(greedy(banks[n - 1].batteries@, 0, k));
    }
}

proof fn lemma_joltage_sum_monotone(banks: Seq<Bank>, k: int, a: int, b: int)
    requires
        0 <= a <= b,
    ensures
        joltage_sum(banks, k, a) <= joltage_sum(banks, k, b),
    decreases b - a,
{
    if a < b {
        lemma_joltage_sum_monotone(banks, k, a, b - 1);
        lemma_num_nonneg(greedy(banks[b - 1].batteries@, 0, k));
    }
}

/// The total of the largest two-battery joltages.
pub fn calculate_part1(banks: &[Bank]) -> (r: u64)
    requires
        forall|k: int| 0 <= k < banks.len() ==> 2 <= (#[trigger] banks@[k]).batteries.len(),
        forall|k: int| 0 <= k < banks.len() ==> digits_ok((#[trigger] banks@[k]).batteries@),
        joltage_sum(banks@, 2, banks.len() as int) <= u64::MAX,
    ensures
        r == joltage_sum(banks@, 2, banks.len() as int),
{
    total_joltage(banks, 2)
}

/// The total of the largest twelve-battery joltages.
pub fn calculate_part2(banks: &[Bank]) -> (r: u64)
    requires
        forall|k: int| 0 <= k < banks.len() ==> 12 <= (#[trigger] banks@[k]).batteries.len(),
        forall|k: int| 0 <= k < banks.len() ==> digits_ok((#[trigger] banks@[k]).batteries@),
        joltage_sum(banks@, 12, banks.len() as int) <= u64::MAX,
    ensures
        r == joltage_sum(banks@, 12, banks.len() as int),
{
    total_joltage(banks, 12)
}

} // verus!
