//! Graph traversals driven by a visitor, and finding the best pair of
//! items whose bit sets do not overlap.
use crate::sort::{lex_le, sort_triples, sorted_lex};
use std::collections::VecDeque;
use vstd::prelude::*;

verus! {

/// The mask of the low `bits` bits.
pub open spec fn low_mask(bits: u32) -> u64 {
    ((1u64 << bits) - 1) as u64
}

/// Items `i` and `j` can be paired: the low bits of `i`'s key, its bucket,
/// are below `j`'s, and the keys share no bit.
pub open spec fn combinable<T>(input: Seq<(u64, T)>, mask: u64, i: int, j: int) -> bool {
    &&& 0 <= i < input.len()
    &&& 0 <= j < input.len()
    &&& (input[i].0 & mask) < (input[j].0 & mask)
    &&& (input[i].0 & input[j].0) == 0
}

proof fn lemma_bucket_bits(a: u64, b: u64, mask: u64)
    ensures
        (a & (b & mask)) != 0 ==> (a & b) != 0,
        (a & mask) <= mask,
{
    assert((a & (b & mask)) != 0 ==> (a & b) != 0) by (bit_vector);
    assert((a & mask) <= mask) by (bit_vector);
}

/// The sort key of item `k`: its score from the top down, then its index.
pub open spec fn triple_of(scores: Seq<u64>, k: int) -> (u64, usize, usize) {
    ((u64::MAX - scores[k]) as u64, k as usize, 0usize)
}

/// Every index of the input sits in the bucket of its key, every bucket
/// holds indices of its own key bits, and within a bucket the scores never
/// increase.
spec fn buckets_ok<T>(input: Seq<(u64, T)>, mask: u64, sc: Seq<u64>, buckets: Seq<Vec<usize>>) -> bool {
    &&& buckets.len() == mask + 1
    &&& forall|b: int, p: int|
        0 <= b < buckets.len() && 0 <= p < buckets[b]@.len() ==> #[trigger] buckets[b]@[p] < input.len()
            && (input[buckets[b]@[p] as int].0 & mask) == b
    &&& forall|b: int, p: int, q: int|
        0 <= b < buckets.len() && 0 <= p <= q < buckets[b]@.len() ==> sc[#[trigger] buckets[b]@[p] as int]
            >= sc[#[trigger] buckets[b]@[q] as int]
    &&& forall|k: int| #![trigger input[k]] 0 <= k < input.len() ==> in_bucket(buckets, (input[k].0 & mask) as int, k)
}

/// Any two items in different buckets have scores that add up within `u64`.
spec fn sums_fit<T>(input: Seq<(u64, T)>, mask: u64, sc: Seq<u64>) -> bool {
    forall|a: int, b: int|
        #![trigger sc[a], sc[b]]
        0 <= a < input.len() && 0 <= b < input.len() && (input[a].0 & mask) < (input[b].0 & mask) ==> sc[a] + sc[b] <= u64::MAX
}

/// Index `k` is in bucket `c`.
spec fn in_bucket(buckets: Seq<Vec<usize>>, c: int, k: int) -> bool {
    exists|p: int| 0 <= p < buckets[c]@.len() && #[trigger] buckets[c]@[p] == k
}

/// The triple `x` occurs in `sorted`.
spec fn in_sorted(sorted: Seq<(u64, usize, usize)>, x: (u64, usize, usize)) -> bool {
    exists|t: int| 0 <= t < sorted.len() && #[trigger] sorted[t] == x
}

/// The best pair found so far, of score `max`, is combinable; without one,
/// `max` is 0.
spec fn best_ok<T>(input: Seq<(u64, T)>, mask: u64, sc: Seq<u64>, best: Option<(usize, usize)>, max: u64) -> bool {
    match best {
        Some((x, y)) => combinable(input, mask, x as int, y as int) && sc[x as int] + sc[y as int] == max,
        None => max == 0,
    }
}

/// Sorts the indices of the items by score, highest first, and deals them
/// into the buckets of their key bits.
fn fill_buckets<T>(input: &[(u64, T)], scores: &Vec<u64>, mask: u64) -> (r: Vec<Vec<usize>>)
    requires
        scores.len() == input.len(),
        mask < usize::MAX,
    ensures
        buckets_ok(input@, mask, scores@, r@),
{
    broadcast use vstd::seq_lib::group_to_multiset_ensures;

    let nb = (mask + 1) as usize;
    let mut buckets: Vec<Vec<usize>> = Vec::new();
    let mut b: usize = 0;
    while b < nb
        invariant
            b <= nb,
            nb == mask + 1,
            buckets.len() == b,
            forall|c: int| 0 <= c < b ==> (#[trigger] buckets@[c])@.len() == 0,
        decreases nb - b,
    {
        buckets.push(Vec::new());
        b += 1;
    }
    let n = input.len();
    let mut triples: Vec<(u64, usize, usize)> = Vec::new();
    let mut i: usize = 0;
    while i < n
        invariant
            i <= n == input.len() == scores.len(),
            triples.len() == i,
            forall|k: int| 0 <= k < i ==> #[trigger] triples@[k] == triple_of(scores@, k),
        decreases n - i,
    {
        triples.push((u64::MAX - scores[i], i, 0));
        i += 1;
    }
    let sorted = sort_triples(triples.as_slice());
    // Every sorted triple belongs to an index, with that index's key.
    proof {
        assert forall|t: int| 0 <= t < sorted.len() implies (#[trigger] sorted@[t]).1 < n && sorted@[t] == triple_of(scores@, sorted@[t].1 as int) by {
            assert(sorted@.contains(sorted@[t]));
            assert(sorted@.to_multiset().count(sorted@[t]) > 0);
            assert(triples@.to_multiset().count(sorted@[t]) > 0);
            assert(triples@.contains(sorted@[t]));
            let k = choose|k: int| 0 <= k < triples.len() && triples@[k] == sorted@[t];
            assert(triples@[k] == triple_of(scores@, k));
        }
        assert forall|k: int| 0 <= k < n implies #[trigger] in_sorted(sorted@, triple_of(scores@, k)) by {
            assert(triples@[k] == triple_of(scores@, k));
            assert(triples@.contains(triples@[k]));
            assert(triples@.to_multiset().count(triples@[k]) > 0);
            assert(sorted@.to_multiset().count(triples@[k]) > 0);
            assert(sorted@.contains(triples@[k]));
            let w = choose|w: int| 0 <= w < sorted.len() && sorted@[w] == triples@[k];
            assert(sorted@[w] == triple_of(scores@, k));
        }
    }
    let mut t: usize = 0;
    while t < sorted.len()
        invariant
            t <= sorted.len(),
            n == input.len() == scores.len(),
            nb == mask + 1,
            mask < usize::MAX,
            buckets.len() == nb,
            sorted_lex(sorted@),
            forall|u: int| 0 <= u < sorted.len() ==> (#[trigger] sorted@[u]).1 < n && sorted@[u] == triple_of(scores@, sorted@[u].1 as int),
            forall|c: int, p: int|
                0 <= c < buckets.len() && 0 <= p < buckets@[c]@.len() ==> #[trigger] buckets@[c]@[p] < n
                    && (input@[buckets@[c]@[p] as int].0 & mask) == c,
            forall|c: int, p: int, q: int|
                0 <= c < buckets.len() && 0 <= p <= q < buckets@[c]@.len() ==> scores@[#[trigger] buckets@[c]@[p] as int]
                    >= scores@[#[trigger] buckets@[c]@[q] as int],
            t < sorted.len() ==> forall|c: int, p: int|
                0 <= c < buckets.len() && 0 <= p < buckets@[c]@.len() ==> scores@[#[trigger] buckets@[c]@[p] as int]
                    >= scores@[sorted@[t as int].1 as int],
            forall|u: int|
                #![trigger sorted@[u]]
                0 <= u < t ==> in_bucket(buckets@, (input@[sorted@[u].1 as int].0 & mask) as int, sorted@[u].1 as int),
            forall|k: int| 0 <= k < n ==> #[trigger] in_sorted(sorted@, triple_of(scores@, k)),
        decreases sorted.len() - t,
    {
        let k = sorted[t].1;
        let c = (input[k].0 & mask) as usize;
        proof {
            lemma_bucket_bits(input@[k as int].0, 0, mask);
        }
        let ghost before = buckets@;
        buckets[c].push(k);
        proof {
            assert forall|d: int| 0 <= d < buckets.len() && d != c implies buckets@[d] == before[d] by {}
            assert(buckets@[c as int]@ == before[c as int]@.push(k));
            if t + 1 < sorted.len() {
                assert(lex_le(sorted@[t as int], sorted@[t + 1]));
                assert forall|d: int, p: int|
                    0 <= d < buckets.len() && 0 <= p < buckets@[d]@.len() implies scores@[#[trigger] buckets@[d]@[p] as int]
                        >= scores@[sorted@[t + 1].1 as int] by {
                    if d == c && p == buckets@[d]@.len() - 1 {
                    } else {
                        assert(buckets@[d]@[p] == before[d]@[p]);
                    }
                }
            }
            assert forall|d: int, p: int, q: int|
                0 <= d < buckets.len() && 0 <= p <= q < buckets@[d]@.len() implies scores@[#[trigger] buckets@[d]@[p] as int]
                    >= scores@[#[trigger] buckets@[d]@[q] as int] by {
                if d == c && q == buckets@[d]@.len() - 1 {
                    if p < q {
                        assert(buckets@[d]@[p] == before[d]@[p]);
                    }
                } else {
                    assert(buckets@[d]@[p] == before[d]@[p]);
                    assert(buckets@[d]@[q] == before[d]@[q]);
                }
            }
            assert forall|d: int, p: int|
                0 <= d < buckets.len() && 0 <= p < buckets@[d]@.len() implies #[trigger] buckets@[d]@[p] < n && (
                input@[buckets@[d]@[p] as int].0 & mask) == d by {
                if !(d == c && p == buckets@[d]@.len() - 1) {
                    assert(buckets@[d]@[p] == before[d]@[p]);
                }
            }
            assert forall|u: int|
                #![trigger sorted@[u]]
                0 <= u < t + 1 implies in_bucket(buckets@, (input@[sorted@[u].1 as int].0 & mask) as int, sorted@[u].1 as int) by {
                if u < t {
                    let d = (input@[sorted@[u].1 as int].0 & mask) as int;
                    lemma_bucket_bits(input@[sorted@[u].1 as int].0, 0, mask);
                    assert(in_bucket(before, d, sorted@[u].1 as int));
                    if d == c {
                        assert(buckets@[c as int]@ == before[c as int]@.push(k));
                    }
                    let p = choose|p: int| 0 <= p < before[d]@.len() && #[trigger] before[d]@[p] == sorted@[u].1 as int;
                    assert(buckets@[d]@[p] == before[d]@[p]);
                } else {
                    assert(buckets@[c as int]@[buckets@[c as int]@.len() - 1] == k);
                }
            }
        }
        t += 1;
    }
    proof {
        assert forall|k: int| #![trigger input@[k]] 0 <= k < input.len() implies in_bucket(buckets@, (input@[k].0 & mask) as int, k) by {
            assert(in_sorted(sorted@, triple_of(scores@, k)));
            let u = choose|u: int| 0 <= u < sorted.len() && #[trigger] sorted@[u] == triple_of(scores@, k);
            assert(sorted@[u].1 == k);
        }
    }
    buckets
}

/// The pair of items, in buckets of increasing key bits and with keys that
/// share no bit, whose scores add up to the most. The low `bits_split` bits
/// of a key choose its bucket, and two items of one bucket are never paired.
/// There are `2^bits_split` buckets, so that number must fit in `usize`, and
/// the scores of two items in different buckets must add up within `u64`.
pub fn find_max_nonoverlapping_combination<T: Copy, F: Fn(&T) -> u64>(
    input: &[(u64, T)],
    get_score: F,
    bits_split: u32,
) -> (r: (T, T))
    requires
        1 <= bits_split < 64,
        bits_split < usize::BITS,
        forall|i: int| 0 <= i < input.len() ==> call_requires(get_score, (&(#[trigger] input@[i]).1,)),
        forall|i: int, j: int, s: u64, t: u64|
            0 <= i < input.len() && 0 <= j < input.len() && (input@[i].0 & low_mask(bits_split)) < (input@[j].0 & low_mask(bits_split))
                && #[trigger] call_ensures(get_score, (&input@[i].1,), s) && #[trigger] call_ensures(get_score, (&input@[j].1,), t)
                ==> s + t <= u64::MAX,
        exists|i: int, j: int| #[trigger] combinable(input@, low_mask(bits_split), i, j),
    ensures
        exists|sc: Seq<u64>, i: int, j: int| {
            &&& sc.len() == input.len()
            &&& forall|k: int| 0 <= k < input.len() ==> call_ensures(get_score, (&(#[trigger] input@[k]).1,), sc[k])
            &&& combinable(input@, low_mask(bits_split), i, j)
            &&& r == (input@[i].1, input@[j].1)
            &&& forall|a: int, b: int|
                #[trigger] combinable(input@, low_mask(bits_split), a, b) ==> sc[a] + sc[b] <= sc[i] + sc[j]
        },
{
    proof {
        assert(1u64 << bits_split >= 2) by (bit_vector)
            requires
                1 <= bits_split < 64;
        if bits_split < 32 {
            assert(1u64 << bits_split <= 0x8000_0000) by (bit_vector)
                requires
                    bits_split < 32;
        } else {
            assert(1u64 << bits_split <= 0x8000_0000_0000_0000) by (bit_vector)
                requires
                    bits_split < 64;
            assert(usize::BITS == 64);
        }
    }
    let mask: u64 = (1u64 << bits_split) - 1;
    let n = input.len();
    let mut scores: Vec<u64> = Vec::new();
    let mut i: usize = 0;
    while i < n
        invariant
            i <= n == input.len(),
            scores.len() == i,
            forall|k: int| 0 <= k < i ==> call_ensures(get_score, (&(#[trigger] input@[k]).1,), scores@[k]),
            sums_fit(input@.take(i as int), low_mask(bits_split), scores@),
            forall|k: int| 0 <= k < input.len() ==> call_requires(get_score, (&(#[trigger] input@[k]).1,)),
            forall|i: int, j: int, s: u64, t: u64|
                0 <= i < input.len() && 0 <= j < input.len() && (input@[i].0 & low_mask(bits_split)) < (input@[j].0 & low_mask(bits_split))
                    && #[trigger] call_ensures(get_score, (&input@[i].1,), s) && #[trigger] call_ensures(get_score, (&input@[j].1,), t)
                    ==> s + t <= u64::MAX,
        decreases n - i,
    {
        let s = get_score(&input[i].1);
        let ghost before = scores@;
        scores.push(s);
        proof {
            assert forall|a: int, b: int|
                #![trigger scores@[a], scores@[b]]
                0 <= a < i + 1 && 0 <= b < i + 1 && (input@.take(i + 1)[a].0 & low_mask(bits_split)) < (input@.take(i + 1)[b].0
                    & low_mask(bits_split)) implies scores@[a] + scores@[b] <= u64::MAX by {
                assert(call_ensures(get_score, (&input@[a].1,), scores@[a]));
                assert(call_ensures(get_score, (&input@[b].1,), scores@[b]));
                if a < i && b < i {
                    assert(before[a] == scores@[a] && before[b] == scores@[b]);
                    assert(input@.take(i as int)[a] == input@[a] && input@.take(i as int)[b] == input@[b]);
                }
            }
        }
        i += 1;
    }
    proof {
        assert(input@.take(n as int) =~= input@);
    }
    let buckets = fill_buckets(input, &scores, mask);
    let ghost sc = scores@;
    let nb = buckets.len();
    let mut max: u64 = 0;
    let mut best: Option<(usize, usize)> = None;
    let mut fi: usize = 0;
    while fi < nb
        invariant
            fi <= nb,
            nb == mask + 1,
            mask == low_mask(bits_split),
            sc == scores@,
            sc.len() == input.len(),
            sums_fit(input@, mask, sc),
            buckets_ok(input@, mask, sc, buckets@),
            best_ok(input@, mask, sc, best, max),
            forall|a: int, b: int|
                #[trigger] combinable(input@, mask, a, b) && (input@[a].0 & mask) < fi ==> sc[a] + sc[b] <= max && best is Some,
        decreases nb - fi,
    {
        let mut fp: usize = 0;
        while fp < buckets[fi].len()
            invariant
                fi < nb,
                fp <= buckets@[fi as int]@.len(),
                nb == mask + 1,
                mask == low_mask(bits_split),
                sc == scores@,
                sc.len() == input.len(),
                sums_fit(input@, mask, sc),
                buckets_ok(input@, mask, sc, buckets@),
                best_ok(input@, mask, sc, best, max),
                forall|a: int, b: int|
                    #[trigger] combinable(input@, mask, a, b) && (input@[a].0 & mask) < fi ==> sc[a] + sc[b] <= max && best is Some,
                forall|p: int, b: int|
                    0 <= p < fp && #[trigger] combinable(input@, mask, buckets@[fi as int]@[p] as int, b) ==> sc[buckets@[fi as int]@[p] as int]
                        + sc[b] <= max && best is Some,
            decreases buckets@[fi as int]@.len() - fp,
        {
            let a = buckets[fi][fp];
            let mut si: usize = fi + 1;
            while si < nb
                invariant
                    fi < si <= nb,
                    fp < buckets@[fi as int]@.len(),
                    a == buckets@[fi as int]@[fp as int],
                    nb == mask + 1,
                    mask == low_mask(bits_split),
                    sc == scores@,
                    sc.len() == input.len(),
                    sums_fit(input@, mask, sc),
                    buckets_ok(input@, mask, sc, buckets@),
                    best_ok(input@, mask, sc, best, max),
                    forall|a2: int, b: int|
                        #[trigger] combinable(input@, mask, a2, b) && (input@[a2].0 & mask) < fi ==> sc[a2] + sc[b] <= max && best is Some,
                    forall|p: int, b: int|
                        0 <= p < fp && #[trigger] combinable(input@, mask, buckets@[fi as int]@[p] as int, b) ==> sc[buckets@[fi as int]@[p] as int]
                            + sc[b] <= max && best is Some,
                    forall|b: int|
                        #[trigger] combinable(input@, mask, a as int, b) && (input@[b].0 & mask) < si ==> sc[a as int] + sc[b] <= max && best is Some,
                decreases nb - si,
            {
                proof {
                    assert(a < input.len() && (input@[a as int].0 & mask) == fi);
                }
                if (input[a].0 & (si as u64)) != 0 {
                    proof {
                        assert forall|b: int|
                            #[trigger] combinable(input@, mask, a as int, b) && (input@[b].0 & mask) < si + 1 implies sc[a as int]
                                + sc[b] <= max && best is Some by {
                            if (input@[b].0 & mask) == si {
                                lemma_bucket_bits(input@[a as int].0, input@[b].0, mask);
                            }
                        }
                    }
                    si += 1;
                    continue;
                }
                let mut sp: usize = 0;
                while sp < buckets[si].len()
                    invariant
                        fi < si < nb,
                        fp < buckets@[fi as int]@.len(),
                        a == buckets@[fi as int]@[fp as int],
                        sp <= buckets@[si as int]@.len(),
                        nb == mask + 1,
                        mask == low_mask(bits_split),
                        sc == scores@,
                        sc.len() == input.len(),
                        sums_fit(input@, mask, sc),
                        buckets_ok(input@, mask, sc, buckets@),
                        best_ok(input@, mask, sc, best, max),
                        forall|a2: int, b: int|
                            #[trigger] combinable(input@, mask, a2, b) && (input@[a2].0 & mask) < fi ==> sc[a2] + sc[b] <= max && best is Some,
                        forall|p: int, b: int|
                            0 <= p < fp && #[trigger] combinable(input@, mask, buckets@[fi as int]@[p] as int, b) ==> sc[buckets@[fi as int]@[p] as int]
                                + sc[b] <= max && best is Some,
                        forall|b: int|
                            #[trigger] combinable(input@, mask, a as int, b) && (input@[b].0 & mask) < si ==> sc[a as int] + sc[b] <= max && best is Some,
                        forall|q: int|
                            0 <= q < sp && #[trigger] combinable(input@, mask, a as int, buckets@[si as int]@[q] as int) ==> sc[a as int]
                                + sc[buckets@[si as int]@[q] as int] <= max && best is Some,
                    ensures
                        buckets_ok(input@, mask, sc, buckets@),
                        best_ok(input@, mask, sc, best, max),
                        forall|a2: int, b: int|
                            #[trigger] combinable(input@, mask, a2, b) && (input@[a2].0 & mask) < fi ==> sc[a2] + sc[b] <= max && best is Some,
                        forall|p: int, b: int|
                            0 <= p < fp && #[trigger] combinable(input@, mask, buckets@[fi as int]@[p] as int, b) ==> sc[buckets@[fi as int]@[p] as int]
                                + sc[b] <= max && best is Some,
                        forall|b: int|
                            #[trigger] combinable(input@, mask, a as int, b) && (input@[b].0 & mask) <= si ==> sc[a as int] + sc[b] <= max && best is Some,
                    decreases buckets@[si as int]@.len() - sp,
                {
                    let b = buckets[si][sp];
                    let score = scores[a] + scores[b];
                    if score < max {
                        proof {
                            assert forall|bb: int|
                                #[trigger] combinable(input@, mask, a as int, bb) && (input@[bb].0 & mask) <= si implies sc[a as int]
                                    + sc[bb] <= max && best is Some by {
                                if (input@[bb].0 & mask) == si {
                                    assert(in_bucket(buckets@, si as int, bb));
                                    let q = choose|q: int| 0 <= q < buckets@[si as int]@.len() && #[trigger] buckets@[si as int]@[q] == bb;
                                    if q < sp {
                                        assert(combinable(input@, mask, a as int, buckets@[si as int]@[q] as int));
                                    } else {
                                        assert(sc[buckets@[si as int]@[sp as int] as int] >= sc[buckets@[si as int]@[q] as int]);
                                    }
                                }
                            }
                        }
                        break;
                    }
                    if input[a].0 & input[b].0 == 0 {
                        max = score;
                        best = Some((a, b));
                        proof {
                            assert(b < input.len() && (input@[b as int].0 & mask) == si);
                            assert(combinable(input@, mask, a as int, b as int));
                        }
                    }
                    sp += 1;
                }
                proof {
                    if sp == buckets@[si as int]@.len() {
                        assert forall|bb: int|
                            #[trigger] combinable(input@, mask, a as int, bb) && (input@[bb].0 & mask) <= si implies sc[a as int]
                                + sc[bb] <= max && best is Some by {
                            if (input@[bb].0 & mask) == si {
                                assert(in_bucket(buckets@, si as int, bb));
                                    let q = choose|q: int| 0 <= q < buckets@[si as int]@.len() && #[trigger] buckets@[si as int]@[q] == bb;
                                assert(combinable(input@, mask, a as int, buckets@[si as int]@[q] as int));
                            }
                        }
                    }
                }
                si += 1;
            }
            proof {
                assert forall|p: int, b: int|
                    0 <= p < fp + 1 && #[trigger] combinable(input@, mask, buckets@[fi as int]@[p] as int, b) implies sc[buckets@[fi as int]@[p] as int]
                        + sc[b] <= max && best is Some by {
                    if p == fp {
                        lemma_bucket_bits(input@[b].0, 0, mask);
                    }
                }
            }
            fp += 1;
        }
        proof {
            assert forall|a2: int, b: int|
                #[trigger] combinable(input@, mask, a2, b) && (input@[a2].0 & mask) < fi + 1 implies sc[a2] + sc[b] <= max && best is Some by {
                if (input@[a2].0 & mask) == fi {
                    assert(in_bucket(buckets@, fi as int, a2));
                    let p = choose|p: int| 0 <= p < buckets@[fi as int]@.len() && #[trigger] buckets@[fi as int]@[p] == a2;
                    assert(combinable(input@, mask, buckets@[fi as int]@[p] as int, b));
                }
            }
        }
        fi += 1;
    }
    proof {
        assert forall|a2: int, b: int| #[trigger] combinable(input@, mask, a2, b) implies sc[a2] + sc[b] <= max && best is Some by {
            lemma_bucket_bits(input@[a2].0, 0, mask);
        }
    }
    match best {
        Some((x, y)) => {
            proof {
                assert(combinable(input@, mask, x as int, y as int));
            }
            (input[x].1, input[y].1)
        },
        None => {
            proof {
                let (i, j) = choose|i: int, j: int| #[trigger] combinable(input@, low_mask(bits_split), i, j);
                assert(combinable(input@, mask, i, j));
            }
            (input[0].1, input[0].1)
        },
    }
}

/// What a traversal does with each state it reaches. `visit` records the
/// state and says whether to explore from it; a visitor accepts at most
/// `capacity` more states, which bounds every traversal.
pub trait Visitor<S> {
    /// The states handed to `visit` so far.
    spec fn seen(&self) -> Set<S>;

    /// The states `visit` has accepted so far.
    spec fn accepted(&self) -> Set<S>;

    /// How many more states `visit` can accept.
    spec fn capacity(&self) -> nat;

    /// The states handed to `visit` so far, in order.
    spec fn history(&self) -> Seq<S>;

    /// The answers `visit` gave so far, in order.
    spec fn answers(&self) -> Seq<bool>;

    fn visit(&mut self, state: S) -> (accept: bool)
        ensures
            final(self).history() == old(self).history().push(state),
            final(self).answers() == old(self).answers().push(accept),
            final(self).seen() == old(self).seen().insert(state),
            final(self).accepted() == (if accept {
                old(self).accepted().insert(state)
            } else {
                old(self).accepted()
            }),
            final(self).capacity() <= old(self).capacity(),
            accept ==> final(self).capacity() < old(self).capacity(),
    ;
}

/// `y` is among the states `neighbours` may give for `x`.
pub open spec fn neighbour_of<S, FN: Fn(S) -> Vec<S>>(neighbours: FN, x: S, y: S) -> bool {
    exists|ys: Vec<S>| #[trigger] call_ensures(neighbours, (x,), ys) && ys@.contains(y)
}

/// Every neighbour of every state in `done` has been handed to the visitor.
pub open spec fn neighbours_seen<S, FN: Fn(S) -> Vec<S>>(neighbours: FN, done: Set<S>, seen: Set<S>) -> bool {
    forall|x: S|
        #[trigger] done.contains(x) ==> exists|ys: Vec<S>|
            #[trigger] call_ensures(neighbours, (x,), ys) && forall|i: int|
                0 <= i < ys.len() ==> seen.contains(#[trigger] ys@[i])
}

/// Every state in `seen` but not in `before` is a neighbour of a state in
/// `from`.
pub open spec fn seen_from<S, FN: Fn(S) -> Vec<S>>(neighbours: FN, from: Set<S>, before: Set<S>, seen: Set<S>) -> bool {
    forall|y: S|
        #[trigger] seen.contains(y) && !before.contains(y) ==> exists|x: S|
            #[trigger] from.contains(x) && neighbour_of(neighbours, x, y)
}

/// The outcome of a traversal from `start`, between the visitor before and
/// after it: the visitor only gained states; the start and every state
/// first accepted during the traversal had all their neighbours visited;
/// and every newly seen state is a neighbour of the start or of an
/// accepted state.
pub open spec fn traversal_done<S, FN: Fn(S) -> Vec<S>>(
    neighbours: FN,
    start: S,
    seen_before: Set<S>,
    accepted_before: Set<S>,
    seen_after: Set<S>,
    accepted_after: Set<S>,
) -> bool {
    &&& seen_before.subset_of(seen_after)
    &&& accepted_before.subset_of(accepted_after)
    &&& neighbours_seen(neighbours, accepted_after.difference(accepted_before).insert(start), seen_after)
    &&& seen_from(neighbours, accepted_after.insert(start), seen_before, seen_after)
}

proof fn lemma_seen_from_grows<S, FN: Fn(S) -> Vec<S>>(
    neighbours: FN,
    small: Set<S>,
    large: Set<S>,
    before: Set<S>,
    seen: Set<S>,
)
    requires
        small.subset_of(large),
        seen_from(neighbours, small, before, seen),
    ensures
        seen_from(neighbours, large, before, seen),
{
    assert forall|y: S| #[trigger] seen.contains(y) && !before.contains(y) implies exists|x: S|
        #[trigger] large.contains(x) && neighbour_of(neighbours, x, y) by {
        let x = choose|x: S| #[trigger] small.contains(x) && neighbour_of(neighbours, x, y);
        assert(large.contains(x));
    }
}

proof fn lemma_neighbours_seen_grows<S, FN: Fn(S) -> Vec<S>>(
    neighbours: FN,
    done: Set<S>,
    small: Set<S>,
    large: Set<S>,
)
    requires
        small.subset_of(large),
        neighbours_seen(neighbours, done, small),
    ensures
        neighbours_seen(neighbours, done, large),
{
    assert forall|x: S| #[trigger] done.contains(x) implies exists|ys: Vec<S>|
        #[trigger] call_ensures(neighbours, (x,), ys) && forall|i: int|
            0 <= i < ys.len() ==> large.contains(#[trigger] ys@[i]) by {
        let ys = choose|ys: Vec<S>|
            #[trigger] call_ensures(neighbours, (x,), ys) && forall|i: int|
                0 <= i < ys.len() ==> small.contains(#[trigger] ys@[i]);
        assert forall|i: int| 0 <= i < ys.len() implies large.contains(#[trigger] ys@[i]) by {
            assert(small.contains(ys@[i]));
        }
    }
}

/// The items of `h` whose answer in `a` is `true`, in order.
pub open spec fn kept<S>(h: Seq<S>, a: Seq<bool>) -> Seq<S>
    decreases h.len(),
{
    if h.len() == 0 {
        Seq::empty()
    } else {
        kept(h.drop_last(), a.drop_last()) + if a.last() {
            seq![h.last()]
        } else {
            Seq::empty()
        }
    }
}

/// The sequences of `ys` one after the other.
pub open spec fn concat<S>(ys: Seq<Seq<S>>) -> Seq<S>
    decreases ys.len(),
{
    if ys.len() == 0 {
        Seq::empty()
    } else {
        concat(ys.drop_last()) + ys.last()
    }
}

/// `y` is what `neighbours` may give for `x`.
pub open spec fn gives<S, FN: Fn(S) -> Vec<S>>(neighbours: FN, x: S, y: Seq<S>) -> bool {
    exists|v: Vec<S>| #[trigger] call_ensures(neighbours, (x,), v) && v@ == y
}

/// `ys[i]` is what `neighbours` gave for `order[i]`, for every `i`.
pub open spec fn produced_by<S, FN: Fn(S) -> Vec<S>>(neighbours: FN, order: Seq<S>, ys: Seq<Seq<S>>) -> bool {
    &&& ys.len() == order.len()
    &&& forall|i: int| 0 <= i < ys.len() ==> #[trigger] gives(neighbours, order[i], ys[i])
}

proof fn lemma_kept_append<S>(h1: Seq<S>, a1: Seq<bool>, h2: Seq<S>, a2: Seq<bool>)
    requires
        h1.len() == a1.len(),
        h2.len() == a2.len(),
    ensures
        kept(h1 + h2, a1 + a2) == kept(h1, a1) + kept(h2, a2),
    decreases h2.len(),
{
    if h2.len() == 0 {
        assert(h1 + h2 =~= h1);
        assert(a1 + a2 =~= a1);
        assert(kept(h1, a1) + kept(h2, a2) =~= kept(h1, a1));
    } else {
        lemma_kept_append(h1, a1, h2.drop_last(), a2.drop_last());
        assert((h1 + h2).drop_last() =~= h1 + h2.drop_last());
        assert((a1 + a2).drop_last() =~= a1 + a2.drop_last());
        let tail = if a2.last() {
            seq![h2.last()]
        } else {
            Seq::empty()
        };
        assert(kept(h1 + h2, a1 + a2) == kept(h1 + h2.drop_last(), a1 + a2.drop_last()) + tail);
        assert(kept(h1, a1) + kept(h2, a2) =~= kept(h1, a1) + kept(h2.drop_last(), a2.drop_last()) + tail);
    }
}

proof fn lemma_kept_len<S>(h: Seq<S>, a: Seq<bool>)
    ensures
        kept(h, a).len() <= h.len(),
    decreases h.len(),
{
    if h.len() > 0 {
        lemma_kept_len(h.drop_last(), a.drop_last());
    }
}

/// Hands every neighbour of `from` to the visitor and returns those it
/// accepted, in order.
fn visit_neighbours<S: Copy, V: Visitor<S>, FN: Fn(S) -> Vec<S>>(
    from: S,
    neighbours: &FN,
    visitor: &mut V,
    Ghost(start): Ghost<S>,
    Ghost(seen0): Ghost<Set<S>>,
) -> (r: (Vec<S>, Ghost<Seq<S>>, Ghost<Seq<bool>>))
    requires
        call_requires(*neighbours, (from,)),
        old(visitor).accepted().insert(start).contains(from),
        seen_from(*neighbours, old(visitor).accepted().insert(start), seen0, old(visitor).seen()),
    ensures
        old(visitor).seen().subset_of(final(visitor).seen()),
        old(visitor).accepted().subset_of(final(visitor).accepted()),
        final(visitor).capacity() + r.0.len() <= old(visitor).capacity(),
        forall|i: int| 0 <= i < r.0.len() ==> final(visitor).accepted().contains(#[trigger] r.0@[i]),
        forall|x: S|
            #[trigger] final(visitor).accepted().contains(x) ==> old(visitor).accepted().contains(x)
                || r.0@.contains(x),
        exists|ys: Vec<S>|
            #[trigger] call_ensures(*neighbours, (from,), ys) && forall|i: int|
                0 <= i < ys.len() ==> final(visitor).seen().contains(#[trigger] ys@[i]),
        seen_from(*neighbours, final(visitor).accepted().insert(start), seen0, final(visitor).seen()),
        gives(*neighbours, from, r.1@),
        final(visitor).history() == old(visitor).history() + r.1@,
        final(visitor).answers() == old(visitor).answers() + r.2@,
        r.2@.len() == r.1@.len(),
        r.0@ == kept(r.1@, r.2@),
{
    let ys = neighbours(from);
    let mut next: Vec<S> = Vec::new();
    let ghost v0 = *visitor;
    let ghost mut an: Seq<bool> = Seq::empty();
    let mut j: usize = 0;
    while j < ys.len()
        invariant
            call_ensures(*neighbours, (from,), ys),
            j <= ys.len(),
            an.len() == j,
            visitor.history() == v0.history() + ys@.subrange(0, j as int),
            visitor.answers() == v0.answers() + an,
            next@ == kept(ys@.subrange(0, j as int), an),
            v0.seen().subset_of(visitor.seen()),
            v0.accepted().subset_of(visitor.accepted()),
            v0.accepted().insert(start).contains(from),
            visitor.capacity() + next.len() <= v0.capacity(),
            forall|i: int| 0 <= i < next.len() ==> visitor.accepted().contains(#[trigger] next@[i]),
            forall|x: S|
                #[trigger] visitor.accepted().contains(x) ==> v0.accepted().contains(x) || next@.contains(x),
            forall|i: int| 0 <= i < j ==> visitor.seen().contains(#[trigger] ys@[i]),
            seen_from(*neighbours, visitor.accepted().insert(start), seen0, visitor.seen()),
        decreases ys.len() - j,
    {
        let y = ys[j];
        let ghost before = *visitor;
        let ghost next0 = next@;
        let ghost an0 = an;
        let accept = visitor.visit(y);
        proof {
            an = an.push(accept);
            assert(ys@.subrange(0, j + 1) =~= ys@.subrange(0, j as int).push(y));
            assert(ys@.subrange(0, j + 1).drop_last() =~= ys@.subrange(0, j as int));
            assert(an.drop_last() =~= an0);
            assert(visitor.history() =~= v0.history() + ys@.subrange(0, j + 1));
            assert(visitor.answers() =~= v0.answers() + an);
            assert(ys@.contains(y)) by {
                assert(ys@[j as int] == y);
            }
            assert(neighbour_of(*neighbours, from, y));
            lemma_seen_from_grows(
                *neighbours,
                before.accepted().insert(start),
                visitor.accepted().insert(start),
                seen0,
                before.seen(),
            );
            let base = visitor.accepted().insert(start);
            assert forall|z: S|
                #[trigger] visitor.seen().contains(z) && !seen0.contains(z) implies exists|x: S|
                    #[trigger] base.contains(x) && neighbour_of(*neighbours, x, z) by {
                if z == y {
                    assert(base.contains(from));
                } else {
                    assert(before.seen().contains(z));
                }
            }
        }
        if accept {
            next.push(y);
            proof {
                assert forall|x: S|
                    #[trigger] visitor.accepted().contains(x) implies v0.accepted().contains(x)
                        || next@.contains(x) by {
                    if x == y {
                        assert(next@[next@.len() - 1] == y);
                    } else if !v0.accepted().contains(x) {
                        assert(before.accepted().contains(x));
                        let k = choose|k: int| 0 <= k < next0.len() && next0[k] == x;
                        assert(next@[k] == x);
                    }
                }
            }
        } else {
            proof {
                assert(next@ == next0);
            }
        }
        proof {
            assert(next@ =~= kept(ys@.subrange(0, j + 1), an));
        }
        j += 1;
    }
    proof {
        assert(ys@.subrange(0, ys.len() as int) =~= ys@);
    }
    (next, Ghost(ys@), Ghost(an))
}

/// The stack of a depth-first traversal from `start` once `i` states have
/// been explored: each explored state is taken from the top, and the states
/// the visitor accepted among its neighbours are pushed in their order.
pub open spec fn depth_first_stack<S>(start: S, ys: Seq<Seq<S>>, ans: Seq<bool>, i: int) -> Seq<S>
    decreases i,
{
    if i <= 0 {
        seq![start]
    } else {
        let off = concat(ys.take(i - 1)).len() as int;
        depth_first_stack(start, ys, ans, i - 1).drop_last() + kept(
            ys[i - 1],
            ans.subrange(off, off + ys[i - 1].len()),
        )
    }
}

/// The order of a depth-first traversal from `start`: `order` lists the
/// explored states, each the top of the stack when it was taken, until the
/// stack is empty; `ys` holds what `neighbours` gave for each, and `ans` the
/// visitor's answers to those states in turn.
pub open spec fn depth_first_order<S, FN: Fn(S) -> Vec<S>>(
    neighbours: FN,
    start: S,
    order: Seq<S>,
    ys: Seq<Seq<S>>,
    ans: Seq<bool>,
) -> bool {
    &&& ans.len() == concat(ys).len()
    &&& produced_by(neighbours, order, ys)
    &&& forall|i: int|
        0 <= i < order.len() ==> #[trigger] depth_first_stack(start, ys, ans, i).len() > 0 && order[i]
            == depth_first_stack(start, ys, ans, i).last()
    &&& depth_first_stack(start, ys, ans, order.len() as int).len() == 0
}

proof fn lemma_concat_take<S>(ys: Seq<Seq<S>>, k: int)
    requires
        0 <= k <= ys.len(),
    ensures
        concat(ys.take(k)).len() <= concat(ys).len(),
        k < ys.len() ==> concat(ys.take(k + 1)) == concat(ys.take(k)) + ys[k],
    decreases ys.len() - k,
{
    if k < ys.len() {
        assert(ys.take(k + 1).drop_last() =~= ys.take(k));
        lemma_concat_take(ys, k + 1);
    } else {
        assert(ys.take(k) =~= ys);
    }
}

proof fn lemma_stack_prefix<S>(start: S, ys: Seq<Seq<S>>, ans: Seq<bool>, y: Seq<S>, an: Seq<bool>, i: int)
    requires
        ans.len() == concat(ys).len(),
        0 <= i <= ys.len(),
    ensures
        depth_first_stack(start, ys.push(y), ans + an, i) == depth_first_stack(start, ys, ans, i),
    decreases i,
{
    if i > 0 {
        lemma_stack_prefix(start, ys, ans, y, an, i - 1);
        let ys1 = ys.push(y);
        assert(ys1.take(i - 1) =~= ys.take(i - 1));
        assert(ys1[i - 1] == ys[i - 1]);
        lemma_concat_take(ys, i - 1);
        lemma_concat_take(ys, i);
        let off = concat(ys.take(i - 1)).len() as int;
        assert((ans + an).subrange(off, off + ys[i - 1].len()) =~= ans.subrange(off, off + ys[i - 1].len()));
    }
}

proof fn lemma_stack_step<S>(start: S, ys: Seq<Seq<S>>, ans: Seq<bool>, y: Seq<S>, an: Seq<bool>)
    requires
        ans.len() == concat(ys).len(),
        an.len() == y.len(),
    ensures
        depth_first_stack(start, ys.push(y), ans + an, ys.len() as int + 1) == depth_first_stack(
            start,
            ys,
            ans,
            ys.len() as int,
        ).drop_last() + kept(y, an),
{
    let ys1 = ys.push(y);
    let c = ys.len() as int;
    lemma_stack_prefix(start, ys, ans, y, an, c);
    assert(ys1.take(c) =~= ys);
    let off = concat(ys1.take(c)).len() as int;
    assert(off == ans.len());
    assert((ans + an).subrange(off, off + y.len()) =~= an);
}

/// Depth-first traversal from `start`: every state taken from the stack has
/// its neighbours handed to `visitor`, and those it accepts are pushed.
pub fn depth_first_search<S: Copy, V: Visitor<S>, FN: Fn(S) -> Vec<S>>(
    start: S,
    neighbours: FN,
    visitor: &mut V,
)
    requires
        forall|x: S| #[trigger] call_requires(neighbours, (x,)),
    ensures
        traversal_done(
            neighbours,
            start,
            old(visitor).seen(),
            old(visitor).accepted(),
            final(visitor).seen(),
            final(visitor).accepted(),
        ),
        exists|order: Seq<S>, ys: Seq<Seq<S>>, ans: Seq<bool>|
            #[trigger] depth_first_order(neighbours, start, order, ys, ans) && final(visitor).history()
                == old(visitor).history() + concat(ys) && final(visitor).answers() == old(visitor).answers() + ans,
{
    let ghost h0 = visitor.history();
    let ghost n0 = visitor.answers();
    let ghost mut ysg: Seq<Seq<S>> = Seq::empty();
    let ghost mut ansg: Seq<bool> = Seq::empty();
    let ghost mut orderg: Seq<S> = Seq::empty();
    let ghost seen0 = visitor.seen();
    let ghost acc0 = visitor.accepted();
    let ghost mut done: Set<S> = Set::empty();
    let mut stack: Vec<S> = Vec::new();
    stack.push(start);
    proof {
        assert(stack@[0] == start);
        assert(visitor.history() =~= h0 + concat(ysg));
        assert(visitor.answers() =~= n0 + ansg);
        assert(stack@ =~= depth_first_stack(start, ysg, ansg, 0));
    }
    while stack.len() > 0
        invariant
            visitor.history() == h0 + concat(ysg),
            visitor.answers() == n0 + ansg,
            ansg.len() == concat(ysg).len(),
            orderg.len() == ysg.len(),
            produced_by(neighbours, orderg, ysg),
            stack@ == depth_first_stack(start, ysg, ansg, ysg.len() as int),
            forall|i: int|
                0 <= i < orderg.len() ==> #[trigger] depth_first_stack(start, ysg, ansg, i).len() > 0 && orderg[i]
                    == depth_first_stack(start, ysg, ansg, i).last(),
            forall|x: S| #[trigger] call_requires(neighbours, (x,)),
            seen0.subset_of(visitor.seen()),
            acc0.subset_of(visitor.accepted()),
            done.subset_of(visitor.accepted().insert(start)),
            forall|i: int| 0 <= i < stack.len() ==> visitor.accepted().insert(start).contains(#[trigger] stack@[i]),
            forall|x: S|
                #[trigger] visitor.accepted().difference(acc0).insert(start).contains(x) ==> done.contains(x)
                    || stack@.contains(x),
            neighbours_seen(neighbours, done, visitor.seen()),
            seen_from(neighbours, visitor.accepted().insert(start), seen0, visitor.seen()),
        decreases visitor.capacity() + stack.len(),
    {
        let ghost s_before = stack@;
        let from = stack.pop().unwrap();
        let ghost stack0 = stack@;
        let ghost v0 = *visitor;
        proof {
            assert(s_before == stack0.push(from));
            assert(s_before[stack0.len() as int] == from);
        }
        let (next, ys_g, an_g) = visit_neighbours(from, &neighbours, visitor, Ghost(start), Ghost(seen0));
        let mut k: usize = 0;
        while k < next.len()
            invariant
                k <= next.len(),
                stack@ == stack0 + next@.subrange(0, k as int),
            decreases next.len() - k,
        {
            stack.push(next[k]);
            proof {
                assert(stack@ == stack0 + next@.subrange(0, k + 1));
            }
            k += 1;
        }
        proof {
            assert(next@.subrange(0, next.len() as int) == next@);
            assert(stack@ == stack0 + next@);
            assert forall|i: int| 0 <= i < stack.len() implies visitor.accepted().insert(start).contains(
                #[trigger] stack@[i],
            ) by {
                if i < stack0.len() {
                    assert(stack@[i] == s_before[i]);
                } else {
                    assert(stack@[i] == next@[i - stack0.len()]);
                }
            }
            let e = visitor.accepted().difference(acc0).insert(start);
            assert forall|x: S| #[trigger] e.contains(x) implies done.insert(from).contains(x) || stack@.contains(
                x,
            ) by {
                if next@.contains(x) {
                    let i = choose|i: int| 0 <= i < next.len() && next@[i] == x;
                    assert(stack@[stack0.len() + i] == x);
                } else if x != from {
                    assert(v0.accepted().difference(acc0).insert(start).contains(x));
                    if !done.contains(x) {
                        let i = choose|i: int| 0 <= i < s_before.len() && s_before[i] == x;
                        assert(i < stack0.len());
                        assert(stack@[i] == x);
                    }
                }
            }
            lemma_neighbours_seen_grows(neighbours, done, v0.seen(), visitor.seen());
            done = done.insert(from);
            let c = ysg.len() as int;
            let y = ys_g@;
            let an = an_g@;
            let ys1 = ysg.push(y);
            let ans1 = ansg + an;
            let order1 = orderg.push(from);
            assert(ys1.drop_last() =~= ysg);
            assert(concat(ys1) == concat(ysg) + y);
            assert(visitor.history() =~= h0 + concat(ys1));
            assert(visitor.answers() =~= n0 + ans1);
            lemma_stack_step(start, ysg, ansg, y, an);
            assert(stack@ =~= depth_first_stack(start, ys1, ans1, c + 1));
            assert forall|i: int| 0 <= i < ys1.len() implies #[trigger] gives(neighbours, order1[i], ys1[i]) by {
                if i < c {
                    assert(gives(neighbours, orderg[i], ysg[i]));
                }
            }
            assert forall|i: int|
                0 <= i < order1.len() implies #[trigger] depth_first_stack(start, ys1, ans1, i).len() > 0
                && order1[i] == depth_first_stack(start, ys1, ans1, i).last() by {
                lemma_stack_prefix(start, ysg, ansg, y, an, i);
                if i < c {
                    assert(depth_first_stack(start, ysg, ansg, i).len() > 0);
                }
            }
            ysg = ys1;
            ansg = ans1;
            orderg = order1;
        }
    }
    proof {
        assert(depth_first_order(neighbours, start, orderg, ysg, ansg));
    }
}

/// The order of a breadth-first traversal from `start`: the states are
/// explored first come, first served, the start and then every accepted
/// state in the order of acceptance; `ys` holds what `neighbours` gave for
/// each, and `ans` the visitor's answers to those states in turn.
pub open spec fn breadth_first_order<S, FN: Fn(S) -> Vec<S>>(
    neighbours: FN,
    start: S,
    ys: Seq<Seq<S>>,
    ans: Seq<bool>,
) -> bool {
    &&& ans.len() == concat(ys).len()
    &&& produced_by(neighbours, seq![start] + kept(concat(ys), ans), ys)
}

/// Breadth-first traversal from `start`: every state taken from the front
/// of the queue has its neighbours handed to `visitor`, and those it accepts
/// join the back.
pub fn breadth_first_search<S: Copy, V: Visitor<S>, FN: Fn(S) -> Vec<S>>(
    start: S,
    neighbours: FN,
    visitor: &mut V,
)
    requires
        forall|x: S| #[trigger] call_requires(neighbours, (x,)),
    ensures
        traversal_done(
            neighbours,
            start,
            old(visitor).seen(),
            old(visitor).accepted(),
            final(visitor).seen(),
            final(visitor).accepted(),
        ),
        exists|ys: Seq<Seq<S>>, ans: Seq<bool>|
            #[trigger] breadth_first_order(neighbours, start, ys, ans) && final(visitor).history()
                == old(visitor).history() + concat(ys) && final(visitor).answers() == old(visitor).answers() + ans,
{
    let ghost h0 = visitor.history();
    let ghost n0 = visitor.answers();
    let ghost mut ysg: Seq<Seq<S>> = Seq::empty();
    let ghost mut ansg: Seq<bool> = Seq::empty();
    let ghost seen0 = visitor.seen();
    let ghost acc0 = visitor.accepted();
    let ghost mut done: Set<S> = Set::empty();
    let mut queue: VecDeque<S> = VecDeque::new();
    queue.push_back(start);
    proof {
        assert(queue@[0] == start);
        assert(visitor.history() =~= h0 + concat(ysg));
        assert(visitor.answers() =~= n0 + ansg);
        assert(queue@ =~= (seq![start] + kept(concat(ysg), ansg)).subrange(0, 1));
    }
    while queue.len() > 0
        invariant
            visitor.history() == h0 + concat(ysg),
            visitor.answers() == n0 + ansg,
            ansg.len() == concat(ysg).len(),
            ysg.len() + queue@.len() == (seq![start] + kept(concat(ysg), ansg)).len(),
            queue@ == (seq![start] + kept(concat(ysg), ansg)).subrange(
                ysg.len() as int,
                (seq![start] + kept(concat(ysg), ansg)).len() as int,
            ),
            produced_by(neighbours, (seq![start] + kept(concat(ysg), ansg)).subrange(0, ysg.len() as int), ysg),
            forall|x: S| #[trigger] call_requires(neighbours, (x,)),
            seen0.subset_of(visitor.seen()),
            acc0.subset_of(visitor.accepted()),
            done.subset_of(visitor.accepted().insert(start)),
            forall|i: int| 0 <= i < queue@.len() ==> visitor.accepted().insert(start).contains(#[trigger] queue@[i]),
            forall|x: S|
                #[trigger] visitor.accepted().difference(acc0).insert(start).contains(x) ==> done.contains(x)
                    || queue@.contains(x),
            neighbours_seen(neighbours, done, visitor.seen()),
            seen_from(neighbours, visitor.accepted().insert(start), seen0, visitor.seen()),
        decreases visitor.capacity() + queue@.len(),
    {
        let ghost q_before = queue@;
        let ghost e0 = seq![start] + kept(concat(ysg), ansg);
        let ghost c: int = ysg.len() as int;
        let from = queue.pop_front().unwrap();
        let ghost queue0 = queue@;
        let ghost v0 = *visitor;
        proof {
            assert(q_before[0] == from);
            assert(q_before.contains(from));
        }
        let (next, ys_g, an_g) = visit_neighbours(from, &neighbours, visitor, Ghost(start), Ghost(seen0));
        let mut k: usize = 0;
        while k < next.len()
            invariant
                k <= next.len(),
                queue@ == queue0 + next@.subrange(0, k as int),
            decreases next.len() - k,
        {
            queue.push_back(next[k]);
            proof {
                assert(queue@ == queue0 + next@.subrange(0, k + 1));
            }
            k += 1;
        }
        proof {
            assert(next@.subrange(0, next.len() as int) == next@);
            assert(queue@ == queue0 + next@);
            assert forall|i: int| 0 <= i < queue@.len() implies visitor.accepted().insert(start).contains(
                #[trigger] queue@[i],
            ) by {
                if i < queue0.len() {
                    assert(queue@[i] == q_before[i + 1]);
                } else {
                    assert(queue@[i] == next@[i - queue0.len()]);
                }
            }
            let e = visitor.accepted().difference(acc0).insert(start);
            assert forall|x: S| #[trigger] e.contains(x) implies done.insert(from).contains(x) || queue@.contains(
                x,
            ) by {
                if next@.contains(x) {
                    let i = choose|i: int| 0 <= i < next.len() && next@[i] == x;
                    assert(queue@[queue0.len() + i] == x);
                } else if x != from {
                    assert(v0.accepted().difference(acc0).insert(start).contains(x));
                    if !done.contains(x) {
                        let i = choose|i: int| 0 <= i < q_before.len() && q_before[i] == x;
                        assert(i > 0);
                        assert(queue@[i - 1] == x);
                    }
                }
            }
            lemma_neighbours_seen_grows(neighbours, done, v0.seen(), visitor.seen());
            done = done.insert(from);
            assert(from == e0[c]);
            let y = ys_g@;
            let an = an_g@;
            let ys1 = ysg.push(y);
            let ans1 = ansg + an;
            assert(ys1.drop_last() =~= ysg);
            assert(concat(ys1) == concat(ysg) + y);
            lemma_kept_append(concat(ysg), ansg, y, an);
            let e1 = seq![start] + kept(concat(ys1), ans1);
            assert(e1 =~= e0 + next@);
            assert(visitor.history() =~= h0 + concat(ys1));
            assert(visitor.answers() =~= n0 + ans1);
            assert(queue0 =~= e0.subrange(c + 1, e0.len() as int));
            assert(queue@ =~= e1.subrange(c + 1, e1.len() as int));
            assert forall|i: int| 0 <= i < ys1.len() implies #[trigger] gives(
                neighbours,
                e1.subrange(0, c + 1)[i],
                ys1[i],
            ) by {
                if i < c {
                    assert(e1.subrange(0, c + 1)[i] == e0.subrange(0, c)[i]);
                    assert(ys1[i] == ysg[i]);
                    assert(gives(neighbours, e0.subrange(0, c)[i], ysg[i]));
                } else {
                    assert(e1.subrange(0, c + 1)[i] == from);
                    assert(ys1[i] == y);
                }
            }
            ysg = ys1;
            ansg = ans1;
        }
    }
    proof {
        let e = seq![start] + kept(concat(ysg), ansg);
        assert(e.subrange(0, ysg.len() as int) =~= e);
        assert(breadth_first_order(neighbours, start, ysg, ansg));
    }
}

/// How many of the flags are unset.
pub open spec fn count_unset(marks: Seq<bool>) -> nat
    decreases marks.len(),
{
    if marks.len() == 0 {
        0
    } else {
        count_unset(marks.drop_last()) + if marks.last() {
            0nat
        } else {
            1nat
        }
    }
}

pub proof fn lemma_count_unset_set(marks: Seq<bool>, i: int)
    requires
        0 <= i < marks.len(),
        !marks[i],
    ensures
        count_unset(marks.update(i, true)) + 1 == count_unset(marks),
    decreases marks.len(),
{
    let m2 = marks.update(i, true);
    if i == marks.len() - 1 {
        assert(m2.drop_last() == marks.drop_last());
    } else {
        lemma_count_unset_set(marks.drop_last(), i);
        assert(m2.drop_last() == marks.drop_last().update(i, true));
    }
}

/// A visitor over the states `0..len` that accepts each of them once, the
/// first time it is handed over, and nothing else.
pub struct VisitedSet {
    marks: Vec<bool>,
    seen: Ghost<Set<usize>>,
    history: Ghost<Seq<usize>>,
    answers: Ghost<Seq<bool>>,
}

impl VisitedSet {
    /// The states it accepts.
    pub closed spec fn len(&self) -> nat {
        self.marks.len() as nat
    }

    /// Nothing seen or accepted yet, over the states `0..len`.
    pub fn new(len: usize) -> (r: Self)
        ensures
            r.len() == len,
            r.seen() == Set::<usize>::empty(),
            r.accepted() == Set::<usize>::empty(),
            r.capacity() == len,
            r.history() == Seq::<usize>::empty(),
            r.answers() == Seq::<bool>::empty(),
    {
        let mut marks: Vec<bool> = Vec::new();
        let mut k: usize = 0;
        while k < len
            invariant
                k <= len,
                marks@ == Seq::new(k as nat, |i: int| false),
                count_unset(marks@) == k,
            decreases len - k,
        {
            proof {
                assert(marks@.push(false).drop_last() == marks@);
            }
            marks.push(false);
            k += 1;
        }
        let r = VisitedSet {
            marks,
            seen: Ghost(Set::empty()),
            history: Ghost(Seq::empty()),
            answers: Ghost(Seq::empty()),
        };
        proof {
            assert(r.accepted() == Set::<usize>::empty());
        }
        r
    }

    /// Whether `state` has been accepted.
    pub fn is_visited(&self, state: usize) -> (r: bool)
        ensures
            r == self.accepted().contains(state),
    {
        state < self.marks.len() && self.marks[state]
    }
}

impl Visitor<usize> for VisitedSet {
    closed spec fn seen(&self) -> Set<usize> {
        self.seen@
    }

    closed spec fn accepted(&self) -> Set<usize> {
        Set::new(|i: usize| i < self.marks.len() && self.marks@[i as int])
    }

    closed spec fn capacity(&self) -> nat {
        count_unset(self.marks@)
    }

    closed spec fn history(&self) -> Seq<usize> {
        self.history@
    }

    closed spec fn answers(&self) -> Seq<bool> {
        self.answers@
    }

    fn visit(&mut self, state: usize) -> (accept: bool)
        ensures
            accept == (state < old(self).len() && !old(self).accepted().contains(state)),
            final(self).len() == old(self).len(),
    {
        let ghost m0 = self.marks@;
        let accept = state < self.marks.len() && !self.marks[state];
        self.seen = Ghost(self.seen@.insert(state));
        self.history = Ghost(self.history@.push(state));
        self.answers = Ghost(self.answers@.push(accept));
        if accept {
            proof {
                lemma_count_unset_set(m0, state as int);
            }
            self.marks.set(state, true);
            proof {
                assert(Set::new(|i: usize| i < self.marks.len() && self.marks@[i as int]) == Set::new(
                    |i: usize| i < m0.len() && m0[i as int],
                ).insert(state));
            }
        }
        accept
    }
}

} // verus!

