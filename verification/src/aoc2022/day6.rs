//! Tuning trouble: the first place in a signal where the last few letters
//! are all different.
use vstd::multiset::Multiset;
use vstd::prelude::*;

verus! {

/// The letters of the signal, `a` as 0 up to `z` as 25; other bytes are
/// left out.
pub open spec fn signal_letters(s: Seq<u8>) -> Seq<u8>
    decreases s.len(),
{
    if s.len() == 0 {
        Seq::empty()
    } else if 97 <= s.last() <= 122 {
        signal_letters(s.drop_last()).push((s.last() - 97) as u8)
    } else {
        signal_letters(s.drop_last())
    }
}

/// The letters of the signal.
pub fn parse_input(input: &[u8]) -> (r: Vec<u8>)
    ensures
        r@ == signal_letters(input@),
{
    let mut out: Vec<u8> = Vec::new();
    let mut i: usize = 0;
    while i < input.len()
        invariant
            i <= input.len(),
            out@ == signal_letters(input@.subrange(0, i as int)),
        decreases input.len() - i,
    {
        proof {
            assert(input@.subrange(0, i + 1).drop_last() =~= input@.subrange(0, i as int));
        }
        let b = input[i];
        if b >= 97 && b <= 122 {
            out.push(b - 97);
        }
        i += 1;
    }
    proof {
        assert(input@.subrange(0, input.len() as int) =~= input@);
    }
    out
}

/// The `size` letters before `p` are all different.
pub open spec fn marker_at(input: Seq<u8>, size: int, p: int) -> bool {
    size <= p <= input.len() && input.subrange(p - size, p).no_duplicates()
}

/// Bit `b` of `m`.
pub open spec fn bit(m: u32, b: int) -> bool {
    (m >> (b as u32)) & 1 == 1
}

/// The number of set bits among the lowest `k` of `m`.
pub open spec fn ones(m: u32, k: int) -> int
    decreases k,
{
    if k <= 0 {
        0
    } else {
        ones(m, k - 1) + if bit(m, k - 1) {
            1int
        } else {
            0
        }
    }
}

/// How many of the first `k` letters occur an odd number of times.
spec fn odd_letters(w: Multiset<u8>, k: int) -> int
    decreases k,
{
    if k <= 0 {
        0
    } else {
        odd_letters(w, k - 1) + if w.count((k - 1) as u8) % 2 == 1 {
            1int
        } else {
            0
        }
    }
}

/// How many times the first `k` letters occur in all.
spec fn letter_total(w: Multiset<u8>, k: int) -> int
    decreases k,
{
    if k <= 0 {
        0
    } else {
        letter_total(w, k - 1) + w.count((k - 1) as u8)
    }
}

proof fn lemma_toggle_bit(m: u32, v: u8, b: u32)
    requires
        v < 32,
        b < 32,
    ensures
        bit(m ^ (1u32 << (v as u32)), b as int) == (bit(m, b as int) != (b == v as u32)),
{
    let vv = v as u32;
    assert((((m ^ (1u32 << vv)) >> b) & 1 == 1) == (((m >> b) & 1 == 1) != (b == vv))) by (bit_vector)
        requires
            vv < 32,
            b < 32;
}

proof fn lemma_ones_match(m: u32, w: Multiset<u8>, k: int)
    requires
        0 <= k <= 32,
        forall|b: int| 0 <= b < 32 ==> (#[trigger] bit(m, b) <==> w.count(b as u8) % 2 == 1),
    ensures
        ones(m, k) == odd_letters(w, k),
    decreases k,
{
    if k > 0 {
        lemma_ones_match(m, w, k - 1);
        assert(bit(m, k - 1) <==> w.count((k - 1) as u8) % 2 == 1);
    }
}

proof fn lemma_odd_le_total(w: Multiset<u8>, k: int)
    requires
        0 <= k,
    ensures
        odd_letters(w, k) <= letter_total(w, k),
        odd_letters(w, k) == letter_total(w, k) <==> forall|b: int| 0 <= b < k ==> #[trigger] w.count(b as u8) <= 1,
    decreases k,
{
    if k > 0 {
        lemma_odd_le_total(w, k - 1);
        let c = w.count((k - 1) as u8);
        if c > 1 {
            assert(!(forall|b: int| 0 <= b < k ==> #[trigger] w.count(b as u8) <= 1)) by {
                assert(w.count((k - 1) as u8) > 1);
            }
        }
    }
}

proof fn lemma_total_of_letters(s: Seq<u8>, k: int)
    requires
        0 <= k <= 256,
        forall|i: int| 0 <= i < s.len() ==> #[trigger] s[i] < k,
    ensures
        letter_total(s.to_multiset(), k) == s.len(),
    decreases s.len(),
{
    broadcast use vstd::seq_lib::group_to_multiset_ensures;

    if s.len() == 0 {
        lemma_total_zero(s.to_multiset(), k);
    } else {
        let t = s.drop_last();
        let v = s.last();
        assert(t.push(v) =~= s);
        lemma_total_of_letters(t, k);
        lemma_total_insert(t.to_multiset(), v, k);
    }
}

proof fn lemma_total_zero(w: Multiset<u8>, k: int)
    requires
        w.len() == 0,
    ensures
        letter_total(w, k) == 0,
    decreases k,
{
    broadcast use vstd::multiset::group_multiset_axioms;

    if k > 0 {
        lemma_total_zero(w, k - 1);
        assert(w =~= Multiset::empty());
    }
}

proof fn lemma_total_insert(w: Multiset<u8>, v: u8, k: int)
    requires
        0 <= k <= 256,
    ensures
        letter_total(w.insert(v), k) == letter_total(w, k) + if v < k {
            1int
        } else {
            0
        },
    decreases k,
{
    broadcast use vstd::multiset::group_multiset_axioms;

    if k > 0 {
        lemma_total_insert(w, v, k - 1);
    }
}

proof fn lemma_distinct_iff(s: Seq<u8>)
    requires
        forall|i: int| 0 <= i < s.len() ==> #[trigger] s[i] < 32,
    ensures
        s.no_duplicates() <==> odd_letters(s.to_multiset(), 32) == s.len(),
{
    broadcast use vstd::multiset::group_multiset_axioms;
    broadcast use vstd::seq_lib::group_to_multiset_ensures;

    let w = s.to_multiset();
    lemma_total_of_letters(s, 32);
    lemma_odd_le_total(w, 32);
    if s.no_duplicates() {
        s.lemma_multiset_has_no_duplicates();
        assert forall|b: int| 0 <= b < 32 implies #[trigger] w.count(b as u8) <= 1 by {
            if w.count(b as u8) > 0 {
                assert(w.contains(b as u8));
            }
        }
    }
    if odd_letters(w, 32) == s.len() {
        assert forall|x: u8| w.contains(x) implies w.count(x) == 1 by {
            if x >= 32 {
                assert(s.contains(x));
                let i = choose|i: int| 0 <= i < s.len() && s[i] == x;
                assert(s[i] < 32);
            } else {
                assert(w.count(x as int as u8) <= 1);
            }
        }
        s.lemma_multiset_has_no_duplicates_conv();
    }
}

/// The number of letters read when, for the first time, the last `size` of
/// them were all different; `None` when that never happens. The letters
/// must be below 32.
pub fn find(input: &[u8], size: u32) -> (r: Option<u32>)
    requires
        input.len() <= u32::MAX,
        forall|i: int| 0 <= i < input.len() ==> #[trigger] input[i] < 32,
    ensures
        r matches Some(p) ==> marker_at(input@, size as int, p as int) && forall|q: int|
            0 <= q < p ==> !#[trigger] marker_at(input@, size as int, q),
        r is None ==> forall|q: int| !#[trigger] marker_at(input@, size as int, q),
{
    broadcast use vstd::seq_lib::group_to_multiset_ensures;
    broadcast use vstd::multiset::group_multiset_axioms;

    let mut mask: u32 = 0;
    let mut start: usize = 0;
    let mut end: usize = 0;
    proof {
        assert forall|b: int| 0 <= b < 32 implies !#[trigger] bit(0u32, b) by {
            let bb = b as u32;
            assert((0u32 >> bb) & 1 == 0) by (bit_vector);
        }
        assert(input@.subrange(0, 0) =~= Seq::<u8>::empty());
    }
    while end < size as usize
        invariant
            input.len() <= u32::MAX,
            forall|i: int| 0 <= i < input.len() ==> #[trigger] input[i] < 32,
            start == 0,
            end <= size,
            end <= input.len(),
            forall|b: int|
                0 <= b < 32 ==> (#[trigger] bit(mask, b) <==> input@.subrange(0, end as int).to_multiset().count(
                    b as u8,
                ) % 2 == 1),
        decreases size - end,
    {
        if end >= input.len() {
            return None;
        }
        let v = input[end];
        let ghost m0 = mask;
        mask = mask ^ (1u32 << (v as u32));
        proof {
            assert(input@.subrange(0, end + 1) =~= input@.subrange(0, end as int).push(v));
            assert forall|b: int| 0 <= b < 32 implies (#[trigger] bit(mask, b) <==> input@.subrange(
                0,
                end + 1,
            ).to_multiset().count(b as u8) % 2 == 1) by {
                lemma_toggle_bit(m0, v, b as u32);
                let w0 = input@.subrange(0, end as int);
                vstd::seq_lib::to_multiset_build(w0, v);
                assert(w0.push(v).to_multiset().count(b as u8) == w0.to_multiset().count(b as u8) + if v == b as u8 {
                    1int
                } else {
                    0
                });
                assert((b as u32 == v as u32) == (v == b as u8));
            }
        }
        end += 1;
    }
    proof {
        assert forall|q: int| 0 <= q < end implies !#[trigger] marker_at(input@, size as int, q) by {}
    }
    loop
        invariant
            input.len() <= u32::MAX,
            forall|i: int| 0 <= i < input.len() ==> #[trigger] input[i] < 32,
            start <= end <= input.len(),
            end - start == size,
            forall|b: int|
                0 <= b < 32 ==> (#[trigger] bit(mask, b) <==> input@.subrange(start as int, end as int).to_multiset().count(
                    b as u8,
                ) % 2 == 1),
            forall|q: int| 0 <= q < end ==> !#[trigger] marker_at(input@, size as int, q),
        decreases input.len() - end,
    {
        let ones_now = count_ones(mask);
        let ghost window = input@.subrange(start as int, end as int);
        proof {
            lemma_ones_match(mask, window.to_multiset(), 32);
            lemma_distinct_iff(window);
        }
        if ones_now == size {
            return Some(end as u32);
        }
        if end >= input.len() {
            proof {
                assert forall|q: int| !#[trigger] marker_at(input@, size as int, q) by {
                    if q == end {
                        assert(!window.no_duplicates());
                    }
                }
            }
            return None;
        }
        let v_end = input[end];
        let v_start = input[start];
        let ghost m0 = mask;
        mask = mask ^ (1u32 << (v_end as u32));
        let ghost m1 = mask;
        mask = mask ^ (1u32 << (v_start as u32));
        proof {
            let w1 = input@.subrange(start as int, end + 1);
            let w2 = input@.subrange(start + 1, end + 1);
            assert(w1 =~= window.push(v_end));
            vstd::seq_lib::to_multiset_build(window, v_end);
            assert(w1 =~= seq![v_start] + w2);
            vstd::seq_lib::lemma_multiset_commutative(seq![v_start], w2);
            assert(seq![v_start] =~= Seq::<u8>::empty().push(v_start));
            vstd::seq_lib::to_multiset_build(Seq::<u8>::empty(), v_start);
            Seq::<u8>::empty().to_multiset_ensures();
            assert(Seq::<u8>::empty().to_multiset() =~= Multiset::empty());
            assert forall|b: int| 0 <= b < 32 implies (#[trigger] bit(mask, b) <==> w2.to_multiset().count(b as u8) % 2
                == 1) by {
                lemma_toggle_bit(m0, v_end, b as u32);
                lemma_toggle_bit(m1, v_start, b as u32);
                assert(w1.to_multiset().count(b as u8) == window.to_multiset().count(b as u8) + if v_end == b as u8 {
                    1int
                } else {
                    0
                });
                assert(w1.to_multiset().count(b as u8) == w2.to_multiset().count(b as u8) + if v_start == b as u8 {
                    1int
                } else {
                    0
                });
                assert((b as u32 == v_end as u32) == (v_end == b as u8));
                assert((b as u32 == v_start as u32) == (v_start == b as u8));
            }
            assert forall|q: int| 0 <= q < end + 1 implies !#[trigger] marker_at(input@, size as int, q) by {
                if q == end {
                    assert(!window.no_duplicates());
                }
            }
        }
        end += 1;
        start += 1;
    }
}

/// The number of set bits of `m`.
fn count_ones(m: u32) -> (r: u32)
    ensures
        r == ones(m, 32),
{
    let mut c: u32 = 0;
    let mut b: u32 = 0;
    while b < 32
        invariant
            b <= 32,
            c == ones(m, b as int),
            c <= b,
        decreases 32 - b,
    {
        if (m >> b) & 1 == 1 {
            c += 1;
        }
        b += 1;
    }
    c
}

/// Where the start-of-packet marker ends: four different letters.
pub fn calculate_part1(input: &[u8]) -> (r: Option<u32>)
    requires
        input.len() <= u32::MAX,
        forall|i: int| 0 <= i < input.len() ==> #[trigger] input[i] < 32,
    ensures
        r matches Some(p) ==> marker_at(input@, 4, p as int) && forall|q: int|
            0 <= q < p ==> !#[trigger] marker_at(input@, 4, q),
        r is None ==> forall|q: int| !#[trigger] marker_at(input@, 4, q),
{
    find(input, 4)
}

/// Where the start-of-message marker ends: fourteen different letters.
pub fn calculate_part2(input: &[u8]) -> (r: Option<u32>)
    requires
        input.len() <= u32::MAX,
        forall|i: int| 0 <= i < input.len() ==> #[trigger] input[i] < 32,
    ensures
        r matches Some(p) ==> marker_at(input@, 14, p as int) && forall|q: int|
            0 <= q < p ==> !#[trigger] marker_at(input@, 14, q),
        r is None ==> forall|q: int| !#[trigger] marker_at(input@, 14, q),
{
    find(input, 14)
}

} // verus!
