//! Sorting numbers and triples of numbers.
use vstd::prelude::*;

verus! {

/// The lexicographic order of triples.
pub open spec fn lex_le(a: (u64, usize, usize), b: (u64, usize, usize)) -> bool {
    a.0 < b.0 || (a.0 == b.0 && (a.1 < b.1 || (a.1 == b.1 && a.2 <= b.2)))
}

/// The triples come in lexicographic order.
pub open spec fn sorted_lex(s: Seq<(u64, usize, usize)>) -> bool {
    forall|i: int, j: int| 0 <= i <= j < s.len() ==> lex_le(#[trigger] s[i], #[trigger] s[j])
}

fn le(a: (u64, usize, usize), b: (u64, usize, usize)) -> (r: bool)
    ensures
        r == lex_le(a, b),
{
    a.0 < b.0 || (a.0 == b.0 && (a.1 < b.1 || (a.1 == b.1 && a.2 <= b.2)))
}

/// The triples in lexicographic order: the same triples, as often each.
pub fn sort_triples(items: &[(u64, usize, usize)]) -> (r: Vec<(u64, usize, usize)>)
    ensures
        sorted_lex(r@),
        r@.to_multiset() == items@.to_multiset(),
{
    broadcast use vstd::seq_lib::group_to_multiset_ensures;

    let mut out: Vec<(u64, usize, usize)> = Vec::new();
    let mut i: usize = 0;
    proof {
        assert(items@.subrange(0, 0) =~= Seq::<(u64, usize, usize)>::empty());
        assert(out@ =~= Seq::<(u64, usize, usize)>::empty());
    }
    while i < items.len()
        invariant
            i <= items.len(),
            sorted_lex(out@),
            out@.to_multiset() == items@.subrange(0, i as int).to_multiset(),
        decreases items.len() - i,
    {
        let x = items[i];
        let mut p: usize = 0;
        while p < out.len() && le(out[p], x)
            invariant
                p <= out.len(),
                forall|k: int| 0 <= k < p ==> lex_le(#[trigger] out@[k], x),
            decreases out.len() - p,
        {
            p += 1;
        }
        let ghost before = out@;
        out.insert(p, x);
        proof {
            assert(out@ == before.insert(p as int, x));
            vstd::seq_lib::to_multiset_insert(before, p as int, x);
            assert(items@.subrange(0, i + 1) =~= items@.subrange(0, i as int).push(x));
            vstd::seq_lib::to_multiset_build(items@.subrange(0, i as int), x);
            assert forall|a: int, b: int| 0 <= a <= b < out@.len() implies lex_le(#[trigger] out@[a], #[trigger] out@[b]) by {
                if a < p && b < p {
                    assert(out@[a] == before[a] && out@[b] == before[b]);
                } else if a < p && b == p {
                    assert(out@[a] == before[a]);
                } else if a < p {
                    assert(out@[a] == before[a] && out@[b] == before[b - 1]);
                } else if a == p && b > p {
                    assert(out@[b] == before[b - 1]);
                    assert(!lex_le(before[p as int], x));
                    assert(lex_le(before[p as int], before[b - 1]));
                } else if a > p {
                    assert(out@[a] == before[a - 1] && out@[b] == before[b - 1]);
                }
            }
        }
        i += 1;
    }
    proof {
        assert(items@.subrange(0, items.len() as int) =~= items@);
    }
    out
}

/// The numbers come in increasing order.
pub open spec fn sorted_values(s: Seq<i64>) -> bool {
    forall|i: int, j: int| 0 <= i <= j < s.len() ==> #[trigger] s[i] <= #[trigger] s[j]
}

/// The numbers in increasing order: the same numbers, as often each.
pub fn sort_values(items: &[i64]) -> (r: Vec<i64>)
    ensures
        sorted_values(r@),
        r@.to_multiset() == items@.to_multiset(),
{
    broadcast use vstd::seq_lib::group_to_multiset_ensures;

    let mut out: Vec<i64> = Vec::new();
    let mut i: usize = 0;
    proof {
        assert(items@.subrange(0, 0) =~= Seq::<i64>::empty());
        assert(out@ =~= Seq::<i64>::empty());
    }
    while i < items.len()
        invariant
            i <= items.len(),
            sorted_values(out@),
            out@.to_multiset() == items@.subrange(0, i as int).to_multiset(),
        decreases items.len() - i,
    {
        let x = items[i];
        let mut p: usize = 0;
        while p < out.len() && out[p] <= x
            invariant
                p <= out.len(),
                forall|k: int| 0 <= k < p ==> #[trigger] out@[k] <= x,
            decreases out.len() - p,
        {
            p += 1;
        }
        let ghost before = out@;
        out.insert(p, x);
        proof {
            assert(out@ == before.insert(p as int, x));
            vstd::seq_lib::to_multiset_insert(before, p as int, x);
            assert(items@.subrange(0, i + 1) =~= items@.subrange(0, i as int).push(x));
            vstd::seq_lib::to_multiset_build(items@.subrange(0, i as int), x);
            assert forall|a: int, b: int| 0 <= a <= b < out@.len() implies #[trigger] out@[a] <= #[trigger] out@[b] by {
                if a < p && b < p {
                    assert(out@[a] == before[a] && out@[b] == before[b]);
                } else if a < p && b == p {
                    assert(out@[a] == before[a]);
                } else if a < p {
                    assert(out@[a] == before[a] && out@[b] == before[b - 1]);
                } else if a == p && b > p {
                    assert(out@[b] == before[b - 1]);
                    assert(before[p as int] <= before[b - 1]);
                } else if a > p {
                    assert(out@[a] == before[a - 1] && out@[b] == before[b - 1]);
                }
            }
        }
        i += 1;
    }
    proof {
        assert(items@.subrange(0, items.len() as int) =~= items@);
    }
    out
}

} // verus!
