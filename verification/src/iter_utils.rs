//! Helpers over sequences of items: neighbouring pairs, single items,
//! chunks, combinations and the largest items.
use vstd::prelude::*;

verus! {

/// Every item paired with the one after it.
pub fn zip_with_next<T: Copy>(items: &[T]) -> (r: Vec<(T, T)>)
    ensures
        r.len() == if items.len() == 0 {
            0
        } else {
            items.len() - 1
        },
        forall|i: int| 0 <= i < r.len() ==> #[trigger] r@[i] == (items@[i], items@[i + 1]),
{
    let mut r: Vec<(T, T)> = Vec::new();
    if items.len() == 0 {
        return r;
    }
    let mut i: usize = 0;
    while i + 1 < items.len()
        invariant
            i + 1 <= items.len(),
            r.len() == i,
            forall|j: int| 0 <= j < i ==> #[trigger] r@[j] == (items@[j], items@[j + 1]),
        decreases items.len() - i,
    {
        r.push((items[i], items[i + 1]));
        i += 1;
    }
    r
}

/// The only item, or `None` when there is not exactly one.
pub fn single<T: Copy>(items: &[T]) -> (r: Option<T>)
    ensures
        items.len() == 1 ==> r == Some(items@[0]),
        items.len() != 1 ==> r is None,
{
    if items.len() == 1 {
        Some(items[0])
    } else {
        None
    }
}

/// The first `n` items; there must be at least `n`.
pub fn take_n<T: Copy>(items: &[T], n: usize) -> (r: Vec<T>)
    requires
        n <= items.len(),
    ensures
        r@ == items@.subrange(0, n as int),
{
    let mut r: Vec<T> = Vec::new();
    let mut i: usize = 0;
    while i < n
        invariant
            i <= n <= items.len(),
            r@ == items@.subrange(0, i as int),
        decreases n - i,
    {
        r.push(items[i]);
        i += 1;
        proof {
            assert(r@ =~= items@.subrange(0, i as int));
        }
    }
    r
}

/// The item at position `n` of the items repeated without end; `None` when
/// there are no items.
pub fn repeat_nth<T: Copy>(items: &[T], n: usize) -> (r: Option<T>)
    ensures
        items.len() == 0 ==> r is None,
        items.len() > 0 ==> r == Some(items@[n as int % items.len() as int]),
{
    if items.len() == 0 {
        None
    } else {
        Some(items[n % items.len()])
    }
}

/// The chunks finished and the chunk being built after reading `s`: each
/// separator finishes the chunk being built.
pub open spec fn split_state<T>(s: Seq<T>, sep: T) -> (Seq<Seq<T>>, Seq<T>)
    decreases s.len(),
{
    if s.len() == 0 {
        (Seq::empty(), Seq::empty())
    } else {
        let (done, cur) = split_state(s.drop_last(), sep);
        if s.last() == sep {
            (done.push(cur), Seq::empty())
        } else {
            (done, cur.push(s.last()))
        }
    }
}

/// The chunks between the separators; a chunk after the last separator
/// counts only when it is not empty.
pub open spec fn chunks<T>(s: Seq<T>, sep: T) -> Seq<Seq<T>> {
    let (done, cur) = split_state(s, sep);
    if cur.len() > 0 {
        done.push(cur)
    } else {
        done
    }
}

/// The contents of each vector.
pub open spec fn vec_views<T>(v: Seq<Vec<T>>) -> Seq<Seq<T>> {
    v.map_values(|x: Vec<T>| x@)
}

/// Splits the items at every item equal to `split_item`, which is dropped.
pub fn chunk_by<T: Copy + PartialEq>(items: &[T], split_item: T) -> (r: Vec<Vec<T>>)
    requires
        vstd::laws_eq::obeys_concrete_eq::<T>(),
    ensures
        vec_views(r@) == chunks(items@, split_item),
{
    let mut done: Vec<Vec<T>> = Vec::new();
    let mut cur: Vec<T> = Vec::new();
    let mut i: usize = 0;
    proof {
        reveal(vstd::laws_eq::obeys_concrete_eq);
        assert(items@.subrange(0, 0) =~= Seq::<T>::empty());
        assert(vec_views(done@) =~= Seq::<Seq<T>>::empty());
    }
    while i < items.len()
        invariant
            i <= items.len(),
            vstd::laws_eq::obeys_concrete_eq::<T>(),
            split_state(items@.subrange(0, i as int), split_item) == (vec_views(done@), cur@),
        decreases items.len() - i,
    {
        let item = items[i];
        let ghost st = split_state(items@.subrange(0, i as int), split_item);
        proof {
            reveal(vstd::laws_eq::obeys_concrete_eq);
            assert(items@.subrange(0, i + 1).drop_last() =~= items@.subrange(0, i as int));
            assert(items@.subrange(0, i + 1).last() == item);
        }
        if item == split_item {
            let ghost before = vec_views(done@);
            let ghost c = cur@;
            let finished = cur;
            done.push(finished);
            cur = Vec::new();
            proof {
                assert(vec_views(done@) =~= before.push(c));
                assert(cur@ =~= Seq::<T>::empty());
            }
        } else {
            cur.push(item);
            proof {
                assert(item != split_item);
                assert(split_state(items@.subrange(0, i + 1), split_item) == (st.0, st.1.push(item)));
            }
        }
        i += 1;
    }
    proof {
        assert(items@.subrange(0, items.len() as int) =~= items@);
    }
    if cur.len() > 0 {
        let ghost before = vec_views(done@);
        let ghost c = cur@;
        done.push(cur);
        proof {
            assert(vec_views(done@) =~= before.push(c));
        }
    }
    done
}

/// The strictly increasing sequences of `d` indices from `start..n`, in
/// lexicographic order.
pub open spec fn index_combos(n: int, d: int, start: int) -> Seq<Seq<int>>
    decreases d, n - start,
{
    if d <= 0 {
        seq![Seq::empty()]
    } else if start >= n {
        Seq::empty()
    } else {
        index_combos(n, d - 1, start + 1).map_values(|c: Seq<int>| seq![start] + c) + index_combos(n, d, start + 1)
    }
}

/// The items at each sequence of indices.
pub open spec fn pick_all<T>(items: Seq<T>, combos: Seq<Seq<int>>) -> Seq<Seq<T>> {
    combos.map_values(|c: Seq<int>| c.map_values(|i: int| items[i]))
}

/// `x` followed by the items of `c`.
fn prefixed<T: Copy>(x: T, c: &Vec<T>) -> (r: Vec<T>)
    ensures
        r@ == seq![x] + c@,
{
    let mut r: Vec<T> = Vec::new();
    r.push(x);
    let mut i: usize = 0;
    while i < c.len()
        invariant
            i <= c.len(),
            r@ == seq![x] + c@.subrange(0, i as int),
        decreases c.len() - i,
    {
        r.push(c[i]);
        i += 1;
        proof {
            assert(r@ =~= seq![x] + c@.subrange(0, i as int));
        }
    }
    proof {
        assert(c@.subrange(0, c.len() as int) =~= c@);
    }
    r
}

fn combinations_from<T: Copy>(items: &[T], d: usize, start: usize) -> (r: Vec<Vec<T>>)
    requires
        start <= items.len(),
    ensures
        vec_views(r@) == pick_all(items@, index_combos(items.len() as int, d as int, start as int)),
    decreases d, items.len() - start,
{
    let ghost n = items.len() as int;
    if d == 0 {
        let mut r: Vec<Vec<T>> = Vec::new();
        r.push(Vec::new());
        proof {
            assert(r@[0]@ =~= Seq::<T>::empty());
            assert(Seq::<int>::empty().map_values(|i: int| items@[i]) =~= Seq::<T>::empty());
            assert(vec_views(r@) =~= pick_all(items@, index_combos(n, 0, start as int)));
        }
        return r;
    }
    if start >= items.len() {
        let r: Vec<Vec<T>> = Vec::new();
        proof {
            assert(vec_views(r@) =~= pick_all(items@, index_combos(n, d as int, start as int)));
        }
        return r;
    }
    let firsts = combinations_from(items, d - 1, start + 1);
    let ghost f = index_combos(n, (d - 1) as int, (start + 1) as int);
    let x = items[start];
    let mut r: Vec<Vec<T>> = Vec::new();
    let mut i: usize = 0;
    proof {
        assert(vec_views(firsts@).len() == firsts.len());
        assert(pick_all(items@, f).len() == f.len());
        assert(vec_views(r@) =~= pick_all(items@, f.subrange(0, 0).map_values(|c: Seq<int>| seq![start as int] + c)));
    }
    while i < firsts.len()
        invariant
            i <= firsts.len(),
            vec_views(firsts@) == pick_all(items@, f),
            f.len() == firsts.len(),
            x == items@[start as int],
            start < items.len(),
            vec_views(r@) == pick_all(items@, f.subrange(0, i as int).map_values(|c: Seq<int>| seq![start as int] + c)),
        decreases firsts.len() - i,
    {
        let v = prefixed(x, &firsts[i]);
        let ghost before = vec_views(r@);
        r.push(v);
        proof {
            let g = f.subrange(0, i + 1).map_values(|c: Seq<int>| seq![start as int] + c);
            let g0 = f.subrange(0, i as int).map_values(|c: Seq<int>| seq![start as int] + c);
            assert(vec_views(firsts@)[i as int] == firsts@[i as int]@);
            assert(pick_all(items@, f)[i as int] == f[i as int].map_values(|j: int| items@[j]));
            assert((seq![start as int] + f[i as int]).map_values(|j: int| items@[j]) =~= seq![x] + f[i as int].map_values(
                |j: int| items@[j],
            ));
            assert(pick_all(items@, g) =~= pick_all(items@, g0).push(v@));
            assert(vec_views(r@) =~= before.push(v@));
        }
        i += 1;
    }
    let rest = combinations_from(items, d, start + 1);
    let ghost rv = vec_views(r@);
    let mut j: usize = 0;
    let ghost rs = index_combos(n, d as int, (start + 1) as int);
    proof {
        assert(vec_views(rest@).len() == rest.len());
        assert(pick_all(items@, rs).len() == rs.len());
        assert(rv + vec_views(rest@).subrange(0, 0) =~= rv);
    }
    while j < rest.len()
        invariant
            j <= rest.len(),
            vec_views(rest@) == pick_all(items@, rs),
            rs.len() == rest.len(),
            vec_views(r@) == rv + vec_views(rest@).subrange(0, j as int),
        decreases rest.len() - j,
    {
        let v = prefixed_copy(&rest[j]);
        let ghost before = vec_views(r@);
        r.push(v);
        proof {
            assert(vec_views(rest@)[j as int] == rest@[j as int]@);
            assert(vec_views(r@) =~= before.push(v@));
            assert(vec_views(r@) =~= rv + vec_views(rest@).subrange(0, j + 1));
        }
        j += 1;
    }
    proof {
        assert(f.subrange(0, f.len() as int) =~= f);
        assert(vec_views(rest@).subrange(0, rest.len() as int) =~= vec_views(rest@));
        let all = index_combos(n, d as int, start as int);
        assert(all == f.map_values(|c: Seq<int>| seq![start as int] + c) + rs);
        assert(pick_all(items@, all) =~= pick_all(items@, f.map_values(|c: Seq<int>| seq![start as int] + c))
            + pick_all(items@, rs));
    }
    r
}

/// A copy of the items of `c`.
fn prefixed_copy<T: Copy>(c: &Vec<T>) -> (r: Vec<T>)
    ensures
        r@ == c@,
{
    let mut r: Vec<T> = Vec::new();
    let mut i: usize = 0;
    while i < c.len()
        invariant
            i <= c.len(),
            r@ == c@.subrange(0, i as int),
        decreases c.len() - i,
    {
        r.push(c[i]);
        i += 1;
        proof {
            assert(r@ =~= c@.subrange(0, i as int));
        }
    }
    proof {
        assert(c@.subrange(0, c.len() as int) =~= c@);
    }
    r
}

/// All choices of `d` items, keeping their order, in lexicographic order
/// of their positions.
pub fn combinations<T: Copy>(items: &[T], d: usize) -> (r: Vec<Vec<T>>)
    requires
        d >= 1,
    ensures
        vec_views(r@) == pick_all(items@, index_combos(items.len() as int, d as int, 0)),
{
    combinations_from(items, d, 0)
}

/// How many values of `s` are at least `v`.
pub open spec fn count_ge(s: Seq<i64>, v: int) -> nat
    decreases s.len(),
{
    if s.len() == 0 {
        0
    } else {
        count_ge(s.drop_last(), v) + if s.last() >= v {
            1nat
        } else {
            0nat
        }
    }
}

/// The values never increase from one to the next.
pub open spec fn non_increasing(s: Seq<i64>) -> bool {
    forall|i: int, j: int| 0 <= i <= j < s.len() ==> s[i] >= s[j]
}

/// `r` holds the `d` largest values of `s`, largest first: for every
/// threshold it has as many values at least that large as `s` has, up to
/// `d`.
pub open spec fn largest_of(r: Seq<i64>, s: Seq<i64>, d: int) -> bool {
    &&& r.len() == d
    &&& non_increasing(r)
    &&& forall|v: int| #[trigger] count_ge(r, v) == if count_ge(s, v) < d {
        count_ge(s, v) as int
    } else {
        d
    }
}

/// `d` zeros.
pub open spec fn zeros(d: int) -> Seq<i64> {
    Seq::new(d as nat, |_i: int| 0i64)
}

proof fn lemma_count_ge_push(s: Seq<i64>, x: i64, v: int)
    ensures
        count_ge(s.push(x), v) == count_ge(s, v) + if x >= v {
            1nat
        } else {
            0nat
        },
{
    assert(s.push(x).drop_last() =~= s);
}

proof fn lemma_count_ge_bound(s: Seq<i64>, v: int)
    ensures
        count_ge(s, v) <= s.len(),
    decreases s.len(),
{
    if s.len() > 0 {
        lemma_count_ge_bound(s.drop_last(), v);
    }
}

proof fn lemma_count_ge_insert(s: Seq<i64>, i: int, x: i64, v: int)
    requires
        0 <= i <= s.len(),
    ensures
        count_ge(s.insert(i, x), v) == count_ge(s, v) + if x >= v {
            1nat
        } else {
            0nat
        },
    decreases s.len(),
{
    if i == s.len() {
        assert(s.insert(i, x) =~= s.push(x));
        lemma_count_ge_push(s, x, v);
    } else {
        lemma_count_ge_insert(s.drop_last(), i, x, v);
        assert(s.insert(i, x).drop_last() =~= s.drop_last().insert(i, x));
        assert(s.insert(i, x).last() == s.last());
    }
}

/// A non-increasing sequence whose last value is at least `v` has all its
/// values at least `v`; one whose first value is below `v` has none.
proof fn lemma_count_ge_sorted(s: Seq<i64>, v: int)
    requires
        non_increasing(s),
    ensures
        s.len() > 0 && s.last() >= v ==> count_ge(s, v) == s.len(),
        s.len() > 0 && s[0] < v ==> count_ge(s, v) == 0,
    decreases s.len(),
{
    if s.len() > 0 {
        let t = s.drop_last();
        assert(non_increasing(t)) by {
            assert forall|i: int, j: int| 0 <= i <= j < t.len() implies t[i] >= t[j] by {
                assert(t[i] == s[i] && t[j] == s[j]);
            }
        }
        lemma_count_ge_sorted(t, v);
        assert(count_ge(s, v) == count_ge(t, v) + if s.last() >= v {
            1nat
        } else {
            0nat
        });
        if t.len() == 0 {
            assert(count_ge(t, v) == 0);
        }
        assert(s[0] >= s[s.len() - 1]);
        if t.len() > 0 {
            assert(t.last() == s[s.len() - 2]);
            assert(s[s.len() - 2] >= s[s.len() - 1]);
            assert(t[0] == s[0]);
            assert(s[0] >= s[s.len() - 2]);
        }
    }
}

/// Inserting `x` before the first smaller value keeps a sequence
/// non-increasing.
proof fn lemma_insert_sorted(s: Seq<i64>, i: int, x: i64)
    requires
        non_increasing(s),
        0 <= i <= s.len(),
        forall|j: int| 0 <= j < i ==> s[j] >= x,
        i < s.len() ==> s[i] < x,
    ensures
        non_increasing(s.insert(i, x)),
{
    let t = s.insert(i, x);
    assert forall|a: int, b: int| 0 <= a <= b < t.len() implies t[a] >= t[b] by {
        if a < i && b < i {
            assert(t[a] == s[a] && t[b] == s[b]);
        } else if a < i && b == i {
            assert(t[a] == s[a]);
        } else if a < i {
            assert(t[a] == s[a] && t[b] == s[b - 1]);
        } else if a == i && b > i {
            assert(t[b] == s[b - 1]);
            assert(s[i] >= s[b - 1]);
        } else if a > i {
            assert(t[a] == s[a - 1] && t[b] == s[b - 1]);
        }
    }
}

/// Offers `x` to a full list of the `d` largest values so far: it goes in
/// before the first smaller value, and the last value drops out.
fn offer_full(top: &mut Vec<i64>, x: i64, ghost_seen: Ghost<Seq<i64>>)
    requires
        old(top).len() > 0,
        largest_of(old(top)@, ghost_seen@, old(top).len() as int),
    ensures
        final(top).len() == old(top).len(),
        largest_of(final(top)@, ghost_seen@.push(x), old(top).len() as int),
{
    let d = top.len();
    let ghost seen = ghost_seen@;
    let ghost t0 = top@;
    if x > top[d - 1] {
        let mut i: usize = 0;
        while i < d && top[i] >= x
            invariant
                i <= d,
                top@ == t0,
                d == t0.len(),
                forall|j: int| 0 <= j < i ==> t0[j] >= x,
            decreases d - i,
        {
            i += 1;
        }
        top.insert(i, x);
        let ghost t1 = top@;
        proof {
            lemma_insert_sorted(t0, i as int, x);
        }
        let dropped = top.pop();
        proof {
            let last = t0[d - 1];
            assert(t1.last() == last) by {
                assert(i < d);
                assert(t1[t1.len() - 1] == t0[d - 1]);
            }
            assert(top@ =~= t1.drop_last());
            assert(non_increasing(top@)) by {
                assert forall|a: int, b: int| 0 <= a <= b < top@.len() implies top@[a] >= top@[b] by {
                    assert(top@[a] == t1[a] && top@[b] == t1[b]);
                }
            }
            assert forall|v: int| #[trigger] count_ge(top@, v) == if count_ge(seen.push(x), v) < d {
                count_ge(seen.push(x), v) as int
            } else {
                d as int
            } by {
                lemma_count_ge_insert(t0, i as int, x, v);
                assert(count_ge(t1, v) == count_ge(t1.drop_last(), v) + if t1.last() >= v {
                    1nat
                } else {
                    0nat
                });
                lemma_count_ge_push(seen, x, v);
                lemma_count_ge_sorted(t0, v);
                lemma_count_ge_bound(t0, v);
                lemma_count_ge_bound(t0.drop_last(), v);
                assert(count_ge(t0, v) == count_ge(t0.drop_last(), v) + if t0.last() >= v {
                    1nat
                } else {
                    0nat
                });
                assert(count_ge(t0, v) == if count_ge(seen, v) < d {
                    count_ge(seen, v) as int
                } else {
                    d as int
                });
                if v <= last {
                    assert(count_ge(t0, v) == d);
                    assert(x >= v);
                } else {
                    assert(count_ge(t0, v) < d);
                }
            }
        }
    } else {
        proof {
            assert forall|v: int| #[trigger] count_ge(top@, v) == if count_ge(seen.push(x), v) < d {
                count_ge(seen.push(x), v) as int
            } else {
                d as int
            } by {
                lemma_count_ge_push(seen, x, v);
                lemma_count_ge_sorted(t0, v);
                lemma_count_ge_bound(t0, v);
                assert(count_ge(t0, v) == if count_ge(seen, v) < d {
                    count_ge(seen, v) as int
                } else {
                    d as int
                });
            }
        }
    }
}

/// The `n` largest values, largest first, where `n` zeros compete too: a
/// value enters only when it beats the smallest kept so far.
pub fn max_n(items: &[i64], n: usize) -> (r: Vec<i64>)
    requires
        n >= 1,
    ensures
        largest_of(r@, zeros(n as int) + items@, n as int),
{
    let mut top: Vec<i64> = Vec::new();
    let mut k: usize = 0;
    while k < n
        invariant
            k <= n,
            top@ == zeros(k as int),
        decreases n - k,
    {
        top.push(0);
        k += 1;
        proof {
            assert(top@ =~= zeros(k as int));
        }
    }
    proof {
        assert(non_increasing(top@));
        assert forall|v: int| #[trigger] count_ge(top@, v) == if count_ge(zeros(n as int), v) < n {
            count_ge(zeros(n as int), v) as int
        } else {
            n as int
        } by {
            lemma_count_ge_sorted(top@, v);
            lemma_count_ge_bound(top@, v);
        }
        assert(zeros(n as int) + items@.subrange(0, 0) =~= zeros(n as int));
    }
    let mut i: usize = 0;
    while i < items.len()
        invariant
            i <= items.len(),
            n >= 1,
            top.len() == n,
            largest_of(top@, zeros(n as int) + items@.subrange(0, i as int), n as int),
        decreases items.len() - i,
    {
        let ghost seen = zeros(n as int) + items@.subrange(0, i as int);
        offer_full(&mut top, items[i], Ghost(seen));
        proof {
            assert(seen.push(items@[i as int]) =~= zeros(n as int) + items@.subrange(0, i + 1));
        }
        i += 1;
    }
    proof {
        assert(items@.subrange(0, items.len() as int) =~= items@);
    }
    top
}

/// The `d` largest values, largest first, or `None` when there are fewer
/// than `d` values.
pub fn largest_values(items: &[i64], d: usize) -> (r: Option<Vec<i64>>)
    ensures
        items.len() < d ==> r is None,
        items.len() >= d ==> (r matches Some(t) && largest_of(t@, items@, d as int)),
{
    if items.len() < d {
        return None;
    }
    if d == 0 {
        let t: Vec<i64> = Vec::new();
        proof {
            assert forall|v: int| #[trigger] count_ge(t@, v) == if count_ge(items@, v) < 0 {
                count_ge(items@, v) as int
            } else {
                0
            } by {}
        }
        return Some(t);
    }
    let mut top: Vec<i64> = Vec::new();
    let mut i: usize = 0;
    proof {
        assert(items@.subrange(0, 0) =~= Seq::<i64>::empty());
        assert(top@ =~= Seq::<i64>::empty());
    }
    while i < d
        invariant
            i <= d <= items.len(),
            top.len() == i,
            non_increasing(top@),
            forall|v: int| #[trigger] count_ge(top@, v) == count_ge(items@.subrange(0, i as int), v),
        decreases d - i,
    {
        let x = items[i];
        let mut j: usize = 0;
        let ghost t0 = top@;
        while j < top.len() && top[j] >= x
            invariant
                j <= top.len(),
                top@ == t0,
                forall|k: int| 0 <= k < j ==> t0[k] >= x,
            decreases top.len() - j,
        {
            j += 1;
        }
        top.insert(j, x);
        proof {
            lemma_insert_sorted(t0, j as int, x);
            assert(items@.subrange(0, i + 1) =~= items@.subrange(0, i as int).push(x));
            assert forall|v: int| #[trigger] count_ge(top@, v) == count_ge(items@.subrange(0, i + 1), v) by {
                lemma_count_ge_insert(t0, j as int, x, v);
                lemma_count_ge_push(items@.subrange(0, i as int), x, v);
            }
        }
        i += 1;
    }
    proof {
        assert forall|v: int| #[trigger] count_ge(top@, v) == if count_ge(items@.subrange(0, d as int), v) < d {
            count_ge(items@.subrange(0, d as int), v) as int
        } else {
            d as int
        } by {
            lemma_count_ge_bound(top@, v);
        }
    }
    while i < items.len()
        invariant
            d <= i <= items.len(),
            d >= 1,
            top.len() == d,
            largest_of(top@, items@.subrange(0, i as int), d as int),
        decreases items.len() - i,
    {
        let ghost seen = items@.subrange(0, i as int);
        offer_full(&mut top, items[i], Ghost(seen));
        proof {
            assert(seen.push(items@[i as int]) =~= items@.subrange(0, i + 1));
        }
        i += 1;
    }
    proof {
        assert(items@.subrange(0, items.len() as int) =~= items@);
    }
    Some(top)
}

} // verus!

verus! {

/// The number of `true` values.
pub open spec fn count_true(bs: Seq<bool>) -> nat
    decreases bs.len(),
{
    if bs.len() == 0 {
        0
    } else {
        count_true(bs.drop_last()) + if bs.last() {
            1nat
        } else {
            0nat
        }
    }
}

/// The sum of a sequence of numbers.
pub open spec fn sum_u64(s: Seq<u64>) -> int
    decreases s.len(),
{
    if s.len() == 0 {
        0
    } else {
        sum_u64(s.drop_last()) + s.last()
    }
}

/// Counting the items that a predicate accepts.
pub trait CountIf<F>: Sized {
    /// `predicate` may be asked about every item.
    spec fn count_if_ready(self, predicate: F) -> bool;

    fn count_if(self, predicate: F) -> usize
        requires
            self.count_if_ready(predicate),
    ;
}

impl<'a, T, F: Fn(&T) -> bool> CountIf<F> for &'a [T] {
    open spec fn count_if_ready(self, predicate: F) -> bool {
        forall|i: int| 0 <= i < self.len() ==> call_requires(predicate, (&(#[trigger] self@[i]),))
    }

    /// The number of items for which `predicate` answered `true`.
    fn count_if(self, predicate: F) -> (r: usize)
        ensures
            exists|bs: Seq<bool>|
                bs.len() == self.len() && r == count_true(bs) && forall|i: int|
                    0 <= i < self.len() ==> call_ensures(predicate, (&(#[trigger] self@[i]),), bs[i]),
    {
        let mut count: usize = 0;
        let mut i: usize = 0;
        let ghost mut bs: Seq<bool> = Seq::empty();
        while i < self.len()
            invariant
                i <= self.len(),
                bs.len() == i,
                count == count_true(bs),
                count <= i,
                forall|k: int| 0 <= k < self.len() ==> call_requires(predicate, (&(#[trigger] self@[k]),)),
                forall|k: int| 0 <= k < i ==> call_ensures(predicate, (&(#[trigger] self@[k]),), bs[k]),
            decreases self.len() - i,
        {
            let b = predicate(&self[i]);
            proof {
                assert(bs.push(b).drop_last() =~= bs);
                bs = bs.push(b);
            }
            if b {
                count += 1;
            }
            i += 1;
        }
        count
    }
}

/// Adding up a value computed from every item.
pub trait SumWith<O, F>: Sized {
    /// `mapping` may be asked about every item, and the sum fits in `O`.
    spec fn sum_with_ready(self, mapping: F) -> bool;

    fn sum_with(self, mapping: F) -> O
        requires
            self.sum_with_ready(mapping),
    ;
}

impl<'a, T, F: Fn(&T) -> u64> SumWith<u64, F> for &'a [T] {
    /// Every prefix of the values `mapping` may give sums up to at most
    /// `u64::MAX`.
    open spec fn sum_with_ready(self, mapping: F) -> bool {
        &&& forall|i: int| 0 <= i < self.len() ==> call_requires(mapping, (&(#[trigger] self@[i]),))
        &&& forall|vs: Seq<u64>|
            vs.len() <= self.len() && (forall|i: int|
                0 <= i < vs.len() ==> call_ensures(mapping, (&(#[trigger] self@[i]),), vs[i])) ==> #[trigger] sum_u64(
                vs,
            ) <= u64::MAX
    }

    /// The sum of what `mapping` gives for the items.
    fn sum_with(self, mapping: F) -> (r: u64)
        ensures
            exists|vs: Seq<u64>|
                vs.len() == self.len() && r == sum_u64(vs) && forall|i: int|
                    0 <= i < self.len() ==> call_ensures(mapping, (&(#[trigger] self@[i]),), vs[i]),
    {
        let mut total: u64 = 0;
        let mut i: usize = 0;
        let ghost mut vs: Seq<u64> = Seq::empty();
        while i < self.len()
            invariant
                i <= self.len(),
                vs.len() == i,
                total == sum_u64(vs),
                forall|k: int| 0 <= k < self.len() ==> call_requires(mapping, (&(#[trigger] self@[k]),)),
                forall|k: int| 0 <= k < i ==> call_ensures(mapping, (&(#[trigger] self@[k]),), vs[k]),
                forall|ws: Seq<u64>|
                    ws.len() <= self.len() && (forall|j: int|
                        0 <= j < ws.len() ==> call_ensures(mapping, (&(#[trigger] self@[j]),), ws[j])) ==> #[trigger] sum_u64(
                        ws,
                    ) <= u64::MAX,
            decreases self.len() - i,
        {
            let v = mapping(&self[i]);
            proof {
                let w = vs.push(v);
                assert(w.drop_last() =~= vs);
                assert(forall|j: int| 0 <= j < w.len() ==> call_ensures(mapping, (&(#[trigger] self@[j]),), w[j]));
                assert(sum_u64(w) <= u64::MAX);
                vs = w;
            }
            total = total + v;
            i += 1;
        }
        total
    }
}

/// No state of `items` before position `n` repeats an earlier one.
pub open spec fn states_distinct<T>(items: Seq<(u64, T)>, n: int) -> bool {
    forall|a: int, b: int| 0 <= a < b < n ==> items[a].0 != items[b].0
}

/// The state at `f` is the first to repeat an earlier one, the one at `p`.
pub open spec fn first_repeat<T>(items: Seq<(u64, T)>, p: int, f: int) -> bool {
    &&& 0 <= p < f < items.len()
    &&& items[p].0 == items[f].0
    &&& states_distinct(items, f)
}

/// The position, counted from 1, of the item that stands for item
/// `target_index` once the items repeat from `p` with period `f - p`.
pub open spec fn cyclic_index(p: int, f: int, target_index: int) -> int {
    let cycle = f - p;
    let steps_needed = target_index - (f + 1);
    target_index - (steps_needed / cycle) * cycle - cycle
}

/// The result of item `target_index` (counted from 1) of a sequence of
/// states and results in which each state determines what follows: the
/// items are read until a state repeats, and the cycle found gives the
/// answer. `None` when the items end before a state repeats.
#[verifier::spinoff_prover]
pub fn find_cyclic_result_at<T: Copy>(items: &[(u64, T)], target_index: usize) -> (r: Option<T>)
    requires
        forall|p: int, f: int| #[trigger] first_repeat(items@, p, f) ==> target_index >= f + 1,
    ensures
        r is None <==> states_distinct(items@, items.len() as int),
        r matches Some(v) ==> exists|p: int, f: int|
            #[trigger] first_repeat(items@, p, f) && v == items@[cyclic_index(p, f, target_index as int) - 1].1,
{
    broadcast use vstd::std_specs::hash::group_hash_axioms;

    let mut states: std::collections::HashMap<u64, usize> = std::collections::HashMap::new();
    let mut n: usize = 0;
    while n < items.len()
        invariant
            n <= items.len(),
            forall|p: int, f: int| #[trigger] first_repeat(items@, p, f) ==> target_index >= f + 1,
            states_distinct(items@, n as int),
            forall|a: int| 0 <= a < n ==> #[trigger] states@.contains_key(items@[a].0) && states@[items@[a].0] == a
                + 1,
            forall|k: u64| #[trigger] states@.contains_key(k) ==> exists|a: int| 0 <= a < n && items@[a].0 == k,
        decreases items.len() - n,
    {
        let state = items[n].0;
        match states.get(&state) {
            Some(last_length) => {
                let ghost a = choose|a: int| 0 <= a < n && items@[a].0 == state;
                let last_length = *last_length;
                proof {
                    assert(states@[items@[a].0] == a + 1);
                    assert(first_repeat(items@, a, n as int));
                }
                let length = n + 1;
                let cycle_size = length - last_length;
                let steps_needed = target_index - length;
                let cycles = steps_needed / cycle_size;
                proof {
                    assert(cycles * cycle_size <= steps_needed) by (nonlinear_arith)
                        requires
                            cycles == steps_needed / cycle_size,
                            cycle_size > 0,
                            steps_needed >= 0;
                    assert(steps_needed - cycles * cycle_size < cycle_size) by (nonlinear_arith)
                        requires
                            cycles == steps_needed / cycle_size,
                            cycle_size > 0,
                            steps_needed >= 0;
                }
                let index = target_index - (cycles * cycle_size) - cycle_size;
                proof {
                    assert(index == cyclic_index(a, n as int, target_index as int));
                    assert(1 <= index <= n);
                }
                return Some(items[index - 1].1);
            },
            None => {
                proof {
                    assert forall|b: int| 0 <= b < n implies items@[b].0 != items@[n as int].0 by {
                        assert(states@.contains_key(items@[b].0));
                    }
                }
                let ghost before = states@;
                states.insert(state, n + 1);
                proof {
                    assert forall|a: int| 0 <= a < n + 1 implies #[trigger] states@.contains_key(items@[a].0)
                        && states@[items@[a].0] == a + 1 by {
                        if a < n {
                            assert(items@[a].0 != state);
                            assert(before.contains_key(items@[a].0) && before[items@[a].0] == a + 1);
                        }
                    }
                }
            },
        }
        n += 1;
    }
    None
}

/// From position `p` on, the items repeat with period `c`.
pub open spec fn periodic_from<T>(items: Seq<T>, p: int, c: int) -> bool {
    forall|i: int| p <= i && i + c < items.len() ==> #[trigger] items[i] == items[i + c]
}

proof fn lemma_periodic_shift<T>(items: Seq<T>, p: int, c: int, i: int, k: int)
    requires
        periodic_from(items, p, c),
        c > 0,
        p <= i,
        k >= 0,
        i + k * c < items.len(),
    ensures
        items[i] == items[i + k * c],
    decreases k,
{
    if k > 0 {
        assert(i + (k - 1) * c + c == i + k * c) by (nonlinear_arith);
        assert(i + (k - 1) * c >= i) by (nonlinear_arith)
            requires
                k >= 1,
                c > 0;
        lemma_periodic_shift(items, p, c, i, k - 1);
        assert(items[i + (k - 1) * c] == items[i + (k - 1) * c + c]);
    } else {
        assert(k * c == 0) by (nonlinear_arith)
            requires
                k == 0;
    }
}

/// When the items repeat with the period of the first repeated state,
/// from where that state first stood (as they do when each state
/// determines what follows it), the item `find_cyclic_result_at` reads is
/// the same as item `target_index` itself.
pub proof fn lemma_cyclic_index_is_target<T>(items: Seq<T>, p: int, f: int, target_index: int)
    requires
        0 <= p < f,
        f + 1 <= target_index <= items.len(),
        periodic_from(items, p, f - p),
    ensures
        p + 1 <= cyclic_index(p, f, target_index) <= f,
        items[cyclic_index(p, f, target_index) - 1] == items[target_index - 1],
{
    let c = f - p;
    let steps = target_index - (f + 1);
    let q = steps / c;
    vstd::arithmetic::div_mod::lemma_fundamental_div_mod(steps, c);
    vstd::arithmetic::div_mod::lemma_mod_pos_bound(steps, c);
    let index = cyclic_index(p, f, target_index);
    assert(index == target_index - q * c - c);
    assert(c * q == q * c) by (nonlinear_arith);
    assert(index - 1 + (q + 1) * c == target_index - 1) by (nonlinear_arith)
        requires
            index == target_index - q * c - c;
    assert(q >= 0) by (nonlinear_arith)
        requires
            steps == c * q + steps % c,
            0 <= steps % c < c,
            steps >= 0,
            c > 0;
    lemma_periodic_shift(items, p, c, index - 1, q + 1);
}

} // verus!

verus! {

/// `greater` answers `true` for `a` and `b`: `a` ranks above `b`.
pub open spec fn ranks_above<T, F: Fn(&T, &T) -> bool>(greater: F, a: T, b: T) -> bool {
    call_ensures(greater, (&a, &b), true)
}

/// `greater` ranks values: it can be called on any two, gives the same
/// answer each time, nothing ranks above itself, and both ranking above and
/// not ranking above carry over from `a` to `b` to `c`.
pub open spec fn is_ranking<T, F: Fn(&T, &T) -> bool>(greater: F) -> bool {
    &&& forall|a: T, b: T| #[trigger] call_requires(greater, (&a, &b))
    &&& forall|a: T, b: T, r: bool| #[trigger] call_ensures(greater, (&a, &b), r) ==> r == ranks_above(greater, a, b)
    &&& forall|a: T| !#[trigger] ranks_above(greater, a, a)
    &&& forall|a: T, b: T, c: T|
        #![trigger ranks_above(greater, a, b), ranks_above(greater, b, c)]
        ranks_above(greater, a, b) && ranks_above(greater, b, c) ==> ranks_above(greater, a, c)
    &&& forall|a: T, b: T, c: T|
        #![trigger ranks_above(greater, a, b), ranks_above(greater, b, c)]
        !ranks_above(greater, a, b) && !ranks_above(greater, b, c) ==> !ranks_above(greater, a, c)
}

/// How many values of `s` do not rank below `v`.
pub open spec fn count_not_below<T, F: Fn(&T, &T) -> bool>(greater: F, s: Seq<T>, v: T) -> nat
    decreases s.len(),
{
    if s.len() == 0 {
        0
    } else {
        count_not_below(greater, s.drop_last(), v) + if !ranks_above(greater, v, s.last()) {
            1nat
        } else {
            0nat
        }
    }
}

/// No value of `s` ranks above one before it.
pub open spec fn ranked<T, F: Fn(&T, &T) -> bool>(greater: F, s: Seq<T>) -> bool {
    forall|i: int, j: int| 0 <= i <= j < s.len() ==> !ranks_above(greater, s[j], s[i])
}

/// `r` holds `d` of the values of `s`, best first, and they are the best
/// ones: for every `v`, `r` has as many values not below `v` as `s` has,
/// up to `d`.
pub open spec fn best_of<T, F: Fn(&T, &T) -> bool>(greater: F, r: Seq<T>, s: Seq<T>, d: int) -> bool {
    &&& r.len() == d
    &&& ranked(greater, r)
    &&& r.to_multiset().subset_of(s.to_multiset())
    &&& forall|v: T| #[trigger] count_not_below(greater, r, v) == if count_not_below(greater, s, v) < d {
        count_not_below(greater, s, v) as int
    } else {
        d
    }
}

proof fn lemma_not_below_push<T, F: Fn(&T, &T) -> bool>(greater: F, s: Seq<T>, x: T, v: T)
    ensures
        count_not_below(greater, s.push(x), v) == count_not_below(greater, s, v) + if !ranks_above(greater, v, x) {
            1nat
        } else {
            0nat
        },
{
    assert(s.push(x).drop_last() =~= s);
}

proof fn lemma_not_below_bound<T, F: Fn(&T, &T) -> bool>(greater: F, s: Seq<T>, v: T)
    ensures
        count_not_below(greater, s, v) <= s.len(),
    decreases s.len(),
{
    if s.len() > 0 {
        lemma_not_below_bound(greater, s.drop_last(), v);
    }
}

proof fn lemma_not_below_insert<T, F: Fn(&T, &T) -> bool>(greater: F, s: Seq<T>, i: int, x: T, v: T)
    requires
        0 <= i <= s.len(),
    ensures
        count_not_below(greater, s.insert(i, x), v) == count_not_below(greater, s, v) + if !ranks_above(greater, v, x) {
            1nat
        } else {
            0nat
        },
    decreases s.len(),
{
    if i == s.len() {
        assert(s.insert(i, x) =~= s.push(x));
        lemma_not_below_push(greater, s, x, v);
    } else {
        lemma_not_below_insert(greater, s.drop_last(), i, x, v);
        assert(s.insert(i, x).drop_last() =~= s.drop_last().insert(i, x));
        assert(s.insert(i, x).last() == s.last());
    }
}

/// In a ranked sequence whose last value is not below `v` no value is; in
/// one whose first value is below `v` every value is.
#[verifier::spinoff_prover]
proof fn lemma_not_below_ranked<T, F: Fn(&T, &T) -> bool>(greater: F, s: Seq<T>, v: T)
    requires
        is_ranking(greater),
        ranked(greater, s),
    ensures
        s.len() > 0 && !ranks_above(greater, v, s.last()) ==> count_not_below(greater, s, v) == s.len(),
        s.len() > 0 && ranks_above(greater, v, s[0]) ==> count_not_below(greater, s, v) == 0,
    decreases s.len(),
{
    if s.len() > 0 {
        let t = s.drop_last();
        assert(ranked(greater, t)) by {
            assert forall|i: int, j: int| 0 <= i <= j < t.len() implies !ranks_above(greater, t[j], t[i]) by {
                assert(t[i] == s[i] && t[j] == s[j]);
            }
        }
        lemma_not_below_ranked(greater, t, v);
        assert(count_not_below(greater, s, v) == count_not_below(greater, t, v) + if !ranks_above(greater, v, s.last()) {
            1nat
        } else {
            0nat
        });
        if t.len() == 0 {
            assert(count_not_below(greater, t, v) == 0);
        }
        let n = s.len() - 1;
        assert(!ranks_above(greater, s[n], s[0]));
        if t.len() > 0 {
            assert(t.last() == s[n - 1]);
            assert(t[0] == s[0]);
            assert(!ranks_above(greater, s[n], s[n - 1]));
            assert(!ranks_above(greater, s[n - 1], s[0]));
            if !ranks_above(greater, v, s.last()) {
                assert(!ranks_above(greater, v, s[n - 1]));
            }
        }
        if ranks_above(greater, v, s[0]) {
            assert(ranks_above(greater, v, s[n]));
        }
    }
}

/// Inserting `x` before the first value it ranks above keeps a sequence
/// ranked.
proof fn lemma_insert_ranked<T, F: Fn(&T, &T) -> bool>(greater: F, s: Seq<T>, i: int, x: T)
    requires
        is_ranking(greater),
        ranked(greater, s),
        0 <= i <= s.len(),
        forall|j: int| 0 <= j < i ==> !ranks_above(greater, x, #[trigger] s[j]),
        i < s.len() ==> ranks_above(greater, x, s[i]),
    ensures
        ranked(greater, s.insert(i, x)),
{
    let t = s.insert(i, x);
    assert forall|a: int, b: int| 0 <= a <= b < t.len() implies !ranks_above(greater, t[b], t[a]) by {
        if a < i && b < i {
            assert(t[a] == s[a] && t[b] == s[b]);
        } else if a < i && b == i {
            assert(t[a] == s[a]);
        } else if a < i {
            assert(t[a] == s[a] && t[b] == s[b - 1]);
        } else if a == i && b > i {
            assert(t[b] == s[b - 1]);
            assert(!ranks_above(greater, s[b - 1], s[i]));
        } else if a > i {
            assert(t[a] == s[a - 1] && t[b] == s[b - 1]);
        }
    }
}

/// Offers `x` to a full list of the `d` best values so far: it goes in
/// before the first value it ranks above, and the last value drops out.
fn offer_ranked<T: Copy, F: Fn(&T, &T) -> bool>(top: &mut Vec<T>, greater: &F, x: T, ghost_seen: Ghost<Seq<T>>)
    requires
        is_ranking(*greater),
        old(top).len() > 0,
        best_of(*greater, old(top)@, ghost_seen@, old(top).len() as int),
    ensures
        final(top).len() == old(top).len(),
        best_of(*greater, final(top)@, ghost_seen@.push(x), old(top).len() as int),
{
    broadcast use vstd::seq_lib::group_to_multiset_ensures;
    broadcast use vstd::multiset::group_multiset_axioms;

    let d = top.len();
    let ghost seen = ghost_seen@;
    let ghost t0 = top@;
    let ghost last = t0[d - 1];
    assert(seen.push(x).to_multiset() =~= seen.to_multiset().insert(x));
    if greater(&x, &top[d - 1]) {
        let mut i: usize = 0;
        while i < d && !greater(&x, &top[i])
            invariant
                is_ranking(*greater),
                i <= d,
                top@ == t0,
                d == t0.len(),
                ranks_above(*greater, x, t0[d - 1]),
                forall|j: int| 0 <= j < i ==> !ranks_above(*greater, x, #[trigger] t0[j]),
            decreases d - i,
        {
            i += 1;
        }
        top.insert(i, x);
        let ghost t1 = top@;
        proof {
            lemma_insert_ranked(*greater, t0, i as int, x);
        }
        let dropped = top.pop();
        proof {
            assert(t1.last() == last) by {
                assert(t1[t1.len() - 1] == t0[d - 1]);
            }
            assert(top@ =~= t1.drop_last());
            assert(top@ =~= t1.remove(t1.len() - 1));
            assert(ranked(*greater, top@)) by {
                assert forall|a: int, b: int| 0 <= a <= b < top@.len() implies !ranks_above(*greater, top@[b], top@[a]) by {
                    assert(top@[a] == t1[a] && top@[b] == t1[b]);
                }
            }
            assert(top@.to_multiset().subset_of(seen.push(x).to_multiset())) by {
                assert(t1.to_multiset() == t0.to_multiset().insert(x));
                assert(top@.to_multiset() == t1.to_multiset().remove(last));
                assert forall|e: T| #[trigger] top@.to_multiset().count(e) <= seen.push(x).to_multiset().count(e) by {
                    assert(t0.to_multiset().count(e) <= seen.to_multiset().count(e));
                }
            }
            assert forall|v: T| #[trigger] count_not_below(*greater, top@, v) == if count_not_below(*greater, seen.push(x), v) < d {
                count_not_below(*greater, seen.push(x), v) as int
            } else {
                d as int
            } by {
                lemma_not_below_insert(*greater, t0, i as int, x, v);
                assert(count_not_below(*greater, t1, v) == count_not_below(*greater, t1.drop_last(), v) + if !ranks_above(
                    *greater,
                    v,
                    t1.last(),
                ) {
                    1nat
                } else {
                    0nat
                });
                lemma_not_below_push(*greater, seen, x, v);
                lemma_not_below_ranked(*greater, t0, v);
                lemma_not_below_bound(*greater, t0, v);
                lemma_not_below_bound(*greater, t0.drop_last(), v);
                assert(count_not_below(*greater, t0, v) == count_not_below(*greater, t0.drop_last(), v) + if !ranks_above(
                    *greater,
                    v,
                    t0.last(),
                ) {
                    1nat
                } else {
                    0nat
                });
                if !ranks_above(*greater, v, last) {
                    assert(count_not_below(*greater, t0, v) == d);
                    assert(!ranks_above(*greater, v, x));
                } else {
                    assert(count_not_below(*greater, t0, v) < d);
                }
            }
        }
    } else {
        proof {
            assert(!ranks_above(*greater, x, last));
            assert forall|e: T| #[trigger] top@.to_multiset().count(e) <= seen.push(x).to_multiset().count(e) by {
                assert(t0.to_multiset().count(e) <= seen.to_multiset().count(e));
            }
            assert forall|v: T| #[trigger] count_not_below(*greater, top@, v) == if count_not_below(*greater, seen.push(x), v) < d {
                count_not_below(*greater, seen.push(x), v) as int
            } else {
                d as int
            } by {
                lemma_not_below_push(*greater, seen, x, v);
                lemma_not_below_ranked(*greater, t0, v);
                lemma_not_below_bound(*greater, t0, v);
                if ranks_above(*greater, v, last) {
                    assert(ranks_above(*greater, v, x));
                    assert(count_not_below(*greater, t0, v) == count_not_below(*greater, t0.drop_last(), v));
                    lemma_not_below_bound(*greater, t0.drop_last(), v);
                }
            }
        }
    }
}

/// The `d` best values by `greater`, best first, or `None` when there are
/// fewer than `d` values.
pub fn top<T: Copy, F: Fn(&T, &T) -> bool>(items: &[T], greater: F, d: usize) -> (r: Option<Vec<T>>)
    requires
        is_ranking(greater),
    ensures
        items.len() < d ==> r is None,
        items.len() >= d ==> (r matches Some(t) && best_of(greater, t@, items@, d as int)),
{
    broadcast use vstd::seq_lib::group_to_multiset_ensures;
    broadcast use vstd::multiset::group_multiset_axioms;

    if items.len() < d {
        return None;
    }
    if d == 0 {
        let t: Vec<T> = Vec::new();
        proof {
            assert(t@.to_multiset() =~= vstd::multiset::Multiset::empty());
        }
        return Some(t);
    }
    let mut top: Vec<T> = Vec::new();
    let mut i: usize = 0;
    proof {
        assert(items@.subrange(0, 0) =~= Seq::<T>::empty());
        assert(top@ =~= Seq::<T>::empty());
    }
    while i < d
        invariant
            is_ranking(greater),
            i <= d <= items.len(),
            top.len() == i,
            ranked(greater, top@),
            top@.to_multiset() == items@.subrange(0, i as int).to_multiset(),
            forall|v: T| #[trigger] count_not_below(greater, top@, v) == count_not_below(greater, items@.subrange(0, i as int), v),
        decreases d - i,
    {
        let x = items[i];
        let mut j: usize = 0;
        let ghost t0 = top@;
        while j < top.len() && !greater(&x, &top[j])
            invariant
                is_ranking(greater),
                j <= top.len(),
                top@ == t0,
                forall|k: int| 0 <= k < j ==> !ranks_above(greater, x, #[trigger] t0[k]),
            decreases top.len() - j,
        {
            j += 1;
        }
        top.insert(j, x);
        proof {
            lemma_insert_ranked(greater, t0, j as int, x);
            assert(items@.subrange(0, i + 1) =~= items@.subrange(0, i as int).push(x));
            assert(top@ == t0.insert(j as int, x));
            vstd::seq_lib::to_multiset_insert(t0, j as int, x);
            vstd::seq_lib::to_multiset_build(items@.subrange(0, i as int), x);
            assert forall|v: T| #[trigger] count_not_below(greater, top@, v) == count_not_below(greater, items@.subrange(0, i + 1), v) by {
                lemma_not_below_insert(greater, t0, j as int, x, v);
                lemma_not_below_push(greater, items@.subrange(0, i as int), x, v);
            }
        }
        i += 1;
    }
    proof {
        assert forall|v: T| #[trigger] count_not_below(greater, top@, v) == if count_not_below(greater, items@.subrange(0, d as int), v) < d {
            count_not_below(greater, items@.subrange(0, d as int), v) as int
        } else {
            d as int
        } by {
            lemma_not_below_bound(greater, top@, v);
        }
    }
    while i < items.len()
        invariant
            is_ranking(greater),
            d <= i <= items.len(),
            d >= 1,
            top.len() == d,
            best_of(greater, top@, items@.subrange(0, i as int), d as int),
        decreases items.len() - i,
    {
        let ghost seen = items@.subrange(0, i as int);
        offer_ranked(&mut top, &greater, items[i], Ghost(seen));
        proof {
            assert(seen.push(items@[i as int]) =~= items@.subrange(0, i + 1));
        }
        i += 1;
    }
    proof {
        assert(items@.subrange(0, items.len() as int) =~= items@);
    }
    Some(top)
}

} // verus!
