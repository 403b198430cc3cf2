//! Playground: junction boxes in space joined into circuits, closest pairs
//! first.
use crate::disjoint_set::{listed, DisjointSet};
use crate::geometry::{point3, Point};
use crate::iter_utils::{count_ge, largest_of, largest_values};
use crate::parsing::{parse_i64_text, signed_text, split_lines, span_view, text_lines};
use crate::sort::{sort_triples, sorted_lex};
use vstd::prelude::*;

verus! {

/// The largest coordinate size the distances are computed for.
pub open spec fn coord_ok(p: Point<3, i64>) -> bool {
    &&& -0x2000_0000 <= p.coords[0] <= 0x2000_0000
    &&& -0x2000_0000 <= p.coords[1] <= 0x2000_0000
    &&& -0x2000_0000 <= p.coords[2] <= 0x2000_0000
}

/// The squared distance of two points.
pub open spec fn dist2(a: Point<3, i64>, b: Point<3, i64>) -> int {
    let dx = b.coords[0] - a.coords[0];
    let dy = b.coords[1] - a.coords[1];
    let dz = b.coords[2] - a.coords[2];
    dx * dx + dy * dy + dz * dz
}

/// Every pair of points `(i, j)` with `i < j`, with its squared distance,
/// for the first `i` below `n`, in order.
pub open spec fn all_pairs(points: Seq<Point<3, i64>>, n: int) -> Seq<(u64, usize, usize)>
    decreases n,
{
    if n <= 0 {
        Seq::empty()
    } else {
        all_pairs(points, n - 1) + Seq::new(
            (points.len() - n) as nat,
            |j: int| (dist2(points[n - 1], points[n + j]) as u64, (n - 1) as usize, (n + j) as usize),
        )
    }
}

proof fn lemma_dist_bound(a: Point<3, i64>, b: Point<3, i64>)
    requires
        coord_ok(a),
        coord_ok(b),
    ensures
        0 <= dist2(a, b) <= 3 * 0x1000_0000_0000_0000,
{
    let dx = b.coords[0] - a.coords[0];
    let dy = b.coords[1] - a.coords[1];
    let dz = b.coords[2] - a.coords[2];
    assert(0 <= dx * dx <= 0x1000_0000_0000_0000) by (nonlinear_arith)
        requires
            -0x4000_0000 <= dx <= 0x4000_0000;
    assert(0 <= dy * dy <= 0x1000_0000_0000_0000) by (nonlinear_arith)
        requires
            -0x4000_0000 <= dy <= 0x4000_0000;
    assert(0 <= dz * dz <= 0x1000_0000_0000_0000) by (nonlinear_arith)
        requires
            -0x4000_0000 <= dz <= 0x4000_0000;
}

/// The squared distance of two points.
fn distance(a: &Point<3, i64>, b: &Point<3, i64>) -> (r: u64)
    requires
        coord_ok(*a),
        coord_ok(*b),
    ensures
        r == dist2(*a, *b),
{
    proof {
        lemma_dist_bound(*a, *b);
    }
    let dx = b.coords[0] - a.coords[0];
    let dy = b.coords[1] - a.coords[1];
    let dz = b.coords[2] - a.coords[2];
    proof {
        assert(0 <= dx * dx <= 0x1000_0000_0000_0000) by (nonlinear_arith)
            requires
                -0x4000_0000 <= dx <= 0x4000_0000;
        assert(0 <= dy * dy <= 0x1000_0000_0000_0000) by (nonlinear_arith)
            requires
                -0x4000_0000 <= dy <= 0x4000_0000;
        assert(0 <= dz * dz <= 0x1000_0000_0000_0000) by (nonlinear_arith)
            requires
                -0x4000_0000 <= dz <= 0x4000_0000;
    }
    (dx * dx + dy * dy + dz * dz) as u64
}

/// Every pair of points with its squared distance, closest first (ties by
/// the indices).
pub fn sorted_distances(points: &[Point<3, i64>]) -> (r: Vec<(u64, usize, usize)>)
    requires
        forall|i: int| 0 <= i < points.len() ==> coord_ok(#[trigger] points@[i]),
    ensures
        sorted_lex(r@),
        r@.to_multiset() == all_pairs(points@, points.len() as int).to_multiset(),
{
    let n = points.len();
    let mut pairs: Vec<(u64, usize, usize)> = Vec::new();
    let mut i: usize = 0;
    while i < n
        invariant
            n == points.len(),
            forall|k: int| 0 <= k < points.len() ==> coord_ok(#[trigger] points@[k]),
            i <= n,
            pairs@ == all_pairs(points@, i as int),
        decreases n - i,
    {
        let ghost before = pairs@;
        let mut j: usize = i + 1;
        while j < n
            invariant
                n == points.len(),
                forall|k: int| 0 <= k < points.len() ==> coord_ok(#[trigger] points@[k]),
                i < n,
                i + 1 <= j <= n,
                pairs@ == before + Seq::new(
                    (j - i - 1) as nat,
                    |m: int| (dist2(points@[i as int], points@[i + 1 + m]) as u64, i, (i + 1 + m) as usize),
                ),
            decreases n - j,
        {
            let d = distance(&points[i], &points[j]);
            pairs.push((d, i, j));
            proof {
                assert(pairs@ =~= before + Seq::new(
                    (j + 1 - i - 1) as nat,
                    |m: int| (dist2(points@[i as int], points@[i + 1 + m]) as u64, i, (i + 1 + m) as usize),
                ));
            }
            j += 1;
        }
        proof {
            assert(all_pairs(points@, i + 1) =~= before + Seq::new(
                (n - i - 1) as nat,
                |m: int| (dist2(points@[i as int], points@[i + 1 + m]) as u64, i, (i + 1 + m) as usize),
            ));
        }
        i += 1;
    }
    sort_triples(pairs.as_slice())
}

/// Whether boxes `x` and `y` are in one circuit after the first `k` pairs
/// of `pairs` are connected, among `n` boxes.
pub open spec fn linked(pairs: Seq<(u64, usize, usize)>, n: int, k: int, x: int, y: int) -> bool
    decreases k,
{
    if k <= 0 {
        0 <= x < n && x == y
    } else {
        let a = pairs[k - 1].1 as int;
        let b = pairs[k - 1].2 as int;
        if a < n && b < n {
            linked(pairs, n, k - 1, x, y) || (linked(pairs, n, k - 1, x, a) && linked(pairs, n, k - 1, y, b)) || (
            linked(pairs, n, k - 1, x, b) && linked(pairs, n, k - 1, y, a))
        } else {
            linked(pairs, n, k - 1, x, y)
        }
    }
}

/// `lists` splits the boxes `0..n` into the circuits that `linked` gives.
pub open spec fn circuits(lists: Seq<Seq<usize>>, pairs: Seq<(u64, usize, usize)>, n: int, k: int) -> bool {
    &&& forall|c: int| 0 <= c < lists.len() ==> #[trigger] lists[c].len() > 0
    &&& forall|c: int, m1: int, m2: int|
        0 <= c < lists.len() && 0 <= m1 < m2 < lists[c].len() ==> #[trigger] lists[c][m1] < #[trigger] lists[c][m2]
    &&& forall|c: int, m: int| 0 <= c < lists.len() && 0 <= m < lists[c].len() ==> #[trigger] lists[c][m] < n
    &&& forall|c1: int, c2: int, m1: int, m2: int|
        0 <= c1 < lists.len() && 0 <= c2 < lists.len() && 0 <= m1 < lists[c1].len() && 0 <= m2 < lists[c2].len()
            ==> (linked(pairs, n, k, #[trigger] lists[c1][m1] as int, #[trigger] lists[c2][m2] as int) <==> c1 == c2)
    &&& forall|x: int| 0 <= x < n ==> #[trigger] in_lists(lists, x)
}

/// `x` is in one of the lists.
pub open spec fn in_lists(lists: Seq<Seq<usize>>, x: int) -> bool {
    exists|c: int, m: int| 0 <= c < lists.len() && 0 <= m < lists[c].len() && #[trigger] lists[c][m] == x
}

/// The product of a sequence of sizes.
pub open spec fn product(s: Seq<i64>) -> int
    decreases s.len(),
{
    if s.len() == 0 {
        1
    } else {
        product(s.drop_last()) * s.last()
    }
}

/// Connects the first `count` pairs, or all of them.
fn connect(n: usize, pairs: &[(u64, usize, usize)], count: usize) -> (r: DisjointSet)
    ensures
        r.wf(),
        r.spec_len() == n,
        forall|x: int, y: int| #[trigger] r.joined(x, y) <==> linked(pairs@, n as int, if count < pairs.len() { count as int } else { pairs.len() as int }, x, y),
{
    let mut links = DisjointSet::with_len(n);
    let limit = if count < pairs.len() {
        count
    } else {
        pairs.len()
    };
    let mut k: usize = 0;
    while k < limit
        invariant
            limit <= pairs.len(),
            k <= limit,
            links.wf(),
            links.spec_len() == n,
            forall|x: int, y: int| #[trigger] links.joined(x, y) <==> linked(pairs@, n as int, k as int, x, y),
        decreases limit - k,
    {
        let (_, a, b) = pairs[k];
        let ghost before = links;
        links.join(a, b);
        proof {
            assert forall|x: int, y: int| #[trigger] links.joined(x, y) <==> linked(pairs@, n as int, k + 1, x, y) by {
                assert(before.joined(x, y) <==> linked(pairs@, n as int, k as int, x, y));
                assert(before.joined(x, a as int) <==> linked(pairs@, n as int, k as int, x, a as int));
                assert(before.joined(y, b as int) <==> linked(pairs@, n as int, k as int, y, b as int));
                assert(before.joined(x, b as int) <==> linked(pairs@, n as int, k as int, x, b as int));
                assert(before.joined(y, a as int) <==> linked(pairs@, n as int, k as int, y, a as int));
                if !(a < n && b < n) {
                    assert(!before.joined(x, a as int) || !before.joined(y, b as int));
                    assert(!before.joined(x, b as int) || !before.joined(y, a as int));
                }
            }
        }
        k += 1;
    }
    links
}

/// The product of the sizes of the three largest circuits after the
/// closest pairs are connected: ten of them for fewer than 100 boxes, else a
/// thousand.
pub fn calculate_part1(n: usize, pairs: &[(u64, usize, usize)]) -> (r: usize)
    requires
        n * n * n <= usize::MAX,
    ensures
        exists|lists: Seq<Seq<usize>>, t: Seq<i64>|
            circuits(
                lists,
                pairs@,
                n as int,
                if (if n < 100 { 10int } else { 1000int }) < pairs.len() {
                    if n < 100 { 10int } else { 1000int }
                } else {
                    pairs.len() as int
                },
            ) && largest_of(
                t,
                lists.map_values(|l: Seq<usize>| l.len() as i64),
                if lists.len() < 3 { lists.len() as int } else { 3 },
            ) && r == product(t),
{
    let count: usize = if n < 100 {
        10
    } else {
        1000
    };
    let links = connect(n, pairs, count);
    let sets = links.sets();
    let ghost lists = sets@.map_values(|v: Vec<usize>| v@);
    let ghost limit = if count < pairs.len() {
        count as int
    } else {
        pairs.len() as int
    };
    proof {
        assert forall|k: int| 0 <= k < sets.len() implies (#[trigger] sets@[k]).len() <= n by {
            lemma_increasing_len(sets@[k]@, n as int);
        }
        assert(circuits(lists, pairs@, n as int, limit)) by {
            assert forall|c1: int, c2: int, m1: int, m2: int|
                0 <= c1 < lists.len() && 0 <= c2 < lists.len() && 0 <= m1 < lists[c1].len() && 0 <= m2
                    < lists[c2].len() implies (linked(
                    pairs@,
                    n as int,
                    limit,
                    #[trigger] lists[c1][m1] as int,
                    #[trigger] lists[c2][m2] as int,
                ) <==> c1 == c2) by {
                assert(lists[c1][m1] == sets@[c1]@[m1] && lists[c2][m2] == sets@[c2]@[m2]);
                assert(links.joined(sets@[c1]@[m1] as int, sets@[c2]@[m2] as int) <==> linked(
                    pairs@,
                    n as int,
                    limit,
                    sets@[c1]@[m1] as int,
                    sets@[c2]@[m2] as int,
                ));
            }
            assert forall|x: int| 0 <= x < n implies #[trigger] in_lists(lists, x) by {
                assert(listed(sets@, x));
                let (k, m) = choose|k: int, m: int|
                    0 <= k < sets@.len() && 0 <= m < sets@[k]@.len() && #[trigger] sets@[k]@[m] == x;
                assert(lists[k][m] == x);
            }
        }
    }
    let mut sizes: Vec<i64> = Vec::new();
    let mut c: usize = 0;
    while c < sets.len()
        invariant
            n * n * n <= usize::MAX,
            c <= sets.len(),
            sizes.len() == c,
            forall|k: int| 0 <= k < sets.len() ==> (#[trigger] sets@[k]).len() <= n,
            forall|k: int| 0 <= k < c ==> #[trigger] sizes@[k] == sets@[k]@.len() as i64,
        decreases sets.len() - c,
    {
        proof {
            assert(n < 0x1_0000_0000) by (nonlinear_arith)
                requires
                    n * n * n <= 0xffff_ffff_ffff_ffff,
                    n >= 0;
            assert(sets@[c as int].len() <= n);
        }
        sizes.push(sets[c].len() as i64);
        c += 1;
    }
    proof {
        assert(sizes@ =~= lists.map_values(|l: Seq<usize>| l.len() as i64));
    }
    let d = if sets.len() < 3 {
        sets.len()
    } else {
        3
    };
    let t = match largest_values(sizes.as_slice(), d) {
        Some(t) => t,
        None => {
            return 0;
        },
    };
    proof {
        assert(n < 0x1_0000_0000) by (nonlinear_arith)
            requires
                n * n * n <= 0xffff_ffff_ffff_ffff,
                n >= 0;
        assert forall|k: int| 0 <= k < sizes.len() implies 0 <= #[trigger] sizes@[k] <= n by {
            assert(sets@[k].len() <= n);
        }
        lemma_count_ge_zero(sizes@, n as int + 1);
        assert(count_ge(t@, n as int + 1) == 0);
        lemma_count_ge_zero(t@, n as int + 1);
        lemma_count_ge_all(sizes@, 0);
        assert(count_ge(t@, 0) == t.len());
        lemma_count_ge_all(t@, 0);
    }
    let mut r: usize = 1;
    let mut i: usize = 0;
    while i < t.len()
        invariant
            t.len() == d <= 3,
            n * n * n <= usize::MAX,
            forall|j: int| 0 <= j < t.len() ==> 0 <= #[trigger] t@[j] < n + 1,
            i <= t.len(),
            r == product(t@.subrange(0, i as int)),
            r <= pow_n(n as int, i as int),
        decreases t.len() - i,
    {
        proof {
            assert(t@.subrange(0, i + 1).drop_last() =~= t@.subrange(0, i as int));
            lemma_pow_n(n as int, i as int);
            assert(r * t@[i as int] <= pow_n(n as int, i as int) * n) by (nonlinear_arith)
                requires
                    0 <= r <= pow_n(n as int, i as int),
                    0 <= t@[i as int] <= n;
            lemma_pow_n_le(n as int, (i + 1) as int);
            assert(r * t@[i as int] <= usize::MAX);
        }
        r = r * (t[i] as usize);
        i += 1;
    }
    proof {
        assert(t@.subrange(0, t.len() as int) =~= t@);
    }
    r
}

/// `n` to the power `k`.
pub open spec fn pow_n(n: int, k: int) -> int
    decreases k,
{
    if k <= 0 {
        1
    } else {
        pow_n(n, k - 1) * n
    }
}

proof fn lemma_pow_n(n: int, k: int)
    requires
        n >= 0,
        k >= 0,
    ensures
        pow_n(n, k) >= 0,
        pow_n(n, k + 1) == pow_n(n, k) * n,
    decreases k,
{
    if k > 0 {
        lemma_pow_n(n, k - 1);
        assert(pow_n(n, k - 1) * n >= 0) by (nonlinear_arith)
            requires
                pow_n(n, k - 1) >= 0,
                n >= 0;
    }
}

proof fn lemma_pow_n_le(n: int, k: int)
    requires
        n >= 0,
        0 <= k <= 3,
    ensures
        pow_n(n, k) <= 1 || pow_n(n, k) <= n * n * n,
{
    reveal_with_fuel(pow_n, 4);
    if n >= 1 {
        assert(n <= n * n * n && n * n <= n * n * n) by (nonlinear_arith)
            requires
                n >= 1;
    }
}

proof fn lemma_increasing_len(s: Seq<usize>, n: int)
    requires
        n >= 0,
        forall|m1: int, m2: int| 0 <= m1 < m2 < s.len() ==> #[trigger] s[m1] < #[trigger] s[m2],
        forall|m: int| 0 <= m < s.len() ==> #[trigger] s[m] < n,
    ensures
        s.len() <= n,
{
    if s.len() > 0 {
        assert forall|m: int| 0 <= m < s.len() implies #[trigger] s[m] >= m by {
            lemma_increasing_at_least(s, m);
        }
        assert(s[s.len() - 1] >= s.len() - 1);
    }
}

proof fn lemma_increasing_at_least(s: Seq<usize>, m: int)
    requires
        forall|m1: int, m2: int| 0 <= m1 < m2 < s.len() ==> #[trigger] s[m1] < #[trigger] s[m2],
        0 <= m < s.len(),
    ensures
        s[m] >= m,
    decreases m,
{
    if m > 0 {
        lemma_increasing_at_least(s, m - 1);
        assert(s[m - 1] < s[m]);
    }
}

proof fn lemma_count_ge_all(s: Seq<i64>, v: int)
    ensures
        count_ge(s, v) <= s.len(),
        count_ge(s, v) == s.len() <==> forall|i: int| 0 <= i < s.len() ==> #[trigger] s[i] >= v,
    decreases s.len(),
{
    if s.len() > 0 {
        lemma_count_ge_all(s.drop_last(), v);
        assert forall|i: int| 0 <= i < s.len() - 1 implies s.drop_last()[i] == #[trigger] s[i] by {}
    }
}

proof fn lemma_count_ge_zero(s: Seq<i64>, v: int)
    ensures
        count_ge(s, v) == 0 <==> forall|i: int| 0 <= i < s.len() ==> #[trigger] s[i] < v,
    decreases s.len(),
{
    if s.len() > 0 {
        lemma_count_ge_zero(s.drop_last(), v);
        assert forall|i: int| 0 <= i < s.len() - 1 implies s.drop_last()[i] == #[trigger] s[i] by {}
    }
}

/// The first comma at or after `i`, or the end of `s`.
pub open spec fn comma_at(s: Seq<u8>, i: int) -> int
    decreases s.len() - i,
{
    if i < 0 || i >= s.len() || s[i] == 44 {
        i
    } else {
        comma_at(s, i + 1)
    }
}

/// An `i64` written as the whole of `s`.
pub open spec fn i64_text(s: Seq<u8>) -> Option<i64> {
    let v = signed_text(s);
    if v is Some && i64::MIN <= v->0 <= i64::MAX {
        Some(v->0 as i64)
    } else {
        None
    }
}

/// The point a line `x,y,z` stands for.
pub open spec fn point_of(s: Seq<u8>) -> Option<Point<3, i64>> {
    let c1 = comma_at(s, 0);
    let c2 = comma_at(s, c1 + 1);
    if c1 < s.len() && c2 < s.len() {
        let x = i64_text(s.subrange(0, c1));
        let y = i64_text(s.subrange(c1 + 1, c2));
        let z = i64_text(s.subrange(c2 + 1, s.len() as int));
        if x is Some && y is Some && z is Some {
            Some(Point { coords: [x->0, y->0, z->0] })
        } else {
            None
        }
    } else {
        None
    }
}

fn find_comma(s: &[u8], i: usize) -> (r: usize)
    requires
        i <= s.len(),
    ensures
        r == comma_at(s@, i as int),
        i <= r <= s.len(),
{
    let mut j = i;
    while j < s.len() && s[j] != 44
        invariant
            i <= j <= s.len(),
            comma_at(s@, i as int) == comma_at(s@, j as int),
        decreases s.len() - j,
    {
        j += 1;
    }
    j
}

/// The points of a text, one `x,y,z` per line; `None` when a line is not
/// one.
pub fn parse_points(input: &[u8]) -> (r: Option<Vec<Point<3, i64>>>)
    ensures
        r is Some <==> forall|k: int|
            0 <= k < text_lines(input@).len() ==> #[trigger] point_of(
                input@.subrange(text_lines(input@)[k].0, text_lines(input@)[k].0 + text_lines(input@)[k].1),
            ) is Some,
        r matches Some(points) ==> points.len() == text_lines(input@).len() && forall|k: int|
            0 <= k < points.len() ==> Some(#[trigger] points@[k]) == point_of(
                input@.subrange(text_lines(input@)[k].0, text_lines(input@)[k].0 + text_lines(input@)[k].1),
            ),
{
    let lines = split_lines(input);
    let ghost tl = text_lines(input@);
    let mut points: Vec<Point<3, i64>> = Vec::new();
    let mut k: usize = 0;
    while k < lines.len()
        invariant
            span_view(lines@) == tl,
            tl == text_lines(input@),
            forall|j: int| 0 <= j < lines.len() ==> #[trigger] lines@[j].0 + lines@[j].1 <= input.len(),
            k <= lines.len(),
            points.len() == k,
            forall|j: int|
                0 <= j < k ==> Some(#[trigger] points@[j]) == point_of(input@.subrange(tl[j].0, tl[j].0 + tl[j].1)),
        decreases lines.len() - k,
    {
        let (st, l) = lines[k];
        proof {
            assert(tl[k as int] == (st as int, l as int));
        }
        let line = &input[st..st + l];
        proof {
            assert(line@ == input@.subrange(st as int, st + l));
        }
        let c1 = find_comma(line, 0);
        if c1 >= l {
            return None;
        }
        let c2 = find_comma(line, c1 + 1);
        if c2 >= l {
            return None;
        }
        let xs = &line[0..c1];
        let ys = &line[c1 + 1..c2];
        let zs = &line[c2 + 1..l];
        proof {
            assert(xs@ == line@.subrange(0, c1 as int));
            assert(ys@ == line@.subrange(c1 + 1, c2 as int));
            assert(zs@ == line@.subrange(c2 + 1, l as int));
        }
        let x = match parse_i64_text(xs) {
            Some(v) => v,
            None => {
                return None;
            },
        };
        let y = match parse_i64_text(ys) {
            Some(v) => v,
            None => {
                return None;
            },
        };
        let z = match parse_i64_text(zs) {
            Some(v) => v,
            None => {
                return None;
            },
        };
        let p = point3(x, y, z);
        proof {
            assert(p.coords =~= [x, y, z]);
            assert(point_of(line@) == Some(p));
        }
        points.push(p);
        k += 1;
    }
    proof {
        assert(span_view(lines@).len() == lines@.len());
        assert forall|j: int| 0 <= j < tl.len() implies #[trigger] point_of(
            input@.subrange(tl[j].0, tl[j].0 + tl[j].1),
        ) is Some by {
            assert(Some(points@[j]) == point_of(input@.subrange(tl[j].0, tl[j].0 + tl[j].1)));
        }
    }
    Some(points)
}

/// Pair `q` of the list joins two circuits.
pub open spec fn joins_at(pairs: Seq<(u64, usize, usize)>, n: int, q: int) -> bool {
    pairs[q].1 < n && pairs[q].2 < n && !linked(pairs, n, q, pairs[q].1 as int, pairs[q].2 as int)
}

/// How many of the first `k` pairs join two circuits.
pub open spec fn joins_before(pairs: Seq<(u64, usize, usize)>, n: int, k: int) -> int
    decreases k,
{
    if k <= 0 {
        0
    } else {
        joins_before(pairs, n, k - 1) + if joins_at(pairs, n, k - 1) {
            1int
        } else {
            0
        }
    }
}

/// The product of the `x` coordinates of the pair that joins the last two
/// circuits into one: the `n - 1`-th pair, in order, that joins two.
pub fn calculate_part2(points: &[Point<3, i64>], pairs: &[(u64, usize, usize)]) -> (r: i64)
    requires
        points.len() >= 2,
        forall|i: int| 0 <= i < points.len() ==> coord_ok(#[trigger] points@[i]),
        forall|k: int| 0 <= k < pairs.len() ==> (#[trigger] pairs@[k]).1 < points.len() && pairs@[k].2 < points.len(),
        exists|q: int|
            0 <= q < pairs.len() && joins_at(pairs@, points.len() as int, q) && #[trigger] joins_before(
                pairs@,
                points.len() as int,
                q,
            ) == points.len() - 2,
    ensures
        exists|q: int|
            0 <= q < pairs.len() && joins_at(pairs@, points.len() as int, q) && #[trigger] joins_before(
                pairs@,
                points.len() as int,
                q,
            ) == points.len() - 2 && r == points@[pairs@[q].1 as int].coords[0] * points@[pairs@[q].2 as int].coords[0],
{
    let n = points.len();
    let mut links = DisjointSet::with_len(n);
    let mut joined: usize = 0;
    let mut k: usize = 0;
    while k < pairs.len()
        invariant
            n == points.len(),
            n >= 2,
            forall|i: int| 0 <= i < points.len() ==> coord_ok(#[trigger] points@[i]),
            forall|j: int| 0 <= j < pairs.len() ==> (#[trigger] pairs@[j]).1 < n && pairs@[j].2 < n,
            exists|q: int|
                0 <= q < pairs.len() && joins_at(pairs@, n as int, q) && #[trigger] joins_before(pairs@, n as int, q)
                    == n - 2,
            k <= pairs.len(),
            links.wf(),
            links.spec_len() == n,
            forall|x: int, y: int| #[trigger] links.joined(x, y) <==> linked(pairs@, n as int, k as int, x, y),
            joined == joins_before(pairs@, n as int, k as int),
            joined <= n - 2,
            forall|q: int|
                0 <= q < k && joins_at(pairs@, n as int, q) ==> #[trigger] joins_before(pairs@, n as int, q) != n - 2,
        decreases pairs.len() - k,
    {
        let (_, a, b) = pairs[k];
        let ghost before = links;
        let merged = links.join(a, b);
        proof {
            assert(merged == joins_at(pairs@, n as int, k as int));
            assert forall|x: int, y: int| #[trigger] links.joined(x, y) <==> linked(pairs@, n as int, k + 1, x, y) by {
                assert(before.joined(x, y) <==> linked(pairs@, n as int, k as int, x, y));
                assert(before.joined(x, a as int) <==> linked(pairs@, n as int, k as int, x, a as int));
                assert(before.joined(y, b as int) <==> linked(pairs@, n as int, k as int, y, b as int));
                assert(before.joined(x, b as int) <==> linked(pairs@, n as int, k as int, x, b as int));
                assert(before.joined(y, a as int) <==> linked(pairs@, n as int, k as int, y, a as int));
            }
        }
        if merged {
            if joined == n - 2 {
                proof {
                    lemma_x_product(points@[a as int], points@[b as int]);
                }
                return points[a].coords[0] * points[b].coords[0];
            }
            proof {
                lemma_joins_grow(pairs@, n as int, k + 1);
            }
            joined += 1;
        }
        k += 1;
    }
    proof {
        let q = choose|q: int|
            0 <= q < pairs.len() && joins_at(pairs@, n as int, q) && #[trigger] joins_before(pairs@, n as int, q)
                == n - 2;
        assert(joins_before(pairs@, n as int, q) != n - 2);
    }
    0
}

proof fn lemma_joins_grow(pairs: Seq<(u64, usize, usize)>, n: int, k: int)
    ensures
        forall|q: int| q <= k ==> #[trigger] joins_before(pairs, n, q) <= joins_before(pairs, n, k),
    decreases k,
{
    if k > 0 {
        lemma_joins_grow(pairs, n, k - 1);
    }
}

proof fn lemma_x_product(a: Point<3, i64>, b: Point<3, i64>)
    requires
        coord_ok(a),
        coord_ok(b),
    ensures
        i64::MIN <= a.coords[0] * b.coords[0] <= i64::MAX,
{
    assert(-0x400_0000_0000_0000 <= a.coords[0] * b.coords[0] <= 0x400_0000_0000_0000) by (nonlinear_arith)
        requires
            -0x2000_0000 <= a.coords[0] <= 0x2000_0000,
            -0x2000_0000 <= b.coords[0] <= 0x2000_0000;
}

} // verus!
