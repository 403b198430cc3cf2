//! Treetop tree house: a grid of tree heights, seen from the edges.
use crate::aoc2022::grid::{sweep_index, sweep_line_len, sweep_lines, Grid};
use crate::iter_utils::count_true;
use crate::parsing::{split_lines, span_view, text_lines};
use vstd::prelude::*;

verus! {

/// The tree at position `p` of line `l` of sweep `d` is seen from where the
/// line starts: it is taller than 0 and than every tree before it.
pub open spec fn seen_in_line(items: Seq<u8>, w: int, h: int, d: int, l: int, p: int) -> bool {
    let x = items[sweep_index(d, w, h, l, p)];
    &&& x > 0
    &&& forall|q: int| 0 <= q < p ==> #[trigger] items[sweep_index(d, w, h, l, q)] < x
}

/// Position `p` of line `l` of sweep `d` holds tree `i` and sees it.
pub open spec fn marks(items: Seq<u8>, w: int, h: int, d: int, l: int, p: int, i: int) -> bool {
    &&& 0 <= d < 4
    &&& 0 <= l < sweep_lines(d, w, h)
    &&& 0 <= p < sweep_line_len(d, w, h)
    &&& sweep_index(d, w, h, l, p) == i
    &&& seen_in_line(items, w, h, d, l, p)
}

/// Tree `i` is seen from some edge of the grid.
pub open spec fn visible(items: Seq<u8>, w: int, h: int, i: int) -> bool {
    exists|d: int, l: int, p: int| #[trigger] marks(items, w, h, d, l, p, i)
}

/// `(d2, l2, p2)` comes before `(d, l, p)` in the order of the sweeps.
pub open spec fn before(d2: int, l2: int, p2: int, d: int, l: int, p: int) -> bool {
    d2 < d || (d2 == d && l2 < l) || (d2 == d && l2 == l && p2 < p)
}

/// The tallest tree before position `p` of a line, or 0.
pub open spec fn line_max(items: Seq<u8>, w: int, h: int, d: int, l: int, p: int) -> u8
    decreases p,
{
    if p <= 0 {
        0
    } else {
        let m = line_max(items, w, h, d, l, p - 1);
        let x = items[sweep_index(d, w, h, l, p - 1)];
        if x > m {
            x
        } else {
            m
        }
    }
}

proof fn lemma_line_max(items: Seq<u8>, w: int, h: int, d: int, l: int, p: int)
    requires
        0 <= p,
    ensures
        forall|q: int| 0 <= q < p ==> #[trigger] items[sweep_index(d, w, h, l, q)] <= line_max(items, w, h, d, l, p),
        line_max(items, w, h, d, l, p) == 0 || exists|q: int|
            0 <= q < p && #[trigger] items[sweep_index(d, w, h, l, q)] == line_max(items, w, h, d, l, p),
    decreases p,
{
    if p > 0 {
        lemma_line_max(items, w, h, d, l, p - 1);
    }
}

proof fn lemma_seen_is_above_max(items: Seq<u8>, w: int, h: int, d: int, l: int, p: int)
    requires
        0 <= p,
    ensures
        seen_in_line(items, w, h, d, l, p) <==> items[sweep_index(d, w, h, l, p)] > line_max(items, w, h, d, l, p),
{
    lemma_line_max(items, w, h, d, l, p);
}

/// The number of trees seen from outside the grid.
pub fn calculate_part1(grid: &Grid<u8>) -> (r: usize)
    requires
        grid.wf(),
    ensures
        r == count_true(
            Seq::new(
                grid.spec_items().len(),
                |i: int| visible(grid.spec_items(), grid.spec_width(), grid.spec_height(), i),
            ),
        ),
{
    let items = grid.values();
    let ghost w = grid.spec_width();
    let ghost h = grid.spec_height();
    let n = items.len();
    let mut reachable: Vec<bool> = Vec::new();
    let mut k: usize = 0;
    while k < n
        invariant
            k <= n,
            reachable.len() == k,
            forall|i: int| 0 <= i < k ==> !(#[trigger] reachable@[i]),
        decreases n - k,
    {
        reachable.push(false);
        k += 1;
    }
    let mut d: usize = 0;
    while d < 4
        invariant
            grid.wf(),
            items@ == grid.spec_items(),
            w == grid.spec_width(),
            h == grid.spec_height(),
            n == items.len(),
            d <= 4,
            reachable.len() == n,
            forall|i: int|
                0 <= i < n ==> (#[trigger] reachable@[i] <==> exists|d2: int, l2: int, p2: int|
                    before(d2, l2, p2, d as int, 0, 0) && #[trigger] marks(items@, w, h, d2, l2, p2, i)),
        decreases 4 - d,
    {
        let lines = grid.sweep(d);
        let mut l: usize = 0;
        while l < lines.len()
            invariant
                grid.wf(),
                items@ == grid.spec_items(),
                w == grid.spec_width(),
                h == grid.spec_height(),
                n == items.len(),
                d < 4,
                reachable.len() == n,
                lines.len() == sweep_lines(d as int, w, h),
                forall|l1: int| 0 <= l1 < lines.len() ==> (#[trigger] lines@[l1]).len() == sweep_line_len(d as int, w, h),
                forall|l1: int, p1: int|
                    0 <= l1 < lines.len() && 0 <= p1 < lines@[l1].len() ==> (#[trigger] lines@[l1]@[p1]) == sweep_index(
                        d as int,
                        w,
                        h,
                        l1,
                        p1,
                    ) && lines@[l1]@[p1] < n,
                l <= lines.len(),
                forall|i: int|
                    0 <= i < n ==> (#[trigger] reachable@[i] <==> exists|d2: int, l2: int, p2: int|
                        before(d2, l2, p2, d as int, l as int, 0) && #[trigger] marks(items@, w, h, d2, l2, p2, i)),
            decreases lines.len() - l,
        {
            let line = &lines[l];
            let mut max: u8 = 0;
            let mut p: usize = 0;
            while p < line.len()
                invariant
                    n == items.len(),
                    d < 4,
                    l < lines.len(),
                    reachable.len() == n,
                    lines.len() == sweep_lines(d as int, w, h),
                    *line == lines@[l as int],
                    line.len() == sweep_line_len(d as int, w, h),
                    forall|p1: int| 0 <= p1 < line.len() ==> (#[trigger] line@[p1]) == sweep_index(d as int, w, h, l as int, p1) && line@[p1] < n,
                    p <= line.len(),
                    max == line_max(items@, w, h, d as int, l as int, p as int),
                    forall|i: int|
                        0 <= i < n ==> (#[trigger] reachable@[i] <==> exists|d2: int, l2: int, p2: int|
                            before(d2, l2, p2, d as int, l as int, p as int) && #[trigger] marks(items@, w, h, d2, l2, p2, i)),
                decreases line.len() - p,
            {
                let ix = line[p];
                let x = items[ix];
                proof {
                    lemma_seen_is_above_max(items@, w, h, d as int, l as int, p as int);
                }
                let ghost r0 = reachable@;
                if x > max {
                    max = x;
                    reachable.set(ix, true);
                }
                proof {
                    assert forall|i: int| 0 <= i < n implies (#[trigger] reachable@[i] <==> exists|d2: int, l2: int, p2: int|
                        before(d2, l2, p2, d as int, l as int, p + 1) && #[trigger] marks(items@, w, h, d2, l2, p2, i)) by {
                        if exists|d2: int, l2: int, p2: int|
                            before(d2, l2, p2, d as int, l as int, p + 1) && #[trigger] marks(items@, w, h, d2, l2, p2, i) {
                            let (d2, l2, p2) = choose|d2: int, l2: int, p2: int|
                                before(d2, l2, p2, d as int, l as int, p + 1) && #[trigger] marks(items@, w, h, d2, l2, p2, i);
                            if !before(d2, l2, p2, d as int, l as int, p as int) {
                                assert(d2 == d && l2 == l && p2 == p);
                            }
                        }
                        if i == ix && x > line_max(items@, w, h, d as int, l as int, p as int) {
                            assert(marks(items@, w, h, d as int, l as int, p as int, i));
                        }
                        if i != ix || !(x > line_max(items@, w, h, d as int, l as int, p as int)) {
                            assert(reachable@[i] == r0[i]);
                            if exists|d2: int, l2: int, p2: int|
                                before(d2, l2, p2, d as int, l as int, p + 1) && #[trigger] marks(items@, w, h, d2, l2, p2, i) {
                                let (d2, l2, p2) = choose|d2: int, l2: int, p2: int|
                                    before(d2, l2, p2, d as int, l as int, p + 1) && #[trigger] marks(items@, w, h, d2, l2, p2, i);
                                if d2 == d && l2 == l && p2 == p {
                                    assert(false);
                                }
                            }
                        }
                    }
                }
                p += 1;
            }
            proof {
                assert forall|i: int| 0 <= i < n implies (#[trigger] reachable@[i] <==> exists|d2: int, l2: int, p2: int|
                    before(d2, l2, p2, d as int, l + 1, 0) && #[trigger] marks(items@, w, h, d2, l2, p2, i)) by {
                    if exists|d2: int, l2: int, p2: int|
                        before(d2, l2, p2, d as int, l + 1, 0) && #[trigger] marks(items@, w, h, d2, l2, p2, i) {
                        let (d2, l2, p2) = choose|d2: int, l2: int, p2: int|
                            before(d2, l2, p2, d as int, l + 1, 0) && #[trigger] marks(items@, w, h, d2, l2, p2, i);
                        assert(before(d2, l2, p2, d as int, l as int, p as int));
                    }
                }
            }
            l += 1;
        }
        proof {
            assert forall|i: int| 0 <= i < n implies (#[trigger] reachable@[i] <==> exists|d2: int, l2: int, p2: int|
                before(d2, l2, p2, d + 1, 0, 0) && #[trigger] marks(items@, w, h, d2, l2, p2, i)) by {
                if exists|d2: int, l2: int, p2: int|
                    before(d2, l2, p2, d + 1, 0, 0) && #[trigger] marks(items@, w, h, d2, l2, p2, i) {
                    let (d2, l2, p2) = choose|d2: int, l2: int, p2: int|
                        before(d2, l2, p2, d + 1, 0, 0) && #[trigger] marks(items@, w, h, d2, l2, p2, i);
                    assert(before(d2, l2, p2, d as int, l as int, 0));
                }
            }
        }
        d += 1;
    }
    let mut count: usize = 0;
    let mut i: usize = 0;
    while i < n
        invariant
            i <= n,
            reachable.len() == n,
            count == count_true(reachable@.subrange(0, i as int)),
            count <= i,
        decreases n - i,
    {
        proof {
            assert(reachable@.subrange(0, i + 1).drop_last() =~= reachable@.subrange(0, i as int));
        }
        if reachable[i] {
            count += 1;
        }
        i += 1;
    }
    proof {
        assert(reachable@.subrange(0, n as int) =~= reachable@);
        assert(reachable@ =~= Seq::new(n as nat, |i: int| visible(items@, w, h, i)));
    }
    count
}

/// The line and position at which a sweep meets item `i`.
pub open spec fn sweep_pos(d: int, w: int, h: int, i: int) -> (int, int) {
    if d == 0 {
        (i / w, i % w)
    } else if d == 1 {
        (i / w, w - 1 - i % w)
    } else if d == 2 {
        (i % w, i / w)
    } else {
        (i % w, h - 1 - i / w)
    }
}

proof fn lemma_sweep_pos(d: int, w: int, h: int, i: int)
    requires
        0 <= d < 4,
        w > 0,
        h > 0,
        0 <= i < w * h,
    ensures
        0 <= sweep_pos(d, w, h, i).0 < sweep_lines(d, w, h),
        0 <= sweep_pos(d, w, h, i).1 < sweep_line_len(d, w, h),
        sweep_index(d, w, h, sweep_pos(d, w, h, i).0, sweep_pos(d, w, h, i).1) == i,
{
    vstd::arithmetic::div_mod::lemma_fundamental_div_mod(i, w);
    vstd::arithmetic::div_mod::lemma_mod_pos_bound(i, w);
    let q = i / w;
    let r = i % w;
    assert(0 <= q < h) by (nonlinear_arith)
        requires
            i == w * q + r,
            0 <= r < w,
            0 <= i < w * h;
    assert(w * q == q * w) by (nonlinear_arith);
}

proof fn lemma_sweep_pos_of_index(d: int, w: int, h: int, l: int, p: int)
    requires
        0 <= d < 4,
        w > 0,
        h > 0,
        0 <= l < sweep_lines(d, w, h),
        0 <= p < sweep_line_len(d, w, h),
    ensures
        sweep_pos(d, w, h, sweep_index(d, w, h, l, p)) == (l, p),
{
    let i = sweep_index(d, w, h, l, p);
    if d == 0 {
        vstd::arithmetic::div_mod::lemma_fundamental_div_mod_converse(i, w, l, p);
    } else if d == 1 {
        vstd::arithmetic::div_mod::lemma_fundamental_div_mod_converse(i, w, l, w - 1 - p);
    } else if d == 2 {
        vstd::arithmetic::div_mod::lemma_fundamental_div_mod_converse(i, w, p, l);
    } else {
        vstd::arithmetic::div_mod::lemma_fundamental_div_mod_converse(i, w, h - 1 - p, l);
    }
}

/// The position of the last tree before `p` in the line that is at least
/// `x` tall, or 0.
pub open spec fn last_blocking(items: Seq<u8>, w: int, h: int, d: int, l: int, p: int, x: int) -> int
    decreases p,
{
    if p <= 0 {
        0
    } else if items[sweep_index(d, w, h, l, p - 1)] >= x {
        p - 1
    } else {
        last_blocking(items, w, h, d, l, p - 1, x)
    }
}

/// How many trees the tree at position `p` sees back along its line: up to
/// and including the first as tall as itself, or to the edge.
pub open spec fn view_distance(items: Seq<u8>, w: int, h: int, d: int, l: int, p: int) -> int {
    let x = items[sweep_index(d, w, h, l, p)];
    if x == 0 {
        0
    } else {
        p - last_blocking(items, w, h, d, l, p, x as int)
    }
}

proof fn lemma_last_blocking_law(items: Seq<u8>, w: int, h: int, d: int, l: int, p: int, x: int)
    requires
        0 <= p,
    ensures
        p > 0 ==> 0 <= last_blocking(items, w, h, d, l, p, x) < p,
        forall|q: int|
            last_blocking(items, w, h, d, l, p, x) < q < p ==> #[trigger] items[sweep_index(d, w, h, l, q)] < x,
        last_blocking(items, w, h, d, l, p, x) > 0 ==> items[sweep_index(
            d,
            w,
            h,
            l,
            last_blocking(items, w, h, d, l, p, x),
        )] >= x,
    decreases p,
{
    if p > 0 {
        lemma_last_blocking_law(items, w, h, d, l, p - 1, x);
    }
}

/// How far a tree sees back along a line: a tree of height 0 sees nothing;
/// otherwise, away from the edge it sees at least the next tree, every tree
/// it sees but the last is lower than itself, and the view ends either at
/// the edge or at the first tree at least as tall.
pub proof fn lemma_view_distance_law(items: Seq<u8>, w: int, h: int, d: int, l: int, p: int)
    requires
        0 <= p,
    ensures
        items[sweep_index(d, w, h, l, p)] == 0 ==> view_distance(items, w, h, d, l, p) == 0,
        items[sweep_index(d, w, h, l, p)] > 0 ==> {
            let x = items[sweep_index(d, w, h, l, p)];
            let v = view_distance(items, w, h, d, l, p);
            &&& 0 <= v <= p
            &&& p > 0 ==> v >= 1
            &&& forall|q: int| p - v < q < p ==> #[trigger] items[sweep_index(d, w, h, l, q)] < x
            &&& v < p ==> items[sweep_index(d, w, h, l, p - v)] >= x
        },
{
    let x = items[sweep_index(d, w, h, l, p)];
    lemma_last_blocking_law(items, w, h, d, l, p, x as int);
    if p == 0 {
        assert(last_blocking(items, w, h, d, l, p, x as int) == 0);
    }
}

/// The view distance of tree `i` in the direction of sweep `d`.
pub open spec fn distance_at(items: Seq<u8>, w: int, h: int, d: int, i: int) -> int {
    view_distance(items, w, h, d, sweep_pos(d, w, h, i).0, sweep_pos(d, w, h, i).1)
}

/// The scenic score of tree `i`: its view distances multiplied.
pub open spec fn scenic_score(items: Seq<u8>, w: int, h: int, i: int) -> int {
    distance_at(items, w, h, 0, i) * distance_at(items, w, h, 1, i) * distance_at(items, w, h, 2, i) * distance_at(
        items,
        w,
        h,
        3,
        i,
    )
}

/// The product of the first `d` view distances of tree `i`.
pub open spec fn partial_score(items: Seq<u8>, w: int, h: int, d: int, i: int) -> int
    decreases d,
{
    if d <= 0 {
        1
    } else {
        partial_score(items, w, h, d - 1, i) * distance_at(items, w, h, d - 1, i)
    }
}

proof fn lemma_last_blocking(items: Seq<u8>, w: int, h: int, d: int, l: int, p: int, x: int)
    requires
        0 <= p,
    ensures
        0 <= last_blocking(items, w, h, d, l, p, x) <= p,
        p > 0 ==> last_blocking(items, w, h, d, l, p, x) < p,
    decreases p,
{
    if p > 0 {
        lemma_last_blocking(items, w, h, d, l, p - 1, x);
    }
}

/// The view distances of every tree along one sweep, by the index of the
/// tree: a line keeps, for every height, where the last tree at least that
/// tall stood.
fn sweep_distances(grid: &Grid<u8>, d: usize) -> (r: Vec<u64>)
    requires
        grid.wf(),
        d < 4,
        grid.spec_width() > 0,
        grid.spec_height() > 0,
        forall|i: int| 0 <= i < grid.spec_items().len() ==> #[trigger] grid.spec_items()[i] <= 10,
    ensures
        r.len() == grid.spec_items().len(),
        forall|i: int| 0 <= i < r.len() ==> #[trigger] r@[i] < sweep_line_len(d as int, grid.spec_width(), grid.spec_height()),
        forall|i: int|
            0 <= i < r.len() ==> #[trigger] r@[i] == distance_at(
                grid.spec_items(),
                grid.spec_width(),
                grid.spec_height(),
                d as int,
                i,
            ),
{
    let items = grid.values();
    let ghost w = grid.spec_width();
    let ghost h = grid.spec_height();
    let n = items.len();
    let mut dist: Vec<u64> = Vec::new();
    let mut k: usize = 0;
    while k < n
        invariant
            k <= n,
            dist.len() == k,
            forall|i: int| 0 <= i < k ==> #[trigger] dist@[i] == 0,
        decreases n - k,
    {
        dist.push(0);
        k += 1;
    }
    let lines = grid.sweep(d);
    let mut l: usize = 0;
    while l < lines.len()
        invariant
            grid.wf(),
            items@ == grid.spec_items(),
            w == grid.spec_width(),
            h == grid.spec_height(),
            w > 0,
            h > 0,
            n == items.len(),
            n == w * h,
            d < 4,
            forall|i: int| 0 <= i < n ==> #[trigger] items@[i] <= 10,
            dist.len() == n,
            lines.len() == sweep_lines(d as int, w, h),
            forall|l1: int| 0 <= l1 < lines.len() ==> (#[trigger] lines@[l1]).len() == sweep_line_len(d as int, w, h),
            forall|l1: int, p1: int|
                0 <= l1 < lines.len() && 0 <= p1 < lines@[l1].len() ==> (#[trigger] lines@[l1]@[p1]) == sweep_index(
                    d as int,
                    w,
                    h,
                    l1,
                    p1,
                ) && lines@[l1]@[p1] < n,
            l <= lines.len(),
            forall|i: int| 0 <= i < n ==> #[trigger] dist@[i] < sweep_line_len(d as int, w, h),
            forall|i: int|
                0 <= i < n && sweep_pos(d as int, w, h, i).0 < l ==> #[trigger] dist@[i] == distance_at(
                    items@,
                    w,
                    h,
                    d as int,
                    i,
                ),
        decreases lines.len() - l,
    {
        let line = &lines[l];
        proof {
            assert forall|i: int|
                0 <= i < n && (sweep_pos(d as int, w, h, i).0 < l || (sweep_pos(d as int, w, h, i).0 == l
                    && sweep_pos(d as int, w, h, i).1 < 0)) implies #[trigger] dist@[i] == distance_at(items@, w, h, d as int, i) by {
                lemma_sweep_pos(d as int, w, h, i);
            }
        }
        let mut last_seen: [u64; 11] = [0; 11];
        let mut p: usize = 0;
        while p < line.len()
            invariant
                grid.wf(),
                items@ == grid.spec_items(),
                w == grid.spec_width(),
                h == grid.spec_height(),
                w > 0,
                h > 0,
                n == items.len(),
                n == w * h,
                d < 4,
                forall|i: int| 0 <= i < n ==> #[trigger] items@[i] <= 10,
                dist.len() == n,
                l < lines.len(),
                lines.len() == sweep_lines(d as int, w, h),
                *line == lines@[l as int],
                line.len() == sweep_line_len(d as int, w, h),
                forall|p1: int| 0 <= p1 < line.len() ==> (#[trigger] line@[p1]) == sweep_index(d as int, w, h, l as int, p1) && line@[p1] < n,
                p <= line.len(),
                last_seen[0] == p,
                forall|i: int| 0 <= i < n ==> #[trigger] dist@[i] < sweep_line_len(d as int, w, h),
                forall|b: int| 1 <= b <= 10 ==> #[trigger] last_seen[b] == last_blocking(items@, w, h, d as int, l as int, p as int, b),
                forall|i: int|
                    0 <= i < n && (sweep_pos(d as int, w, h, i).0 < l || (sweep_pos(d as int, w, h, i).0 == l
                        && sweep_pos(d as int, w, h, i).1 < p)) ==> #[trigger] dist@[i] == distance_at(items@, w, h, d as int, i),
            decreases line.len() - p,
        {
            let ix = line[p];
            let x = items[ix];
            proof {
                lemma_sweep_pos_of_index(d as int, w, h, l as int, p as int);
                lemma_last_blocking(items@, w, h, d as int, l as int, p as int, x as int);
            }
            let ghost dist0 = dist@;
            let v = last_seen[0] - last_seen[x as usize];
            dist.set(ix, v);
            proof {
                assert forall|i: int|
                    0 <= i < n && (sweep_pos(d as int, w, h, i).0 < l || (sweep_pos(d as int, w, h, i).0 == l
                        && sweep_pos(d as int, w, h, i).1 < p + 1)) implies #[trigger] dist@[i] == distance_at(items@, w, h, d as int, i) by {
                    lemma_sweep_pos(d as int, w, h, i);
                    if i != ix {
                        assert(dist@[i] == dist0[i]);
                        if sweep_pos(d as int, w, h, i) == (l as int, p as int) {
                            assert(i == sweep_index(d as int, w, h, l as int, p as int));
                        }
                    }
                }
            }
            let ghost ls0 = last_seen;
            let mut b: usize = 0;
            while b <= x as usize
                invariant
                    b <= x + 1,
                    x <= 10,
                    last_seen[0] == ls0[0] || b > 0,
                    forall|c: int| 0 <= c < b ==> #[trigger] last_seen[c] == p,
                    forall|c: int| b <= c <= 10 ==> #[trigger] last_seen[c] == ls0[c],
                    ls0[0] == p,
                decreases x + 1 - b,
            {
                last_seen[b] = p as u64;
                b += 1;
            }
            last_seen[0] = (p + 1) as u64;
            proof {
                assert forall|c: int| 1 <= c <= 10 implies #[trigger] last_seen[c] == last_blocking(items@, w, h, d as int, l as int, p + 1, c) by {
                    assert(items@[sweep_index(d as int, w, h, l as int, p as int)] == x);
                }
            }
            p += 1;
        }
        proof {
            assert forall|i: int|
                0 <= i < n && sweep_pos(d as int, w, h, i).0 < l + 1 implies #[trigger] dist@[i] == distance_at(
                    items@,
                    w,
                    h,
                    d as int,
                    i,
                ) by {
                lemma_sweep_pos(d as int, w, h, i);
            }
        }
        l += 1;
    }
    proof {
        assert forall|i: int| 0 <= i < n implies #[trigger] dist@[i] == distance_at(items@, w, h, d as int, i) by {
            lemma_sweep_pos(d as int, w, h, i);
        }
    }
    dist
}

/// The highest scenic score of any tree. A score multiplies two distances
/// shorter than a row and two shorter than a column, so a forest of at most
/// `u32::MAX` trees keeps every score within `u64`.
pub fn calculate_part2(grid: &Grid<u8>) -> (r: u64)
    requires
        grid.wf(),
        grid.spec_width() > 0,
        grid.spec_height() > 0,
        grid.spec_width() * grid.spec_height() <= u32::MAX,
        forall|i: int| 0 <= i < grid.spec_items().len() ==> #[trigger] grid.spec_items()[i] <= 10,
    ensures
        exists|i: int|
            0 <= i < grid.spec_items().len() && r == scenic_score(
                grid.spec_items(),
                grid.spec_width(),
                grid.spec_height(),
                i,
            ),
        forall|i: int|
            0 <= i < grid.spec_items().len() ==> scenic_score(
                grid.spec_items(),
                grid.spec_width(),
                grid.spec_height(),
                i,
            ) <= r,
{
    let ghost items = grid.spec_items();
    let ghost w = grid.spec_width();
    let ghost h = grid.spec_height();
    let n = grid.len();
    proof {
        assert(n > 0) by (nonlinear_arith)
            requires
                n == w * h,
                w > 0,
                h > 0;
    }
    let mut scores: Vec<u64> = Vec::new();
    let mut k: usize = 0;
    while k < n
        invariant
            k <= n,
            scores.len() == k,
            forall|i: int| 0 <= i < k ==> #[trigger] scores@[i] == 1,
        decreases n - k,
    {
        scores.push(1);
        k += 1;
    }
    let mut d: usize = 0;
    while d < 4
        invariant
            grid.wf(),
            items == grid.spec_items(),
            w == grid.spec_width(),
            h == grid.spec_height(),
            w > 0,
            h > 0,
            w * h <= u32::MAX,
            n == items.len(),
            forall|i: int| 0 <= i < n ==> #[trigger] items[i] <= 10,
            d <= 4,
            scores.len() == n,
            forall|i: int| 0 <= i < n ==> #[trigger] scores@[i] == partial_score(items, w, h, d as int, i),
            forall|i: int| 0 <= i < n ==> #[trigger] scores@[i] <= score_cap(d as int, w, h),
        decreases 4 - d,
    {
        let dist = sweep_distances(grid, d);
        let mut i: usize = 0;
        while i < n
            invariant
                d < 4,
                w > 0,
                h > 0,
                w * h <= u32::MAX,
                n == items.len(),
                dist.len() == n,
                forall|j: int| 0 <= j < n ==> #[trigger] dist@[j] < sweep_line_len(d as int, w, h),
                forall|j: int| 0 <= j < n ==> #[trigger] dist@[j] == distance_at(items, w, h, d as int, j),
                scores.len() == n,
                i <= n,
                forall|j: int| 0 <= j < i ==> #[trigger] scores@[j] == partial_score(items, w, h, d + 1, j),
                forall|j: int| i <= j < n ==> #[trigger] scores@[j] == partial_score(items, w, h, d as int, j),
                forall|j: int| 0 <= j < i ==> #[trigger] scores@[j] <= score_cap(d + 1, w, h),
                forall|j: int| i <= j < n ==> #[trigger] scores@[j] <= score_cap(d as int, w, h),
            decreases n - i,
        {
            let a = scores[i];
            let b = dist[i];
            proof {
                lemma_score_cap(d as int, w, h);
                lemma_score_cap(d + 1, w, h);
                let len = sweep_line_len(d as int, w, h);
                assert(a * b <= score_cap(d as int, w, h) * len) by (nonlinear_arith)
                    requires
                        a <= score_cap(d as int, w, h),
                        b < len,
                        a >= 0,
                        b >= 0,
                        score_cap(d as int, w, h) > 0;
                assert(score_cap(d + 1, w, h) == score_cap(d as int, w, h) * len);
            }
            scores.set(i, a * b);
            i += 1;
        }
        d += 1;
    }
    let mut best: u64 = scores[0];
    let ghost mut best_at: int = 0;
    let mut i: usize = 1;
    while i < n
        invariant
            n == items.len(),
            scores.len() == n,
            forall|j: int| 0 <= j < n ==> #[trigger] scores@[j] == partial_score(items, w, h, 4, j),
            1 <= i <= n,
            0 <= best_at < n,
            best == scores@[best_at],
            forall|j: int| 0 <= j < i ==> #[trigger] scores@[j] <= best,
        decreases n - i,
    {
        if scores[i] > best {
            best = scores[i];
            proof {
                best_at = i as int;
            }
        }
        i += 1;
    }
    proof {
        reveal_with_fuel(partial_score, 5);
        assert(best == scenic_score(items, w, h, best_at));
        assert forall|j: int| 0 <= j < n implies scenic_score(items, w, h, j) <= best by {
            assert(scores@[j] == partial_score(items, w, h, 4, j));
        }
    }
    best
}

/// A bound on a tree's score after the first `d` sweeps: each view
/// distance is shorter than the lines of its sweep.
pub open spec fn score_cap(d: int, w: int, h: int) -> int
    decreases d,
{
    if d <= 0 {
        1
    } else {
        score_cap(d - 1, w, h) * sweep_line_len(d - 1, w, h)
    }
}

proof fn lemma_score_cap(d: int, w: int, h: int)
    requires
        0 <= d <= 4,
        w > 0,
        h > 0,
        w * h <= u32::MAX,
    ensures
        0 < score_cap(d, w, h) <= u64::MAX,
{
    reveal_with_fuel(score_cap, 5);
    assert(0 < w * w * h * h <= u64::MAX && 0 < w * w * h && w * w * h <= w * w * h * h && 0 < w * w && w * w <= w * w * h
        && w <= w * w) by (nonlinear_arith)
        requires
            w > 0,
            h > 0,
            w * h <= u32::MAX,
    ;
    assert(score_cap(4, w, h) == w * w * h * h);
}

/// The heights of the trees of a line: each digit plus one, other bytes
/// skipped.
pub open spec fn tree_row(b: Seq<u8>) -> Seq<u8>
    decreases b.len(),
{
    if b.len() == 0 {
        Seq::empty()
    } else if 48 <= b.last() <= 57 {
        tree_row(b.drop_last()).push((b.last() - 48 + 1) as u8)
    } else {
        tree_row(b.drop_last())
    }
}

/// The rows of trees of a text, one per line.
pub open spec fn tree_rows(s: Seq<u8>) -> Seq<Seq<u8>> {
    text_lines(s).map_values(|span: (int, int)| tree_row(s.subrange(span.0, span.0 + span.1)))
}

/// The grid of tree heights of a text; `None` without lines, when the rows
/// differ in length, or when the grid would not fit in memory.
pub fn parse_input(input: &[u8]) -> (r: Option<Grid<u8>>)
    ensures
        r is Some <==> {
            let rows = tree_rows(input@);
            &&& rows.len() > 0
            &&& forall|k: int| 0 <= k < rows.len() ==> (#[trigger] rows[k]).len() == rows[0].len()
            &&& rows.len() * rows[0].len() <= usize::MAX
        },
        r matches Some(g) ==> {
            let rows = tree_rows(input@);
            &&& g.wf()
            &&& g.spec_height() == rows.len()
            &&& g.spec_width() == rows[0].len()
            &&& forall|y: int, x: int|
                0 <= y < rows.len() && 0 <= x < rows[0].len() ==> g.spec_items()[y * rows[0].len() + x]
                    == #[trigger] rows[y][x]
        },
{
    let lines = split_lines(input);
    let ghost tl = text_lines(input@);
    let ghost rows = tree_rows(input@);
    let mut grid_rows: Vec<Vec<u8>> = Vec::new();
    let mut k: usize = 0;
    while k < lines.len()
        invariant
            span_view(lines@) == tl,
            tl == text_lines(input@),
            rows == tree_rows(input@),
            rows.len() == tl.len(),
            forall|j: int| 0 <= j < lines.len() ==> #[trigger] lines@[j].0 + lines@[j].1 <= input.len(),
            k <= lines.len(),
            grid_rows.len() == k,
            forall|j: int| 0 <= j < k ==> (#[trigger] grid_rows@[j])@ == rows[j],
        decreases lines.len() - k,
    {
        let (st, l) = lines[k];
        proof {
            assert(tl[k as int] == (st as int, l as int));
        }
        let mut row: Vec<u8> = Vec::new();
        let mut x: usize = 0;
        while x < l
            invariant
                st + l <= input.len(),
                x <= l,
                row@ == tree_row(input@.subrange(st as int, st + x)),
            decreases l - x,
        {
            let b = input[st + x];
            proof {
                assert(input@.subrange(st as int, st + x + 1).drop_last() =~= input@.subrange(st as int, st + x));
            }
            if b >= 48 && b <= 57 {
                row.push(b - 48 + 1);
            }
            x += 1;
        }
        proof {
            assert(rows[k as int] == tree_row(input@.subrange(st as int, st + l)));
        }
        grid_rows.push(row);
        k += 1;
    }
    proof {
        assert(span_view(lines@).len() == lines@.len());
        assert(grid_rows.len() == rows.len());
    }
    if grid_rows.len() == 0 {
        return None;
    }
    let width = grid_rows[0].len();
    let mut j: usize = 0;
    while j < grid_rows.len()
        invariant
            j <= grid_rows.len(),
            rows == tree_rows(input@),
            grid_rows.len() == rows.len(),
            rows.len() > 0,
            width == rows[0].len(),
            forall|i: int| 0 <= i < grid_rows.len() ==> (#[trigger] grid_rows@[i])@ == rows[i],
            forall|i: int| 0 <= i < j ==> (#[trigger] rows[i]).len() == width,
        decreases grid_rows.len() - j,
    {
        if grid_rows[j].len() != width {
            proof {
                assert(grid_rows@[j as int]@ == rows[j as int]);
                assert(rows[j as int].len() != rows[0].len());
                assert(!(forall|k: int| 0 <= k < rows.len() ==> (#[trigger] rows[k]).len() == rows[0].len()));
            }
            return None;
        }
        j += 1;
    }
    match grid_rows.len().checked_mul(width) {
        None => None,
        Some(_) => {
            let ghost gr = grid_rows@;
            let g = Grid::new(grid_rows);
            proof {
                assert forall|y: int, x: int|
                    0 <= y < rows.len() && 0 <= x < rows[0].len() implies g.spec_items()[y * rows[0].len() + x]
                        == #[trigger] rows[y][x] by {
                    assert(gr[y]@ == rows[y]);
                }
            }
            Some(g)
        },
    }
}

} // verus!
