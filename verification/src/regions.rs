//! Splitting a grid into its regions: the groups of equal values that touch
//! each other horizontally or vertically.
use crate::bits::{flag_at, flags_from_elem, flags_of, set_flag};
use crate::direction::{step_of, Direction};
use crate::grid::{
    adjacent, index_of, lemma_index_in_range, lemma_index_unique, lemma_len_bound,
    lemma_location_of_index, location_from, pos, Grid, Location,
};
use bit_vec::BitVec;
use vstd::prelude::*;

verus! {

/// The locations of a list of regions, one region after the other.
pub open spec fn flatten(rs: Seq<Seq<Location>>) -> Seq<Location>
    decreases rs.len(),
{
    if rs.len() == 0 {
        Seq::empty()
    } else {
        flatten(rs.drop_last()) + rs.last()
    }
}

/// The contents of each vector of a list.
pub open spec fn views(r: Seq<Vec<Location>>) -> Seq<Seq<Location>> {
    r.map_values(|v: Vec<Location>| v@)
}

/// The positions of a sequence of locations.
pub open spec fn positions(s: Seq<Location>) -> Set<(int, int)> {
    Set::new(|p: (int, int)| exists|a: int| 0 <= a < s.len() && #[trigger] pos(s[a]) == p)
}

/// The row-major index of a location in a grid `w` columns wide.
pub open spec fn lidx(l: Location, w: int) -> int {
    index_of(l.coords[0] as int, l.coords[1] as int, w)
}

/// Every listed location lies in the grid with its index visited, every
/// visited index is found at `seen[k]` in the list, and no index repeats.
spec fn visit_ok<T>(g: Grid<T>, vis: Set<int>, seen: Map<int, int>, all: Seq<Location>) -> bool {
    let w = g.spec_width();
    &&& forall|j: int|
        0 <= j < all.len() ==> g.valid(pos(#[trigger] all[j]).0, pos(all[j]).1) && vis.contains(
            lidx(all[j], w),
        )
    &&& forall|k: int| #[trigger] vis.contains(k) ==> 0 <= seen[k] < all.len() && lidx(all[seen[k]], w) == k
    &&& forall|j1: int, j2: int|
        0 <= j1 < j2 < all.len() ==> lidx(#[trigger] all[j1], w) != lidx(#[trigger] all[j2], w)
}

/// The regions found so far: each is the region of its first location, their
/// first locations come in row-major order before `ix`, and no location of a
/// region comes before its first.
spec fn regions_ok<T>(g: Grid<T>, rs: Seq<Vec<Location>>, ix: int) -> bool {
    let w = g.spec_width();
    &&& forall|i: int|
        #![trigger rs[i]]
        0 <= i < rs.len() ==> rs[i]@.len() > 0 && positions(rs[i]@) == g.region(pos(rs[i]@[0])) && lidx(
            rs[i]@[0],
            w,
        ) < ix
    &&& forall|i: int, j: int|
        0 <= i < j < rs.len() ==> lidx(#[trigger] rs[i]@[0], w) < lidx(#[trigger] rs[j]@[0], w)
    &&& forall|i: int, a: int|
        0 <= i < rs.len() && 0 <= a < rs[i]@.len() ==> lidx(rs[i]@[0], w) <= lidx(#[trigger] rs[i]@[a], w)
}

/// The visited positions include, with each, its neighbours of equal value.
spec fn vis_closed<T>(g: Grid<T>, vis: Set<int>) -> bool {
    let w = g.spec_width();
    forall|p: (int, int), q: (int, int)|
        #![trigger adjacent(p, q)]
        g.valid(p.0, p.1) && vis.contains(index_of(p.0, p.1, w)) && adjacent(p, q) && g.valid(q.0, q.1)
            && g.cell(q.0, q.1) == g.cell(p.0, p.1) ==> vis.contains(index_of(q.0, q.1, w))
}

/// Every closed set that holds `start` holds the region so far and the stack.
spec fn dfs_sound<T>(g: Grid<T>, a: T, start: Location, region: Seq<Location>, stack: Seq<Location>) -> bool {
    forall|s: Set<(int, int)>|
        #[trigger] g.closed_region(a, s) && s.contains(pos(start)) ==> (forall|i: int|
            0 <= i < region.len() ==> s.contains(pos(#[trigger] region[i]))) && (forall|i: int|
            0 <= i < stack.len() ==> s.contains(pos(#[trigger] stack[i])))
}

/// Every neighbour holding `a` of a location of the region is visited or
/// waits on the stack.
spec fn dfs_pending<T>(g: Grid<T>, a: T, vis: Set<int>, region: Seq<Location>, stack: Seq<Location>) -> bool {
    forall|i: int, q: (int, int)|
        #![trigger region[i], adjacent(pos(region[i]), q)]
        0 <= i < region.len() && adjacent(pos(region[i]), q) && g.holds(q, a) ==> vis.contains(
            index_of(q.0, q.1, g.spec_width()),
        ) || exists|j: int| 0 <= j < stack.len() && #[trigger] pos(stack[j]) == q
}

/// Once the stack is empty, the locations found are the region of `start`,
/// and the visited positions are closed again.
proof fn lemma_region_found<T>(
    g: Grid<T>,
    start: Location,
    a: T,
    region: Seq<Location>,
    vis0: Set<int>,
    vis: Set<int>,
    seen: Map<int, int>,
    all0: Seq<Location>,
)
    requires
        g.wf(),
        g.valid(pos(start).0, pos(start).1),
        a == g.cell(pos(start).0, pos(start).1),
        region.len() > 0,
        region[0] == start,
        forall|i: int|
            0 <= i < region.len() ==> g.holds(pos(#[trigger] region[i]), a) && !vis0.contains(
                lidx(region[i], g.spec_width()),
            ),
        vis0.subset_of(vis),
        vis_closed(g, vis0),
        visit_ok(g, vis, seen, all0 + region),
        forall|j: int| 0 <= j < all0.len() ==> vis0.contains(lidx(#[trigger] all0[j], g.spec_width())),
        dfs_sound(g, a, start, region, Seq::empty()),
        dfs_pending(g, a, vis, region, Seq::empty()),
    ensures
        positions(region) == g.region(pos(start)),
        vis_closed(g, vis),
{
    let w = g.spec_width();
    let all = all0 + region;
    let r = positions(region);
    // A visited position outside `vis0` is a location of the region.
    assert forall|x: int, y: int|
        g.valid(x, y) && vis.contains(index_of(x, y, w)) && !vis0.contains(index_of(x, y, w)) implies r.contains(
        (x, y),
    ) by {
        let k = index_of(x, y, w);
        let j = seen[k];
        assert(vis.contains(k));
        assert(0 <= j < all.len() && lidx(all[j], w) == k);
        if j < all0.len() {
            assert(all[j] == all0[j]);
        } else {
            let i = j - all0.len();
            assert(all[j] == region[i]);
            assert(g.valid(pos(all[j]).0, pos(all[j]).1));
            lemma_index_unique(x, y, pos(region[i]).0, pos(region[i]).1, w);
            assert(pos(region[i]) == (x, y));
        }
    }
    // Every location of the region is visited.
    assert forall|i: int| 0 <= i < region.len() implies vis.contains(lidx(#[trigger] region[i], w)) by {
        assert(all[all0.len() + i] == region[i]);
    }
    // The locations found form a closed set.
    assert(g.closed_region(a, r)) by {
        assert forall|p: (int, int), q: (int, int)|
            #![trigger r.contains(p), adjacent(p, q)]
            r.contains(p) && adjacent(p, q) && g.holds(q, a) implies r.contains(q) by {
            let i = choose|i: int| 0 <= i < region.len() && #[trigger] pos(region[i]) == p;
            assert(region[i] == region[i]);
            assert(vis.contains(index_of(q.0, q.1, w)));
            if vis0.contains(index_of(q.0, q.1, w)) {
                // Its neighbour `p` would then be visited before the search.
                assert(adjacent(q, p));
                assert(g.holds(p, a));
                assert(vis0.contains(index_of(p.0, p.1, w)));
                assert(false);
            }
        }
    }
    assert(r.contains(pos(start))) by {
        assert(pos(region[0]) == pos(start));
    }
    assert forall|p: (int, int)| #[trigger] r.contains(p) implies g.region(pos(start)).contains(p) by {
        let i = choose|i: int| 0 <= i < region.len() && #[trigger] pos(region[i]) == p;
        assert(g.holds(pos(region[i]), a));
        assert forall|s: Set<(int, int)>|
            #[trigger] g.closed_region(g.cell(pos(start).0, pos(start).1), s) && s.contains(pos(start)) implies s.contains(
            p,
        ) by {
            assert(s.contains(pos(region[i])));
        }
    }
    assert forall|p: (int, int)| #[trigger] g.region(pos(start)).contains(p) implies r.contains(p) by {
        assert(g.closed_region(g.cell(pos(start).0, pos(start).1), r) && r.contains(pos(start)));
    }
    assert(r =~= g.region(pos(start)));
    // The visited positions are closed: those of the region through the
    // search, the others as before.
    assert forall|p: (int, int), q: (int, int)|
        #![trigger adjacent(p, q)]
        g.valid(p.0, p.1) && vis.contains(index_of(p.0, p.1, w)) && adjacent(p, q) && g.valid(q.0, q.1)
            && g.cell(q.0, q.1) == g.cell(p.0, p.1) implies vis.contains(index_of(q.0, q.1, w)) by {
        if !vis0.contains(index_of(p.0, p.1, w)) {
            assert(r.contains((p.0, p.1)));
            let i = choose|i: int| 0 <= i < region.len() && #[trigger] pos(region[i]) == (p.0, p.1);
            assert(region[i] == region[i]);
            assert(g.holds(q, a));
        }
    }
}

/// Popping a location that is already visited keeps the search's facts.
proof fn lemma_skip_step<T>(
    g: Grid<T>,
    a: T,
    start: Location,
    vis: Set<int>,
    region: Seq<Location>,
    stack_pre: Seq<Location>,
    popped: Seq<Location>,
    p: Location,
)
    requires
        stack_pre == popped.push(p),
        vis.contains(lidx(p, g.spec_width())),
        dfs_sound(g, a, start, region, stack_pre),
        dfs_pending(g, a, vis, region, stack_pre),
    ensures
        dfs_sound(g, a, start, region, popped),
        dfs_pending(g, a, vis, region, popped),
{
    assert forall|s: Set<(int, int)>| #[trigger] g.closed_region(a, s) && s.contains(pos(start)) implies (forall|i: int|
        0 <= i < region.len() ==> s.contains(pos(#[trigger] region[i]))) && (forall|i: int|
        0 <= i < popped.len() ==> s.contains(pos(#[trigger] popped[i]))) by {
        assert forall|i: int| 0 <= i < popped.len() implies s.contains(pos(#[trigger] popped[i])) by {
            assert(stack_pre[i] == popped[i]);
        }
    }
    assert forall|i: int, q: (int, int)|
        #![trigger region[i], adjacent(pos(region[i]), q)]
        0 <= i < region.len() && adjacent(pos(region[i]), q) && g.holds(q, a) implies vis.contains(
        index_of(q.0, q.1, g.spec_width()),
    ) || exists|j: int| 0 <= j < popped.len() && #[trigger] pos(popped[j]) == q by {
        if !vis.contains(index_of(q.0, q.1, g.spec_width())) {
            let j = choose|j: int| 0 <= j < stack_pre.len() && #[trigger] pos(stack_pre[j]) == q;
            if j == popped.len() {
                assert(stack_pre[j] == p);
            } else {
                assert(stack_pre[j] == popped[j]);
            }
        }
    }
}

/// Visiting a new location and appending it keeps the visit bookkeeping.
proof fn lemma_visit_ok_push<T>(g: Grid<T>, vis: Set<int>, seen: Map<int, int>, all: Seq<Location>, p: Location)
    requires
        visit_ok(g, vis, seen, all),
        g.valid(pos(p).0, pos(p).1),
        !vis.contains(lidx(p, g.spec_width())),
    ensures
        visit_ok(g, vis.insert(lidx(p, g.spec_width())), seen.insert(lidx(p, g.spec_width()), all.len() as int), all.push(p)),
{
    let w = g.spec_width();
    let k0 = lidx(p, w);
    let vis2 = vis.insert(k0);
    let seen2 = seen.insert(k0, all.len() as int);
    let all2 = all.push(p);
    assert forall|j: int| 0 <= j < all2.len() implies g.valid(pos(#[trigger] all2[j]).0, pos(all2[j]).1)
        && vis2.contains(lidx(all2[j], w)) by {
        if j < all.len() {
            assert(all2[j] == all[j]);
        }
    }
    assert forall|k: int| #[trigger] vis2.contains(k) implies 0 <= seen2[k] < all2.len() && lidx(all2[seen2[k]], w) == k by {
        if k != k0 {
            assert(vis.contains(k));
            assert(all2[seen[k]] == all[seen[k]]);
        }
    }
    assert forall|j1: int, j2: int| 0 <= j1 < j2 < all2.len() implies lidx(#[trigger] all2[j1], w) != lidx(
        #[trigger] all2[j2],
        w,
    ) by {
        assert(all2[j1] == all[j1]);
        if j2 < all.len() {
            assert(all2[j2] == all[j2]);
        } else {
            assert(vis.contains(lidx(all[j1], w)));
        }
    }
}

/// Appending a region appends its locations.
proof fn lemma_flatten_push(rs: Seq<Vec<Location>>, v: Vec<Location>)
    ensures
        flatten(views(rs.push(v))) == flatten(views(rs)) + v@,
{
    assert(views(rs.push(v)) =~= views(rs).push(v@));
    assert(views(rs.push(v)).drop_last() =~= views(rs));
}

/// A region found by a search started at index `ix` extends the list of
/// regions.
proof fn lemma_regions_push<T>(g: Grid<T>, rs: Seq<Vec<Location>>, v: Vec<Location>, ix: int, vis0: Set<int>)
    requires
        regions_ok(g, rs, ix),
        v@.len() > 0,
        positions(v@) == g.region(pos(v@[0])),
        lidx(v@[0], g.spec_width()) == ix,
        forall|k: int| 0 <= k < ix ==> #[trigger] vis0.contains(k),
        forall|i: int|
            0 <= i < v@.len() ==> g.valid(pos(#[trigger] v@[i]).0, pos(v@[i]).1) && !vis0.contains(
                lidx(v@[i], g.spec_width()),
            ),
    ensures
        regions_ok(g, rs.push(v), ix + 1),
{
    let w = g.spec_width();
    let rs2 = rs.push(v);
    assert forall|i: int| #![trigger rs2[i]] 0 <= i < rs2.len() implies rs2[i]@.len() > 0 && positions(rs2[i]@)
        == g.region(pos(rs2[i]@[0])) && lidx(rs2[i]@[0], w) < ix + 1 by {
        if i < rs.len() {
            assert(rs2[i] == rs[i]);
        }
    }
    assert forall|i: int, j: int| 0 <= i < j < rs2.len() implies lidx(#[trigger] rs2[i]@[0], w) < lidx(
        #[trigger] rs2[j]@[0],
        w,
    ) by {
        assert(rs2[i] == rs[i]);
        if j < rs.len() {
            assert(rs2[j] == rs[j]);
        }
    }
    assert forall|i: int, a: int| 0 <= i < rs2.len() && 0 <= a < rs2[i]@.len() implies lidx(rs2[i]@[0], w) <= lidx(
        #[trigger] rs2[i]@[a],
        w,
    ) by {
        if i < rs.len() {
            assert(rs2[i] == rs[i]);
        } else {
            let l = v@[a];
            assert(g.valid(pos(l).0, pos(l).1));
            lemma_index_in_range(pos(l).0, pos(l).1, w, g.spec_height());
            if lidx(l, w) < ix {
                assert(vis0.contains(lidx(l, w)));
            }
        }
    }
}

/// The stack `st` is `base` followed by neighbours of `p` holding `a`.
spec fn grown_from<T>(g: Grid<T>, a: T, p: Location, base: Seq<Location>, st: Seq<Location>) -> bool {
    &&& base.len() <= st.len()
    &&& st.subrange(0, base.len() as int) == base
    &&& forall|j: int|
        base.len() <= j < st.len() ==> g.holds(pos(#[trigger] st[j]), a) && adjacent(pos(p), pos(st[j]))
}

/// The neighbour of `p` in direction `d`, if it holds `a` and is not
/// flagged, is on the stack.
spec fn covers<T>(g: Grid<T>, a: T, flags: Seq<bool>, p: Location, d: Direction, st: Seq<Location>) -> bool {
    let q = (pos(p).0 + step_of(d).0, pos(p).1 + step_of(d).1);
    g.holds(q, a) && !flags[index_of(q.0, q.1, g.spec_width())] ==> exists|j: int|
        0 <= j < st.len() && #[trigger] pos(st[j]) == q
}

/// One offer of a neighbour keeps the stack grown from `base`, covers its
/// direction and keeps what was covered.
proof fn lemma_offer_step<T>(
    g: Grid<T>,
    a: T,
    flags: Seq<bool>,
    p: Location,
    d: Direction,
    base: Seq<Location>,
    before: Seq<Location>,
    after: Seq<Location>,
)
    requires
        grown_from(g, a, p, base, before),
        ({
            let q = (pos(p).0 + step_of(d).0, pos(p).1 + step_of(d).1);
            if g.holds(q, a) && !flags[index_of(q.0, q.1, g.spec_width())] {
                &&& after.len() == before.len() + 1
                &&& after.drop_last() == before
                &&& pos(after.last()) == q
            } else {
                after == before
            }
        }),
    ensures
        grown_from(g, a, p, base, after),
        covers(g, a, flags, p, d, after),
        forall|e: Direction| covers(g, a, flags, p, e, before) ==> #[trigger] covers(g, a, flags, p, e, after),
{
    let q = (pos(p).0 + step_of(d).0, pos(p).1 + step_of(d).1);
    if g.holds(q, a) && !flags[index_of(q.0, q.1, g.spec_width())] {
        assert forall|j: int| 0 <= j < before.len() implies after[j] == before[j] by {
            assert(after.drop_last()[j] == after[j]);
        }
        assert(after.subrange(0, base.len() as int) =~= base) by {
            assert forall|j: int| 0 <= j < base.len() implies after[j] == base[j] by {
                assert(before.subrange(0, base.len() as int)[j] == before[j]);
            }
        }
        assert(pos(after[after.len() - 1]) == q);
        assert forall|e: Direction| covers(g, a, flags, p, e, before) implies #[trigger] covers(
            g,
            a,
            flags,
            p,
            e,
            after,
        ) by {
            let qe = (pos(p).0 + step_of(e).0, pos(p).1 + step_of(e).1);
            if g.holds(qe, a) && !flags[index_of(qe.0, qe.1, g.spec_width())] {
                let j = choose|j: int| 0 <= j < before.len() && #[trigger] pos(before[j]) == qe;
                assert(pos(after[j]) == qe);
            }
        }
    }
}

/// Visiting a new location and offering its four neighbours keeps the
/// search's facts.
proof fn lemma_visit_step<T>(
    g: Grid<T>,
    a: T,
    start: Location,
    flags: Seq<bool>,
    vis_before: Set<int>,
    vis: Set<int>,
    region_before: Seq<Location>,
    region: Seq<Location>,
    stack_pre: Seq<Location>,
    popped: Seq<Location>,
    fin: Seq<Location>,
    p: Location,
)
    requires
        g.wf(),
        stack_pre == popped.push(p),
        region == region_before.push(p),
        vis == vis_before.insert(lidx(p, g.spec_width())),
        flags.len() == g.cells().len(),
        forall|k: int| 0 <= k < flags.len() ==> (flags[k] <==> #[trigger] vis.contains(k)),
        g.holds(pos(p), a),
        dfs_sound(g, a, start, region_before, stack_pre),
        dfs_pending(g, a, vis_before, region_before, stack_pre),
        grown_from(g, a, p, popped, fin),
        covers(g, a, flags, p, Direction::North, fin),
        covers(g, a, flags, p, Direction::East, fin),
        covers(g, a, flags, p, Direction::South, fin),
        covers(g, a, flags, p, Direction::West, fin),
    ensures
        dfs_sound(g, a, start, region, fin),
        dfs_pending(g, a, vis, region, fin),
{
    let w = g.spec_width();
    g.lemma_shape();
    assert forall|j: int| 0 <= j < popped.len() implies fin[j] == popped[j] by {
        assert(fin.subrange(0, popped.len() as int)[j] == fin[j]);
    }
    assert forall|s: Set<(int, int)>| #[trigger] g.closed_region(a, s) && s.contains(pos(start)) implies (forall|i: int|
        0 <= i < region.len() ==> s.contains(pos(#[trigger] region[i]))) && (forall|i: int|
        0 <= i < fin.len() ==> s.contains(pos(#[trigger] fin[i]))) by {
        assert(stack_pre[popped.len() as int] == p);
        assert(s.contains(pos(p)));
        assert forall|i: int| 0 <= i < region.len() implies s.contains(pos(#[trigger] region[i])) by {
            if i < region_before.len() {
                assert(region[i] == region_before[i]);
            }
        }
        assert forall|i: int| 0 <= i < fin.len() implies s.contains(pos(#[trigger] fin[i])) by {
            if i < popped.len() {
                assert(stack_pre[i] == popped[i]);
            } else {
                assert(g.holds(pos(fin[i]), a) && adjacent(pos(p), pos(fin[i])));
            }
        }
    }
    assert forall|i: int, q: (int, int)|
        #![trigger region[i], adjacent(pos(region[i]), q)]
        0 <= i < region.len() && adjacent(pos(region[i]), q) && g.holds(q, a) implies vis.contains(
        index_of(q.0, q.1, w),
    ) || exists|j: int| 0 <= j < fin.len() && #[trigger] pos(fin[j]) == q by {
        if !vis.contains(index_of(q.0, q.1, w)) {
            if i < region_before.len() {
                assert(region[i] == region_before[i]);
                assert(!vis_before.contains(index_of(q.0, q.1, w)));
                let j = choose|j: int| 0 <= j < stack_pre.len() && #[trigger] pos(stack_pre[j]) == q;
                if j == popped.len() {
                    assert(stack_pre[j] == p);
                } else {
                    assert(stack_pre[j] == popped[j]);
                    assert(pos(fin[j]) == q);
                }
            } else {
                assert(region[i] == p);
                lemma_index_in_range(q.0, q.1, w, g.spec_height());
                assert(!flags[index_of(q.0, q.1, w)]);
                let d = if q.1 == pos(p).1 - 1 {
                    Direction::North
                } else if q.0 == pos(p).0 + 1 {
                    Direction::East
                } else if q.1 == pos(p).1 + 1 {
                    Direction::South
                } else {
                    Direction::West
                };
                assert(q == (pos(p).0 + step_of(d).0, pos(p).1 + step_of(d).1));
                assert(covers(g, a, flags, p, d, fin));
            }
        }
    }
}

impl<T: Copy + PartialEq> Grid<T> {
    /// Pushes the neighbour of `from` in direction `d` when it lies in the
    /// grid, holds `current` and is not visited yet.
    fn offer(&self, visited: &BitVec, stack: &mut Vec<Location>, from: Location, d: Direction, current: &T)
        requires
            self.wf(),
            vstd::laws_eq::obeys_concrete_eq::<T>(),
            self.valid(from.coords[0] as int, from.coords[1] as int),
            flags_of(*visited).len() == self.cells().len(),
        ensures
            ({
                let q = (from.coords[0] + step_of(d).0, from.coords[1] + step_of(d).1);
                if self.holds(q, *current) && !flags_of(*visited)[index_of(q.0, q.1, self.spec_width())] {
                    &&& final(stack)@.len() == old(stack)@.len() + 1
                    &&& final(stack)@.drop_last() == old(stack)@
                    &&& pos(final(stack)@.last()) == q
                } else {
                    final(stack)@ == old(stack)@
                }
            }),
    {
        proof {
            self.lemma_shape();
            assert(self.spec_height() <= self.spec_width() * self.spec_height()) by (nonlinear_arith)
                requires
                    self.spec_width() >= 1,
                    self.spec_height() >= 0;
        }
        let w = self.width();
        let nb = from.add(d.as_vec());
        if self.is_valid_location(&nb) {
            proof {
                lemma_index_in_range(nb.coords[0] as int, nb.coords[1] as int, w as int, self.spec_height());
            }
            let nix = (nb.coords[0] + nb.coords[1] * w) as usize;
            if self.cell_is(nb.coords[0], nb.coords[1], current) {
                match flag_at(visited, nix) {
                    Some(false) => {
                        stack.push(nb);
                        proof {
                            assert(stack@.drop_last() =~= old(stack)@);
                        }
                    },
                    _ => {},
                }
            }
        }
    }

    /// The regions of the grid: groups of locations holding the same value
    /// that touch horizontally or vertically. Every location lies in exactly
    /// one region; the regions come in the row-major order of their first
    /// location, which is the region's earliest location in that order.
    pub fn detect_regions(&self) -> (r: Vec<Vec<Location>>)
        requires
            self.wf(),
            vstd::laws_eq::obeys_concrete_eq::<T>(),
        ensures
            forall|i: int|
                #![trigger r[i]]
                0 <= i < r.len() ==> r[i]@.len() > 0 && positions(r[i]@) == self.region(pos(r[i]@[0])),
            flatten(views(r@)).no_duplicates(),
            forall|x: int, y: int| self.valid(x, y) ==> #[trigger] positions(flatten(views(r@))).contains((x, y)),
            forall|i: int, j: int|
                0 <= i < j < r.len() ==> lidx(#[trigger] r[i]@[0], self.spec_width()) < lidx(
                    #[trigger] r[j]@[0],
                    self.spec_width(),
                ),
            forall|i: int, a: int|
                0 <= i < r.len() && 0 <= a < r[i]@.len() ==> lidx(r[i]@[0], self.spec_width()) <= lidx(
                    #[trigger] r[i]@[a],
                    self.spec_width(),
                ),
    {
        proof {
            self.lemma_shape();
        }
        let w = self.width();
        let h = self.height();
        let n = self.len();
        let mut regions: Vec<Vec<Location>> = Vec::new();
        let mut visited = flags_from_elem(n, false);
        let ghost mut vis: Set<int> = Set::empty();
        let ghost mut seen: Map<int, int> = Map::empty();
        let mut ix: usize = 0;
        proof {
            assert(flatten(views(regions@)) =~= Seq::<Location>::empty());
        }
        while ix < n
            invariant
                self.wf(),
                vstd::laws_eq::obeys_concrete_eq::<T>(),
                w == self.spec_width(),
                h == self.spec_height(),
                n == self.cells().len(),
                n == w * h,
                n <= i32::MAX,
                w >= 0,
                h >= 0,
                ix <= n,
                flags_of(visited).len() == n,
                forall|k: int| 0 <= k < n ==> (flags_of(visited)[k] <==> #[trigger] vis.contains(k)),
                vis.subset_of(vstd::set_lib::set_int_range(0, n as int)),
                vis.finite(),
                visit_ok(*self, vis, seen, flatten(views(regions@))),
                forall|k: int| 0 <= k < ix ==> #[trigger] vis.contains(k),
                regions_ok(*self, regions@, ix as int),
                vis_closed(*self, vis),
            decreases n - ix,
        {
            proof {
                assert(w > 0) by (nonlinear_arith)
                    requires
                        ix < n,
                        n == w * h,
                        w >= 0,
                        h >= 0;
                lemma_location_of_index(ix as int, w as int);
                assert(ix as int / (w as int) < h) by (nonlinear_arith)
                    requires
                        ix < n,
                        n == w * h,
                        w > 0,
                        ix as int == index_of(ix as int % (w as int), ix as int / (w as int), w as int),
                        0 <= ix as int % (w as int) < w;
            }
            let start = location_from(self.size(), ix);
            let is_seen = match flag_at(&visited, ix) {
                Some(b) => b,
                None => true,
            };
            if !is_seen {
                let ghost vis0 = vis;
                let ghost all0 = flatten(views(regions@));
                let current = *self.get_unchecked(start.coords[0], start.coords[1]);
                let mut region: Vec<Location> = Vec::new();
                let mut stack: Vec<Location> = Vec::new();
                stack.push(start);
                proof {
                    assert(region@ =~= Seq::<Location>::empty());
                    assert(all0 + region@ =~= all0);
                }
                while stack.len() > 0
                    invariant
                        self.wf(),
                        vstd::laws_eq::obeys_concrete_eq::<T>(),
                        w == self.spec_width(),
                        h == self.spec_height(),
                        n == self.cells().len(),
                        n == w * h,
                        n <= i32::MAX,
                        w > 0,
                        h >= 0,
                        ix < n,
                        flags_of(visited).len() == n,
                        forall|k: int| 0 <= k < n ==> (flags_of(visited)[k] <==> #[trigger] vis.contains(k)),
                        vis.subset_of(vstd::set_lib::set_int_range(0, n as int)),
                        vis.finite(),
                        vis0.subset_of(vis),
                        forall|k: int| 0 <= k < ix ==> #[trigger] vis0.contains(k),
                        !vis0.contains(ix as int),
                        regions_ok(*self, regions@, ix as int),
                        vis_closed(*self, vis0),
                        all0 == flatten(views(regions@)),
                        visit_ok(*self, vis, seen, all0 + region@),
                        forall|j: int| 0 <= j < all0.len() ==> vis0.contains(lidx(#[trigger] all0[j], w as int)),
                        self.valid(pos(start).0, pos(start).1),
                        lidx(start, w as int) == ix,
                        current == self.cell(pos(start).0, pos(start).1),
                        forall|i: int|
                            0 <= i < region.len() ==> self.holds(pos(#[trigger] region@[i]), current)
                                && !vis0.contains(lidx(region@[i], w as int)),
                        region.len() == 0 ==> stack@ == seq![start] && vis == vis0,
                        region.len() > 0 ==> region@[0] == start,
                        forall|i: int| 0 <= i < stack.len() ==> self.holds(pos(#[trigger] stack@[i]), current),
                        dfs_sound(*self, current, start, region@, stack@),
                        dfs_pending(*self, current, vis, region@, stack@),
                    decreases n - vis.len(), stack.len(),
                {
                    let ghost stack_pre = stack@;
                    let location = stack.pop().unwrap();
                    let ghost popped = stack@;
                    proof {
                        assert(stack_pre =~= popped.push(location));
                    }
                    proof {
                        lemma_index_in_range(
                            location.coords[0] as int,
                            location.coords[1] as int,
                            w as int,
                            h as int,
                        );
                    }
                    let lix = (location.coords[0] + location.coords[1] * w) as usize;
                    let was_seen = match flag_at(&visited, lix) {
                        Some(b) => b,
                        None => true,
                    };
                    if !was_seen {
                        let ghost vis_before = vis;
                        let ghost region_before = region@;
                        set_flag(&mut visited, lix, true);
                        proof {
                            lemma_visit_ok_push(*self, vis, seen, all0 + region@, location);
                            seen = seen.insert(lix as int, all0.len() + region.len());
                            vis = vis.insert(lix as int);
                            lemma_len_bound(vis, n as int);
                        }
                        region.push(location);
                        proof {
                            assert(all0 + region@ =~= (all0 + region_before).push(location));
                        }
                        let ghost flags = flags_of(visited);
                        proof {
                            assert(popped.subrange(0, popped.len() as int) =~= popped);
                        }
                        let ghost s0 = stack@;
                        self.offer(&visited, &mut stack, location, Direction::North, &current);
                        proof {
                            lemma_offer_step(*self, current, flags, location, Direction::North, popped, s0, stack@);
                        }
                        let ghost s1 = stack@;
                        self.offer(&visited, &mut stack, location, Direction::East, &current);
                        proof {
                            lemma_offer_step(*self, current, flags, location, Direction::East, popped, s1, stack@);
                        }
                        let ghost s2 = stack@;
                        self.offer(&visited, &mut stack, location, Direction::South, &current);
                        proof {
                            lemma_offer_step(*self, current, flags, location, Direction::South, popped, s2, stack@);
                        }
                        let ghost s3 = stack@;
                        self.offer(&visited, &mut stack, location, Direction::West, &current);
                        proof {
                            lemma_offer_step(*self, current, flags, location, Direction::West, popped, s3, stack@);
                            lemma_visit_step(
                                *self,
                                current,
                                start,
                                flags,
                                vis_before,
                                vis,
                                region_before,
                                region@,
                                stack_pre,
                                popped,
                                stack@,
                                location,
                            );
                            assert forall|i: int| 0 <= i < stack.len() implies self.holds(pos(#[trigger] stack@[i]), current) by {
                                if i < popped.len() {
                                    assert(stack@.subrange(0, popped.len() as int)[i] == stack@[i]);
                                    assert(stack_pre[i] == popped[i]);
                                }
                            }
                        }
                    } else {
                        proof {
                            lemma_skip_step(*self, current, start, vis, region@, stack_pre, popped, location);
                            assert forall|i: int| 0 <= i < stack.len() implies self.holds(pos(#[trigger] stack@[i]), current) by {
                                assert(stack_pre[i] == popped[i]);
                            }
                        }
                    }
                }
                let ghost found = region@;
                proof {
                    assert(stack@ =~= Seq::<Location>::empty());
                    lemma_region_found(*self, start, current, found, vis0, vis, seen, all0);
                }
                let ghost regions_before = regions@;
                regions.push(region);
                proof {
                    lemma_flatten_push(regions_before, region);
                    assert(vis.contains(lidx(found[0], w as int))) by {
                        assert((all0 + found)[all0.len() as int] == found[0]);
                    }
                    assert forall|i: int| 0 <= i < found.len() implies self.valid(pos(#[trigger] found[i]).0, pos(found[i]).1)
                        && !vis0.contains(lidx(found[i], w as int)) by {
                        assert(self.holds(pos(found[i]), current));
                    }
                    lemma_regions_push(*self, regions_before, region, ix as int, vis0);
                }
            }
            ix += 1;
        }
        proof {
            let all = flatten(views(regions@));
            assert forall|j1: int, j2: int| 0 <= j1 < all.len() && 0 <= j2 < all.len() && j1 != j2 implies all[j1]
                != all[j2] by {
                if j1 < j2 {
                    assert(lidx(all[j1], w as int) != lidx(all[j2], w as int));
                } else {
                    assert(lidx(all[j2], w as int) != lidx(all[j1], w as int));
                }
            }
            assert forall|x: int, y: int| self.valid(x, y) implies #[trigger] positions(all).contains((x, y)) by {
                lemma_index_in_range(x, y, w as int, h as int);
                let k = index_of(x, y, w as int);
                assert(vis.contains(k));
                let j = seen[k];
                assert(lidx(all[j], w as int) == k);
                assert(self.valid(pos(all[j]).0, pos(all[j]).1));
                lemma_index_unique(x, y, pos(all[j]).0, pos(all[j]).1, w as int);
                assert(pos(all[j]) == (x, y));
            }
        }
        regions
    }
}

} // verus!
