//! Laboratories: a tachyon beam falls from the start; every splitter it
//! meets sends it on from both sides.
use crate::grid::Grid;
use crate::grid_text::{grid_rows, line_ends_well, line_len};
use crate::parsing::{ErrorKind, ParseResult};
use vstd::prelude::*;

verus! {

/// What a place of the manifold holds.
#[derive(Copy, Clone, Debug, PartialEq, Eq, Structural)]
pub enum Field {
    Start,
    Split,
    Empty,
    Beam,
}

/// The field a map byte stands for: `S`, `^`, `.` and `|`.
pub open spec fn field_of(b: u8) -> Option<Field> {
    if b == 83 {
        Some(Field::Start)
    } else if b == 94 {
        Some(Field::Split)
    } else if b == 46 {
        Some(Field::Empty)
    } else if b == 124 {
        Some(Field::Beam)
    } else {
        None
    }
}

/// `(x, y)` lies in the `w` by `h` grid.
pub open spec fn inside(w: int, h: int, x: int, y: int) -> bool {
    0 <= x < w && 0 <= y < h
}

/// `(x, y)` lies in the grid and holds a splitter.
pub open spec fn split_at(cells: Seq<Field>, w: int, h: int, x: int, y: int) -> bool {
    inside(w, h, x, y) && cells[x + y * w] == Field::Split
}

/// No splitter stands right beside another.
pub open spec fn apart(cells: Seq<Field>, w: int, h: int) -> bool {
    forall|x: int, y: int| #[trigger] split_at(cells, w, h, x, y) ==> !split_at(cells, w, h, x + 1, y)
}

/// How far a beam entering `(x, y)` is from leaving the grid: two per row
/// left, and one more on a splitter.
pub open spec fn height_left(cells: Seq<Field>, w: int, h: int, x: int, y: int) -> int {
    2 * (h - y) + if split_at(cells, w, h, x, y) {
        1int
    } else {
        0
    }
}

/// The splitters a beam entering `(x, y)` passes, counting a splitter once
/// for every beam that reaches it: a splitter sends beams on from its left
/// and its right, anything else lets the beam fall one row.
pub open spec fn splits_from(cells: Seq<Field>, w: int, h: int, x: int, y: int) -> nat
    decreases height_left(cells, w, h, x, y),
{
    if !inside(w, h, x, y) {
        0
    } else if split_at(cells, w, h, x, y) {
        if split_at(cells, w, h, x - 1, y) || split_at(cells, w, h, x + 1, y) {
            0
        } else {
            splits_from(cells, w, h, x - 1, y) + splits_from(cells, w, h, x + 1, y) + 1
        }
    } else {
        splits_from(cells, w, h, x, y + 1)
    }
}

/// The places a beam entering `(x, y)` passes through.
pub open spec fn reached(cells: Seq<Field>, w: int, h: int, x: int, y: int) -> Set<(int, int)>
    decreases height_left(cells, w, h, x, y),
{
    if !inside(w, h, x, y) {
        Set::empty()
    } else if split_at(cells, w, h, x, y) {
        if split_at(cells, w, h, x - 1, y) || split_at(cells, w, h, x + 1, y) {
            set![(x, y)]
        } else {
            reached(cells, w, h, x - 1, y).union(reached(cells, w, h, x + 1, y)).insert((x, y))
        }
    } else {
        reached(cells, w, h, x, y + 1).insert((x, y))
    }
}

/// Every place a beam from `(x, y)` reaches lies in the grid, no higher up
/// the fall than `(x, y)`, and the places reached from it are reached too.
pub proof fn lemma_reached(cells: Seq<Field>, w: int, h: int, x: int, y: int, p: (int, int))
    requires
        reached(cells, w, h, x, y).contains(p),
    ensures
        inside(w, h, p.0, p.1),
        height_left(cells, w, h, p.0, p.1) <= height_left(cells, w, h, x, y),
        reached(cells, w, h, p.0, p.1).subset_of(reached(cells, w, h, x, y)),
    decreases height_left(cells, w, h, x, y),
{
    if p != (x, y) {
        if split_at(cells, w, h, x, y) {
            if reached(cells, w, h, x - 1, y).contains(p) {
                lemma_reached(cells, w, h, x - 1, y, p);
            } else {
                lemma_reached(cells, w, h, x + 1, y, p);
            }
        } else {
            lemma_reached(cells, w, h, x, y + 1, p);
        }
    }
}

/// The place with index `i` of a grid `w` wide.
pub open spec fn place_of_index(i: int, w: int) -> (int, int) {
    (i % w, i / w)
}

/// Every remembered count is the count from its place, and every place a
/// beam from a remembered place reaches is remembered too.
pub open spec fn memo_ok(memo: Seq<usize>, cells: Seq<Field>, w: int, h: int) -> bool {
    &&& memo.len() == w * h
    &&& forall|i: int|
        0 <= i < memo.len() && #[trigger] memo[i] != usize::MAX ==> memo[i] == splits_from(
            cells,
            w,
            h,
            i % w,
            i / w,
        ) && forall|p: (int, int)|
            #[trigger] reached(cells, w, h, i % w, i / w).contains(p) ==> memo[p.0 + p.1 * w] != usize::MAX
}

proof fn lemma_index_place(x: int, y: int, w: int)
    requires
        0 <= x < w,
        0 <= y,
    ensures
        (x + y * w) % w == x,
        (x + y * w) / w == y,
{
    vstd::arithmetic::div_mod::lemma_fundamental_div_mod_converse(x + y * w, w, y, x);
}

proof fn lemma_place_index(i: int, w: int)
    requires
        0 <= i,
        0 < w,
    ensures
        i % w + (i / w) * w == i,
        0 <= i % w < w,
        0 <= i / w,
{
    vstd::arithmetic::div_mod::lemma_fundamental_div_mod(i, w);
    vstd::arithmetic::div_mod::lemma_mod_pos_bound(i, w);
    assert(i / w >= 0) by (nonlinear_arith)
        requires
            i == w * (i / w) + i % w,
            0 <= i % w < w,
            0 <= i;
    assert(w * (i / w) == (i / w) * w) by (nonlinear_arith);
}

/// The places remembered in `memo`.
pub open spec fn known(memo: Seq<usize>, i: int) -> bool {
    memo[i] != usize::MAX
}

/// The splitters passed by a beam entering `(x, y)`, remembering in `memo`
/// the count from every place it passes; `None` when the count does not
/// fit below `usize::MAX`.
fn split_count(memo: &mut Vec<usize>, cells: &[Field], w: i64, h: i64, x: i64, y: i64) -> (r: Option<usize>)
    requires
        0 <= w,
        0 <= h,
        w * h <= i32::MAX,
        cells.len() == w * h,
        apart(cells@, w as int, h as int),
        memo_ok(old(memo)@, cells@, w as int, h as int),
        -1 <= x <= w,
        0 <= y <= h,
    ensures
        r is Some <==> splits_from(cells@, w as int, h as int, x as int, y as int) < usize::MAX,
        r matches Some(v) ==> v == splits_from(cells@, w as int, h as int, x as int, y as int),
        memo_ok(final(memo)@, cells@, w as int, h as int),
        r is Some ==> forall|i: int|
            0 <= i < w * h ==> (#[trigger] known(final(memo)@, i) <==> known(old(memo)@, i) || reached(
                cells@,
                w as int,
                h as int,
                x as int,
                y as int,
            ).contains(place_of_index(i, w as int))),
    decreases height_left(cells@, w as int, h as int, x as int, y as int),
{
    let ghost c = cells@;
    let ghost wi = w as int;
    let ghost hi = h as int;
    if x < 0 || x >= w || y < 0 || y >= h {
        return Some(0);
    }
    proof {
        lemma_index_place(x as int, y as int, wi);
        assert(0 <= x + y * w < w * h) by (nonlinear_arith)
            requires
                0 <= x < w,
                0 <= y < h;
    }
    let i = (x + y * w) as usize;
    if memo[i] != usize::MAX {
        proof {
            assert forall|j: int| 0 <= j < w * h && #[trigger] known(memo@, j) == false implies !reached(
                c,
                wi,
                hi,
                x as int,
                y as int,
            ).contains(place_of_index(j, wi)) by {
                lemma_place_index(j, wi);
                if reached(c, wi, hi, x as int, y as int).contains(place_of_index(j, wi)) {
                    assert(memo@[i as int] != usize::MAX);
                    assert(memo@[j % wi + (j / wi) * wi] != usize::MAX);
                }
            }
        }
        return Some(memo[i]);
    }
    let ghost m0 = memo@;
    let val: usize = if cells[i] == Field::Split {
        assert(split_at(c, wi, hi, x as int, y as int));
        assert(!split_at(c, wi, hi, x - 1, y as int)) by {
            if split_at(c, wi, hi, x - 1, y as int) {
                assert(split_at(c, wi, hi, (x - 1) + 1, y as int));
            }
        }
        assert(!split_at(c, wi, hi, x + 1, y as int));
        let a = match split_count(memo, cells, w, h, x - 1, y) {
            Some(a) => a,
            None => {
                return None;
            },
        };
        let ghost m1 = memo@;
        let b = match split_count(memo, cells, w, h, x + 1, y) {
            Some(b) => b,
            None => {
                return None;
            },
        };
        if b >= usize::MAX - 1 - a {
            return None;
        }
        proof {
            if reached(c, wi, hi, x - 1, y as int).contains((x as int, y as int)) {
                lemma_reached(c, wi, hi, x - 1, y as int, (x as int, y as int));
            }
            if reached(c, wi, hi, x + 1, y as int).contains((x as int, y as int)) {
                lemma_reached(c, wi, hi, x + 1, y as int, (x as int, y as int));
            }
            assert(place_of_index(i as int, wi) == (x as int, y as int));
            assert(!known(m1, i as int));
            assert(!known(memo@, i as int));
            assert(memo_ok(memo@, c, wi, hi));
            assert forall|j: int| 0 <= j < w * h && j != i implies (#[trigger] known(memo@, j) <==> known(m0, j)
                || reached(c, wi, hi, x as int, y as int).contains(place_of_index(j, wi))) by {
                assert(known(m1, j) <==> known(m0, j) || reached(c, wi, hi, x - 1, y as int).contains(
                    place_of_index(j, wi),
                ));
                lemma_place_index(j, wi);
                lemma_index_place(x as int, y as int, wi);
            }
        }
        a + b + 1
    } else {
        let a = match split_count(memo, cells, w, h, x, y + 1) {
            Some(a) => a,
            None => {
                return None;
            },
        };
        proof {
            if reached(c, wi, hi, x as int, y + 1).contains((x as int, y as int)) {
                lemma_reached(c, wi, hi, x as int, y + 1, (x as int, y as int));
            }
            assert(place_of_index(i as int, wi) == (x as int, y as int));
            assert(!known(memo@, i as int));
            assert(memo_ok(memo@, c, wi, hi));
            assert forall|j: int| 0 <= j < w * h && j != i implies (#[trigger] known(memo@, j) <==> known(m0, j)
                || reached(c, wi, hi, x as int, y as int).contains(place_of_index(j, wi))) by {
                lemma_place_index(j, wi);
                lemma_index_place(x as int, y as int, wi);
            }
        }
        a
    };
    let ghost m2 = memo@;
    memo.set(i, val);
    proof {
        assert forall|j: int|
            0 <= j < w * h implies (#[trigger] known(memo@, j) <==> known(m0, j) || reached(
                c,
                wi,
                hi,
                x as int,
                y as int,
            ).contains(place_of_index(j, wi))) by {
            if j == i {
                assert(reached(c, wi, hi, x as int, y as int).contains((x as int, y as int)));
            } else {
                assert(known(memo@, j) == known(m2, j));
                assert(known(m2, j) <==> known(m0, j) || reached(c, wi, hi, x as int, y as int).contains(
                    place_of_index(j, wi),
                ));
            }
        }
        assert(memo_ok(memo@, c, wi, hi)) by {
            assert forall|j: int|
                0 <= j < memo@.len() && #[trigger] memo@[j] != usize::MAX implies memo@[j] == splits_from(
                    c,
                    wi,
                    hi,
                    j % wi,
                    j / wi,
                ) && forall|p: (int, int)|
                    #[trigger] reached(c, wi, hi, j % wi, j / wi).contains(p) ==> memo@[p.0 + p.1 * wi]
                        != usize::MAX by {
                lemma_place_index(j, wi);
                if j != i {
                    assert(m2[j] != usize::MAX);
                    assert forall|p: (int, int)|
                        #[trigger] reached(c, wi, hi, j % wi, j / wi).contains(p) implies memo@[p.0 + p.1 * wi]
                            != usize::MAX by {
                        lemma_reached(c, wi, hi, j % wi, j / wi, p);
                        let k = p.0 + p.1 * wi;
                        assert(0 <= k < wi * hi) by (nonlinear_arith)
                            requires
                                0 <= p.0 < wi,
                                0 <= p.1 < hi,
                                k == p.0 + p.1 * wi;
                        assert(m2[k] != usize::MAX);
                    }
                } else {
                    assert(j % wi == x && j / wi == y);
                    assert forall|p: (int, int)|
                        #[trigger] reached(c, wi, hi, j % wi, j / wi).contains(p) implies memo@[p.0 + p.1 * wi]
                            != usize::MAX by {
                        lemma_reached(c, wi, hi, x as int, y as int, p);
                        if p != (x as int, y as int) {
                            let k = p.0 + p.1 * wi;
                            lemma_index_place(p.0, p.1, wi);
                            assert(0 <= k < wi * hi) by (nonlinear_arith)
                                requires
                                    0 <= p.0 < wi,
                                    0 <= p.1 < hi,
                                    k == p.0 + p.1 * wi;
                            assert(place_of_index(k, wi) == p);
                            assert(known(m2, k));
                        }
                    }
                }
            }
        }
    }
    Some(val)
}

/// `i` is the index of the first start of the grid.
pub open spec fn first_start(cells: Seq<Field>, i: int) -> bool {
    &&& 0 <= i < cells.len()
    &&& cells[i] == Field::Start
    &&& forall|j: int| 0 <= j < i ==> cells[j] != Field::Start
}

/// How many of the first `n` places are splitters a beam from `(sx, sy)`
/// reaches.
pub open spec fn reached_splits(cells: Seq<Field>, w: int, h: int, sx: int, sy: int, n: int) -> nat
    decreases n,
{
    if n <= 0 {
        0
    } else {
        reached_splits(cells, w, h, sx, sy, n - 1) + if cells[n - 1] == Field::Split && reached(
            cells,
            w,
            h,
            sx,
            sy,
        ).contains(place_of_index(n - 1, w)) {
            1nat
        } else {
            0nat
        }
    }
}

/// Follows the beam from the first start, with an empty memory; gives the
/// count and the memory afterwards, with the start's place.
fn count_from_start(grid: &Grid<Field>) -> (r: (Option<usize>, Vec<usize>, i64, i64))
    requires
        grid.wf(),
        apart(grid.cells(), grid.spec_width(), grid.spec_height()),
        exists|i: int| 0 <= i < grid.cells().len() && grid.cells()[i] == Field::Start,
    ensures
        first_start(grid.cells(), r.2 + r.3 * grid.spec_width()),
        0 <= r.2 < grid.spec_width(),
        0 <= r.3 < grid.spec_height(),
        r.0 is Some <==> splits_from(grid.cells(), grid.spec_width(), grid.spec_height(), r.2 as int, r.3 as int)
            < usize::MAX,
        r.0 matches Some(v) ==> v == splits_from(
            grid.cells(),
            grid.spec_width(),
            grid.spec_height(),
            r.2 as int,
            r.3 as int,
        ),
        r.1@.len() == grid.cells().len(),
        r.0 is Some ==> forall|i: int|
            0 <= i < grid.cells().len() ==> (known(r.1@, i) <==> reached(
                grid.cells(),
                grid.spec_width(),
                grid.spec_height(),
                r.2 as int,
                r.3 as int,
            ).contains(#[trigger] place_of_index(i, grid.spec_width()))),
{
    let cells = grid.values();
    let w = grid.width() as i64;
    let h = grid.height() as i64;
    let ghost c = grid.cells();
    proof {
        grid.lemma_shape();
    }
    let found = grid.find(|f: &Field| -> (b: bool)
        ensures
            b == (*f == Field::Start),
        { *f == Field::Start });
    let loc = match found {
        Some(loc) => loc,
        None => {
            proof {
                let k = choose|k: int| 0 <= k < c.len() && c[k] == Field::Start;
                assert(!(c[k] == Field::Start));
            }
            return (None, Vec::new(), 0, 0);
        },
    };
    let x = loc.coords[0] as i64;
    let y = loc.coords[1] as i64;
    proof {
        lemma_index_place(x as int, y as int, w as int);
        crate::grid::lemma_index_in_range(x as int, y as int, w as int, h as int);
        assert(first_start(c, x + y * w));
    }
    let mut memo: Vec<usize> = Vec::new();
    let mut k: usize = 0;
    while k < cells.len()
        invariant
            k <= cells.len(),
            memo@ == Seq::new(k as nat, |j: int| usize::MAX),
        decreases cells.len() - k,
    {
        memo.push(usize::MAX);
        k += 1;
    }
    proof {
        assert(memo_ok(memo@, c, w as int, h as int));
    }
    let n = split_count(&mut memo, cells, w, h, x, y);
    (n, memo, x, y)
}

/// How many splitters the beam from the start reaches; `None` when the
/// count of splits, which is worked out on the way, does not fit below
/// `usize::MAX`.
pub fn calculate_part1(grid: &Grid<Field>) -> (r: Option<usize>)
    requires
        grid.wf(),
        apart(grid.cells(), grid.spec_width(), grid.spec_height()),
        exists|i: int| 0 <= i < grid.cells().len() && grid.cells()[i] == Field::Start,
    ensures
        exists|i: int|
            #[trigger] first_start(grid.cells(), i) && {
                let x = i % grid.spec_width();
                let y = i / grid.spec_width();
                &&& r is Some <==> splits_from(grid.cells(), grid.spec_width(), grid.spec_height(), x, y)
                    < usize::MAX
                &&& r matches Some(v) ==> v == reached_splits(
                    grid.cells(),
                    grid.spec_width(),
                    grid.spec_height(),
                    x,
                    y,
                    grid.cells().len() as int,
                )
            },
{
    let (found, memo, x, y) = count_from_start(grid);
    if found.is_none() {
        proof {
            lemma_index_place(x as int, y as int, grid.spec_width());
        }
        return None;
    }
    let cells = grid.values();
    let ghost c = grid.cells();
    let ghost w = grid.spec_width();
    let ghost h = grid.spec_height();
    let mut count: usize = 0;
    let mut k: usize = 0;
    while k < cells.len()
        invariant
            cells@ == c,
            memo@.len() == c.len(),
            k <= cells.len(),
            count == reached_splits(c, w, h, x as int, y as int, k as int),
            count <= k,
            forall|i: int|
                0 <= i < c.len() ==> (known(memo@, i) <==> reached(c, w, h, x as int, y as int).contains(
                    #[trigger] place_of_index(i, w),
                )),
        decreases cells.len() - k,
    {
        if cells[k] == Field::Split && memo[k] != usize::MAX {
            count += 1;
        }
        proof {
            assert(known(memo@, k as int) == reached(c, w, h, x as int, y as int).contains(place_of_index(k as int, w)));
        }
        k += 1;
    }
    proof {
        lemma_index_place(x as int, y as int, w);
        assert(first_start(c, x + y * w));
    }
    Some(count)
}

/// How many timelines the beam from the start ends in: one, plus one for
/// every splitter a beam passes; `None` when that does not fit in a
/// `usize`.
pub fn calculate_part2(grid: &Grid<Field>) -> (r: Option<usize>)
    requires
        grid.wf(),
        apart(grid.cells(), grid.spec_width(), grid.spec_height()),
        exists|i: int| 0 <= i < grid.cells().len() && grid.cells()[i] == Field::Start,
    ensures
        exists|i: int|
            #[trigger] first_start(grid.cells(), i) && {
                let n = splits_from(
                    grid.cells(),
                    grid.spec_width(),
                    grid.spec_height(),
                    i % grid.spec_width(),
                    i / grid.spec_width(),
                );
                &&& r is Some <==> n < usize::MAX
                &&& r matches Some(v) ==> v == n + 1
            },
{
    let (found, _, x, y) = count_from_start(grid);
    proof {
        lemma_index_place(x as int, y as int, grid.spec_width());
    }
    match found {
        Some(n) => Some(n + 1),
        None => None,
    }
}

/// The grid of a map of `S`, `^`, `.` and `|`, read as `Grid::parse` reads a
/// grid of bytes, with its errors; `Char` when another byte is in it.
pub fn parse_input(input: &[u8]) -> (r: ParseResult<Grid<Field>>)
    requires
        input.len() <= i32::MAX,
    ensures
        !line_ends_well(input@, 0) ==> r == Err::<(usize, Grid<Field>), ErrorKind>(ErrorKind::Tag),
        line_ends_well(input@, 0) && line_len(input@, 0) == 0 ==> r == Err::<(usize, Grid<Field>), ErrorKind>(
            ErrorKind::Eof,
        ),
        line_ends_well(input@, 0) && line_len(input@, 0) > 0 ==> {
            let rows = grid_rows(input@);
            let w = line_len(input@, 0);
            if exists|k: int| 0 <= k < rows.len() && #[trigger] rows[k].1 != w {
                r == Err::<(usize, Grid<Field>), ErrorKind>(ErrorKind::LengthValue)
            } else if exists|x: int, y: int|
                0 <= x < w && 0 <= y < rows.len() && #[trigger] field_of(input@[rows[y].0 + x]) is None {
                r == Err::<(usize, Grid<Field>), ErrorKind>(ErrorKind::Char)
            } else {
                r matches Ok((c, g)) && {
                    &&& c == rows.last().0 + rows.last().1
                    &&& g.wf()
                    &&& g.spec_width() == w
                    &&& g.spec_height() == rows.len()
                    &&& forall|x: int, y: int|
                        #![trigger g.cell(x, y)]
                        g.valid(x, y) ==> Some(g.cell(x, y)) == field_of(input@[rows[y].0 + x])
                }
            }
        },
{
    let (n, raw) = match Grid::<u8>::parse(input) {
        Ok(x) => x,
        Err(e) => {
            return Err(e);
        },
    };
    let ghost rows = grid_rows(input@);
    proof {
        assert(line_ends_well(input@, 0));
        assert(line_len(input@, 0) > 0);
        assert(!exists|k: int| 0 <= k < rows.len() && #[trigger] rows[k].1 != line_len(input@, 0));
    }
    let values = raw.values();
    let w = raw.width();
    let mut i: usize = 0;
    while i < values.len()
        invariant
            raw.wf(),
            values@ == raw.cells(),
            w == raw.spec_width(),
            rows == grid_rows(input@),
            raw.spec_width() == line_len(input@, 0),
            raw.spec_height() == rows.len(),
            forall|x: int, y: int| #![trigger raw.cell(x, y)] raw.valid(x, y) ==> raw.cell(x, y) == input@[rows[y].0 + x],
            line_ends_well(input@, 0),
            line_len(input@, 0) > 0,
            !exists|k: int| 0 <= k < rows.len() && #[trigger] rows[k].1 != line_len(input@, 0),
            i <= values.len(),
            forall|j: int| 0 <= j < i ==> field_of(#[trigger] values@[j]) is Some,
        decreases values.len() - i,
    {
        let b = values[i];
        if b != 83 && b != 94 && b != 46 && b != 124 {
            proof {
                raw.lemma_shape();
                let x = (i as int) % (w as int);
                let y = (i as int) / (w as int);
                assert(w > 0) by (nonlinear_arith)
                    requires
                        values@.len() == w * raw.spec_height(),
                        i < values@.len(),
                        w >= 0,
                        raw.spec_height() >= 0;
                vstd::arithmetic::div_mod::lemma_fundamental_div_mod(i as int, w as int);
                vstd::arithmetic::div_mod::lemma_mod_pos_bound(i as int, w as int);
                assert(x + y * w == i) by (nonlinear_arith)
                    requires
                        i == w * y + x;
                assert(0 <= y < raw.spec_height()) by (nonlinear_arith)
                    requires
                        i == w * y + x,
                        0 <= x < w,
                        0 <= i < w * raw.spec_height();
                assert(raw.valid(x, y));
                assert(raw.cell(x, y) == b);
                assert(field_of(input@[rows[y].0 + x]) is None);
            }
            return Err(ErrorKind::Char);
        }
        i += 1;
    }
    let g = raw.map(|b: &u8| -> (p: Field)
        ensures
            *b == 83 ==> p == Field::Start,
            *b == 94 ==> p == Field::Split,
            *b == 124 ==> p == Field::Beam,
            *b != 83 && *b != 94 && *b != 124 ==> p == Field::Empty,
        {
            if *b == 83 {
                Field::Start
            } else if *b == 94 {
                Field::Split
            } else if *b == 124 {
                Field::Beam
            } else {
                Field::Empty
            }
        });
    proof {
        raw.lemma_shape();
        assert forall|x: int, y: int| #![trigger g.cell(x, y)] g.valid(x, y) implies Some(g.cell(x, y)) == field_of(
            input@[rows[y].0 + x],
        ) by {
            let k = x + y * raw.spec_width();
            assert(0 <= k < raw.cells().len()) by (nonlinear_arith)
                requires
                    0 <= x < raw.spec_width(),
                    0 <= y < raw.spec_height(),
                    k == x + y * raw.spec_width(),
                    raw.cells().len() == raw.spec_width() * raw.spec_height();
            assert(raw.cell(x, y) == input@[rows[y].0 + x]);
            assert(field_of(values@[k]) is Some);
        }
        if exists|xx: int, yy: int|
            0 <= xx < w && 0 <= yy < rows.len() && #[trigger] field_of(input@[rows[yy].0 + xx]) is None {
            let (xx, yy) = choose|xx: int, yy: int|
                0 <= xx < w && 0 <= yy < rows.len() && #[trigger] field_of(input@[rows[yy].0 + xx]) is None;
            assert(g.valid(xx, yy));
            assert(Some(g.cell(xx, yy)) == field_of(input@[rows[yy].0 + xx]));
        }
    }
    Ok((n, g))
}


} // verus!
