//! Printing department: rolls of paper on a grid; a roll can be taken away
//! when fewer than four of the eight places around it hold rolls.
use crate::grid::Grid;
use crate::grid_text::{grid_rows, line_ends_well, line_len};
use crate::parsing::{ErrorKind, ParseResult};
use vstd::prelude::*;

verus! {

/// What a place of the grid holds.
#[derive(Copy, Clone, Debug, PartialEq, Eq, Structural)]
pub enum Place {
    Empty,
    Roll,
}

/// The place a map byte stands for: `.` is empty, `@` a roll.
pub open spec fn place_of(b: u8) -> Option<Place> {
    if b == 46 {
        Some(Place::Empty)
    } else if b == 64 {
        Some(Place::Roll)
    } else {
        None
    }
}

/// `(x, y)` lies in the `w` by `h` grid and holds a roll.
pub open spec fn roll_at(cells: Seq<Place>, w: int, h: int, x: int, y: int) -> bool {
    0 <= x < w && 0 <= y < h && cells[x + y * w] == Place::Roll
}

/// 1 for a roll at `(x, y)`, else 0.
pub open spec fn roll_count_at(cells: Seq<Place>, w: int, h: int, x: int, y: int) -> int {
    if roll_at(cells, w, h, x, y) {
        1
    } else {
        0
    }
}

/// The rolls on the eight places around `(x, y)`.
pub open spec fn rolls_around(cells: Seq<Place>, w: int, h: int, x: int, y: int) -> int {
    roll_count_at(cells, w, h, x - 1, y - 1) + roll_count_at(cells, w, h, x, y - 1) + roll_count_at(
        cells,
        w,
        h,
        x + 1,
        y - 1,
    ) + roll_count_at(cells, w, h, x - 1, y) + roll_count_at(cells, w, h, x + 1, y) + roll_count_at(
        cells,
        w,
        h,
        x - 1,
        y + 1,
    ) + roll_count_at(cells, w, h, x, y + 1) + roll_count_at(cells, w, h, x + 1, y + 1)
}

/// The roll at `(x, y)` can be taken away.
pub open spec fn removable(cells: Seq<Place>, w: int, h: int, x: int, y: int) -> bool {
    roll_at(cells, w, h, x, y) && rolls_around(cells, w, h, x, y) < 4
}

/// The place with row-major index `k` can be taken away.
pub open spec fn removable_at(cells: Seq<Place>, w: int, h: int, k: int) -> bool {
    removable(cells, w, h, k % w, k / w)
}

/// How many of the first `n` places can be taken away.
pub open spec fn count_removable(cells: Seq<Place>, w: int, h: int, n: int) -> int
    decreases n,
{
    if n <= 0 {
        0
    } else {
        count_removable(cells, w, h, n - 1) + if removable_at(cells, w, h, n - 1) {
            1int
        } else {
            0
        }
    }
}

/// How many of the first `n` places hold rolls.
pub open spec fn roll_count(cells: Seq<Place>, n: int) -> int
    decreases n,
{
    if n <= 0 {
        0
    } else {
        roll_count(cells, n - 1) + if cells[n - 1] == Place::Roll {
            1int
        } else {
            0
        }
    }
}

/// The grid after every roll that can be taken away is taken away.
pub open spec fn after_round(cells: Seq<Place>, w: int, h: int) -> Seq<Place> {
    Seq::new(cells.len(), |k: int| if removable_at(cells, w, h, k) { Place::Empty } else { cells[k] })
}

/// A round takes away exactly the rolls that can be taken away.
pub proof fn lemma_round_takes_rolls(cells: Seq<Place>, w: int, h: int, n: int)
    requires
        w > 0,
        0 <= n <= cells.len(),
        cells.len() == w * h,
    ensures
        roll_count(after_round(cells, w, h), n) == roll_count(cells, n) - count_removable(cells, w, h, n),
        0 <= count_removable(cells, w, h, n) <= roll_count(cells, n) <= n,
    decreases n,
{
    if n > 0 {
        lemma_round_takes_rolls(cells, w, h, n - 1);
        let k = n - 1;
        if removable_at(cells, w, h, k) {
            vstd::arithmetic::div_mod::lemma_fundamental_div_mod(k, w);
            vstd::arithmetic::div_mod::lemma_mod_pos_bound(k, w);
            assert(k % w + (k / w) * w == k) by (nonlinear_arith)
                requires
                    k == w * (k / w) + k % w;
            assert(cells[k] == Place::Roll);
        }
    }
}

/// How many rolls are taken away in all, round after round, until none
/// can be.
pub open spec fn removed_total(cells: Seq<Place>, w: int, h: int) -> int
    decreases roll_count(cells, cells.len() as int),
{
    if w <= 0 || cells.len() != w * h {
        0
    } else {
        let c = count_removable(cells, w, h, cells.len() as int);
        if c <= 0 {
            0
        } else {
            proof {
                lemma_round_takes_rolls(cells, w, h, cells.len() as int);
            }
            c + removed_total(after_round(cells, w, h), w, h)
        }
    }
}

/// Whether `(x, y)` holds a roll.
fn roll_here(cells: &[Place], w: usize, h: usize, x: i64, y: i64) -> (r: bool)
    requires
        cells.len() == w * h,
        w * h <= i32::MAX,
        w <= i32::MAX,
        h <= i32::MAX,
    ensures
        r == roll_at(cells@, w as int, h as int, x as int, y as int),
{
    if x < 0 || y < 0 || x >= w as i64 || y >= h as i64 {
        return false;
    }
    proof {
        assert(y * w <= x + y * w < w * h) by (nonlinear_arith)
            requires
                0 <= x < w,
                0 <= y < h;
    }
    cells[(x + y * (w as i64)) as usize] == Place::Roll
}

/// Whether the place with index `k` can be taken away.
fn can_be_removed(cells: &[Place], w: usize, h: usize, k: usize) -> (r: bool)
    requires
        cells.len() == w * h,
        w * h <= i32::MAX,
        w <= i32::MAX,
        h <= i32::MAX,
        k < cells.len(),
    ensures
        r == removable_at(cells@, w as int, h as int, k as int),
{
    proof {
        assert(w > 0) by (nonlinear_arith)
            requires
                k < w * h,
                h >= 0;
        assert(k / w <= k) by (nonlinear_arith)
            requires
                w > 0,
                k >= 0;
    }
    let x = (k % w) as i64;
    let y = (k / w) as i64;
    if !roll_here(cells, w, h, x, y) {
        return false;
    }
    let mut around: u32 = 0;
    if roll_here(cells, w, h, x - 1, y - 1) {
        around += 1;
    }
    if roll_here(cells, w, h, x, y - 1) {
        around += 1;
    }
    if roll_here(cells, w, h, x + 1, y - 1) {
        around += 1;
    }
    if roll_here(cells, w, h, x - 1, y) {
        around += 1;
    }
    if roll_here(cells, w, h, x + 1, y) {
        around += 1;
    }
    if roll_here(cells, w, h, x - 1, y + 1) {
        around += 1;
    }
    if roll_here(cells, w, h, x, y + 1) {
        around += 1;
    }
    if roll_here(cells, w, h, x + 1, y + 1) {
        around += 1;
    }
    around < 4
}

/// The places that can be taken away, as flags, and their number.
fn round(cells: &[Place], w: usize, h: usize) -> (r: (usize, Vec<bool>))
    requires
        cells.len() == w * h,
        w * h <= i32::MAX,
        w <= i32::MAX,
        h <= i32::MAX,
    ensures
        r.0 == count_removable(cells@, w as int, h as int, cells.len() as int),
        r.1.len() == cells.len(),
        forall|k: int| 0 <= k < cells.len() ==> #[trigger] r.1@[k] == removable_at(cells@, w as int, h as int, k),
{
    let mut count: usize = 0;
    let mut flags: Vec<bool> = Vec::new();
    let mut k: usize = 0;
    while k < cells.len()
        invariant
            cells.len() == w * h,
            w * h <= i32::MAX,
            w <= i32::MAX,
            h <= i32::MAX,
            k <= cells.len(),
            count == count_removable(cells@, w as int, h as int, k as int),
            count <= k,
            flags.len() == k,
            forall|j: int| 0 <= j < k ==> #[trigger] flags@[j] == removable_at(cells@, w as int, h as int, j),
        decreases cells.len() - k,
    {
        let f = can_be_removed(cells, w, h, k);
        flags.push(f);
        if f {
            count += 1;
        }
        k += 1;
    }
    (count, flags)
}

/// The number of rolls that can be taken away at once.
pub fn calculate_part1(grid: &Grid<Place>) -> (r: usize)
    requires
        grid.wf(),
    ensures
        r == count_removable(grid.cells(), grid.spec_width(), grid.spec_height(), grid.cells().len() as int),
{
    proof {
        grid.lemma_shape();
    }
    let w = grid.width() as usize;
    let h = grid.height() as usize;
    let cells = grid.values();
    round(cells, w, h).0
}

/// The number of rolls taken away in all when rounds of taking away every
/// roll that can be repeat until none can.
pub fn calculate_part2(grid: &Grid<Place>) -> (r: usize)
    requires
        grid.wf(),
    ensures
        r == removed_total(grid.cells(), grid.spec_width(), grid.spec_height()),
{
    proof {
        grid.lemma_shape();
    }
    let w = grid.width() as usize;
    let h = grid.height() as usize;
    let mut cells: Vec<Place> = Vec::new();
    let values = grid.values();
    let mut k: usize = 0;
    while k < values.len()
        invariant
            k <= values.len(),
            cells@ == values@.subrange(0, k as int),
        decreases values.len() - k,
    {
        cells.push(values[k]);
        k += 1;
    }
    proof {
        assert(cells@ =~= grid.cells());
    }
    if w == 0 {
        return 0;
    }
    let ghost all = removed_total(grid.cells(), w as int, h as int);
    let mut removed: usize = 0;
    proof {
        lemma_round_takes_rolls(cells@, w as int, h as int, cells.len() as int);
    }
    loop
        invariant
            all == removed_total(grid.cells(), grid.spec_width(), grid.spec_height()),
            w > 0,
            cells.len() == w * h,
            w * h <= i32::MAX,
            w <= i32::MAX,
            h <= i32::MAX,
            removed + removed_total(cells@, w as int, h as int) == all,
            removed + roll_count(cells@, cells.len() as int) <= cells.len(),
        decreases roll_count(cells@, cells.len() as int),
    {
        let (c, flags) = round(cells.as_slice(), w, h);
        proof {
            lemma_round_takes_rolls(cells@, w as int, h as int, cells.len() as int);
        }
        if c == 0 {
            proof {
                assert(removed_total(cells@, w as int, h as int) == 0);
            }
            return removed;
        }
        let ghost before = cells@;
        let mut j: usize = 0;
        while j < cells.len()
            invariant
                cells.len() == before.len(),
                flags.len() == before.len(),
                j <= cells.len(),
                forall|i: int| 0 <= i < j ==> #[trigger] cells@[i] == (if flags@[i] { Place::Empty } else { before[i] }),
                forall|i: int| j <= i < cells.len() ==> #[trigger] cells@[i] == before[i],
            decreases cells.len() - j,
        {
            if flags[j] {
                cells.set(j, Place::Empty);
            }
            j += 1;
        }
        proof {
            assert(cells@ =~= after_round(before, w as int, h as int));
        }
        removed = removed + c;
    }
}

/// The grid of a map of `.` and `@`, read as `Grid::parse` reads a grid of
/// bytes, with its errors; `Char` when another byte is in it.
pub fn parse_input(input: &[u8]) -> (r: ParseResult<Grid<Place>>)
    requires
        input.len() <= i32::MAX,
    ensures
        !line_ends_well(input@, 0) ==> r == Err::<(usize, Grid<Place>), ErrorKind>(ErrorKind::Tag),
        line_ends_well(input@, 0) && line_len(input@, 0) == 0 ==> r == Err::<(usize, Grid<Place>), ErrorKind>(
            ErrorKind::Eof,
        ),
        line_ends_well(input@, 0) && line_len(input@, 0) > 0 ==> {
            let rows = grid_rows(input@);
            let w = line_len(input@, 0);
            if exists|k: int| 0 <= k < rows.len() && #[trigger] rows[k].1 != w {
                r == Err::<(usize, Grid<Place>), ErrorKind>(ErrorKind::LengthValue)
            } else if exists|x: int, y: int|
                0 <= x < w && 0 <= y < rows.len() && #[trigger] place_of(input@[rows[y].0 + x]) is None {
                r == Err::<(usize, Grid<Place>), ErrorKind>(ErrorKind::Char)
            } else {
                r matches Ok((c, g)) && {
                    &&& c == rows.last().0 + rows.last().1
                    &&& g.wf()
                    &&& g.spec_width() == w
                    &&& g.spec_height() == rows.len()
                    &&& forall|x: int, y: int|
                        #![trigger g.cell(x, y)]
                        g.valid(x, y) ==> Some(g.cell(x, y)) == place_of(input@[rows[y].0 + x])
                }
            }
        },
{
    let (n, raw) = match Grid::<u8>::parse(input) {
        Ok(x) => x,
        Err(e) => {
            return Err(e);
        },
    };
    let ghost rows = grid_rows(input@);
    proof {
        assert(line_ends_well(input@, 0));
        assert(line_len(input@, 0) > 0);
        assert(!exists|k: int| 0 <= k < rows.len() && #[trigger] rows[k].1 != line_len(input@, 0));
    }
    let values = raw.values();
    let w = raw.width();
    let mut i: usize = 0;
    while i < values.len()
        invariant
            raw.wf(),
            values@ == raw.cells(),
            w == raw.spec_width(),
            rows == grid_rows(input@),
            raw.spec_width() == line_len(input@, 0),
            raw.spec_height() == rows.len(),
            forall|x: int, y: int| #![trigger raw.cell(x, y)] raw.valid(x, y) ==> raw.cell(x, y) == input@[rows[y].0 + x],
            line_ends_well(input@, 0),
            line_len(input@, 0) > 0,
            !exists|k: int| 0 <= k < rows.len() && #[trigger] rows[k].1 != line_len(input@, 0),
            i <= values.len(),
            forall|j: int| 0 <= j < i ==> place_of(#[trigger] values@[j]) is Some,
        decreases values.len() - i,
    {
        let b = values[i];
        if b != 46 && b != 64 {
            proof {
                raw.lemma_shape();
                let x = (i as int) % (w as int);
                let y = (i as int) / (w as int);
                assert(w > 0) by (nonlinear_arith)
                    requires
                        values@.len() == w * raw.spec_height(),
                        i < values@.len(),
                        w >= 0,
                        raw.spec_height() >= 0;
                vstd::arithmetic::div_mod::lemma_fundamental_div_mod(i as int, w as int);
                vstd::arithmetic::div_mod::lemma_mod_pos_bound(i as int, w as int);
                assert(x + y * w == i) by (nonlinear_arith)
                    requires
                        i == w * y + x;
                assert(0 <= y < raw.spec_height()) by (nonlinear_arith)
                    requires
                        i == w * y + x,
                        0 <= x < w,
                        0 <= i < w * raw.spec_height();
                assert(raw.valid(x, y));
                assert(raw.cell(x, y) == b);
                assert(place_of(input@[rows[y].0 + x]) is None);
            }
            return Err(ErrorKind::Char);
        }
        i += 1;
    }
    let g = raw.map(|b: &u8| -> (p: Place)
        ensures
            *b == 64 ==> p == Place::Roll,
            *b != 64 ==> p == Place::Empty,
        {
            if *b == 64 {
                Place::Roll
            } else {
                Place::Empty
            }
        });
    proof {
        raw.lemma_shape();
        assert forall|x: int, y: int| #![trigger g.cell(x, y)] g.valid(x, y) implies Some(g.cell(x, y)) == place_of(
            input@[rows[y].0 + x],
        ) by {
            let k = x + y * raw.spec_width();
            assert(0 <= k < raw.cells().len()) by (nonlinear_arith)
                requires
                    0 <= x < raw.spec_width(),
                    0 <= y < raw.spec_height(),
                    k == x + y * raw.spec_width(),
                    raw.cells().len() == raw.spec_width() * raw.spec_height();
            assert(raw.cell(x, y) == input@[rows[y].0 + x]);
            assert(place_of(values@[k]) is Some);
        }
        if exists|xx: int, yy: int|
            0 <= xx < w && 0 <= yy < rows.len() && #[trigger] place_of(input@[rows[yy].0 + xx]) is None {
            let (xx, yy) = choose|xx: int, yy: int|
                0 <= xx < w && 0 <= yy < rows.len() && #[trigger] place_of(input@[rows[yy].0 + xx]) is None;
            assert(g.valid(xx, yy));
            assert(Some(g.cell(xx, yy)) == place_of(input@[rows[yy].0 + xx]));
        }
    }
    Ok((n, g))
}

} // verus!
