//! A rectangle of items stored row by row, and the four ways of sweeping
//! over its lines.
use vstd::prelude::*;

verus! {

/// The items of a rectangle, row by row.
#[derive(Clone, Debug)]
pub struct Grid<T> {
    items: Vec<T>,
    height: usize,
    width: usize,
}

/// The number of lines a sweep has: rows for the first two, columns for
/// the last two.
pub open spec fn sweep_lines(direction: int, width: int, height: int) -> int {
    if direction < 2 {
        height
    } else {
        width
    }
}

/// The number of items in a line of a sweep.
pub open spec fn sweep_line_len(direction: int, width: int, height: int) -> int {
    if direction < 2 {
        width
    } else {
        height
    }
}

/// The index of the item at position `pos` of line `line` of a sweep: rows
/// left to right, rows right to left, columns top to bottom, columns bottom
/// to top.
pub open spec fn sweep_index(direction: int, width: int, height: int, line: int, pos: int) -> int {
    if direction == 0 {
        line * width + pos
    } else if direction == 1 {
        line * width + (width - 1 - pos)
    } else if direction == 2 {
        pos * width + line
    } else {
        (height - 1 - pos) * width + line
    }
}

impl<T: Copy> Grid<T> {
    /// The items, row by row.
    pub closed spec fn spec_items(&self) -> Seq<T> {
        self.items@
    }

    pub closed spec fn spec_width(&self) -> int {
        self.width as int
    }

    pub closed spec fn spec_height(&self) -> int {
        self.height as int
    }

    /// The items fill the rectangle.
    pub open spec fn wf(&self) -> bool {
        self.spec_items().len() == self.spec_width() * self.spec_height()
    }

    /// The grid of the given rows, which must all be as long as the first.
    pub fn new(items: Vec<Vec<T>>) -> (r: Grid<T>)
        requires
            items.len() > 0,
            forall|k: int| 0 <= k < items.len() ==> (#[trigger] items@[k]).len() == items@[0].len(),
            items.len() * items@[0].len() <= usize::MAX,
        ensures
            r.wf(),
            r.spec_height() == items.len(),
            r.spec_width() == items@[0].len(),
            forall|y: int, x: int|
                0 <= y < items.len() && 0 <= x < items@[0].len() ==> r.spec_items()[y * items@[0].len() + x]
                    == (#[trigger] items@[y]@[x]),
    {
        let height = items.len();
        let width = items[0].len();
        let mut flat: Vec<T> = Vec::new();
        let mut y: usize = 0;
        while y < height
            invariant
                height == items.len(),
                width == items@[0].len(),
                forall|k: int| 0 <= k < items.len() ==> (#[trigger] items@[k]).len() == width,
                height * width <= usize::MAX,
                y <= height,
                flat.len() == y * width,
                forall|yy: int, x: int|
                    0 <= yy < y && 0 <= x < width ==> flat@[yy * width + x] == (#[trigger] items@[yy]@[x]),
            decreases height - y,
        {
            proof {
                assert((y + 1) * width <= height * width) by (nonlinear_arith)
                    requires
                        y < height;
                assert((y + 1) * width == y * width + width) by (nonlinear_arith);
            }
            let mut x: usize = 0;
            while x < width
                invariant
                    height == items.len(),
                    width == items@[0].len(),
                    forall|k: int| 0 <= k < items.len() ==> (#[trigger] items@[k]).len() == width,
                    y < height,
                    (y + 1) * width <= usize::MAX,
                    (y + 1) * width == y * width + width,
                    x <= width,
                    flat.len() == y * width + x,
                    forall|yy: int, xx: int|
                        0 <= yy < y && 0 <= xx < width ==> flat@[yy * width + xx] == (#[trigger] items@[yy]@[xx]),
                    forall|xx: int| 0 <= xx < x ==> flat@[y * width + xx] == (#[trigger] items@[y as int]@[xx]),
                decreases width - x,
            {
                flat.push(items[y][x]);
                proof {
                    assert forall|yy: int, xx: int| 0 <= yy < y && 0 <= xx < width implies flat@[yy * width + xx]
                        == (#[trigger] items@[yy]@[xx]) by {
                        assert(yy * width + xx < y * width) by (nonlinear_arith)
                            requires
                                yy < y,
                                xx < width;
                    }
                }
                x += 1;
            }
            proof {
                assert forall|yy: int, xx: int| 0 <= yy < y + 1 && 0 <= xx < width implies flat@[yy * width + xx]
                    == (#[trigger] items@[yy]@[xx]) by {
                    if yy == y {
                        assert(flat@[y * width + xx] == items@[y as int]@[xx]);
                    }
                }
            }
            y += 1;
        }
        proof {
            assert(flat.len() == width * height) by (nonlinear_arith)
                requires
                    flat.len() == y * width,
                    y == height;
        }
        Grid { items: flat, height, width }
    }

    /// The number of items.
    pub fn len(&self) -> (r: usize)
        ensures
            r == self.spec_items().len(),
    {
        self.items.len()
    }

    /// The items, row by row.
    pub fn values(&self) -> (r: &[T])
        ensures
            r@ == self.spec_items(),
    {
        self.items.as_slice()
    }

    /// The width of the rectangle.
    pub fn width(&self) -> (r: usize)
        ensures
            r == self.spec_width(),
    {
        self.width
    }

    /// The height of the rectangle.
    pub fn height(&self) -> (r: usize)
        ensures
            r == self.spec_height(),
    {
        self.height
    }

    /// The indices of the items along every line of a sweep: rows left to
    /// right (0), rows right to left (1), columns top to bottom (2) and
    /// columns bottom to top (3).
    pub fn sweep(&self, direction: usize) -> (r: Vec<Vec<usize>>)
        requires
            self.wf(),
            direction < 4,
        ensures
            r.len() == sweep_lines(direction as int, self.spec_width(), self.spec_height()),
            forall|l: int|
                0 <= l < r.len() ==> (#[trigger] r@[l]).len() == sweep_line_len(
                    direction as int,
                    self.spec_width(),
                    self.spec_height(),
                ),
            forall|l: int, p: int|
                0 <= l < r.len() && 0 <= p < r@[l].len() ==> (#[trigger] r@[l]@[p]) == sweep_index(
                    direction as int,
                    self.spec_width(),
                    self.spec_height(),
                    l,
                    p,
                ),
            forall|l: int, p: int|
                0 <= l < r.len() && 0 <= p < r@[l].len() ==> (#[trigger] r@[l]@[p]) < self.spec_items().len(),
    {
        let w = self.width;
        let h = self.height;
        let lines = if direction < 2 {
            h
        } else {
            w
        };
        let line_len = if direction < 2 {
            w
        } else {
            h
        };
        let mut r: Vec<Vec<usize>> = Vec::new();
        let mut l: usize = 0;
        while l < lines
            invariant
                self.items.len() == w * h,
                w == self.width,
                h == self.height,
                direction < 4,
                lines == sweep_lines(direction as int, w as int, h as int),
                line_len == sweep_line_len(direction as int, w as int, h as int),
                l <= lines,
                r.len() == l,
                forall|k: int| 0 <= k < l ==> (#[trigger] r@[k]).len() == line_len,
                forall|k: int, p: int|
                    0 <= k < l && 0 <= p < line_len ==> (#[trigger] r@[k]@[p]) == sweep_index(
                        direction as int,
                        w as int,
                        h as int,
                        k,
                        p,
                    ) && r@[k]@[p] < w * h,
            decreases lines - l,
        {
            let mut line: Vec<usize> = Vec::new();
            let mut p: usize = 0;
            while p < line_len
                invariant
                    self.items.len() == w * h,
                    direction < 4,
                    lines == sweep_lines(direction as int, w as int, h as int),
                    line_len == sweep_line_len(direction as int, w as int, h as int),
                    l < lines,
                    p <= line_len,
                    line.len() == p,
                    forall|q: int|
                        0 <= q < p ==> (#[trigger] line@[q]) == sweep_index(direction as int, w as int, h as int, l as int, q)
                            && line@[q] < w * h,
                decreases line_len - p,
            {
                let (row, col) = if direction == 0 {
                    (l, p)
                } else if direction == 1 {
                    (l, w - 1 - p)
                } else if direction == 2 {
                    (p, l)
                } else {
                    (h - 1 - p, l)
                };
                proof {
                    assert(row < h && col < w);
                    assert(row * w + col < w * h) by (nonlinear_arith)
                        requires
                            row < h,
                            col < w;
                }
                line.push(row * w + col);
                p += 1;
            }
            r.push(line);
            l += 1;
        }
        r
    }
}

/// Where a sweep goes, in the column `i % w` and row `i / w` of the item
/// it reaches: line `l` of sweeps 0 and 1 is row `l`, read from the left and
/// from the right; line `l` of sweeps 2 and 3 is column `l`, read from the
/// top and from the bottom.
pub proof fn lemma_sweep_coordinates(d: int, w: int, h: int, l: int, p: int)
    requires
        0 <= d < 4,
        w > 0,
        h > 0,
        0 <= l < sweep_lines(d, w, h),
        0 <= p < sweep_line_len(d, w, h),
    ensures
        0 <= sweep_index(d, w, h, l, p) < w * h,
        d == 0 ==> sweep_index(d, w, h, l, p) % w == p && sweep_index(d, w, h, l, p) / w == l,
        d == 1 ==> sweep_index(d, w, h, l, p) % w == w - 1 - p && sweep_index(d, w, h, l, p) / w == l,
        d == 2 ==> sweep_index(d, w, h, l, p) % w == l && sweep_index(d, w, h, l, p) / w == p,
        d == 3 ==> sweep_index(d, w, h, l, p) % w == l && sweep_index(d, w, h, l, p) / w == h - 1 - p,
{
    let i = sweep_index(d, w, h, l, p);
    let (x, y) = if d == 0 {
        (p, l)
    } else if d == 1 {
        (w - 1 - p, l)
    } else if d == 2 {
        (l, p)
    } else {
        (l, h - 1 - p)
    };
    assert(0 <= x < w && 0 <= y < h);
    assert(i == y * w + x);
    assert(0 <= y * w + x < w * h) by (nonlinear_arith)
        requires
            0 <= x < w,
            0 <= y < h,
    ;
    vstd::arithmetic::div_mod::lemma_fundamental_div_mod_converse(i, w, y, x);
}

} // verus!
