//! Rectangular grids stored row by row, addressed by locations `(x, y)` with
//! `y` growing downwards.
use crate::direction::{Direction, step_of};
use crate::geometry::{point2, vector2, Point, Vector, fits_i32};
use vstd::prelude::*;

verus! {

/// A location in a grid.
pub type Location = Point<2, i32>;

/// The width and height of a grid.
pub type Size = Vector<2, i32>;

/// The row-major index of `(x, y)` in a grid of the given width.
pub open spec fn index_of(x: int, y: int, width: int) -> int {
    x + y * width
}

pub proof fn lemma_index_in_range(x: int, y: int, w: int, h: int)
    requires
        0 <= x < w,
        0 <= y < h,
    ensures
        0 <= index_of(x, y, w) < w * h,
        0 <= y * w <= index_of(x, y, w),
        index_of(x, y, w) % w == x,
        index_of(x, y, w) / w == y,
{
    assert(0 <= y * w && 0 <= x + y * w < w * h) by (nonlinear_arith)
        requires
            0 <= x < w,
            0 <= y < h,
    ;
    vstd::arithmetic::div_mod::lemma_fundamental_div_mod_converse(x + y * w, w, y, x);
}

pub proof fn lemma_index_unique(x1: int, y1: int, x2: int, y2: int, w: int)
    requires
        0 <= x1 < w,
        0 <= x2 < w,
        0 <= y1,
        0 <= y2,
        index_of(x1, y1, w) == index_of(x2, y2, w),
    ensures
        x1 == x2 && y1 == y2,
{
    vstd::arithmetic::div_mod::lemma_fundamental_div_mod_converse(x1 + y1 * w, w, y1, x1);
    vstd::arithmetic::div_mod::lemma_fundamental_div_mod_converse(x2 + y2 * w, w, y2, x2);
}

pub proof fn lemma_location_of_index(i: int, w: int)
    requires
        0 <= i,
        0 < w,
    ensures
        0 <= i % w < w,
        0 <= i / w,
        index_of(i % w, i / w, w) == i,
{
    vstd::arithmetic::div_mod::lemma_fundamental_div_mod(i, w);
    vstd::arithmetic::div_mod::lemma_div_pos_is_pos(i, w);
    assert(i / w * w == w * (i / w)) by (nonlinear_arith);
}

/// The location of a row-major index in a grid of the given size.
pub fn location_from(size: Size, index: usize) -> (r: Location)
    requires
        index <= i32::MAX,
        size.coords[0] > 0,
    ensures
        r.coords[0] == index as int % size.coords[0] as int,
        r.coords[1] == index as int / size.coords[0] as int,
{
    let index = index as i32;
    let x = index % size.coords[0];
    let y = index / size.coords[0];
    point2(x, y)
}

/// A rectangular grid of values.
pub struct Grid<T> {
    items: Vec<T>,
    size: Size,
}

impl<T> Grid<T> {
    /// The grid holds one value per location.
    pub closed spec fn wf(&self) -> bool {
        &&& self.size.coords[0] >= 0
        &&& self.size.coords[1] >= 0
        &&& self.items@.len() == self.size.coords[0] * self.size.coords[1]
        &&& self.size.coords[0] * self.size.coords[1] <= i32::MAX
    }

    /// What a well-formed grid's shape gives: non-negative sides whose
    /// product, the number of cells, fits in an `i32`.
    pub proof fn lemma_shape(&self)
        requires
            self.wf(),
        ensures
            self.spec_width() >= 0,
            self.spec_height() >= 0,
            self.cells().len() == self.spec_width() * self.spec_height(),
            self.spec_width() * self.spec_height() <= i32::MAX,
    {
    }

    /// The number of columns.
    pub closed spec fn spec_width(&self) -> int {
        self.size.coords[0] as int
    }

    /// The number of rows.
    pub closed spec fn spec_height(&self) -> int {
        self.size.coords[1] as int
    }

    /// The values row by row.
    pub closed spec fn cells(&self) -> Seq<T> {
        self.items@
    }

    /// True when `(x, y)` lies inside the grid.
    pub open spec fn valid(&self, x: int, y: int) -> bool {
        0 <= x < self.spec_width() && 0 <= y < self.spec_height()
    }

    /// The value at `(x, y)`.
    pub open spec fn cell(&self, x: int, y: int) -> T {
        self.cells()[index_of(x, y, self.spec_width())]
    }

    /// A grid of the given size holding `items` row by row.
    pub(crate) fn from_items(items: Vec<T>, width: i32, height: i32) -> (r: Grid<T>)
        requires
            width >= 0,
            height >= 0,
            items.len() == width * height,
            width * height <= i32::MAX,
        ensures
            r.wf(),
            r.spec_width() == width,
            r.spec_height() == height,
            r.cells() == items@,
    {
        Grid { items, size: vector2(width, height) }
    }

    /// A grid of the given size with `value` everywhere.
    pub fn new_default(value: T, width: i32, height: i32) -> (r: Grid<T>)
        where
            T: Copy,
        requires
            width >= 0,
            height >= 0,
            width * height <= i32::MAX,
        ensures
            r.wf(),
            r.spec_width() == width,
            r.spec_height() == height,
            forall|i: int| 0 <= i < r.cells().len() ==> #[trigger] r.cells()[i] == value,
    {
        let n = (width * height) as usize;
        let mut items: Vec<T> = Vec::new();
        let mut i: usize = 0;
        while i < n
            invariant
                i <= n,
                items@.len() == i,
                forall|j: int| 0 <= j < i ==> #[trigger] items@[j] == value,
            decreases n - i,
        {
            items.push(value);
            i += 1;
        }
        Grid { items, size: vector2(width, height) }
    }

    /// A grid of the given size filled with the default value.
    pub fn new_empty(width: i32, height: i32) -> (r: Grid<T>)
        where
            T: Copy + Default,
        requires
            width >= 0,
            height >= 0,
            width * height <= i32::MAX,
        ensures
            r.wf(),
            r.spec_width() == width,
            r.spec_height() == height,
            exists|d: T|
                call_ensures(T::default, (), d) && forall|i: int|
                    0 <= i < r.cells().len() ==> #[trigger] r.cells()[i] == d,
    {
        let d = T::default();
        Grid::new_default(d, width, height)
    }

    /// The number of rows.
    pub fn height(&self) -> (r: i32)
        requires
            self.wf(),
        ensures
            r == self.spec_height(),
            r >= 0,
            self.cells().len() == self.spec_width() * self.spec_height(),
    {
        self.size.coords[1]
    }

    /// The number of columns.
    pub fn width(&self) -> (r: i32)
        requires
            self.wf(),
        ensures
            r == self.spec_width(),
            r >= 0,
            self.cells().len() == self.spec_width() * self.spec_height(),
    {
        self.size.coords[0]
    }

    /// The width and height.
    pub fn size(&self) -> (r: Size)
        requires
            self.wf(),
        ensures
            r.coords[0] == self.spec_width(),
            r.coords[1] == self.spec_height(),
    {
        self.size
    }

    /// The number of cells.
    pub fn len(&self) -> (r: usize)
        requires
            self.wf(),
        ensures
            r == self.cells().len(),
            r == self.spec_width() * self.spec_height(),
    {
        self.items.len()
    }

    /// True when the grid has no cells.
    pub fn is_empty(&self) -> (r: bool)
        requires
            self.wf(),
        ensures
            r == (self.cells().len() == 0),
    {
        self.items.len() == 0
    }

    /// The x coordinates of the columns.
    pub fn x_range(&self) -> (r: std::ops::Range<i32>)
        requires
            self.wf(),
        ensures
            r.start == 0,
            r.end == self.spec_width(),
    {
        0..self.size.coords[0]
    }

    /// The y coordinates of the rows.
    pub fn y_range(&self) -> (r: std::ops::Range<i32>)
        requires
            self.wf(),
        ensures
            r.start == 0,
            r.end == self.spec_height(),
    {
        0..self.size.coords[1]
    }

    /// True when the location lies inside the grid.
    pub fn is_valid_location(&self, location: &Location) -> (r: bool)
        requires
            self.wf(),
        ensures
            r == self.valid(location.coords[0] as int, location.coords[1] as int),
    {
        location.coords[0] >= 0 && location.coords[0] < self.size.coords[0] && location.coords[1]
            >= 0 && location.coords[1] < self.size.coords[1]
    }

    /// The position of a location in the row-major storage.
    fn index_from_location(&self, location: Location) -> (r: Option<usize>)
        requires
            self.wf(),
        ensures
            r.is_some() == self.valid(location.coords[0] as int, location.coords[1] as int),
            r matches Some(i) ==> i == index_of(
                location.coords[0] as int,
                location.coords[1] as int,
                self.spec_width(),
            ) && i < self.cells().len(),
    {
        if self.is_valid_location(&location) {
            proof {
                lemma_index_in_range(
                    location.coords[0] as int,
                    location.coords[1] as int,
                    self.spec_width(),
                    self.spec_height(),
                );
            }
            Some((location.coords[0] + location.coords[1] * self.size.coords[0]) as usize)
        } else {
            None
        }
    }

    /// The value at a location, or `None` outside the grid.
    pub fn get(&self, location: Location) -> (r: Option<&T>)
        requires
            self.wf(),
        ensures
            r.is_some() == self.valid(location.coords[0] as int, location.coords[1] as int),
            r matches Some(v) ==> *v == self.cell(location.coords[0] as int, location.coords[1] as int),
    {
        match self.index_from_location(location) {
            Some(ix) => Some(&self.items[ix]),
            None => None,
        }
    }

    /// A mutable reference to the value at a location, or `None` outside
    /// the grid; whatever is written through it lands at that location.
    pub fn get_mut(&mut self, location: Location) -> (r: Option<&mut T>)
        requires
            old(self).wf(),
        ensures
            r.is_some() == old(self).valid(location.coords[0] as int, location.coords[1] as int),
            r matches Some(v) ==> {
                &&& *v == old(self).cell(location.coords[0] as int, location.coords[1] as int)
                &&& final(self).wf()
                &&& final(self).spec_width() == old(self).spec_width()
                &&& final(self).spec_height() == old(self).spec_height()
                &&& final(self).cells() == old(self).cells().update(
                    index_of(location.coords[0] as int, location.coords[1] as int, old(self).spec_width()),
                    *final(v),
                )
            },
            r is None ==> *final(self) == *old(self),
    {
        match self.index_from_location(location) {
            Some(ix) => Some(&mut self.items[ix]),
            None => None,
        }
    }

    /// The value at `(x, y)`, which must lie inside the grid.
    pub fn get_unchecked(&self, x: i32, y: i32) -> (r: &T)
        requires
            self.wf(),
            self.valid(x as int, y as int),
        ensures
            *r == self.cell(x as int, y as int),
    {
        proof {
            lemma_index_in_range(x as int, y as int, self.spec_width(), self.spec_height());
        }
        &self.items[(x + y * self.size.coords[0]) as usize]
    }

    /// Replaces the value at a location. Returns `false`, and changes nothing,
    /// when the location lies outside the grid.
    pub fn set(&mut self, location: Location, value: T) -> (r: bool)
        requires
            old(self).wf(),
        ensures
            final(self).wf(),
            r == old(self).valid(location.coords[0] as int, location.coords[1] as int),
            final(self).spec_width() == old(self).spec_width(),
            final(self).spec_height() == old(self).spec_height(),
            r ==> final(self).cells() == old(self).cells().update(
                index_of(location.coords[0] as int, location.coords[1] as int, old(self).spec_width()),
                value,
            ),
            !r ==> final(self).cells() == old(self).cells(),
    {
        match self.index_from_location(location) {
            Some(ix) => {
                self.items.set(ix, value);
                true
            },
            None => false,
        }
    }

    /// Replaces the value at `(x, y)`, which must lie inside the grid.
    pub fn set_unchecked(&mut self, x: i32, y: i32, value: T)
        requires
            old(self).wf(),
            old(self).valid(x as int, y as int),
        ensures
            final(self).wf(),
            final(self).spec_width() == old(self).spec_width(),
            final(self).spec_height() == old(self).spec_height(),
            final(self).cells() == old(self).cells().update(
                index_of(x as int, y as int, old(self).spec_width()),
                value,
            ),
    {
        proof {
            lemma_index_in_range(x as int, y as int, self.spec_width(), self.spec_height());
        }
        self.items.set((x + y * self.size.coords[0]) as usize, value);
    }

    /// The value at a location, where the grid repeats itself endlessly in
    /// every direction.
    pub fn get_infinite(&self, location: Location) -> (r: &T)
        requires
            self.wf(),
            self.spec_width() > 0,
            self.spec_height() > 0,
        ensures
            *r == self.cell(
                location.coords[0] as int % self.spec_width(),
                location.coords[1] as int % self.spec_height(),
            ),
    {
        let w = self.size.coords[0];
        let h = self.size.coords[1];
        let x = match location.coords[0].checked_rem_euclid(w) {
            Some(v) => v,
            None => 0,
        };
        let y = match location.coords[1].checked_rem_euclid(h) {
            Some(v) => v,
            None => 0,
        };
        proof {
            vstd::arithmetic::div_mod::lemma_mod_bound(location.coords[0] as int, w as int);
            vstd::arithmetic::div_mod::lemma_mod_bound(location.coords[1] as int, h as int);
        }
        self.get_unchecked(x, y)
    }

    /// Exchanges the values at two locations. Nothing changes when either
    /// location lies outside the grid.
    pub fn swap(&mut self, first: Location, second: Location)
        where
            T: Copy,
        requires
            old(self).wf(),
        ensures
            final(self).wf(),
            final(self).spec_width() == old(self).spec_width(),
            final(self).spec_height() == old(self).spec_height(),
            ({
                let w = old(self).spec_width();
                let a = index_of(first.coords[0] as int, first.coords[1] as int, w);
                let b = index_of(second.coords[0] as int, second.coords[1] as int, w);
                if old(self).valid(first.coords[0] as int, first.coords[1] as int) && old(self).valid(
                    second.coords[0] as int,
                    second.coords[1] as int,
                ) {
                    final(self).cells() == old(self).cells().update(a, old(self).cells()[b]).update(
                        b,
                        old(self).cells()[a],
                    )
                } else {
                    final(self).cells() == old(self).cells()
                }
            }),
    {
        if first.coords[0] == second.coords[0] && first.coords[1] == second.coords[1] {
            proof {
                let w = self.spec_width();
                let a = index_of(first.coords[0] as int, first.coords[1] as int, w);
                if self.valid(first.coords[0] as int, first.coords[1] as int) {
                    lemma_index_in_range(first.coords[0] as int, first.coords[1] as int, w, self.spec_height());
                    assert(self.cells().update(a, self.cells()[a]).update(a, self.cells()[a]) =~= self.cells());
                }
            }
            return;
        }
        let first_ix = self.index_from_location(first);
        let second_ix = self.index_from_location(second);
        if let Some(a) = first_ix {
            if let Some(b) = second_ix {
                let va = self.items[a];
                let vb = self.items[b];
                self.items.set(a, vb);
                self.items.set(b, va);
            }
        }
    }

    /// All locations, row by row.
    pub fn locations(&self) -> (r: Vec<Location>)
        requires
            self.wf(),
        ensures
            r.len() == self.cells().len(),
            forall|i: int|
                0 <= i < r.len() ==> self.valid(#[trigger] r@[i].coords[0] as int, r@[i].coords[1] as int)
                    && index_of(r@[i].coords[0] as int, r@[i].coords[1] as int, self.spec_width()) == i,
    {
        let w = self.size.coords[0];
        let h = self.size.coords[1];
        let mut r: Vec<Location> = Vec::new();
        let mut y: i32 = 0;
        while y < h
            invariant
                0 <= y <= h,
                w == self.spec_width(),
                h == self.spec_height(),
                w >= 0,
                r.len() == y * w,
                forall|i: int|
                    0 <= i < r.len() ==> self.valid(#[trigger] r@[i].coords[0] as int, r@[i].coords[1] as int)
                        && index_of(r@[i].coords[0] as int, r@[i].coords[1] as int, w as int) == i,
            decreases h - y,
        {
            let mut x: i32 = 0;
            while x < w
                invariant
                    0 <= x <= w,
                    0 <= y < h,
                    w == self.spec_width(),
                    h == self.spec_height(),
                    r.len() == y * w + x,
                    forall|i: int|
                        0 <= i < r.len() ==> self.valid(#[trigger] r@[i].coords[0] as int, r@[i].coords[1] as int)
                            && index_of(r@[i].coords[0] as int, r@[i].coords[1] as int, w as int) == i,
                decreases w - x,
            {
                r.push(point2(x, y));
                x += 1;
            }
            assert(r.len() == (y + 1) * w) by (nonlinear_arith)
                requires
                    r.len() == y * w + w,
            ;
            y += 1;
        }
        assert(r.len() == self.cells().len()) by (nonlinear_arith)
            requires
                r.len() == h * w,
                self.cells().len() == w * h,
        ;
        r
    }

    /// All locations with their values, row by row.
    pub fn entries(&self) -> (r: Vec<(Location, T)>)
        where
            T: Copy,
        requires
            self.wf(),
        ensures
            r.len() == self.cells().len(),
            forall|i: int|
                0 <= i < r.len() ==> self.valid(#[trigger] r@[i].0.coords[0] as int, r@[i].0.coords[1] as int)
                    && index_of(r@[i].0.coords[0] as int, r@[i].0.coords[1] as int, self.spec_width()) == i
                    && r@[i].1 == self.cells()[i],
    {
        let locations = self.locations();
        let mut r: Vec<(Location, T)> = Vec::new();
        let mut i: usize = 0;
        while i < locations.len()
            invariant
                i <= locations.len(),
                locations.len() == self.cells().len(),
                forall|k: int|
                    0 <= k < locations.len() ==> self.valid(#[trigger] locations@[k].coords[0] as int, locations@[k].coords[1] as int)
                        && index_of(locations@[k].coords[0] as int, locations@[k].coords[1] as int, self.spec_width()) == k,
                r.len() == i,
                forall|k: int|
                    0 <= k < i ==> #[trigger] r@[k] == (locations@[k], self.cells()[k]),
            decreases locations.len() - i,
        {
            r.push((locations[i], self.items[i]));
            i += 1;
        }
        r
    }

    /// The values row by row.
    pub fn values(&self) -> (r: &[T])
        requires
            self.wf(),
        ensures
            r@ == self.cells(),
    {
        self.items.as_slice()
    }

    /// A grid of the same size holding `function` applied to every value.
    pub fn map<U, F: Fn(&T) -> U>(&self, function: F) -> (r: Grid<U>)
        requires
            self.wf(),
            forall|i: int| 0 <= i < self.cells().len() ==> call_requires(function, (&self.cells()[i],)),
        ensures
            r.wf(),
            r.spec_width() == self.spec_width(),
            r.spec_height() == self.spec_height(),
            r.cells().len() == self.cells().len(),
            forall|i: int|
                0 <= i < self.cells().len() ==> call_ensures(function, (&self.cells()[i],), #[trigger] r.cells()[i]),
    {
        let mut items: Vec<U> = Vec::new();
        let mut i: usize = 0;
        while i < self.items.len()
            invariant
                i <= self.items.len(),
                items.len() == i,
                forall|k: int| 0 <= k < self.cells().len() ==> call_requires(function, (&self.cells()[k],)),
                forall|k: int| 0 <= k < i ==> call_ensures(function, (&self.cells()[k],), #[trigger] items@[k]),
            decreases self.items.len() - i,
        {
            assert(call_requires(function, (&self.cells()[i as int],)));
            let v = function(&self.items[i]);
            items.push(v);
            i += 1;
        }
        Grid { items, size: self.size }
    }

    /// The location of the first value, row by row, for which `predicate`
    /// holds.
    pub fn find<F: Fn(&T) -> bool>(&self, predicate: F) -> (r: Option<Location>)
        requires
            self.wf(),
            forall|i: int| 0 <= i < self.cells().len() ==> call_requires(predicate, (&self.cells()[i],)),
        ensures
            r matches Some(loc) ==> {
                &&& self.valid(loc.coords[0] as int, loc.coords[1] as int)
                &&& call_ensures(predicate, (&self.cell(loc.coords[0] as int, loc.coords[1] as int),), true)
                &&& forall|i: int|
                    0 <= i < index_of(loc.coords[0] as int, loc.coords[1] as int, self.spec_width())
                        ==> call_ensures(predicate, (&#[trigger] self.cells()[i],), false)
            },
            r is None ==> forall|i: int|
                0 <= i < self.cells().len() ==> call_ensures(predicate, (&#[trigger] self.cells()[i],), false),
    {
        let mut i: usize = 0;
        while i < self.items.len()
            invariant
                i <= self.items.len(),
                self.wf(),
                self.items.len() <= i32::MAX,
                forall|k: int| 0 <= k < self.cells().len() ==> call_requires(predicate, (&self.cells()[k],)),
                forall|k: int| 0 <= k < i ==> call_ensures(predicate, (&#[trigger] self.cells()[k],), false),
            decreases self.items.len() - i,
        {
            assert(call_requires(predicate, (&self.cells()[i as int],)));
            if predicate(&self.items[i]) {
                let w = self.size.coords[0];
                proof {
                    if w == 0 {
                        assert(self.cells().len() == 0) by (nonlinear_arith)
                            requires self.cells().len() == w * self.spec_height(), w == 0;
                    }
                    lemma_location_of_index(i as int, w as int);
                    let ii = i as int;
                    let ww = w as int;
                    assert(ii / ww <= ii) by {
                        vstd::arithmetic::div_mod::lemma_div_is_ordered_by_denominator(ii, 1, ww);
                    }
                    assert(ii / ww < self.spec_height()) by (nonlinear_arith)
                        requires
                            ii < ww * self.spec_height(),
                            ww > 0,
                            ii == (ii % ww) + (ii / ww) * ww,
                            0 <= ii % ww,
                    ;
                }
                let loc = location_from(self.size, i);
                return Some(loc);
            }
            i += 1;
        }
        None
    }
}


/// The coordinates of a location as a pair of integers.
pub open spec fn pos(l: Location) -> (int, int) {
    (l.coords[0] as int, l.coords[1] as int)
}

/// True when two positions are next to each other horizontally or vertically.
pub open spec fn adjacent(p: (int, int), q: (int, int)) -> bool {
    (p.0 == q.0 && (p.1 == q.1 + 1 || q.1 == p.1 + 1)) || (p.1 == q.1 && (p.0 == q.0 + 1 || q.0
        == p.0 + 1))
}

impl<T> Grid<T> {
    /// True when `p` lies in the grid and holds `v`.
    pub open spec fn holds(&self, p: (int, int), v: T) -> bool {
        self.valid(p.0, p.1) && self.cell(p.0, p.1) == v
    }

    /// True when every neighbour of a member of `s` that holds `v` is a
    /// member of `s` too.
    pub open spec fn closed_region(&self, v: T, s: Set<(int, int)>) -> bool {
        forall|p: (int, int), q: (int, int)|
            #![trigger s.contains(p), adjacent(p, q)]
            s.contains(p) && adjacent(p, q) && self.holds(q, v) ==> s.contains(q)
    }

    /// The region of `start`: the positions holding the same value as `start`
    /// that can be reached from it in steps between neighbours holding that
    /// value. It is the smallest closed set that holds `start`.
    pub open spec fn region(&self, start: (int, int)) -> Set<(int, int)> {
        Set::new(
            |p: (int, int)|
                self.holds(p, self.cell(start.0, start.1)) && forall|s: Set<(int, int)>|
                    #[trigger] self.closed_region(self.cell(start.0, start.1), s) && s.contains(start)
                        ==> s.contains(p),
        )
    }
}

/// A position that holds `a` in `g` and is not yet filled.
spec fn open_cell<T>(g: Grid<T>, a: T, f: Set<(int, int)>, p: (int, int)) -> bool {
    g.holds(p, a) && !f.contains(p)
}

/// All positions of row `y` from column `x1` to column `x2` are open.
spec fn row_open<T>(g: Grid<T>, a: T, f: Set<(int, int)>, y: int, x1: int, x2: int) -> bool {
    forall|x: int|
        (x1 <= x <= x2 || x2 <= x <= x1) ==> #[trigger] open_cell(g, a, f, (x, y))
}

/// Some location on the stack reaches `q` along its row through open
/// positions.
spec fn covered<T>(g: Grid<T>, a: T, f: Set<(int, int)>, st: Seq<Location>, q: (int, int)) -> bool {
    exists|k: int|
        0 <= k < st.len() && #[trigger] st[k].coords[1] == q.1 && row_open(
            g,
            a,
            f,
            q.1,
            st[k].coords[0] as int,
            q.0,
        )
}

/// Every open neighbour of a filled position is covered by the stack.
spec fn pending_covered<T>(g: Grid<T>, a: T, f: Set<(int, int)>, st: Seq<Location>) -> bool {
    forall|p: (int, int), q: (int, int)|
        #![trigger f.contains(p), adjacent(p, q)]
        f.contains(p) && adjacent(p, q) && open_cell(g, a, f, q) ==> covered(g, a, f, st, q)
}

/// Every closed set that holds `start` holds the filled positions and the
/// stack.
spec fn sound<T>(g: Grid<T>, a: T, start: (int, int), f: Set<(int, int)>, st: Seq<Location>) -> bool {
    forall|s: Set<(int, int)>|
        #[trigger] g.closed_region(a, s) && s.contains(start) ==> f.subset_of(s) && forall|k: int|
            0 <= k < st.len() ==> s.contains(pos(#[trigger] st[k]))
}

/// Every cell of row `y` from column `x1` to column `x2` holds `a`.
spec fn run_holds<T>(g: Grid<T>, a: T, y: int, x1: int, x2: int) -> bool {
    forall|x: int| x1 <= x <= x2 ==> #[trigger] g.holds((x, y), a)
}

/// A location pushed for row `y` among the columns `lx..rx`.
spec fn pushed_ok<T>(g: Grid<T>, a: T, pt: Location, lx: int, rx: int, y: int) -> bool {
    pt.coords[1] == y && lx <= pt.coords[0] < rx && g.holds(pos(pt), a)
}

/// Some location of `st` from index `base` on reaches column `x` of row `y`
/// through cells holding `a`.
spec fn reached<T>(g: Grid<T>, a: T, st: Seq<Location>, base: int, y: int, x: int) -> bool {
    exists|j: int|
        base <= j < st.len() && (#[trigger] st[j]).coords[1] == y && st[j].coords[0] <= x
            && run_holds(g, a, y, st[j].coords[0] as int, x)
}

/// `after` is `before` followed by the first location of every run of
/// cells holding `a` among the columns `lx..rx` of row `y`.
spec fn push_ok<T>(g: Grid<T>, a: T, before: Seq<Location>, after: Seq<Location>, lx: int, rx: int, y: int) -> bool {
    &&& after.len() >= before.len()
    &&& after.subrange(0, before.len() as int) == before
    &&& forall|j: int| before.len() <= j < after.len() ==> pushed_ok(g, a, #[trigger] after[j], lx, rx, y)
    &&& forall|x: int| lx <= x < rx && #[trigger] g.holds((x, y), a) ==> reached(g, a, after, before.len() as int, y, x)
}

proof fn lemma_reached_push<T>(g: Grid<T>, a: T, st: Seq<Location>, pt: Location, base: int, y: int, x: int)
    requires
        0 <= base,
        reached(g, a, st, base, y, x),
    ensures
        reached(g, a, st.push(pt), base, y, x),
{
    let j = choose|j: int|
        base <= j < st.len() && (#[trigger] st[j]).coords[1] == y && st[j].coords[0] <= x
            && run_holds(g, a, y, st[j].coords[0] as int, x);
    assert(base <= j < st.len());
    assert(st.push(pt)[j] == st[j]);
    assert(run_holds(g, a, y, st.push(pt)[j].coords[0] as int, x));
    assert(st.push(pt)[j].coords[1] == y);
}

impl<T: Copy + PartialEq> Grid<T> {
    /// True when the cell at `(x, y)` equals `v`.
    pub(crate) fn cell_is(&self, x: i32, y: i32, v: &T) -> (r: bool)
        requires
            self.wf(),
            self.valid(x as int, y as int),
            vstd::laws_eq::obeys_concrete_eq::<T>(),
        ensures
            r == (self.cell(x as int, y as int) == *v),
    {
        proof {
            reveal(vstd::laws_eq::obeys_concrete_eq);
        }
        self.get_unchecked(x, y).eq(v)
    }

    /// Pushes, for every run of cells equal to `accept` among the columns
    /// `lx..rx` of row `y`, the first location of that run.
    #[verifier::rlimit(60)]
    fn push_runs(&self, stack: &mut Vec<Location>, lx: i32, rx: i32, y: i32, accept: &T)
        requires
            self.wf(),
            0 <= lx <= rx <= self.spec_width(),
            0 <= y < self.spec_height(),
            vstd::laws_eq::obeys_concrete_eq::<T>(),
        ensures
            push_ok(*self, *accept, old(stack)@, final(stack)@, lx as int, rx as int, y as int),
    {
        let ghost start_len = stack@.len() as int;
        let ghost a = *accept;
        let mut span_added = false;
        let mut x = lx;
        while x < rx
            invariant
                self.wf(),
                0 <= lx <= x <= rx <= self.spec_width(),
                0 <= y < self.spec_height(),
                vstd::laws_eq::obeys_concrete_eq::<T>(),
                a == *accept,
                stack@.len() >= start_len,
                stack@.subrange(0, start_len) == old(stack)@,
                start_len == old(stack)@.len(),
                forall|j: int| start_len <= j < stack@.len() ==> pushed_ok(*self, a, #[trigger] stack@[j], lx as int, x as int, y as int),
                span_added ==> x > lx && stack@.len() > start_len && stack@[stack@.len() - 1].coords[1] == y
                    && stack@[stack@.len() - 1].coords[0] <= x - 1
                    && run_holds(*self, a, y as int, stack@[stack@.len() - 1].coords[0] as int, x - 1),
                forall|x1: int| lx <= x1 < x && #[trigger] self.holds((x1, y as int), a) ==> reached(*self, a, stack@, start_len, y as int, x1),
            decreases rx - x,
        {
            let ghost before = stack@;
            let holds = self.cell_is(x, y, accept);
            if !holds {
                span_added = false;
            } else if !span_added {
                stack.push(point2(x, y));
                span_added = true;
            }
            proof {
                assert(stack@.subrange(0, start_len) =~= before.subrange(0, start_len));
                assert forall|j: int| start_len <= j < stack@.len() implies pushed_ok(*self, a, #[trigger] stack@[j], lx as int, x + 1, y as int) by {
                    if j < before.len() {
                        assert(stack@[j] == before[j]);
                        assert(pushed_ok(*self, a, before[j], lx as int, x as int, y as int));
                    }
                }
                assert forall|x1: int| lx <= x1 < x + 1 && #[trigger] self.holds((x1, y as int), a) implies reached(*self, a, stack@, start_len, y as int, x1) by {
                    if x1 < x {
                        if stack@.len() != before.len() {
                            lemma_reached_push(*self, a, before, stack@[stack@.len() - 1], start_len, y as int, x1);
                            assert(stack@ == before.push(stack@[stack@.len() - 1]));
                        }
                    } else {
                        let j = stack@.len() - 1;
                        assert(run_holds(*self, a, y as int, stack@[j].coords[0] as int, x1));
                    }
                }
                if span_added {
                    let j = stack@.len() - 1;
                    assert(run_holds(*self, a, y as int, stack@[j].coords[0] as int, x as int));
                }
            }
            x += 1;
        }
    }

    /// Replaces the value of the region of `start` (see `region`) by
    /// `value`, and returns the number of cells changed. Nothing changes when
    /// `start` lies outside the grid.
    ///
    /// The value at `start` must differ from `value`: otherwise the filling
    /// never ends.
    pub fn fill(&mut self, start: Location, value: T) -> (r: usize)
        requires
            old(self).wf(),
            vstd::laws_eq::obeys_concrete_eq::<T>(),
            old(self).valid(start.coords[0] as int, start.coords[1] as int) ==> old(self).cell(
                start.coords[0] as int,
                start.coords[1] as int,
            ) != value,
        ensures
            final(self).wf(),
            final(self).spec_width() == old(self).spec_width(),
            final(self).spec_height() == old(self).spec_height(),
            !old(self).valid(start.coords[0] as int, start.coords[1] as int) ==> r == 0
                && final(self).cells() == old(self).cells(),
            old(self).valid(start.coords[0] as int, start.coords[1] as int) ==> {
                let reg = old(self).region(pos(start));
                &&& reg.finite()
                &&& r == reg.len()
                &&& forall|x: int, y: int|
                    #![trigger final(self).cell(x, y)]
                    old(self).valid(x, y) ==> final(self).cell(x, y) == if reg.contains((x, y)) {
                        value
                    } else {
                        old(self).cell(x, y)
                    }
            },
    {
        let accept_cell = match self.get(start) {
            Some(cell) => *cell,
            None => {
                return 0;
            },
        };
        let ghost g = *self;
        let ghost a = accept_cell;
        let ghost st = pos(start);
        let w = self.width();
        let h = self.height();
        let mut stack: Vec<Location> = Vec::new();
        stack.push(start);
        let mut count_cells: usize = 0;
        let ghost mut filled: Set<(int, int)> = Set::empty();
        let ghost mut filled_ix: Set<int> = Set::empty();
        proof {
            reveal(vstd::laws_eq::obeys_concrete_eq);
            assert(filled_ix =~= Set::<int>::empty());
            assert(self.cells() =~= g.cells());
        }
        while stack.len() > 0
            invariant
                self.wf(),
                vstd::laws_eq::obeys_concrete_eq::<T>(),
                w == self.spec_width() == g.spec_width(),
                h == self.spec_height() == g.spec_height(),
                g.wf(),
                g.valid(st.0, st.1),
                a == g.cell(st.0, st.1),
                a == accept_cell,
                a != value,
                forall|x: int, y: int|
                    #![trigger self.cell(x, y)]
                    g.valid(x, y) ==> self.cell(x, y) == if filled.contains((x, y)) {
                        value
                    } else {
                        g.cell(x, y)
                    },
                forall|p: (int, int)| #[trigger] filled.contains(p) ==> g.holds(p, a),
                filled.finite(),
                filled_ix.finite(),
                filled.len() == count_cells,
                filled_ix.len() == count_cells,
                filled_ix.subset_of(vstd::set_lib::set_int_range(0, w * h)),
                forall|p: (int, int)| #[trigger] filled.contains(p) ==> filled_ix.contains(index_of(p.0, p.1, w as int)),
                forall|i: int| #[trigger] filled_ix.contains(i) ==> exists|p: (int, int)| #[trigger] filled.contains(p) && index_of(p.0, p.1, w as int) == i,
                forall|k: int|
                    0 <= k < stack@.len() ==> g.valid(
                        (#[trigger] stack@[k]).coords[0] as int,
                        stack@[k].coords[1] as int,
                    ) && (filled.contains(pos(stack@[k])) || g.holds(pos(stack@[k]), a)),
                filled.contains(st) || (stack@.len() == 1 && pos(stack@[0]) == st),
                sound(g, a, st, filled, stack@),
                pending_covered(g, a, filled, stack@),
            decreases w * h - count_cells, stack@.len(),
        {
            proof {
                lemma_len_bound(filled_ix, w as int * h as int);
            }
            let ghost stack0 = stack@;
            let s = stack.pop().unwrap();
            let x = s.coords[0];
            let y = s.coords[1];
            let ghost stack1 = stack@;
            let ghost f0 = filled;
            let ghost c0 = count_cells;
            proof {
                assert(stack0 == stack1.push(s));
                assert(stack0[stack0.len() - 1] == s);
                assert(g.valid(x as int, y as int));
            }
            // Fill the run to the left of the popped location.
            let mut lx = x;
            while lx > 0
                invariant
                    0 <= lx <= x < w,
                    0 <= y < h,
                    self.wf(),
                    vstd::laws_eq::obeys_concrete_eq::<T>(),
                    w == self.spec_width() == g.spec_width(),
                    h == self.spec_height() == g.spec_height(),
                    g.wf(),
                    a == accept_cell,
                    a != value,
                    filled == f0.union(Set::new(|p: (int, int)| p.1 == y && lx <= p.0 < x)),
                    count_cells == c0 + (x - lx),
                    g.valid(x as int, y as int),
                    x == s.coords[0],
                    y == s.coords[1],
                    forall|k: int| lx <= k < x ==> #[trigger] open_cell(g, a, f0, (k, y as int)),
                    forall|xx: int, yy: int|
                        #![trigger self.cell(xx, yy)]
                        g.valid(xx, yy) ==> self.cell(xx, yy) == if filled.contains((xx, yy)) {
                            value
                        } else {
                            g.cell(xx, yy)
                        },
                    forall|p: (int, int)| #[trigger] f0.contains(p) ==> g.holds(p, a),
                    f0.finite(),
                    filled.finite(),
                    filled_ix.finite(),
                    filled.len() == count_cells,
                    filled_ix.len() == count_cells,
                    filled_ix.subset_of(vstd::set_lib::set_int_range(0, w * h)),
                    forall|p: (int, int)| #[trigger] filled.contains(p) ==> filled_ix.contains(index_of(p.0, p.1, w as int)),
                    forall|i: int| #[trigger] filled_ix.contains(i) ==> exists|p: (int, int)| #[trigger] filled.contains(p) && index_of(p.0, p.1, w as int) == i,
                    forall|sr: Set<(int, int)>|
                        #[trigger] g.closed_region(a, sr) && sr.contains(st) && sr.contains(pos(s)) ==> forall|k: int|
                            lx <= k <= x ==> #[trigger] sr.contains((k, y as int)),
                ensures
                    lx == 0 || !open_cell(g, a, f0, (lx - 1, y as int)),
                decreases lx,
            {
                let ghost lx0 = lx;
                if self.cell_is(lx - 1, y, &accept_cell) {
                    proof {
                        let q = ((lx - 1) as int, y as int);
                        assert(!filled.contains(q));
                        lemma_fill_one(g, a, filled, filled_ix, q.0, q.1, w as int, h as int);
                        let old_filled = filled;
                        let old_ix = filled_ix;
                        filled = filled.insert(q);
                        filled_ix = filled_ix.insert(index_of(q.0, q.1, w as int));
                        assert(filled =~= f0.union(Set::new(|p: (int, int)| p.1 == y && lx - 1 <= p.0 < x)));
                        assert forall|i: int| #[trigger] filled_ix.contains(i) implies exists|p: (int, int)| #[trigger] filled.contains(p) && index_of(p.0, p.1, w as int) == i by {
                            if i != index_of(q.0, q.1, w as int) {
                                let p = choose|p: (int, int)| #[trigger] old_filled.contains(p) && index_of(p.0, p.1, w as int) == i;
                                assert(filled.contains(p));
                            } else {
                                assert(filled.contains(q));
                            }
                        }
                        assert forall|sr: Set<(int, int)>|
                            #[trigger] g.closed_region(a, sr) && sr.contains(st) && sr.contains(pos(s)) implies forall|k: int|
                                lx - 1 <= k <= x ==> #[trigger] sr.contains((k, y as int)) by {
                            assert(sr.contains((lx as int, y as int)));
                            assert(adjacent((lx as int, y as int), q));
                        }
                    }
                    let ghost before_set = *self;
                    self.set_unchecked(lx - 1, y, value);
                    proof {
                        lemma_set_cell(before_set, *self, (lx - 1) as int, y as int, value);
                        lemma_len_bound(filled_ix, w as int * h as int);
                    }
                    count_cells += 1;
                    lx -= 1;
                } else {
                    break;
                }
            }
            // Fill the run from the popped location to the right.
            let mut rx = x;
            while rx < w
                invariant
                    0 <= lx <= x <= rx <= w,
                    0 <= y < h,
                    self.wf(),
                    vstd::laws_eq::obeys_concrete_eq::<T>(),
                    w == self.spec_width() == g.spec_width(),
                    h == self.spec_height() == g.spec_height(),
                    g.wf(),
                    a == accept_cell,
                    a != value,
                    filled == f0.union(Set::new(|p: (int, int)| p.1 == y && lx <= p.0 < rx)),
                    count_cells == c0 + (rx - lx),
                    x < w,
                    x == s.coords[0],
                    y == s.coords[1],
                    forall|k: int| lx <= k < rx ==> #[trigger] open_cell(g, a, f0, (k, y as int)),
                    forall|xx: int, yy: int|
                        #![trigger self.cell(xx, yy)]
                        g.valid(xx, yy) ==> self.cell(xx, yy) == if filled.contains((xx, yy)) {
                            value
                        } else {
                            g.cell(xx, yy)
                        },
                    forall|p: (int, int)| #[trigger] f0.contains(p) ==> g.holds(p, a),
                    f0.finite(),
                    filled.finite(),
                    filled_ix.finite(),
                    filled.len() == count_cells,
                    filled_ix.len() == count_cells,
                    filled_ix.subset_of(vstd::set_lib::set_int_range(0, w * h)),
                    forall|p: (int, int)| #[trigger] filled.contains(p) ==> filled_ix.contains(index_of(p.0, p.1, w as int)),
                    forall|i: int| #[trigger] filled_ix.contains(i) ==> exists|p: (int, int)| #[trigger] filled.contains(p) && index_of(p.0, p.1, w as int) == i,
                    forall|sr: Set<(int, int)>|
                        #[trigger] g.closed_region(a, sr) && sr.contains(st) && sr.contains(pos(s)) ==> forall|k: int|
                            (lx <= k < rx || k == x) ==> #[trigger] sr.contains((k, y as int)),
                    open_cell(g, a, f0, pos(s)) && rx == x ==> true,
                    rx > x || (rx == x),
                    lx == 0 || !open_cell(g, a, f0, (lx - 1, y as int)),
                ensures
                    rx == w || !open_cell(g, a, f0, (rx as int, y as int)),
                    open_cell(g, a, f0, pos(s)) ==> x < rx,
                decreases w - rx,
            {
                if self.cell_is(rx, y, &accept_cell) {
                    proof {
                        let q = (rx as int, y as int);
                        assert(!filled.contains(q));
                        lemma_fill_one(g, a, filled, filled_ix, q.0, q.1, w as int, h as int);
                        let old_filled = filled;
                        filled = filled.insert(q);
                        filled_ix = filled_ix.insert(index_of(q.0, q.1, w as int));
                        assert(filled =~= f0.union(Set::new(|p: (int, int)| p.1 == y && lx <= p.0 < rx + 1)));
                        assert forall|i: int| #[trigger] filled_ix.contains(i) implies exists|p: (int, int)| #[trigger] filled.contains(p) && index_of(p.0, p.1, w as int) == i by {
                            if i != index_of(q.0, q.1, w as int) {
                                let p = choose|p: (int, int)| #[trigger] old_filled.contains(p) && index_of(p.0, p.1, w as int) == i;
                                assert(filled.contains(p));
                            } else {
                                assert(filled.contains(q));
                            }
                        }
                        assert forall|sr: Set<(int, int)>|
                            #[trigger] g.closed_region(a, sr) && sr.contains(st) && sr.contains(pos(s)) implies forall|k: int|
                                (lx <= k < rx + 1 || k == x) ==> #[trigger] sr.contains((k, y as int)) by {
                            if rx > x {
                                assert(sr.contains(((rx - 1) as int, y as int)));
                                assert(adjacent(((rx - 1) as int, y as int), q));
                            }
                        }
                    }
                    let ghost before_set = *self;
                    self.set_unchecked(rx, y, value);
                    proof {
                        lemma_set_cell(before_set, *self, rx as int, y as int, value);
                        lemma_len_bound(filled_ix, w as int * h as int);
                    }
                    count_cells += 1;
                    rx += 1;
                } else {
                    proof {
                        if open_cell(g, a, f0, pos(s)) && rx == x {
                            let q = (x as int, y as int);
                            assert(!f0.contains(q));
                            assert(!Set::new(|p: (int, int)| p.1 == y && lx <= p.0 < rx).contains(q));
                            assert(!filled.contains(q));
                            assert(g.valid(q.0, q.1));
                            assert(self.cell(q.0, q.1) == g.cell(q.0, q.1));
                        }
                    }
                    break;
                }
            }
            let ghost f1 = filled;
            proof {
                assert forall|p: (int, int)| #[trigger] self.holds(p, a) <==> open_cell(g, a, f1, p) by {
                    if g.valid(p.0, p.1) {
                        assert(self.cell(p.0, p.1) == if f1.contains(p) { value } else { g.cell(p.0, p.1) });
                    }
                }
            }
            // Push the starts of the runs above and below.
            if y > 0 {
                self.push_runs(&mut stack, lx, rx, y - 1, &accept_cell);
            }
            let ghost stack_mid = stack@;
            if y < h - 1 {
                self.push_runs(&mut stack, lx, rx, y + 1, &accept_cell);
            }
            proof {
                lemma_after_pop(g, a, st, s, stack0, stack1, stack_mid, stack@, f0, f1, lx as int, rx as int, y as int, w as int, h as int, *self);
                lemma_len_bound(filled_ix, w as int * h as int);
                if lx == rx {
                    lemma_push_nothing(*self, a, stack1, stack_mid, stack@, lx as int, y as int, h as int);
                }
            }
        }
        proof {
            lemma_fill_done(g, a, st, filled);
        }
        count_cells
    }
}


#[verifier::rlimit(100)]
#[verifier::spinoff_prover]
proof fn lemma_after_pop<T>(
    g: Grid<T>,
    a: T,
    st: (int, int),
    s: Location,
    stack0: Seq<Location>,
    stack1: Seq<Location>,
    stack_mid: Seq<Location>,
    stack2: Seq<Location>,
    f0: Set<(int, int)>,
    f1: Set<(int, int)>,
    lx: int,
    rx: int,
    y: int,
    w: int,
    h: int,
    cur: Grid<T>,
)
    requires
        w == g.spec_width(),
        h == g.spec_height(),
        g.valid(st.0, st.1),
        a == g.cell(st.0, st.1),
        stack0 == stack1.push(s),
        forall|p: (int, int)| #[trigger] f0.contains(p) ==> g.holds(p, a),
        forall|k: int|
            0 <= k < stack0.len() ==> g.valid(
                (#[trigger] stack0[k]).coords[0] as int,
                stack0[k].coords[1] as int,
            ) && (f0.contains(pos(stack0[k])) || g.holds(pos(stack0[k]), a)),
        f0.contains(st) || (stack0.len() == 1 && pos(stack0[0]) == st),
        sound(g, a, st, f0, stack0),
        pending_covered(g, a, f0, stack0),
        f1 == f0.union(Set::new(|p: (int, int)| p.1 == y && lx <= p.0 < rx)),
        0 <= lx <= s.coords[0] <= rx <= w,
        s.coords[1] == y,
        0 <= y < h,
        forall|k: int| lx <= k < rx ==> #[trigger] open_cell(g, a, f0, (k, y)),
        lx == 0 || !open_cell(g, a, f0, (lx - 1, y)),
        rx == w || !open_cell(g, a, f0, (rx, y)),
        open_cell(g, a, f0, pos(s)) ==> s.coords[0] < rx,
        forall|sr: Set<(int, int)>|
            #[trigger] g.closed_region(a, sr) && sr.contains(st) && sr.contains(pos(s)) ==> forall|k: int|
                (lx <= k < rx || k == s.coords[0]) ==> #[trigger] sr.contains((k, y)),
        forall|p: (int, int)| #[trigger] cur.holds(p, a) <==> open_cell(g, a, f1, p),
        y > 0 ==> push_ok(cur, a, stack1, stack_mid, lx, rx, y - 1),
        y == 0 ==> stack_mid == stack1,
        y < h - 1 ==> push_ok(cur, a, stack_mid, stack2, lx, rx, y + 1),
        y >= h - 1 ==> stack2 == stack_mid,
    ensures
        forall|p: (int, int)| #[trigger] f1.contains(p) ==> g.holds(p, a),
        forall|k: int|
            0 <= k < stack2.len() ==> g.valid(
                (#[trigger] stack2[k]).coords[0] as int,
                stack2[k].coords[1] as int,
            ) && (f1.contains(pos(stack2[k])) || g.holds(pos(stack2[k]), a)),
        f1.contains(st) || (stack2.len() == 1 && pos(stack2[0]) == st),
        sound(g, a, st, f1, stack2),
        pending_covered(g, a, f1, stack2),
{
    let run = Set::new(|p: (int, int)| p.1 == y && lx <= p.0 < rx);
    let n1 = stack1.len() as int;
    let nm = stack_mid.len() as int;
    assert(stack0[n1] == s);
    assert(stack_mid.len() >= n1 && stack_mid.subrange(0, n1) == stack1);
    assert(stack2.len() >= nm && stack2.subrange(0, nm) == stack_mid);
    assert forall|k: int| 0 <= k < n1 implies #[trigger] stack2[k] == stack0[k] by {
        assert(stack_mid.subrange(0, n1)[k] == stack_mid[k]);
        assert(stack2.subrange(0, nm)[k] == stack2[k]);
    }
    // Pushed locations lie above or below the run and hold the value.
    assert forall|k: int| n1 <= k < stack2.len() implies {
        let pt = #[trigger] stack2[k];
        &&& (pt.coords[1] == y - 1 || pt.coords[1] == y + 1)
        &&& lx <= pt.coords[0] < rx
        &&& open_cell(g, a, f1, pos(pt))
    } by {
        if k < nm {
            assert(stack2.subrange(0, nm)[k] == stack2[k]);
            assert(y > 0);
            assert(cur.holds(pos(stack_mid[k]), a));
        } else {
            assert(y < h - 1);
            assert(cur.holds(pos(stack2[k]), a));
        }
    }
    assert forall|p: (int, int)| #[trigger] f1.contains(p) implies g.holds(p, a) by {
        if run.contains(p) {
            assert(open_cell(g, a, f0, (p.0, y)));
        }
    }
    assert forall|k: int| 0 <= k < stack2.len() implies g.valid(
        (#[trigger] stack2[k]).coords[0] as int,
        stack2[k].coords[1] as int,
    ) && (f1.contains(pos(stack2[k])) || g.holds(pos(stack2[k]), a)) by {
        if k < n1 {
            assert(stack0[k] == stack2[k]);
        }
    }
    // The start is filled once the first location has been popped.
    if !f0.contains(st) {
        assert(s == stack0[0]);
        assert(open_cell(g, a, f0, pos(s)));
        assert(run.contains(st));
    }
    // Every closed region with the start holds what was filled and pushed.
    assert forall|sr: Set<(int, int)>| #[trigger] g.closed_region(a, sr) && sr.contains(st) implies f1.subset_of(sr) && forall|k: int|
        0 <= k < stack2.len() ==> sr.contains(pos(#[trigger] stack2[k])) by {
        assert(sr.contains(pos(stack0[n1])));
        assert forall|p: (int, int)| #[trigger] f1.contains(p) implies sr.contains(p) by {
            if run.contains(p) {
                assert(sr.contains((p.0, y)));
            }
        }
        assert forall|k: int| 0 <= k < stack2.len() implies sr.contains(pos(#[trigger] stack2[k])) by {
            if k < n1 {
                assert(stack0[k] == stack2[k]);
                assert(sr.contains(pos(stack0[k])));
            } else {
                let pt = stack2[k];
                let below = (pt.coords[0] as int, y);
                assert(sr.contains(below));
                assert(adjacent(below, pos(pt)));
            }
        }
    }
    // Every open neighbour of a filled position is still covered.
    assert forall|p: (int, int), q: (int, int)|
        #![trigger f1.contains(p), adjacent(p, q)]
        f1.contains(p) && adjacent(p, q) && open_cell(g, a, f1, q) implies covered(g, a, f1, stack2, q) by {
        assert(open_cell(g, a, f0, q));
        if run.contains(p) {
            if q.1 == y {
                assert(!run.contains(q));
                if q.0 == p.0 + 1 {
                    assert(q.0 == rx);
                } else {
                    assert(q.0 == lx - 1);
                }
            } else {
                let yy = q.1;
                assert(lx <= q.0 < rx);
                assert(cur.holds(q, a));
                let before = if yy == y - 1 { stack1 } else { stack_mid };
                let after = if yy == y - 1 { stack_mid } else { stack2 };
                assert(push_ok(cur, a, before, after, lx, rx, yy));
                let j = choose|j: int|
                    before.len() <= j < after.len() && (#[trigger] after[j]).coords[1] == yy
                        && after[j].coords[0] <= q.0 && forall|x2: int|
                        after[j].coords[0] <= x2 <= q.0 ==> #[trigger] cur.holds((x2, yy), a);
                if yy == y - 1 {
                    assert(stack2.subrange(0, nm)[j] == stack2[j]);
                }
                assert(stack2[j] == after[j]);
                assert forall|x2: int|
                    (stack2[j].coords[0] <= x2 <= q.0 || q.0 <= x2 <= stack2[j].coords[0]) implies #[trigger] open_cell(
                    g,
                    a,
                    f1,
                    (x2, yy),
                ) by {
                    assert(cur.holds((x2, yy), a));
                }
                assert(row_open(g, a, f1, yy, stack2[j].coords[0] as int, q.0));
            }
        } else {
            assert(f0.contains(p));
            assert(covered(g, a, f0, stack0, q));
            let k = choose|k: int|
                0 <= k < stack0.len() && #[trigger] stack0[k].coords[1] == q.1 && row_open(
                    g,
                    a,
                    f0,
                    q.1,
                    stack0[k].coords[0] as int,
                    q.0,
                );
            let sx = stack0[k].coords[0] as int;
            let lo = if sx <= q.0 { sx } else { q.0 };
            let hi = if sx <= q.0 { q.0 } else { sx };
            if q.1 == y && lo < rx && hi >= lx {
                if q.0 < lx {
                    assert(open_cell(g, a, f0, (lx - 1, y)));
                } else if q.0 >= rx {
                    assert(open_cell(g, a, f0, (rx, y)));
                } else {
                    assert(run.contains(q));
                }
            } else {
                if k == n1 {
                    assert(open_cell(g, a, f0, (sx, q.1)));
                    assert(pos(s) == (sx, q.1));
                }
                assert(k < n1);
                assert(stack2[k] == stack0[k]);
                assert forall|x2: int|
                    (sx <= x2 <= q.0 || q.0 <= x2 <= sx) implies #[trigger] open_cell(g, a, f1, (x2, q.1)) by {
                    assert(open_cell(g, a, f0, (x2, q.1)));
                    assert(!run.contains((x2, q.1)));
                }
                assert(row_open(g, a, f1, q.1, stack2[k].coords[0] as int, q.0));
            }
        }
    }
}

proof fn lemma_fill_done<T>(g: Grid<T>, a: T, st: (int, int), f: Set<(int, int)>)
    requires
        g.valid(st.0, st.1),
        a == g.cell(st.0, st.1),
        f.contains(st),
        forall|p: (int, int)| #[trigger] f.contains(p) ==> g.holds(p, a),
        sound(g, a, st, f, Seq::<Location>::empty()),
        pending_covered(g, a, f, Seq::<Location>::empty()),
    ensures
        f == g.region(st),
{
    assert(g.closed_region(a, f)) by {
        assert forall|p: (int, int), q: (int, int)|
            #![trigger f.contains(p), adjacent(p, q)]
            f.contains(p) && adjacent(p, q) && g.holds(q, a) implies f.contains(q) by {
            if !f.contains(q) {
                assert(covered(g, a, f, Seq::<Location>::empty(), q));
            }
        }
    }
    assert forall|p: (int, int)| #[trigger] g.region(st).contains(p) implies f.contains(p) by {}
    assert forall|p: (int, int)| #[trigger] f.contains(p) implies g.region(st).contains(p) by {
        assert forall|sr: Set<(int, int)>| #[trigger] g.closed_region(a, sr) && sr.contains(st) implies sr.contains(p) by {
            assert(f.subset_of(sr));
        }
    }
    assert(f =~= g.region(st));
}

proof fn lemma_set_cell<T>(before: Grid<T>, after: Grid<T>, x: int, y: int, v: T)
    requires
        before.wf(),
        before.valid(x, y),
        after.spec_width() == before.spec_width(),
        after.spec_height() == before.spec_height(),
        after.cells() == before.cells().update(index_of(x, y, before.spec_width()), v),
    ensures
        forall|xx: int, yy: int|
            #![trigger after.cell(xx, yy)]
            before.valid(xx, yy) ==> after.cell(xx, yy) == if xx == x && yy == y {
                v
            } else {
                before.cell(xx, yy)
            },
{
    assert forall|xx: int, yy: int|
        #![trigger after.cell(xx, yy)]
        before.valid(xx, yy) implies after.cell(xx, yy) == if xx == x && yy == y {
            v
        } else {
            before.cell(xx, yy)
        } by {
        let w = before.spec_width();
        lemma_index_in_range(xx, yy, w, before.spec_height());
        lemma_index_in_range(x, y, w, before.spec_height());
        if index_of(xx, yy, w) == index_of(x, y, w) {
            lemma_index_unique(xx, yy, x, y, w);
        }
    }
}

proof fn lemma_push_nothing<T>(cur: Grid<T>, a: T, stack1: Seq<Location>, stack_mid: Seq<Location>, stack2: Seq<Location>, lx: int, y: int, h: int)
    requires
        0 <= y,
        y > 0 ==> push_ok(cur, a, stack1, stack_mid, lx, lx, y - 1),
        y == 0 ==> stack_mid == stack1,
        y < h - 1 ==> push_ok(cur, a, stack_mid, stack2, lx, lx, y + 1),
        y >= h - 1 ==> stack2 == stack_mid,
    ensures
        stack2.len() == stack1.len(),
{
    if y > 0 && stack_mid.len() > stack1.len() {
        let pt = stack_mid[stack1.len() as int];
        assert(pushed_ok(cur, a, pt, lx, lx, y - 1));
        assert(lx <= pt.coords[0] < lx);
    }
    if y < h - 1 && stack2.len() > stack_mid.len() {
        let pt = stack2[stack_mid.len() as int];
        assert(pushed_ok(cur, a, pt, lx, lx, y + 1));
        assert(lx <= pt.coords[0] < lx);
    }
    assert(stack_mid.len() == stack1.len());
    assert(stack2.len() == stack_mid.len());
}

pub(crate) proof fn lemma_len_bound(s: Set<int>, n: int)
    requires
        0 <= n,
        s.subset_of(vstd::set_lib::set_int_range(0, n)),
    ensures
        s.len() <= n,
{
    vstd::set_lib::lemma_int_range(0, n);
    vstd::set_lib::lemma_len_subset(s, vstd::set_lib::set_int_range(0, n));
}

proof fn lemma_fill_one<T>(g: Grid<T>, a: T, f: Set<(int, int)>, fi: Set<int>, x: int, y: int, w: int, h: int)
    requires
        g.wf(),
        w == g.spec_width(),
        h == g.spec_height(),
        0 <= x < w,
        0 <= y < h,
        !f.contains((x, y)),
        f.finite(),
        fi.finite(),
        f.len() == fi.len(),
        fi.subset_of(vstd::set_lib::set_int_range(0, w * h)),
        forall|p: (int, int)| #[trigger] f.contains(p) ==> g.valid(p.0, p.1) && fi.contains(index_of(p.0, p.1, w)),
        forall|i: int| #[trigger] fi.contains(i) ==> exists|p: (int, int)| f.contains(p) && index_of(p.0, p.1, w) == i,
    ensures
        !fi.contains(index_of(x, y, w)),
        f.insert((x, y)).len() == f.len() + 1,
        fi.insert(index_of(x, y, w)).len() == fi.len() + 1,
        fi.insert(index_of(x, y, w)).subset_of(vstd::set_lib::set_int_range(0, w * h)),
{
    lemma_index_in_range(x, y, w, h);
    if fi.contains(index_of(x, y, w)) {
        let p = choose|p: (int, int)| f.contains(p) && index_of(p.0, p.1, w) == index_of(x, y, w);
        lemma_index_unique(p.0, p.1, x, y, w);
    }
}

/// The cells of one row or column of a grid, walked in one direction.
pub enum LineIterator<'a, T> {
    /// Column `x` from the bottom row up; `y` is the next row.
    North { grid: &'a Grid<T>, x: i32, y: i32 },
    /// Row `y` from the left; `x` is the next column.
    East { grid: &'a Grid<T>, x: i32, y: i32 },
    /// Column `x` from the top row down; `y` is the next row.
    South { grid: &'a Grid<T>, x: i32, y: i32 },
    /// Row `y` from the right; `x` is the next column.
    West { grid: &'a Grid<T>, x: i32, y: i32 },
}

impl<'a, T> LineIterator<'a, T> {
    /// The walk stays on its row or column inside the grid.
    pub open spec fn wf(&self) -> bool {
        match *self {
            LineIterator::North { grid, x, y } => grid.wf() && 0 <= x < grid.spec_width() && -1
                <= y < grid.spec_height(),
            LineIterator::East { grid, x, y } => grid.wf() && 0 <= y < grid.spec_height() && 0
                <= x <= grid.spec_width(),
            LineIterator::South { grid, x, y } => grid.wf() && 0 <= x < grid.spec_width() && 0
                <= y <= grid.spec_height(),
            LineIterator::West { grid, x, y } => grid.wf() && 0 <= y < grid.spec_height() && -1
                <= x < grid.spec_width(),
        }
    }

    /// The number of cells left to walk.
    pub open spec fn remaining(&self) -> int {
        match *self {
            LineIterator::North { grid, x, y } => y + 1,
            LineIterator::East { grid, x, y } => grid.spec_width() - x,
            LineIterator::South { grid, x, y } => grid.spec_height() - y,
            LineIterator::West { grid, x, y } => x + 1,
        }
    }

    /// The next cell with its location, or `None` at the end of the line.
    pub fn next(&mut self) -> (r: Option<(Location, &'a T)>)
        requires
            old(self).wf(),
        ensures
            final(self).wf(),
            match *old(self) {
                LineIterator::North { grid, x, y } => if y >= 0 {
                    *final(self) == (LineIterator::North { grid, x, y: (y - 1) as i32 })
                        && (r matches Some((l, v)) && l.coords[0] == x && l.coords[1] == y && *v
                        == grid.cell(x as int, y as int))
                } else {
                    *final(self) == *old(self) && r is None
                },
                LineIterator::East { grid, x, y } => if x < grid.spec_width() {
                    *final(self) == (LineIterator::East { grid, x: (x + 1) as i32, y })
                        && (r matches Some((l, v)) && l.coords[0] == x && l.coords[1] == y && *v
                        == grid.cell(x as int, y as int))
                } else {
                    *final(self) == *old(self) && r is None
                },
                LineIterator::South { grid, x, y } => if y < grid.spec_height() {
                    *final(self) == (LineIterator::South { grid, x, y: (y + 1) as i32 })
                        && (r matches Some((l, v)) && l.coords[0] == x && l.coords[1] == y && *v
                        == grid.cell(x as int, y as int))
                } else {
                    *final(self) == *old(self) && r is None
                },
                LineIterator::West { grid, x, y } => if x >= 0 {
                    *final(self) == (LineIterator::West { grid, x: (x - 1) as i32, y })
                        && (r matches Some((l, v)) && l.coords[0] == x && l.coords[1] == y && *v
                        == grid.cell(x as int, y as int))
                } else {
                    *final(self) == *old(self) && r is None
                },
            },
    {
        match self {
            LineIterator::North { grid, x, y } => {
                if *y >= 0 {
                    let curr_y = *y;
                    *y = curr_y - 1;
                    Some((point2(*x, curr_y), grid.get_unchecked(*x, curr_y)))
                } else {
                    None
                }
            },
            LineIterator::East { grid, x, y } => {
                if *x < grid.width() {
                    let curr_x = *x;
                    *x = curr_x + 1;
                    Some((point2(curr_x, *y), grid.get_unchecked(curr_x, *y)))
                } else {
                    None
                }
            },
            LineIterator::South { grid, x, y } => {
                if *y < grid.height() {
                    let curr_y = *y;
                    *y = curr_y + 1;
                    Some((point2(*x, curr_y), grid.get_unchecked(*x, curr_y)))
                } else {
                    None
                }
            },
            LineIterator::West { grid, x, y } => {
                if *x >= 0 {
                    let curr_x = *x;
                    *x = curr_x - 1;
                    Some((point2(curr_x, *y), grid.get_unchecked(curr_x, *y)))
                } else {
                    None
                }
            },
        }
    }
}

/// All rows or all columns of a grid, each as a `LineIterator`.
pub enum LinesIterator<'a, T> {
    /// The columns from the left, each walked upwards; `x` is the next column.
    North { grid: &'a Grid<T>, x: i32 },
    /// The rows from the top, each walked to the right; `y` is the next row.
    East { grid: &'a Grid<T>, y: i32 },
    /// The columns from the left, each walked downwards; `x` is the next column.
    South { grid: &'a Grid<T>, x: i32 },
    /// The rows from the top, each walked to the left; `y` is the next row.
    West { grid: &'a Grid<T>, y: i32 },
}

impl<'a, T> LinesIterator<'a, T> {
    /// The next line stays inside the grid.
    pub open spec fn wf(&self) -> bool {
        match *self {
            LinesIterator::North { grid, x } => grid.wf() && 0 <= x <= grid.spec_width(),
            LinesIterator::East { grid, y } => grid.wf() && 0 <= y <= grid.spec_height(),
            LinesIterator::South { grid, x } => grid.wf() && 0 <= x <= grid.spec_width(),
            LinesIterator::West { grid, y } => grid.wf() && 0 <= y <= grid.spec_height(),
        }
    }

    /// The next line, or `None` after the last one.
    pub fn next(&mut self) -> (r: Option<LineIterator<'a, T>>)
        requires
            old(self).wf(),
        ensures
            final(self).wf(),
            r matches Some(line) ==> line.wf(),
            match *old(self) {
                LinesIterator::North { grid, x } => if x < grid.spec_width() {
                    *final(self) == (LinesIterator::North { grid, x: (x + 1) as i32 })
                        && r == Some(LineIterator::North { grid, x, y: (grid.spec_height() - 1) as i32 })
                } else {
                    *final(self) == *old(self) && r is None
                },
                LinesIterator::East { grid, y } => if y < grid.spec_height() {
                    *final(self) == (LinesIterator::East { grid, y: (y + 1) as i32 })
                        && r == Some(LineIterator::East { grid, x: 0, y })
                } else {
                    *final(self) == *old(self) && r is None
                },
                LinesIterator::South { grid, x } => if x < grid.spec_width() {
                    *final(self) == (LinesIterator::South { grid, x: (x + 1) as i32 })
                        && r == Some(LineIterator::South { grid, x, y: 0 })
                } else {
                    *final(self) == *old(self) && r is None
                },
                LinesIterator::West { grid, y } => if y < grid.spec_height() {
                    *final(self) == (LinesIterator::West { grid, y: (y + 1) as i32 })
                        && r == Some(LineIterator::West { grid, x: (grid.spec_width() - 1) as i32, y })
                } else {
                    *final(self) == *old(self) && r is None
                },
            },
    {
        match self {
            LinesIterator::North { grid, x } => {
                if *x < grid.width() {
                    let curr_x = *x;
                    *x = curr_x + 1;
                    Some(LineIterator::North { grid, x: curr_x, y: grid.height() - 1 })
                } else {
                    None
                }
            },
            LinesIterator::East { grid, y } => {
                if *y < grid.height() {
                    let curr_y = *y;
                    *y = curr_y + 1;
                    Some(LineIterator::East { grid, x: 0, y: curr_y })
                } else {
                    None
                }
            },
            LinesIterator::South { grid, x } => {
                if *x < grid.width() {
                    let curr_x = *x;
                    *x = curr_x + 1;
                    Some(LineIterator::South { grid, x: curr_x, y: 0 })
                } else {
                    None
                }
            },
            LinesIterator::West { grid, y } => {
                if *y < grid.height() {
                    let curr_y = *y;
                    *y = curr_y + 1;
                    Some(LineIterator::West { grid, x: grid.width() - 1, y: curr_y })
                } else {
                    None
                }
            },
        }
    }
}

impl<T> Grid<T> {
    /// Column `x` walked from the bottom row up.
    pub fn north_line<'a>(&'a self, x: i32) -> (r: LineIterator<'a, T>)
        requires
            self.wf(),
        ensures
            r == (LineIterator::North { grid: self, x, y: (self.spec_height() - 1) as i32 }),
    {
        LineIterator::North { grid: self, x, y: self.height() - 1 }
    }

    /// Row `y` walked from the left.
    pub fn east_line<'a>(&'a self, y: i32) -> (r: LineIterator<'a, T>)
        ensures
            r == (LineIterator::East { grid: self, x: 0, y }),
    {
        LineIterator::East { grid: self, x: 0, y }
    }

    /// Column `x` walked from the top row down.
    pub fn south_line<'a>(&'a self, x: i32) -> (r: LineIterator<'a, T>)
        ensures
            r == (LineIterator::South { grid: self, x, y: 0 }),
    {
        LineIterator::South { grid: self, x, y: 0 }
    }

    /// Row `y` walked from the right.
    pub fn west_line<'a>(&'a self, y: i32) -> (r: LineIterator<'a, T>)
        requires
            self.wf(),
        ensures
            r == (LineIterator::West { grid: self, x: (self.spec_width() - 1) as i32, y }),
    {
        LineIterator::West { grid: self, x: self.width() - 1, y }
    }

    /// All columns, each walked upwards.
    pub fn north_lines<'a>(&'a self) -> (r: LinesIterator<'a, T>)
        ensures
            r == (LinesIterator::North { grid: self, x: 0 }),
    {
        LinesIterator::North { grid: self, x: 0 }
    }

    /// All rows, each walked to the right.
    pub fn east_lines<'a>(&'a self) -> (r: LinesIterator<'a, T>)
        ensures
            r == (LinesIterator::East { grid: self, y: 0 }),
    {
        LinesIterator::East { grid: self, y: 0 }
    }

    /// All columns, each walked downwards.
    pub fn south_lines<'a>(&'a self) -> (r: LinesIterator<'a, T>)
        ensures
            r == (LinesIterator::South { grid: self, x: 0 }),
    {
        LinesIterator::South { grid: self, x: 0 }
    }

    /// All rows, each walked to the left.
    pub fn west_lines<'a>(&'a self) -> (r: LinesIterator<'a, T>)
        ensures
            r == (LinesIterator::West { grid: self, y: 0 }),
    {
        LinesIterator::West { grid: self, y: 0 }
    }
}

impl<T> Grid<T> {
    /// The value at a location that must lie inside the grid.
    pub fn index(&self, location: Location) -> (r: &T)
        requires
            self.wf(),
            self.valid(location.coords[0] as int, location.coords[1] as int),
        ensures
            *r == self.cell(location.coords[0] as int, location.coords[1] as int),
    {
        self.get_unchecked(location.coords[0], location.coords[1])
    }

    /// The neighbours in the four directions that lie inside the grid, in the
    /// order north, east, south, west, each with its direction.
    pub fn direct_neighbours(&self, location: Location) -> (r: Vec<(Direction, &T)>)
        requires
            self.wf(),
            i32::MIN < location.coords[0] < i32::MAX,
            i32::MIN < location.coords[1] < i32::MAX,
        ensures
            forall|k: int|
                0 <= k < r.len() ==> {
                    let (d, v) = #[trigger] r@[k];
                    let q = (location.coords[0] + step_of(d).0, location.coords[1] + step_of(d).1);
                    self.valid(q.0, q.1) && *v == self.cell(q.0, q.1)
                },
            forall|k1: int, k2: int|
                0 <= k1 < k2 < r.len() ==> crate::direction::clockwise_index(#[trigger] r@[k1].0)
                    < crate::direction::clockwise_index(#[trigger] r@[k2].0),
            forall|d: Direction|
                #![trigger step_of(d)]
                self.valid(location.coords[0] + step_of(d).0, location.coords[1] + step_of(d).1)
                    ==> exists|k: int| 0 <= k < r.len() && #[trigger] r@[k].0 == d,
    {
        let all = Direction::all();
        let mut r: Vec<(Direction, &T)> = Vec::new();
        let mut i: usize = 0;
        while i < 4
            invariant
                self.wf(),
                i <= 4,
                i32::MIN < location.coords[0] < i32::MAX,
                i32::MIN < location.coords[1] < i32::MAX,
                forall|j: int| 0 <= j < 4 ==> #[trigger] all[j] == crate::direction::direction_at(j),
                forall|k: int|
                    0 <= k < r.len() ==> {
                        let (d, v) = #[trigger] r@[k];
                        let q = (location.coords[0] + step_of(d).0, location.coords[1] + step_of(d).1);
                        self.valid(q.0, q.1) && *v == self.cell(q.0, q.1) && crate::direction::clockwise_index(d) < i
                    },
                forall|k1: int, k2: int|
                    0 <= k1 < k2 < r.len() ==> crate::direction::clockwise_index(#[trigger] r@[k1].0)
                        < crate::direction::clockwise_index(#[trigger] r@[k2].0),
                forall|d: Direction|
                    #![trigger step_of(d)]
                    crate::direction::clockwise_index(d) < i && self.valid(location.coords[0] + step_of(d).0, location.coords[1] + step_of(d).1)
                        ==> exists|k: int| 0 <= k < r.len() && #[trigger] r@[k].0 == d,
            decreases 4 - i,
        {
            let d = all[i];
            let step = d.as_vec();
            let next = location.add(step);
            let ghost before = r@;
            match self.get(next) {
                Some(v) => {
                    r.push((d, v));
                },
                None => {},
            }
            proof {
                assert forall|dd: Direction|
                    #![trigger step_of(dd)]
                    crate::direction::clockwise_index(dd) < i + 1 && self.valid(location.coords[0] + step_of(dd).0, location.coords[1] + step_of(dd).1)
                        implies exists|k: int| 0 <= k < r.len() && #[trigger] r@[k].0 == dd by {
                    if crate::direction::clockwise_index(dd) < i {
                        let k = choose|k: int| 0 <= k < before.len() && #[trigger] before[k].0 == dd;
                        assert(r@[k] == before[k]);
                    } else {
                        assert(dd == d);
                        assert(r@[r.len() - 1].0 == dd);
                    }
                }
            }
            i += 1;
        }
        r
    }

    /// The eight surrounding values, clockwise from north, of a location with
    /// a cell on every side; `None` on the border and outside the grid.
    pub fn cardinal_neighbours(&self, location: Location) -> (r: Option<[&T; 8]>)
        requires
            self.wf(),
        ensures
            r is Some <==> 1 <= location.coords[0] <= self.spec_width() - 2 && 1 <= location.coords[1]
                <= self.spec_height() - 2,
            r matches Some(n) ==> {
                let x = location.coords[0] as int;
                let y = location.coords[1] as int;
                &&& *n[0] == self.cell(x, y - 1)
                &&& *n[1] == self.cell(x + 1, y - 1)
                &&& *n[2] == self.cell(x + 1, y)
                &&& *n[3] == self.cell(x + 1, y + 1)
                &&& *n[4] == self.cell(x, y + 1)
                &&& *n[5] == self.cell(x - 1, y + 1)
                &&& *n[6] == self.cell(x - 1, y)
                &&& *n[7] == self.cell(x - 1, y - 1)
            },
    {
        let x = location.coords[0];
        let y = location.coords[1];
        let w = self.width();
        let h = self.height();
        if x <= 0 || x >= w - 1 || y <= 0 || y >= h - 1 {
            return None;
        }
        proof {
            lemma_index_in_range(x as int + 1, (y + 1) as int, w as int, h as int);
            lemma_index_in_range(x as int - 1, (y - 1) as int, w as int, h as int);
            assert((x + (y + 1) * w) == x + y * w + w) by (nonlinear_arith);
            assert((x + (y - 1) * w) == x + y * w - w) by (nonlinear_arith);
        }
        let ix = (x + y * w) as usize;
        let y_step = w as usize;
        let r = [
            &self.items[ix - y_step],
            &self.items[ix - y_step + 1],
            &self.items[ix + 1],
            &self.items[ix + y_step + 1],
            &self.items[ix + y_step],
            &self.items[ix + y_step - 1],
            &self.items[ix - 1],
            &self.items[ix - y_step - 1],
        ];
        proof {
            let xi = x as int;
            let yi = y as int;
            let wi = w as int;
            assert(index_of(xi, yi - 1, wi) == ix - y_step);
            assert(index_of(xi + 1, yi - 1, wi) == ix - y_step + 1);
            assert(index_of(xi + 1, yi, wi) == ix + 1);
            assert(index_of(xi + 1, yi + 1, wi) == ix + y_step + 1);
            assert(index_of(xi, yi + 1, wi) == ix + y_step);
            assert(index_of(xi - 1, yi + 1, wi) == ix + y_step - 1);
            assert(index_of(xi - 1, yi, wi) == ix - 1);
            assert(index_of(xi - 1, yi - 1, wi) == ix - y_step - 1);
        }
        Some(r)
    }

    /// A grid of the same size holding `function` applied to every location
    /// and its value.
    pub fn map_entries<U, F: Fn(Location, &T) -> U>(&self, function: F) -> (r: Grid<U>)
        requires
            self.wf(),
            forall|l: Location, v: T| call_requires(function, (l, &v)),
        ensures
            r.wf(),
            r.spec_width() == self.spec_width(),
            r.spec_height() == self.spec_height(),
            r.cells().len() == self.cells().len(),
            forall|x: int, y: int|
                #![trigger r.cell(x, y)]
                self.valid(x, y) ==> call_ensures(function, (location_at(x, y), &self.cell(x, y)), r.cell(x, y)),
    {
        let w = self.width();
        let mut items: Vec<U> = Vec::new();
        let mut i: usize = 0;
        while i < self.items.len()
            invariant
                self.wf(),
                w == self.spec_width(),
                i <= self.items.len(),
                self.items.len() == self.cells().len(),
                self.items.len() <= i32::MAX,
                items.len() == i,
                forall|l: Location, v: T| call_requires(function, (l, &v)),
                forall|k: int|
                    0 <= k < i ==> call_ensures(function, (location_at(k % (w as int), k / (w as int)), &self.cells()[k]), #[trigger] items@[k]),
            decreases self.items.len() - i,
        {
            proof {
                if w == 0 {
                    assert(self.cells().len() == 0) by (nonlinear_arith)
                        requires self.cells().len() == w * self.spec_height(), w == 0;
                }
            }
            let loc = location_from(self.size, i);
            let v = function(loc, &self.items[i]);
            let ghost before = items@;
            items.push(v);
            proof {
                lemma_location_at(loc);
                assert forall|k: int|
                    0 <= k < i + 1 implies call_ensures(function, (location_at(k % (w as int), k / (w as int)), &self.cells()[k]), #[trigger] items@[k]) by {
                    if k < i {
                        assert(items@[k] == before[k]);
                    } else {
                        assert(items@[k] == v);
                        assert(self.cells()[k] == self.items@[k]);
                    }
                }
            }
            i += 1;
        }
        let r = Grid { items, size: self.size };
        proof {
            assert forall|x: int, y: int|
                #![trigger r.cell(x, y)]
                self.valid(x, y) implies call_ensures(function, (location_at(x, y), &self.cell(x, y)), r.cell(x, y)) by {
                lemma_index_in_range(x, y, w as int, self.spec_height());
                let k = index_of(x, y, w as int);
                assert(r.cell(x, y) == items@[k]);
                assert(self.cell(x, y) == self.cells()[k]);
            }
        }
        r
    }

    /// The part of the grid in the given columns and rows, moved to start at
    /// `(0, 0)`; locations that lie outside this grid get the default value.
    pub fn sub_grid(&self, from_x_range: std::ops::Range<i32>, from_y_range: std::ops::Range<i32>) -> (r: Grid<T>)
        where
            T: Copy + Default,
        requires
            self.wf(),
            from_x_range.start <= from_x_range.end,
            from_y_range.start <= from_y_range.end,
            fits_i32(from_x_range.end - from_x_range.start),
            fits_i32(from_y_range.end - from_y_range.start),
            (from_x_range.end - from_x_range.start) * (from_y_range.end - from_y_range.start) <= i32::MAX,
        ensures
            r.wf(),
            r.spec_width() == from_x_range.end - from_x_range.start,
            r.spec_height() == from_y_range.end - from_y_range.start,
            exists|d: T|
                call_ensures(T::default, (), d) && forall|x: int, y: int|
                    #![trigger r.cell(x, y)]
                    r.valid(x, y) ==> r.cell(x, y) == if self.valid(x + from_x_range.start, y + from_y_range.start) {
                        self.cell(x + from_x_range.start, y + from_y_range.start)
                    } else {
                        d
                    },
    {
        let xs = from_x_range.start;
        let xe = from_x_range.end;
        let ys = from_y_range.start;
        let ye = from_y_range.end;
        let d = T::default();
        let mut grid = Grid::new_default(d, xe - xs, ye - ys);
        proof {
            assert forall|tx: int, ty: int| #![trigger grid.cell(tx, ty)] grid.valid(tx, ty) implies grid.cell(tx, ty) == d by {
                lemma_index_in_range(tx, ty, grid.spec_width(), grid.spec_height());
            }
        }
        let mut y = ys;
        while y < ye
            invariant
                self.wf(),
                grid.wf(),
                ys <= y <= ye,
                xs <= xe,
                fits_i32(xe - xs),
                fits_i32(ye - ys),
                grid.spec_width() == xe - xs,
                grid.spec_height() == ye - ys,
                forall|tx: int, ty: int|
                    #![trigger grid.cell(tx, ty)]
                    grid.valid(tx, ty) ==> grid.cell(tx, ty) == if ty < y - ys && self.valid(tx + xs, ty + ys) {
                        self.cell(tx + xs, ty + ys)
                    } else {
                        d
                    },
            decreases ye - y,
        {
            let mut x = xs;
            while x < xe
                invariant
                    self.wf(),
                    grid.wf(),
                    ys <= y < ye,
                    xs <= x <= xe,
                    fits_i32(xe - xs),
                    fits_i32(ye - ys),
                    grid.spec_width() == xe - xs,
                    grid.spec_height() == ye - ys,
                    forall|tx: int, ty: int|
                        #![trigger grid.cell(tx, ty)]
                        grid.valid(tx, ty) ==> grid.cell(tx, ty) == if (ty < y - ys || (ty == y - ys && tx < x - xs)) && self.valid(tx + xs, ty + ys) {
                            self.cell(tx + xs, ty + ys)
                        } else {
                            d
                        },
                decreases xe - x,
            {
                if let Some(cell) = self.get(point2(x, y)) {
                    let value = *cell;
                    let ghost before = grid;
                    grid.set_unchecked(x - xs, y - ys, value);
                    proof {
                        lemma_set_cell(before, grid, (x - xs) as int, (y - ys) as int, value);
                    }
                }
                x += 1;
            }
            y += 1;
        }
        grid
    }

    /// Walks from `start` in steps of `direction` while the locations lie
    /// inside the grid, replacing each value by `function` applied to it.
    pub fn mut_line<F: Fn(&T) -> T>(&mut self, start: Location, direction: Vector<2, i32>, function: F)
        where
            T: Copy,
        requires
            old(self).wf(),
            direction.coords[0] != 0 || direction.coords[1] != 0,
            fits_i32(start.coords[0] - direction.coords[0]),
            fits_i32(start.coords[1] - direction.coords[1]),
            -i32::MAX <= direction.coords[0] <= i32::MAX - old(self).spec_width(),
            -i32::MAX <= direction.coords[1] <= i32::MAX - old(self).spec_height(),
            forall|v: T| call_requires(function, (&v,)),
        ensures
            final(self).wf(),
            final(self).spec_width() == old(self).spec_width(),
            final(self).spec_height() == old(self).spec_height(),
            exists|n: nat|
                {
                    &&& forall|k: int|
                        0 <= k < n ==> old(self).valid(
                            #[trigger] ray_coord(start.coords[0] as int, direction.coords[0] as int, k),
                            ray_coord(start.coords[1] as int, direction.coords[1] as int, k),
                        )
                    &&& !old(self).valid(
                        ray_coord(start.coords[0] as int, direction.coords[0] as int, n as int),
                        ray_coord(start.coords[1] as int, direction.coords[1] as int, n as int),
                    )
                    &&& forall|x: int, y: int|
                        #![trigger final(self).cell(x, y)]
                        old(self).valid(x, y) ==> if on_ray(start, direction, n as int, x, y) {
                            call_ensures(function, (&old(self).cell(x, y),), final(self).cell(x, y))
                        } else {
                            final(self).cell(x, y) == old(self).cell(x, y)
                        }
                },
    {
        let ghost g = *self;
        let dx = direction.coords[0];
        let dy = direction.coords[1];
        let mut loc = start;
        let ghost mut n: nat = 0;
        loop
            invariant_except_break
                self.wf(),
                self.spec_width() == g.spec_width(),
                self.spec_height() == g.spec_height(),
                g.wf(),
                dx == direction.coords[0],
                dy == direction.coords[1],
                dx != 0 || dy != 0,
                -i32::MAX <= dx <= i32::MAX - g.spec_width(),
                -i32::MAX <= dy <= i32::MAX - g.spec_height(),
                forall|v: T| call_requires(function, (&v,)),
                loc.coords[0] == ray_coord(start.coords[0] as int, dx as int, n as int),
                loc.coords[1] == ray_coord(start.coords[1] as int, dy as int, n as int),
                forall|k: int|
                    0 <= k < n ==> g.valid(
                        #[trigger] ray_coord(start.coords[0] as int, dx as int, k),
                        ray_coord(start.coords[1] as int, dy as int, k),
                    ),
                n > 0 ==> g.valid(
                    ray_coord(start.coords[0] as int, dx as int, n - 1),
                    ray_coord(start.coords[1] as int, dy as int, n - 1),
                ),
                forall|x: int, y: int|
                    #![trigger self.cell(x, y)]
                    g.valid(x, y) ==> if on_ray(start, direction, n as int, x, y) {
                        call_ensures(function, (&g.cell(x, y),), self.cell(x, y))
                    } else {
                        self.cell(x, y) == g.cell(x, y)
                    },
            ensures
                self.wf(),
                self.spec_width() == g.spec_width(),
                self.spec_height() == g.spec_height(),
                forall|k: int|
                    0 <= k < n ==> g.valid(
                        #[trigger] ray_coord(start.coords[0] as int, dx as int, k),
                        ray_coord(start.coords[1] as int, dy as int, k),
                    ),
                !g.valid(ray_coord(start.coords[0] as int, dx as int, n as int), ray_coord(start.coords[1] as int, dy as int, n as int)),
                forall|x: int, y: int|
                    #![trigger self.cell(x, y)]
                    g.valid(x, y) ==> if on_ray(start, direction, n as int, x, y) {
                        call_ensures(function, (&g.cell(x, y),), self.cell(x, y))
                    } else {
                        self.cell(x, y) == g.cell(x, y)
                    },
            decreases steps_left(loc.coords[0] as int, dx as int, g.spec_width()) + steps_left(loc.coords[1] as int, dy as int, g.spec_height()),
        {
            if !self.is_valid_location(&loc) {
                break;
            }
            let x = loc.coords[0];
            let y = loc.coords[1];
            let old_value = *self.get_unchecked(x, y);
            let new_value = function(&old_value);
            let ghost before = *self;
            self.set_unchecked(x, y, new_value);
            proof {
                lemma_set_cell(before, *self, x as int, y as int, new_value);
                assert forall|xx: int, yy: int|
                    #![trigger self.cell(xx, yy)]
                    g.valid(xx, yy) implies if on_ray(start, direction, n + 1int, xx, yy) {
                        call_ensures(function, (&g.cell(xx, yy),), self.cell(xx, yy))
                    } else {
                        self.cell(xx, yy) == g.cell(xx, yy)
                    } by {
                    if xx == x && yy == y {
                        assert(ray_coord(start.coords[0] as int, dx as int, n as int) == xx);
                        assert(on_ray(start, direction, n + 1int, xx, yy));
                        if on_ray(start, direction, n as int, xx, yy) {
                            let k = choose|k: int|
                                0 <= k < n && xx == #[trigger] ray_coord(start.coords[0] as int, direction.coords[0] as int, k)
                                    && yy == ray_coord(start.coords[1] as int, direction.coords[1] as int, k);
                            lemma_ray_distinct(start.coords[0] as int, start.coords[1] as int, dx as int, dy as int, k, n as int);
                        }
                    } else {
                        if on_ray(start, direction, n + 1int, xx, yy) {
                            let k = choose|k: int|
                                0 <= k < n + 1 && xx == #[trigger] ray_coord(start.coords[0] as int, direction.coords[0] as int, k)
                                    && yy == ray_coord(start.coords[1] as int, direction.coords[1] as int, k);
                            assert(k != n);
                            assert(on_ray(start, direction, n as int, xx, yy));
                        } else {
                            assert(!on_ray(start, direction, n as int, xx, yy)) by {
                                if on_ray(start, direction, n as int, xx, yy) {
                                    let k = choose|k: int|
                                        0 <= k < n && xx == #[trigger] ray_coord(start.coords[0] as int, direction.coords[0] as int, k)
                                            && yy == ray_coord(start.coords[1] as int, direction.coords[1] as int, k);
                                    assert(on_ray(start, direction, n + 1int, xx, yy));
                                }
                            }
                        }
                    }
                }
            }
            assert(fits_i32(x + dx) && fits_i32(y + dy));
            loc = point2(x + dx, y + dy);
            proof {
                assert(ray_coord(start.coords[0] as int, dx as int, n + 1int) == x + dx) by (nonlinear_arith)
                    requires
                        x == start.coords[0] + n * dx;
                assert(ray_coord(start.coords[1] as int, dy as int, n + 1int) == y + dy) by (nonlinear_arith)
                    requires
                        y == start.coords[1] + n * dy;
                n = n + 1;
            }
        }
        proof {
            assert(exists|m: nat| #![trigger m + 0]
                {
                    &&& forall|k: int|
                        0 <= k < m ==> old(self).valid(
                            #[trigger] ray_coord(start.coords[0] as int, direction.coords[0] as int, k),
                            ray_coord(start.coords[1] as int, direction.coords[1] as int, k),
                        )
                    &&& !old(self).valid(
                        ray_coord(start.coords[0] as int, direction.coords[0] as int, m as int),
                        ray_coord(start.coords[1] as int, direction.coords[1] as int, m as int),
                    )
                    &&& forall|x: int, y: int|
                        #![trigger self.cell(x, y)]
                        old(self).valid(x, y) ==> if on_ray(start, direction, m as int, x, y) {
                            call_ensures(function, (&old(self).cell(x, y),), self.cell(x, y))
                        } else {
                            self.cell(x, y) == old(self).cell(x, y)
                        }
                }) by {
                assert(n + 0 == n);
            }
        }
    }
}

/// The `k`-th coordinate along a ray that starts at `s` and moves `d` per step.
pub open spec fn ray_coord(s: int, d: int, k: int) -> int {
    s + k * d
}

/// Whether `(x, y)` is one of the first `n` locations of the ray from `start`
/// in steps of `direction`.
pub open spec fn on_ray(start: Location, direction: Vector<2, i32>, n: int, x: int, y: int) -> bool {
    exists|k: int|
        0 <= k < n && x == #[trigger] ray_coord(start.coords[0] as int, direction.coords[0] as int, k)
            && y == ray_coord(start.coords[1] as int, direction.coords[1] as int, k)
}

/// The location `(x, y)`, its coordinates taken as `i32`.
pub open spec fn location_at(x: int, y: int) -> Location {
    Point { coords: [x as i32, y as i32] }
}

/// Every location is the one at its own coordinates.
pub proof fn lemma_location_at(l: Location)
    ensures
        l == location_at(l.coords[0] as int, l.coords[1] as int),
{
    let m = location_at(l.coords[0] as int, l.coords[1] as int);
    assert(m.coords[0] == l.coords[0] && m.coords[1] == l.coords[1]);
    assert(l.coords =~= m.coords);
}

/// How far a coordinate `c` moving by `d` is from leaving `0..limit` on the
/// side it moves towards; zero once it has left.
pub open spec fn steps_left(c: int, d: int, limit: int) -> int {
    if d > 0 && c < limit {
        limit - c
    } else if d < 0 && c >= 0 {
        c + 1
    } else {
        0
    }
}

/// Two different steps of a ray with a non-zero direction never meet.
pub proof fn lemma_ray_distinct(sx: int, sy: int, dx: int, dy: int, k: int, n: int)
    requires
        dx != 0 || dy != 0,
        k != n,
    ensures
        ray_coord(sx, dx, k) != ray_coord(sx, dx, n) || ray_coord(sy, dy, k) != ray_coord(sy, dy, n),
{
    if ray_coord(sx, dx, k) == ray_coord(sx, dx, n) && ray_coord(sy, dy, k) == ray_coord(sy, dy, n) {
        assert((k - n) * dx == 0 && (k - n) * dy == 0) by (nonlinear_arith)
            requires
                sx + k * dx == sx + n * dx,
                sy + k * dy == sy + n * dy;
        assert(false) by (nonlinear_arith)
            requires
                (k - n) * dx == 0,
                (k - n) * dy == 0,
                k - n != 0,
                dx != 0 || dy != 0;
    }
}

/// The location of the `k`-th item of a row-major walk over rows of `width`
/// items; a width of zero or less puts every item on a row of its own.
pub open spec fn walk_location(k: int, width: int) -> (int, int) {
    if width > 0 {
        (k % width, k / width)
    } else {
        (0, k)
    }
}

/// The items of a slice, each with its location when the slice is read as
/// rows of `width` items.
pub struct Indexed<'a, T> {
    iter: &'a [T],
    pos: usize,
    x: i32,
    y: i32,
    width: i32,
}

impl<'a, T> Indexed<'a, T> {
    /// The walk is consistent: `x` and `y` are the location of the next item.
    pub closed spec fn wf(&self) -> bool {
        &&& self.pos <= self.iter@.len() <= i32::MAX
        &&& (self.x as int, self.y as int) == walk_location(self.pos as int, self.width as int)
    }

    /// The items that are still to come.
    pub closed spec fn remaining(&self) -> Seq<T> {
        self.iter@.subrange(self.pos as int, self.iter@.len() as int)
    }

    /// How many items were handed out already.
    pub closed spec fn position(&self) -> int {
        self.pos as int
    }

    /// The row width of the walk.
    pub closed spec fn spec_width(&self) -> int {
        self.width as int
    }

    /// A walk over `iter` in rows of `width` items.
    pub fn new(iter: &'a [T], width: i32) -> (r: Indexed<'a, T>)
        requires
            iter.len() <= i32::MAX,
        ensures
            r.wf(),
            r.remaining() == iter@,
            r.position() == 0,
            r.spec_width() == width,
    {
        let r = Indexed { iter, pos: 0, x: 0, y: 0, width };
        proof {
            assert(r.remaining() =~= iter@);
            if width > 0 {
                assert(0int % (width as int) == 0 && 0int / (width as int) == 0);
            }
        }
        r
    }

    /// The next item with its location.
    pub fn next(&mut self) -> (r: Option<(Location, &'a T)>)
        requires
            old(self).wf(),
        ensures
            final(self).wf(),
            final(self).spec_width() == old(self).spec_width(),
            old(self).remaining().len() == 0 ==> r is None && final(self).remaining() == old(self).remaining()
                && final(self).position() == old(self).position(),
            old(self).remaining().len() > 0 ==> (r matches Some((l, v)) && *v == old(self).remaining()[0]
                && pos(l) == walk_location(old(self).position(), old(self).spec_width())
                && final(self).remaining() == old(self).remaining().drop_first() && final(self).position()
                == old(self).position() + 1),
    {
        if self.pos >= self.iter.len() {
            return None;
        }
        let item = &self.iter[self.pos];
        let location = point2(self.x, self.y);
        let ghost k = self.pos as int;
        let ghost w = self.width as int;
        proof {
            if w > 0 {
                vstd::arithmetic::div_mod::lemma_fundamental_div_mod(k, w);
                vstd::arithmetic::div_mod::lemma_div_pos_is_pos(k, w);
                assert(self.y as int * w <= k) by (nonlinear_arith)
                    requires
                        self.y as int * w + self.x as int == k,
                        self.x >= 0;
                assert(self.y as int <= k) by (nonlinear_arith)
                    requires
                        self.y as int * w <= k,
                        w > 0,
                        self.y >= 0;
            }
        }
        self.x = self.x + 1;
        if self.x >= self.width {
            self.x = 0;
            self.y = self.y + 1;
        }
        self.pos = self.pos + 1;
        proof {
            if w > 0 {
                let (x0, y0) = walk_location(k, w);
                if x0 + 1 >= w {
                    assert(k + 1 == (y0 + 1) * w) by (nonlinear_arith)
                        requires
                            k == y0 * w + x0,
                            x0 + 1 == w;
                    vstd::arithmetic::div_mod::lemma_fundamental_div_mod_converse(k + 1, w, y0 + 1, 0);
                } else {
                    vstd::arithmetic::div_mod::lemma_fundamental_div_mod_converse(k + 1, w, y0, x0 + 1);
                }
            }
            assert(self.remaining() =~= old(self).remaining().drop_first());
        }
        Some((location, item))
    }
}

} // verus!
