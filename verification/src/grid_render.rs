//! Drawing a grid of bytes as text: a title line with its size, then the
//! cells row by row inside a box.
use crate::grid::{index_of, Grid, Location};
use crate::text::{ascii_chars, decimal_bytes};
use vstd::prelude::*;

verus! {

/// The vertical side of the box.
pub open spec fn side() -> char {
    '\u{2502}'
}

/// The horizontal side of the box.
pub open spec fn bar() -> char {
    '\u{2500}'
}

/// `n` copies of `c`.
pub open spec fn repeated(c: char, n: int) -> Seq<char> {
    Seq::new(n as nat, |_i: int| c)
}

/// Rows `0..h` of `cells`, `w` to a row, each between two sides and ended
/// by a newline.
pub open spec fn framed_rows(cells: Seq<char>, w: int, h: int) -> Seq<char>
    decreases h,
{
    if h <= 0 {
        Seq::empty()
    } else {
        framed_rows(cells, w, h - 1) + seq![side()] + cells.subrange((h - 1) * w, h * w) + seq![side(), '\n']
    }
}

/// The title line: `Grid(`, the width, `x`, the height, `)` and a newline.
pub open spec fn title(w: int, h: int) -> Seq<char> {
    ascii_chars(seq![71u8, 114, 105, 100, 40] + decimal_bytes(w as nat) + seq![120u8] + decimal_bytes(h as nat) + seq![41u8, 10])
}

/// A `w` by `h` grid of `cells`, given row by row, drawn as text: the title
/// line, the top of the box, one line per row, and the bottom of the box.
pub open spec fn framed_text(w: int, h: int, cells: Seq<char>) -> Seq<char> {
    title(w, h) + seq!['\u{250C}'] + repeated(bar(), w) + seq!['\u{2510}', '\n'] + framed_rows(cells, w, h) + seq![
        '\u{2514}',
    ] + repeated(bar(), w) + seq!['\u{2518}', '\n']
}

/// Some location of `locs` inside `g` has row-major index `i`.
pub open spec fn covers(g: Grid<u8>, locs: Seq<Location>, i: int) -> bool {
    exists|j: int|
        0 <= j < locs.len() && g.valid(locs[j].coords[0] as int, locs[j].coords[1] as int) && #[trigger] index_of(
            locs[j].coords[0] as int,
            locs[j].coords[1] as int,
            g.spec_width(),
        ) == i
}

/// The cells of `g` as characters, with `c` in place of each one that a
/// location of `locs` covers.
pub open spec fn overlaid(g: Grid<u8>, locs: Seq<Location>, c: char) -> Seq<char> {
    Seq::new(
        g.cells().len(),
        |i: int|
            if covers(g, locs, i) {
                c
            } else {
                g.cells()[i] as char
            },
    )
}

/// Collects characters into a `String`, by `String::from_iter` of the
/// standard library, which appends them in order; the contract claims that
/// the string holds exactly those characters.
#[verifier::external_body]
fn char_string(chars: Vec<char>) -> (r: String)
    ensures
        r@ == chars@,
{
    String::from_iter(chars)
}

/// Appends `n` copies of `c`.
fn push_repeated(out: &mut Vec<char>, c: char, n: i32)
    requires
        n >= 0,
    ensures
        final(out)@ == old(out)@ + repeated(c, n as int),
{
    let mut i: i32 = 0;
    while i < n
        invariant
            0 <= i <= n,
            out@ == old(out)@ + repeated(c, i as int),
        decreases n - i,
    {
        out.push(c);
        i += 1;
        proof {
            assert(out@ =~= old(out)@ + repeated(c, i as int));
        }
    }
}

/// Appends the decimal digits of `n` as characters.
fn push_decimal_chars(out: &mut Vec<char>, n: u32)
    ensures
        final(out)@ == old(out)@ + ascii_chars(decimal_bytes(n as nat)),
    decreases n,
{
    if n >= 10 {
        push_decimal_chars(out, n / 10);
    }
    let d: u8 = 48 + (n % 10) as u8;
    out.push(d as char);
    proof {
        if n >= 10 {
            assert(decimal_bytes(n as nat) == decimal_bytes((n / 10) as nat).push(d));
        }
        assert(out@ =~= old(out)@ + ascii_chars(decimal_bytes(n as nat)));
    }
}

/// Draws `cells`, a `w` by `h` grid given row by row.
fn render(w: i32, h: i32, cells: &Vec<char>) -> (r: String)
    requires
        w >= 0,
        h >= 0,
        cells.len() == w * h,
        w * h <= i32::MAX,
    ensures
        r@ == framed_text(w as int, h as int, cells@),
{
    let mut out: Vec<char> = Vec::new();
    out.push('G');
    out.push('r');
    out.push('i');
    out.push('d');
    out.push('(');
    push_decimal_chars(&mut out, w as u32);
    out.push('x');
    push_decimal_chars(&mut out, h as u32);
    out.push(')');
    out.push('\n');
    proof {
        reveal_with_fuel(decimal_bytes, 1);
        assert(out@ =~= title(w as int, h as int));
    }
    out.push('\u{250C}');
    push_repeated(&mut out, '\u{2500}', w);
    out.push('\u{2510}');
    out.push('\n');
    let ghost head = out@;
    let mut y: i32 = 0;
    let mut k: usize = 0;
    while y < h
        invariant
            0 <= y <= h,
            w >= 0,
            cells.len() == w * h,
            w * h <= i32::MAX,
            k == y * w,
            out@ == head + framed_rows(cells@, w as int, y as int),
        decreases h - y,
    {
        proof {
            assert(0 <= y * w && y * w + w == (y + 1) * w && (y + 1) * w <= h * w) by (nonlinear_arith)
                requires
                    0 <= y < h,
                    w >= 0,
            ;
        }
        let ghost before = out@;
        out.push('\u{2502}');
        let mut x: i32 = 0;
        while x < w
            invariant
                0 <= x <= w,
                k == y * w + x,
                0 <= y * w,
                y * w + w <= cells.len(),
                out@ == before + seq![side()] + cells@.subrange(y * w, y * w + x),
            decreases w - x,
        {
            out.push(cells[k]);
            k += 1;
            x += 1;
            proof {
                assert(out@ =~= before + seq![side()] + cells@.subrange(y * w, y * w + x));
            }
        }
        out.push('\u{2502}');
        out.push('\n');
        y += 1;
        proof {
            assert(out@ =~= head + framed_rows(cells@, w as int, y as int));
        }
    }
    out.push('\u{2514}');
    push_repeated(&mut out, '\u{2500}', w);
    out.push('\u{2518}');
    out.push('\n');
    proof {
        assert(out@ =~= framed_text(w as int, h as int, cells@));
    }
    char_string(out)
}

impl Grid<u8> {
    /// The grid drawn as text: `Grid(WxH)` on a line, then the cells, each
    /// byte as the character of that code, row by row inside a box.
    pub fn to_text(&self) -> (r: String)
        requires
            self.wf(),
        ensures
            r@ == framed_text(self.spec_width(), self.spec_height(), ascii_chars(self.cells())),
    {
        let values = self.values();
        let mut cells: Vec<char> = Vec::new();
        let mut i: usize = 0;
        while i < values.len()
            invariant
                i <= values.len(),
                values@ == self.cells(),
                cells@ == ascii_chars(values@.take(i as int)),
            decreases values.len() - i,
        {
            cells.push(values[i] as char);
            i += 1;
            proof {
                assert(cells@ =~= ascii_chars(values@.take(i as int)));
            }
        }
        proof {
            assert(values@.take(values.len() as int) =~= values@);
            self.lemma_shape();
        }
        render(self.width(), self.height(), &cells)
    }

    /// The grid drawn as by `to_text`, with `c` in place of every cell that
    /// one of `locations` names; locations outside the grid are ignored.
    pub fn draw_with_overlay(&self, locations: &[Location], c: char) -> (r: String)
        requires
            self.wf(),
        ensures
            r@ == framed_text(self.spec_width(), self.spec_height(), overlaid(*self, locations@, c)),
    {
        let values = self.values();
        let mut cells: Vec<char> = Vec::new();
        let mut i: usize = 0;
        while i < values.len()
            invariant
                i <= values.len(),
                values@ == self.cells(),
                cells@ == ascii_chars(values@.take(i as int)),
            decreases values.len() - i,
        {
            cells.push(values[i] as char);
            i += 1;
            proof {
                assert(cells@ =~= ascii_chars(values@.take(i as int)));
            }
        }
        let w = self.width();
        let mut j: usize = 0;
        while j < locations.len()
            invariant
                self.wf(),
                w == self.spec_width(),
                j <= locations.len(),
                values@ == self.cells(),
                cells@.len() == self.cells().len(),
                forall|i: int|
                    #![trigger cells@[i]]
                    0 <= i < cells@.len() ==> cells@[i] == if covers(*self, locations@.take(j as int), i) {
                        c
                    } else {
                        self.cells()[i] as char
                    },
            decreases locations.len() - j,
        {
            let loc = locations[j];
            let ghost old_cells = cells@;
            if self.is_valid_location(&loc) {
                proof {
                    crate::grid::lemma_index_in_range(
                        loc.coords[0] as int,
                        loc.coords[1] as int,
                        self.spec_width(),
                        self.spec_height(),
                    );
                    self.lemma_shape();
                }
                let ix = (loc.coords[0] + loc.coords[1] * w) as usize;
                cells.set(ix, c);
            }
            j += 1;
            proof {
                assert forall|i: int|
                    #![trigger cells@[i]]
                    0 <= i < cells@.len() implies cells@[i] == if covers(*self, locations@.take(j as int), i) {
                        c
                    } else {
                        self.cells()[i] as char
                    } by {
                    let prev = locations@.take(j - 1);
                    let now = locations@.take(j as int);
                    assert(now[j - 1] == loc);
                    if covers(*self, prev, i) {
                        let q = choose|q: int|
                            0 <= q < prev.len() && self.valid(prev[q].coords[0] as int, prev[q].coords[1] as int)
                                && #[trigger] index_of(prev[q].coords[0] as int, prev[q].coords[1] as int, self.spec_width()) == i;
                        assert(now[q] == prev[q]);
                    }
                    if covers(*self, now, i) {
                        let q = choose|q: int|
                            0 <= q < now.len() && self.valid(now[q].coords[0] as int, now[q].coords[1] as int)
                                && #[trigger] index_of(now[q].coords[0] as int, now[q].coords[1] as int, self.spec_width()) == i;
                        if q < j - 1 {
                            assert(prev[q] == now[q]);
                        }
                    }
                    if self.valid(loc.coords[0] as int, loc.coords[1] as int) && i == index_of(
                        loc.coords[0] as int,
                        loc.coords[1] as int,
                        self.spec_width(),
                    ) {
                        assert(covers(*self, now, i));
                    }
                }
            }
        }
        proof {
            assert(locations@.take(locations.len() as int) =~= locations@);
            assert(cells@ =~= overlaid(*self, locations@, c));
            self.lemma_shape();
        }
        render(w, self.height(), &cells)
    }
}

} // verus!
