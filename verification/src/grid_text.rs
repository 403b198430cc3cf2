//! Reading a grid from text: one row per line, one cell per byte.
use crate::grid::{index_of, lemma_index_in_range, Grid};
use crate::parsing::{ErrorKind, ParseResult};
use vstd::prelude::*;

verus! {

/// True for the bytes that end a line: `\n` and `\r`.
pub open spec fn is_eol(b: u8) -> bool {
    b == 10 || b == 13
}

/// The number of bytes from `i` up to the next `\r` or `\n`, or the end.
pub open spec fn line_len(s: Seq<u8>, i: int) -> int
    decreases s.len() - i,
{
    if i < 0 || i >= s.len() || is_eol(s[i]) {
        0
    } else {
        1 + line_len(s, i + 1)
    }
}

/// The length of the line ending at `i`: 1 for `\n`, 2 for `\r\n`, else 0.
pub open spec fn ending_len(s: Seq<u8>, i: int) -> int {
    if 0 <= i < s.len() && s[i] == 10 {
        1
    } else if 0 <= i && i + 1 < s.len() && s[i] == 13 && s[i + 1] == 10 {
        2
    } else {
        0
    }
}

/// The line at `i` runs to the end of the input or to a line ending; a `\r`
/// that no `\n` follows ends no line.
pub open spec fn line_ends_well(s: Seq<u8>, i: int) -> bool {
    let e = i + line_len(s, i);
    e >= s.len() || ending_len(s, e) > 0
}

/// The rows after a row that ends at `e`, as (start, length) pairs: each
/// follows a line ending and is a non-empty line that ends well.
pub open spec fn rows_after(s: Seq<u8>, e: int) -> Seq<(int, int)>
    decreases s.len() - e,
{
    let el = ending_len(s, e);
    let st = e + el;
    let l = line_len(s, st);
    if el <= 0 || l <= 0 || !line_ends_well(s, st) || e < 0 || st + l > s.len() {
        Seq::empty()
    } else {
        seq![(st, l)] + rows_after(s, st + l)
    }
}

/// The rows of a grid text: the first line, then the rows after it.
pub open spec fn grid_rows(s: Seq<u8>) -> Seq<(int, int)> {
    seq![(0int, line_len(s, 0))] + rows_after(s, line_len(s, 0))
}

/// The longest length among rows.
pub open spec fn max_len(rows: Seq<(int, int)>) -> int
    decreases rows.len(),
{
    if rows.len() == 0 {
        0
    } else {
        let m = max_len(rows.drop_last());
        if rows.last().1 > m {
            rows.last().1
        } else {
            m
        }
    }
}

/// The rows as integer pairs.
pub open spec fn row_view(rows: Seq<(usize, usize)>) -> Seq<(int, int)> {
    rows.map_values(|p: (usize, usize)| (p.0 as int, p.1 as int))
}

proof fn lemma_line_len_bound(s: Seq<u8>, i: int)
    requires
        0 <= i <= s.len(),
    ensures
        0 <= line_len(s, i) <= s.len() - i,
    decreases s.len() - i,
{
    if i < s.len() && !is_eol(s[i]) {
        lemma_line_len_bound(s, i + 1);
    }
}

/// The length of the line at `i`.
fn scan_line(input: &[u8], i: usize) -> (r: usize)
    requires
        i <= input.len(),
    ensures
        r == line_len(input@, i as int),
        i + r <= input.len(),
{
    let mut j = i;
    while j < input.len() && input[j] != 10 && input[j] != 13
        invariant
            i <= j <= input.len(),
            line_len(input@, i as int) == (j - i) + line_len(input@, j as int),
        decreases input.len() - j,
    {
        j += 1;
    }
    j - i
}

/// The length of the line ending at `i`.
fn ending_at(input: &[u8], i: usize) -> (r: usize)
    requires
        i <= input.len(),
        input.len() < usize::MAX,
    ensures
        r == ending_len(input@, i as int),
{
    if i < input.len() && input[i] == 10 {
        1
    } else if i + 1 < input.len() && input[i] == 13 && input[i + 1] == 10 {
        2
    } else {
        0
    }
}

/// The rows of a grid text. The first line must end well (else `Tag`) and
/// hold at least one byte (else `Eof`).
fn scan_rows(input: &[u8]) -> (r: Result<Vec<(usize, usize)>, ErrorKind>)
    requires
        input.len() <= i32::MAX,
    ensures
        !line_ends_well(input@, 0) ==> r == Err::<Vec<(usize, usize)>, ErrorKind>(ErrorKind::Tag),
        line_ends_well(input@, 0) && line_len(input@, 0) == 0 ==> r == Err::<Vec<(usize, usize)>, ErrorKind>(
            ErrorKind::Eof,
        ),
        line_ends_well(input@, 0) && line_len(input@, 0) > 0 ==> (r matches Ok(rows) && row_view(rows@)
            == grid_rows(input@)),
        r matches Ok(rows) ==> {
            &&& rows.len() > 0
            &&& rows@[0].0 == 0
            &&& forall|k: int|
                0 <= k < rows.len() ==> #[trigger] rows@[k].1 > 0 && rows@[k].0 + rows@[k].1 <= input.len()
            &&& forall|k: int|
                0 <= k < rows.len() - 1 ==> #[trigger] rows@[k].0 + rows@[k].1 < rows@[k + 1].0
        },
{
    let n = input.len();
    let w = scan_line(input, 0);
    if !(w >= n || ending_at(input, w) > 0) {
        return Err(ErrorKind::Tag);
    }
    if w == 0 {
        return Err(ErrorKind::Eof);
    }
    let mut rows: Vec<(usize, usize)> = Vec::new();
    rows.push((0, w));
    let mut pos: usize = w;
    proof {
        assert(row_view(rows@) =~= seq![(0int, w as int)]);
    }
    loop
        invariant_except_break
            n == input.len(),
            n <= i32::MAX,
            0 < w <= pos <= n,
            w == line_len(input@, 0),
            rows.len() > 0,
            rows@[0] == (0usize, w),
            pos == rows@.last().0 + rows@.last().1,
            grid_rows(input@) == row_view(rows@) + rows_after(input@, pos as int),
            forall|k: int|
                0 <= k < rows.len() ==> #[trigger] rows@[k].1 > 0 && rows@[k].0 + rows@[k].1 <= n,
            forall|k: int| 0 <= k < rows.len() - 1 ==> #[trigger] rows@[k].0 + rows@[k].1 < rows@[k + 1].0,
        ensures
            rows.len() > 0,
            rows@[0] == (0usize, w),
            grid_rows(input@) == row_view(rows@),
            forall|k: int|
                0 <= k < rows.len() ==> #[trigger] rows@[k].1 > 0 && rows@[k].0 + rows@[k].1 <= n,
            forall|k: int| 0 <= k < rows.len() - 1 ==> #[trigger] rows@[k].0 + rows@[k].1 < rows@[k + 1].0,
        decreases n - pos,
    {
        let el = ending_at(input, pos);
        if el == 0 {
            proof {
                assert(rows_after(input@, pos as int) =~= Seq::<(int, int)>::empty());
                assert(row_view(rows@) + Seq::<(int, int)>::empty() =~= row_view(rows@));
            }
            break;
        }
        let st = pos + el;
        let l = scan_line(input, st);
        if l == 0 || !(st + l >= n || ending_at(input, st + l) > 0) {
            proof {
                assert(rows_after(input@, pos as int) =~= Seq::<(int, int)>::empty());
                assert(row_view(rows@) + Seq::<(int, int)>::empty() =~= row_view(rows@));
            }
            break;
        }
        let ghost before = rows@;
        rows.push((st, l));
        proof {
            assert(row_view(rows@) =~= row_view(before).push((st as int, l as int)));
            assert(rows_after(input@, pos as int) == seq![(st as int, l as int)] + rows_after(
                input@,
                (st + l) as int,
            ));
            assert(row_view(before) + (seq![(st as int, l as int)] + rows_after(input@, (st + l) as int))
                =~= row_view(before).push((st as int, l as int)) + rows_after(input@, (st + l) as int));
            assert forall|k: int| 0 <= k < rows.len() - 1 implies #[trigger] rows@[k].0 + rows@[k].1 < rows@[k
                + 1].0 by {
                if k < before.len() - 1 {
                    assert(rows@[k] == before[k] && rows@[k + 1] == before[k + 1]);
                } else {
                    assert(rows@[k] == before.last());
                }
            }
            assert forall|k: int| 0 <= k < rows.len() implies #[trigger] rows@[k].1 > 0 && rows@[k].0 + rows@[k].1
                <= n by {
                if k < before.len() {
                    assert(rows@[k] == before[k]);
                }
            }
        }
        pos = st + l;
    }
    Ok(rows)
}

/// Appends the bytes `input[st..st + l]` to `out`.
fn push_bytes(out: &mut Vec<u8>, input: &[u8], st: usize, l: usize)
    requires
        st + l <= input.len(),
    ensures
        final(out)@ == old(out)@ + input@.subrange(st as int, (st + l) as int),
{
    let mut i: usize = 0;
    while i < l
        invariant
            st + l <= input.len(),
            i <= l,
            out@ == old(out)@ + input@.subrange(st as int, (st + i) as int),
        decreases l - i,
    {
        out.push(input[st + i]);
        i += 1;
        proof {
            assert(input@.subrange(st as int, (st + i) as int) =~= input@.subrange(
                st as int,
                (st + i - 1) as int,
            ).push(input@[st + i - 1]));
        }
    }
}

/// True when every row has length `w`.
fn uniform(rows: &Vec<(usize, usize)>, w: usize) -> (r: bool)
    ensures
        r == forall|j: int| 0 <= j < rows.len() ==> #[trigger] rows@[j].1 == w,
{
    let mut k: usize = 0;
    while k < rows.len()
        invariant
            0 <= k <= rows.len(),
            forall|j: int| 0 <= j < k ==> #[trigger] rows@[j].1 == w,
        decreases rows.len() - k,
    {
        if rows[k].1 != w {
            return false;
        }
        k += 1;
    }
    true
}

/// The bytes of rows that all have length `w`, one row after the other.
fn collect_cells(input: &[u8], rows: &Vec<(usize, usize)>, w: usize) -> (items: Vec<u8>)
    requires
        w > 0,
        rows.len() > 0,
        rows@[0].0 == 0,
        forall|j: int| 0 <= j < rows.len() ==> #[trigger] rows@[j].1 == w,
        forall|j: int| 0 <= j < rows.len() ==> #[trigger] rows@[j].0 + rows@[j].1 <= input.len(),
        forall|j: int| 0 <= j < rows.len() - 1 ==> #[trigger] rows@[j].0 + rows@[j].1 < rows@[j + 1].0,
    ensures
        items.len() == rows.len() * w,
        items.len() <= input.len(),
        forall|yy: int, x: int|
            #![trigger items@[index_of(x, yy, w as int)]]
            0 <= yy < rows.len() && 0 <= x < w ==> items@[index_of(x, yy, w as int)] == input@[rows@[yy].0 + x],
{
    let mut items: Vec<u8> = Vec::new();
    let mut y: usize = 0;
    while y < rows.len()
        invariant
            0 <= y <= rows.len(),
            w > 0,
            forall|j: int| 0 <= j < rows.len() ==> #[trigger] rows@[j].1 == w,
            forall|j: int| 0 <= j < rows.len() ==> #[trigger] rows@[j].0 + rows@[j].1 <= input.len(),
            forall|j: int| 0 <= j < rows.len() - 1 ==> #[trigger] rows@[j].0 + rows@[j].1 < rows@[j + 1].0,
            rows@[0].0 == 0,
            items.len() == y * w,
            y > 0 ==> items.len() <= rows@[y - 1].0 + rows@[y - 1].1,
            forall|yy: int, x: int|
                #![trigger items@[index_of(x, yy, w as int)]]
                0 <= yy < y && 0 <= x < w ==> items@[index_of(x, yy, w as int)] == input@[rows@[yy].0 + x],
        decreases rows.len() - y,
    {
        let ghost before = items@;
        let (st, l) = rows[y];
        push_bytes(&mut items, input, st, l);
        proof {
            assert(y * w + w == (y + 1) * w) by (nonlinear_arith);
            if y > 0 {
                assert(rows@[y - 1].0 + rows@[y - 1].1 < rows@[y as int].0);
            }
            assert forall|yy: int, x: int|
                #![trigger items@[index_of(x, yy, w as int)]]
                0 <= yy < y + 1 && 0 <= x < w implies items@[index_of(x, yy, w as int)] == input@[rows@[yy].0
                + x] by {
                if yy < y {
                    lemma_index_in_range(x, yy, w as int, y as int);
                    assert((w as int) * (y as int) == (y as int) * (w as int)) by (nonlinear_arith);
                    assert(index_of(x, yy, w as int) < before.len());
                    assert(items@[index_of(x, yy, w as int)] == before[index_of(x, yy, w as int)]);
                } else {
                    assert(index_of(x, yy, w as int) == before.len() + x);
                    assert(items@[before.len() + x] == input@[st + x]);
                }
            }
        }
        y += 1;
    }
    items
}

proof fn lemma_max_len(rows: Seq<(int, int)>)
    ensures
        forall|j: int| 0 <= j < rows.len() ==> #[trigger] rows[j].1 <= max_len(rows),
        max_len(rows) >= 0,
    decreases rows.len(),
{
    if rows.len() > 0 {
        lemma_max_len(rows.drop_last());
        assert forall|j: int| 0 <= j < rows.len() implies #[trigger] rows[j].1 <= max_len(rows) by {
            if j < rows.len() - 1 {
                assert(rows.drop_last()[j] == rows[j]);
            }
        }
    }
}

/// The longest row.
fn longest(rows: &Vec<(usize, usize)>) -> (r: usize)
    ensures
        r == max_len(row_view(rows@)),
{
    let mut m: usize = 0;
    let mut k: usize = 0;
    while k < rows.len()
        invariant
            0 <= k <= rows.len(),
            m == max_len(row_view(rows@).subrange(0, k as int)),
        decreases rows.len() - k,
    {
        proof {
            let t = row_view(rows@);
            assert(t.subrange(0, k + 1).drop_last() =~= t.subrange(0, k as int));
            assert(t.subrange(0, k + 1).last() == t[k as int]);
        }
        if rows[k].1 > m {
            m = rows[k].1;
        }
        k += 1;
    }
    proof {
        assert(row_view(rows@).subrange(0, rows.len() as int) =~= row_view(rows@));
    }
    m
}

/// The bytes of the rows, each padded with zeros to length `w`, one row
/// after the other.
fn collect_padded(input: &[u8], rows: &Vec<(usize, usize)>, w: usize) -> (items: Vec<u8>)
    requires
        forall|j: int| 0 <= j < rows.len() ==> #[trigger] rows@[j].1 <= w,
        forall|j: int| 0 <= j < rows.len() ==> #[trigger] rows@[j].0 + rows@[j].1 <= input.len(),
        rows.len() * w <= i32::MAX,
    ensures
        items.len() == rows.len() * w,
        forall|yy: int, x: int|
            #![trigger items@[index_of(x, yy, w as int)]]
            0 <= yy < rows.len() && 0 <= x < w ==> items@[index_of(x, yy, w as int)] == if x < rows@[yy].1 {
                input@[rows@[yy].0 + x]
            } else {
                0u8
            },
{
    let mut items: Vec<u8> = Vec::new();
    let mut y: usize = 0;
    while y < rows.len()
        invariant
            0 <= y <= rows.len(),
            forall|j: int| 0 <= j < rows.len() ==> #[trigger] rows@[j].1 <= w,
            forall|j: int| 0 <= j < rows.len() ==> #[trigger] rows@[j].0 + rows@[j].1 <= input.len(),
            rows.len() * w <= i32::MAX,
            items.len() == y * w,
            forall|yy: int, x: int|
                #![trigger items@[index_of(x, yy, w as int)]]
                0 <= yy < y && 0 <= x < w ==> items@[index_of(x, yy, w as int)] == if x < rows@[yy].1 {
                    input@[rows@[yy].0 + x]
                } else {
                    0u8
                },
        decreases rows.len() - y,
    {
        let ghost before = items@;
        let (st, l) = rows[y];
        push_bytes(&mut items, input, st, l);
        let mut x: usize = l;
        while x < w
            invariant
                l <= x <= w,
                items@.len() == before.len() + x,
                forall|i: int| 0 <= i < before.len() + l ==> #[trigger] items@[i] == (before + input@.subrange(
                    st as int,
                    (st + l) as int,
                ))[i],
                forall|i: int| before.len() + l <= i < items@.len() ==> #[trigger] items@[i] == 0u8,
            decreases w - x,
        {
            items.push(0u8);
            x += 1;
        }
        proof {
            assert(y * w + w == (y + 1) * w) by (nonlinear_arith);
            assert((y + 1) * w <= rows.len() * w) by (nonlinear_arith)
                requires
                    y + 1 <= rows.len();
            assert forall|yy: int, x: int|
                #![trigger items@[index_of(x, yy, w as int)]]
                0 <= yy < y + 1 && 0 <= x < w implies items@[index_of(x, yy, w as int)] == if x < rows@[yy].1 {
                    input@[rows@[yy].0 + x]
                } else {
                    0u8
                } by {
                if yy < y {
                    lemma_index_in_range(x, yy, w as int, y as int);
                    assert((w as int) * (y as int) == (y as int) * (w as int)) by (nonlinear_arith);
                    assert(index_of(x, yy, w as int) < before.len());
                    assert(items@[index_of(x, yy, w as int)] == (before + input@.subrange(st as int, (st + l) as int))[index_of(x, yy, w as int)]);
                } else {
                    assert(index_of(x, yy, w as int) == before.len() + x);
                    if x < l {
                        assert(items@[before.len() + x] == (before + input@.subrange(st as int, (st + l) as int))[before.len() + x]);
                    }
                }
            }
        }
        y += 1;
    }
    items
}

impl Grid<u8> {
    /// Reads a grid of bytes: the first line, then every further line that
    /// follows a line ending (`\n` or `\r\n`), as long as it is not empty and
    /// ends well. All rows must have the length of the first (else
    /// `LengthValue`). On success, the count is the end of the last row.
    #[verifier::rlimit(40)]
    pub fn parse(input: &[u8]) -> (r: ParseResult<Grid<u8>>)
        requires
            input.len() <= i32::MAX,
        ensures
            !line_ends_well(input@, 0) ==> r == Err::<(usize, Grid<u8>), ErrorKind>(ErrorKind::Tag),
            line_ends_well(input@, 0) && line_len(input@, 0) == 0 ==> r == Err::<(usize, Grid<u8>), ErrorKind>(
                ErrorKind::Eof,
            ),
            line_ends_well(input@, 0) && line_len(input@, 0) > 0 ==> {
                let rows = grid_rows(input@);
                let w = line_len(input@, 0);
                if exists|k: int| 0 <= k < rows.len() && #[trigger] rows[k].1 != w {
                    r == Err::<(usize, Grid<u8>), ErrorKind>(ErrorKind::LengthValue)
                } else {
                    r matches Ok((c, g)) && {
                        &&& c == rows.last().0 + rows.last().1
                        &&& g.wf()
                        &&& g.spec_width() == w
                        &&& g.spec_height() == rows.len()
                        &&& forall|x: int, y: int|
                            #![trigger g.cell(x, y)]
                            g.valid(x, y) ==> g.cell(x, y) == input@[rows[y].0 + x]
                    }
                }
            },
    {
        let rows = match scan_rows(input) {
            Ok(rows) => rows,
            Err(e) => {
                return Err(e);
            },
        };
        let ghost rv = grid_rows(input@);
        proof {
            assert(line_ends_well(input@, 0) && line_len(input@, 0) > 0);
            assert(rv[0] == (0int, line_len(input@, 0)));
            assert(row_view(rows@)[0] == (rows@[0].0 as int, rows@[0].1 as int));
        }
        let w = rows[0].1;
        if !uniform(&rows, w) {
            proof {
                let k = choose|k: int| 0 <= k < rows.len() && #[trigger] rows@[k].1 != w;
                assert(row_view(rows@)[k] == (rows@[k].0 as int, rows@[k].1 as int));
                assert(rv[k].1 != line_len(input@, 0));
            }
            return Err(ErrorKind::LengthValue);
        }
        let items = collect_cells(input, &rows, w);
        let ghost h = rows.len();
        let last = rows[rows.len() - 1];
        proof {
            assert(row_view(rows@)[h - 1] == (last.0 as int, last.1 as int));
            assert(rows.len() <= items.len() && w <= items.len()) by (nonlinear_arith)
                requires
                    items.len() == rows.len() * w,
                    w >= 1,
                    rows.len() >= 1;
        }
        let g = Grid::from_items(items, w as i32, rows.len() as i32);
        proof {
            assert forall|x: int, yy: int| #![trigger g.cell(x, yy)] g.valid(x, yy) implies g.cell(x, yy)
                == input@[rv[yy].0 + x] by {
                assert(row_view(rows@)[yy] == (rows@[yy].0 as int, rows@[yy].1 as int));
            }
            assert forall|j: int| 0 <= j < rv.len() implies #[trigger] rv[j].1 == line_len(input@, 0) by {
                assert(row_view(rows@)[j] == (rows@[j].0 as int, rows@[j].1 as int));
            }
        }
        Ok((last.0 + last.1, g))
    }

}

/// Reads a grid of bytes whose rows may differ in length: the rows are
/// found as by `parse`, the grid is as wide as the longest, and the
/// missing cells of shorter rows are zero.
pub fn uneven_grid_parser(input: &[u8]) -> (r: ParseResult<Grid<u8>>)
    requires
        input.len() <= i32::MAX,
        line_ends_well(input@, 0) && line_len(input@, 0) > 0 ==> max_len(grid_rows(input@)) * grid_rows(
            input@,
        ).len() <= i32::MAX,
    ensures
        !line_ends_well(input@, 0) ==> r == Err::<(usize, Grid<u8>), ErrorKind>(ErrorKind::Tag),
        line_ends_well(input@, 0) && line_len(input@, 0) == 0 ==> r == Err::<(usize, Grid<u8>), ErrorKind>(
            ErrorKind::Eof,
        ),
        line_ends_well(input@, 0) && line_len(input@, 0) > 0 ==> {
            let rows = grid_rows(input@);
            r matches Ok((c, g)) && {
                &&& c == rows.last().0 + rows.last().1
                &&& g.wf()
                &&& g.spec_width() == max_len(rows)
                &&& g.spec_height() == rows.len()
                &&& forall|x: int, y: int|
                    #![trigger g.cell(x, y)]
                    g.valid(x, y) ==> g.cell(x, y) == if x < rows[y].1 {
                        input@[rows[y].0 + x]
                    } else {
                        0u8
                    }
            }
        },
{
    let rows = match scan_rows(input) {
        Ok(rows) => rows,
        Err(e) => {
            return Err(e);
        },
    };
    let ghost rv = grid_rows(input@);
    let w = longest(&rows);
    proof {
        lemma_max_len(rv);
        assert forall|j: int| 0 <= j < rows.len() implies #[trigger] rows@[j].1 <= w by {
            assert(rv[j] == (rows@[j].0 as int, rows@[j].1 as int));
        }
        assert(rows.len() == rv.len());
        assert(rows.len() * w <= i32::MAX) by (nonlinear_arith)
            requires
                max_len(rv) * rv.len() <= i32::MAX,
                w == max_len(rv),
                rows.len() == rv.len();
        assert(rows.len() <= i32::MAX) by (nonlinear_arith)
            requires
                rows.len() * w <= i32::MAX,
                w >= rows@[0].1,
                rows@[0].1 > 0;
        assert(w <= i32::MAX) by (nonlinear_arith)
            requires
                rows.len() * w <= i32::MAX,
                rows.len() >= 1;
    }
    let items = collect_padded(input, &rows, w);
    let ghost h = rows.len();
    let last = rows[rows.len() - 1];
    proof {
        assert(rv[h - 1] == (last.0 as int, last.1 as int));
        assert(items.len() == (w as i32) * (rows.len() as i32)) by (nonlinear_arith)
            requires
                items.len() == rows.len() * w,
                w <= i32::MAX,
                rows.len() <= i32::MAX;
    }
    let g = Grid::from_items(items, w as i32, rows.len() as i32);
    proof {
        assert forall|x: int, yy: int| #![trigger g.cell(x, yy)] g.valid(x, yy) implies g.cell(x, yy) == if x
            < rv[yy].1 {
            input@[rv[yy].0 + x]
        } else {
            0u8
        } by {
            assert(rv[yy] == (rows@[yy].0 as int, rows@[yy].1 as int));
        }
    }
    Ok((last.0 + last.1, g))
}

} // verus!
