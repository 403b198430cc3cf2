//! Movie theater: the largest rectangle with red tiles at two opposite
//! corners.
use crate::aoc2025::day8::comma_at;
use crate::geometry::{point2, BoundingBox, Point};
use crate::parsing::{parse_i32_text, signed_text, split_lines, span_view, text_lines};
use vstd::prelude::*;

verus! {

/// Coordinates this far from zero keep every box size within an `i32`.
pub open spec fn tile_ok(p: Point<2, i32>) -> bool {
    &&& -0x4000_0000 <= p.coords[0] <= 0x4000_0000
    &&& -0x4000_0000 <= p.coords[1] <= 0x4000_0000
}

/// The distance between two values.
pub open spec fn span(a: int, b: int) -> int {
    if a <= b {
        b - a
    } else {
        a - b
    }
}

/// The number of tiles in the rectangle with corners `a` and `b`, borders
/// included.
pub open spec fn area(a: Point<2, i32>, b: Point<2, i32>) -> int {
    (span(a.coords[0] as int, b.coords[0] as int) + 1) * (span(a.coords[1] as int, b.coords[1] as int) + 1)
}

/// The box with corners `points[i]` and `points[j]`.
pub open spec fn box_of(points: Seq<Point<2, i32>>, i: int, j: int) -> BoundingBox<2, i32> {
    BoundingBox::spec_from(points[i], points[j])
}

/// The number of tiles in a box.
pub open spec fn box_area(b: BoundingBox<2, i32>) -> int {
    (b.spec_max().coords[0] - b.spec_min().coords[0] + 1) * (b.spec_max().coords[1] - b.spec_min().coords[1] + 1)
}

/// The size of the box, in tiles, borders included.
fn size_of(b: &BoundingBox<2, i32>) -> (r: i64)
    requires
        -0x4000_0000 <= b.spec_min().coords[0] <= b.spec_max().coords[0] <= 0x4000_0000,
        -0x4000_0000 <= b.spec_min().coords[1] <= b.spec_max().coords[1] <= 0x4000_0000,
    ensures
        r == box_area(*b),
{
    let lo = b.min_point();
    let hi = b.max_point();
    let dx = hi.coords[0] as i64 - lo.coords[0] as i64 + 1;
    let dy = hi.coords[1] as i64 - lo.coords[1] as i64 + 1;
    assert(0 < dx * dy <= 0x8000_0001 * 0x8000_0001) by (nonlinear_arith)
        requires
            1 <= dx <= 0x8000_0001,
            1 <= dy <= 0x8000_0001;
    dx * dy
}

/// The largest box, by tiles, spanned by two of the points (a point with
/// itself included) that `accept` takes; `None` when it takes none.
pub fn find_area<F: Fn(&BoundingBox<2, i32>) -> bool>(points: &[Point<2, i32>], accept: F) -> (r: Option<i64>)
    requires
        forall|i: int| 0 <= i < points.len() ==> tile_ok(#[trigger] points@[i]),
        forall|b: BoundingBox<2, i32>| #[trigger] call_requires(accept, (&b,)),
    ensures
        r is None ==> forall|i: int, j: int|
            0 <= i <= j < points.len() ==> #[trigger] call_ensures(accept, (&box_of(points@, i, j),), false),
        r matches Some(a) ==> {
            &&& exists|i: int, j: int|
                0 <= i <= j < points.len() && #[trigger] call_ensures(accept, (&box_of(points@, i, j),), true) && a
                    == area(points@[i], points@[j])
            &&& forall|i: int, j: int|
                0 <= i <= j < points.len() && area(points@[i], points@[j]) > a ==> #[trigger] call_ensures(
                    accept,
                    (&box_of(points@, i, j),),
                    false,
                )
        },
{
    let mut best: Option<i64> = None;
    let mut i: usize = 0;
    while i < points.len()
        invariant
            forall|k: int| 0 <= k < points.len() ==> tile_ok(#[trigger] points@[k]),
            forall|b: BoundingBox<2, i32>| #[trigger] call_requires(accept, (&b,)),
            i <= points.len(),
            best is None ==> forall|a: int, c: int|
                0 <= a < i && a <= c < points.len() ==> #[trigger] call_ensures(accept, (&box_of(points@, a, c),), false),
            best matches Some(m) ==> {
                &&& exists|a: int, c: int|
                    0 <= a <= c < points.len() && #[trigger] call_ensures(accept, (&box_of(points@, a, c),), true)
                        && m == area(points@[a], points@[c])
                &&& forall|a: int, c: int|
                    0 <= a < i && a <= c < points.len() && area(points@[a], points@[c]) > m ==> #[trigger] call_ensures(
                        accept,
                        (&box_of(points@, a, c),),
                        false,
                    )
            },
        decreases points.len() - i,
    {
        let mut j: usize = i;
        while j < points.len()
            invariant
                forall|k: int| 0 <= k < points.len() ==> tile_ok(#[trigger] points@[k]),
                forall|b: BoundingBox<2, i32>| #[trigger] call_requires(accept, (&b,)),
                i < points.len(),
                i <= j <= points.len(),
                best is None ==> forall|a: int, c: int|
                    (0 <= a < i && a <= c < points.len()) || (a == i && i <= c < j) ==> #[trigger] call_ensures(
                        accept,
                        (&box_of(points@, a, c),),
                        false,
                    ),
                best matches Some(m) ==> {
                    &&& exists|a: int, c: int|
                        0 <= a <= c < points.len() && #[trigger] call_ensures(accept, (&box_of(points@, a, c),), true)
                            && m == area(points@[a], points@[c])
                    &&& forall|a: int, c: int|
                        ((0 <= a < i && a <= c < points.len()) || (a == i && i <= c < j)) && area(points@[a], points@[c])
                            > m ==> #[trigger] call_ensures(accept, (&box_of(points@, a, c),), false)
                },
            decreases points.len() - j,
        {
            let b = BoundingBox::from(points[i], points[j]);
            proof {
                assert(tile_ok(points@[i as int]) && tile_ok(points@[j as int]));
            }
            let taken = accept(&b);
            let size = size_of(&b);
            proof {
                assert(box_area(b) == area(points@[i as int], points@[j as int]));
            }
            let ghost old_best = best;
            if taken {
                let larger = match best {
                    None => true,
                    Some(m) => size > m,
                };
                if larger {
                    best = Some(size);
                }
            }
            proof {
                let bij = box_of(points@, i as int, j as int);
                assert(b == bij);
                if taken {
                    assert(call_ensures(accept, (&bij,), true));
                } else {
                    assert(call_ensures(accept, (&bij,), false));
                }
                if best != old_best {
                    assert(call_ensures(accept, (&box_of(points@, i as int, j as int),), true) && size == area(
                        points@[i as int],
                        points@[j as int],
                    ));
                }
            }
            j += 1;
        }
        i += 1;
    }
    best
}

/// The largest box, by tiles, spanned by two of the tiles.
pub fn calculate_part1(points: &[Point<2, i32>]) -> (r: i64)
    requires
        points.len() > 0,
        forall|i: int| 0 <= i < points.len() ==> tile_ok(#[trigger] points@[i]),
    ensures
        exists|i: int, j: int| 0 <= i <= j < points.len() && r == #[trigger] area(points@[i], points@[j]),
        forall|i: int, j: int| 0 <= i <= j < points.len() ==> #[trigger] area(points@[i], points@[j]) <= r,
{
    let any = |b: &BoundingBox<2, i32>| -> (t: bool)
        ensures
            t,
        { true };
    match find_area(points, any) {
        Some(a) => {
            proof {
                assert forall|i: int, j: int| 0 <= i <= j < points.len() implies #[trigger] area(
                    points@[i],
                    points@[j],
                ) <= a by {
                    if area(points@[i], points@[j]) > a {
                        assert(call_ensures(any, (&box_of(points@, i, j),), false));
                    }
                }
            }
            a
        },
        None => {
            proof {
                assert(call_ensures(any, (&box_of(points@, 0, 0),), false));
            }
            0
        },
    }
}

/// The tile a line `x,y` stands for.
pub open spec fn tile_of(s: Seq<u8>) -> Option<Point<2, i32>> {
    let c = comma_at(s, 0);
    if c < s.len() {
        let x = signed_text(s.subrange(0, c));
        let y = signed_text(s.subrange(c + 1, s.len() as int));
        if x is Some && y is Some && i32::MIN <= x->0 <= i32::MAX && i32::MIN <= y->0 <= i32::MAX {
            Some(Point { coords: [x->0 as i32, y->0 as i32] })
        } else {
            None
        }
    } else {
        None
    }
}

fn find_comma(s: &[u8]) -> (r: usize)
    ensures
        r == comma_at(s@, 0),
        r <= s.len(),
{
    let mut j: usize = 0;
    while j < s.len() && s[j] != 44
        invariant
            j <= s.len(),
            comma_at(s@, 0) == comma_at(s@, j as int),
        decreases s.len() - j,
    {
        j += 1;
    }
    j
}

/// The red tiles of a text, one `x,y` per line; `None` when a line is not
/// one.
pub fn parse_input(input: &[u8]) -> (r: Option<Vec<Point<2, i32>>>)
    ensures
        r is Some <==> forall|k: int|
            0 <= k < text_lines(input@).len() ==> #[trigger] tile_of(
                input@.subrange(text_lines(input@)[k].0, text_lines(input@)[k].0 + text_lines(input@)[k].1),
            ) is Some,
        r matches Some(points) ==> points.len() == text_lines(input@).len() && forall|k: int|
            0 <= k < points.len() ==> Some(#[trigger] points@[k]) == tile_of(
                input@.subrange(text_lines(input@)[k].0, text_lines(input@)[k].0 + text_lines(input@)[k].1),
            ),
{
    let lines = split_lines(input);
    let ghost tl = text_lines(input@);
    let mut points: Vec<Point<2, i32>> = Vec::new();
    let mut k: usize = 0;
    while k < lines.len()
        invariant
            span_view(lines@) == tl,
            tl == text_lines(input@),
            forall|j: int| 0 <= j < lines.len() ==> #[trigger] lines@[j].0 + lines@[j].1 <= input.len(),
            k <= lines.len(),
            points.len() == k,
            forall|j: int|
                0 <= j < k ==> Some(#[trigger] points@[j]) == tile_of(input@.subrange(tl[j].0, tl[j].0 + tl[j].1)),
        decreases lines.len() - k,
    {
        let (st, l) = lines[k];
        proof {
            assert(tl[k as int] == (st as int, l as int));
        }
        let line = &input[st..st + l];
        proof {
            assert(line@ == input@.subrange(st as int, st + l));
        }
        let c = find_comma(line);
        if c >= l {
            return None;
        }
        let xs = &line[0..c];
        let ys = &line[c + 1..l];
        proof {
            assert(xs@ == line@.subrange(0, c as int));
            assert(ys@ == line@.subrange(c + 1, l as int));
        }
        let x = match parse_i32_text(xs) {
            Some(v) => v,
            None => {
                return None;
            },
        };
        let y = match parse_i32_text(ys) {
            Some(v) => v,
            None => {
                return None;
            },
        };
        let p = point2(x, y);
        proof {
            assert(p.coords =~= [x, y]);
            assert(tile_of(line@) == Some(p));
        }
        points.push(p);
        k += 1;
    }
    proof {
        assert(span_view(lines@).len() == lines@.len());
        assert forall|j: int| 0 <= j < tl.len() implies #[trigger] tile_of(
            input@.subrange(tl[j].0, tl[j].0 + tl[j].1),
        ) is Some by {
            assert(Some(points@[j]) == tile_of(input@.subrange(tl[j].0, tl[j].0 + tl[j].1)));
        }
    }
    Some(points)
}

} // verus!
