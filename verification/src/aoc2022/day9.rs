//! Rope bridge: a rope of knots whose head is moved step by step and whose
//! other knots follow; the places the tail visits are counted.
use crate::parsing::{parse_i32_text, signed_text, split_lines, span_view, text_lines};
use vstd::prelude::*;

verus! {

/// `-1`, `0` or `1`: the sign of `v`.
pub open spec fn sign(v: int) -> int {
    if v > 0 {
        1
    } else if v < 0 {
        -1
    } else {
        0
    }
}

/// Where a knot goes when the knot before it is now at `lead`: one step
/// towards it on each axis where they differ, unless they still touch.
pub open spec fn follow(lead: (int, int), knot: (int, int)) -> (int, int) {
    let dx = lead.0 - knot.0;
    let dy = lead.1 - knot.1;
    if dx > 1 || dx < -1 || dy > 1 || dy < -1 {
        (knot.0 + sign(dx), knot.1 + sign(dy))
    } else {
        knot
    }
}

/// Knot `i` after the head of `rope` moves by `dir`.
pub open spec fn moved_knot(rope: Seq<(int, int)>, dir: (int, int), i: int) -> (int, int)
    decreases i,
{
    if i <= 0 {
        (rope[0].0 + dir.0, rope[0].1 + dir.1)
    } else {
        follow(moved_knot(rope, dir, i - 1), rope[i])
    }
}

/// The rope after its head moves by `dir`.
pub open spec fn move_rope(rope: Seq<(int, int)>, dir: (int, int)) -> Seq<(int, int)> {
    Seq::new(rope.len(), |i: int| moved_knot(rope, dir, i))
}

/// One step of the rope: the head moves by `dir`; every other knot that
/// still touches the knot ahead of it (at most one apart on both axes)
/// stays, and one that no longer does moves exactly one step towards it on
/// each axis where they differ, diagonally when they differ on both.
pub proof fn lemma_rope_step(rope: Seq<(int, int)>, dir: (int, int), i: int)
    requires
        0 <= i < rope.len(),
    ensures
        move_rope(rope, dir).len() == rope.len(),
        i == 0 ==> move_rope(rope, dir)[0] == (rope[0].0 + dir.0, rope[0].1 + dir.1),
        i > 0 ==> {
            let lead = move_rope(rope, dir)[i - 1];
            let knot = rope[i];
            let next = move_rope(rope, dir)[i];
            let dx = lead.0 - knot.0;
            let dy = lead.1 - knot.1;
            &&& (-1 <= dx <= 1 && -1 <= dy <= 1) ==> next == knot
            &&& !(-1 <= dx <= 1 && -1 <= dy <= 1) ==> {
                &&& next.0 - knot.0 == if dx > 0 {
                    1int
                } else if dx < 0 {
                    -1int
                } else {
                    0int
                }
                &&& next.1 - knot.1 == if dy > 0 {
                    1int
                } else if dy < 0 {
                    -1int
                } else {
                    0int
                }
            }
        },
{
}

/// Knots that touch stay touching: when every knot touches the one ahead
/// and the head moves at most one step on each axis, every knot again
/// touches the one ahead, and no knot moves more than one step on an axis.
pub proof fn lemma_rope_stays_touching(rope: Seq<(int, int)>, dir: (int, int), i: int)
    requires
        -1 <= dir.0 <= 1,
        -1 <= dir.1 <= 1,
        forall|j: int|
            0 < j < rope.len() ==> -1 <= #[trigger] rope[j].0 - rope[j - 1].0 <= 1 && -1 <= rope[j].1 - rope[j - 1].1 <= 1,
        0 <= i < rope.len(),
    ensures
        -1 <= move_rope(rope, dir)[i].0 - rope[i].0 <= 1,
        -1 <= move_rope(rope, dir)[i].1 - rope[i].1 <= 1,
        i > 0 ==> -1 <= move_rope(rope, dir)[i].0 - move_rope(rope, dir)[i - 1].0 <= 1,
        i > 0 ==> -1 <= move_rope(rope, dir)[i].1 - move_rope(rope, dir)[i - 1].1 <= 1,
    decreases i,
{
    if i > 0 {
        lemma_rope_stays_touching(rope, dir, i - 1);
        assert(-1 <= rope[i].0 - rope[i - 1].0 <= 1);
        assert(move_rope(rope, dir)[i] == follow(moved_knot(rope, dir, i - 1), rope[i]));
        assert(move_rope(rope, dir)[i - 1] == moved_knot(rope, dir, i - 1));
    }
}

/// In every rope the steps reach, each knot touches the one ahead of it.
pub proof fn lemma_rope_always_touching(knots: nat, steps: Seq<(int, int)>, k: int)
    requires
        0 <= k <= steps.len(),
        forall|s: int| 0 <= s < steps.len() ==> -1 <= (#[trigger] steps[s]).0 <= 1 && -1 <= steps[s].1 <= 1,
    ensures
        rope_after(knots, steps, k).len() == knots,
        forall|j: int|
            0 < j < knots ==> -1 <= #[trigger] rope_after(knots, steps, k)[j].0 - rope_after(knots, steps, k)[j - 1].0 <= 1
                && -1 <= rope_after(knots, steps, k)[j].1 - rope_after(knots, steps, k)[j - 1].1 <= 1,
    decreases k,
{
    if k > 0 {
        lemma_rope_always_touching(knots, steps, k - 1);
        let r = rope_after(knots, steps, k - 1);
        assert forall|j: int| 0 < j < knots implies -1 <= #[trigger] rope_after(knots, steps, k)[j].0 - rope_after(
            knots,
            steps,
            k,
        )[j - 1].0 <= 1 && -1 <= rope_after(knots, steps, k)[j].1 - rope_after(knots, steps, k)[j - 1].1 <= 1 by {
            lemma_rope_stays_touching(r, steps[k - 1], j);
        }
    }
}

/// The single steps of a list of moves: each direction as often as its
/// count says.
pub open spec fn unit_steps(moves: Seq<((i32, i32), i32)>) -> Seq<(int, int)>
    decreases moves.len(),
{
    if moves.len() == 0 {
        Seq::empty()
    } else {
        let (dir, count) = moves.last();
        unit_steps(moves.drop_last()) + Seq::new(
            if count > 0 {
                count as nat
            } else {
                0
            },
            |i: int| (dir.0 as int, dir.1 as int),
        )
    }
}

/// The rope after the first `k` steps, from `knots` knots all at the origin.
pub open spec fn rope_after(knots: nat, steps: Seq<(int, int)>, k: int) -> Seq<(int, int)>
    decreases k,
{
    if k <= 0 {
        Seq::new(knots, |i: int| (0int, 0int))
    } else {
        move_rope(rope_after(knots, steps, k - 1), steps[k - 1])
    }
}

/// Where the tail is after each of the steps.
pub open spec fn tail_trail(knots: nat, steps: Seq<(int, int)>) -> Seq<(int, int)> {
    Seq::new(steps.len(), |k: int| rope_after(knots, steps, k + 1).last())
}

/// A line `R n`, `L n`, `U n` or `D n`.
pub open spec fn move_of(line: Seq<u8>) -> Option<((i32, i32), i32)> {
    if line.len() >= 2 && line[1] == 32 && (line[0] == 82 || line[0] == 76 || line[0] == 85 || line[0] == 68) {
        let n = signed_text(line.subrange(2, line.len() as int));
        if n is Some && i32::MIN <= n->0 <= i32::MAX {
            let dir: (i32, i32) = if line[0] == 82 {
                (1i32, 0i32)
            } else if line[0] == 76 {
                (-1i32, 0i32)
            } else if line[0] == 85 {
                (0i32, 1i32)
            } else {
                (0i32, -1i32)
            };
            Some((dir, n->0 as i32))
        } else {
            None
        }
    } else {
        None
    }
}

/// Reads one line `R n`, `L n`, `U n` or `D n`.
pub fn parse_line(line: &[u8]) -> (r: Option<((i32, i32), i32)>)
    ensures
        r == move_of(line@),
{
    if line.len() < 2 || line[1] != 32 {
        return None;
    }
    let dir: (i32, i32) = if line[0] == 82 {
        (1, 0)
    } else if line[0] == 76 {
        (-1, 0)
    } else if line[0] == 85 {
        (0, 1)
    } else if line[0] == 68 {
        (0, -1)
    } else {
        return None;
    };
    let arg = &line[2..line.len()];
    proof {
        assert(arg@ == line@.subrange(2, line@.len() as int));
    }
    match parse_i32_text(arg) {
        Some(n) => Some((dir, n)),
        None => None,
    }
}

/// The moves of a text, one per line; `None` when a line is not a move.
pub fn parse_input(input: &[u8]) -> (r: Option<Vec<((i32, i32), i32)>>)
    ensures
        r is Some <==> forall|k: int|
            0 <= k < text_lines(input@).len() ==> #[trigger] move_of(
                input@.subrange(text_lines(input@)[k].0, text_lines(input@)[k].0 + text_lines(input@)[k].1),
            ) is Some,
        r matches Some(moves) ==> moves.len() == text_lines(input@).len() && forall|k: int|
            0 <= k < moves.len() ==> Some(#[trigger] moves@[k]) == move_of(
                input@.subrange(text_lines(input@)[k].0, text_lines(input@)[k].0 + text_lines(input@)[k].1),
            ),
{
    let lines = split_lines(input);
    let ghost tl = text_lines(input@);
    let mut moves: Vec<((i32, i32), i32)> = Vec::new();
    let mut k: usize = 0;
    while k < lines.len()
        invariant
            span_view(lines@) == tl,
            tl == text_lines(input@),
            forall|j: int| 0 <= j < lines.len() ==> #[trigger] lines@[j].0 + lines@[j].1 <= input.len(),
            k <= lines.len(),
            moves.len() == k,
            forall|j: int|
                0 <= j < k ==> Some(#[trigger] moves@[j]) == move_of(input@.subrange(tl[j].0, tl[j].0 + tl[j].1)),
        decreases lines.len() - k,
    {
        let (st, l) = lines[k];
        proof {
            assert(tl[k as int] == (st as int, l as int));
        }
        let line = &input[st..st + l];
        proof {
            assert(line@ == input@.subrange(tl[k as int].0, tl[k as int].0 + tl[k as int].1));
        }
        match parse_line(line) {
            Some(m) => {
                moves.push(m);
            },
            None => {
                return None;
            },
        }
        k += 1;
    }
    proof {
        assert(span_view(lines@).len() == lines@.len());
        assert forall|j: int| 0 <= j < tl.len() implies #[trigger] move_of(
            input@.subrange(tl[j].0, tl[j].0 + tl[j].1),
        ) is Some by {
            assert(Some(moves@[j]) == move_of(input@.subrange(tl[j].0, tl[j].0 + tl[j].1)));
        }
    }
    Some(moves)
}

/// Every knot is within `k` steps of the origin on both axes.
spec fn rope_within(rope: Seq<(int, int)>, k: int) -> bool {
    forall|i: int| 0 <= i < rope.len() ==> -k <= (#[trigger] rope[i]).0 <= k && -k <= rope[i].1 <= k
}

proof fn lemma_move_within(rope: Seq<(int, int)>, dir: (int, int), k: int)
    requires
        rope.len() > 0,
        rope_within(rope, k),
        -1 <= dir.0 <= 1,
        -1 <= dir.1 <= 1,
    ensures
        rope_within(move_rope(rope, dir), k + 1),
{
    assert forall|i: int| 0 <= i < rope.len() implies -(k + 1) <= (#[trigger] moved_knot(rope, dir, i)).0 <= k + 1
        && -(k + 1) <= moved_knot(rope, dir, i).1 <= k + 1 by {
        lemma_moved_knot_within(rope, dir, k, i);
    }
}

proof fn lemma_moved_knot_within(rope: Seq<(int, int)>, dir: (int, int), k: int, i: int)
    requires
        rope.len() > 0,
        rope_within(rope, k),
        -1 <= dir.0 <= 1,
        -1 <= dir.1 <= 1,
        0 <= i < rope.len(),
    ensures
        -(k + 1) <= moved_knot(rope, dir, i).0 <= k + 1,
        -(k + 1) <= moved_knot(rope, dir, i).1 <= k + 1,
    decreases i,
{
    if i > 0 {
        lemma_moved_knot_within(rope, dir, k, i - 1);
        assert(-k <= rope[i].0 <= k && -k <= rope[i].1 <= k);
    } else {
        assert(-k <= rope[0].0 <= k && -k <= rope[0].1 <= k);
    }
}

/// The rope after one step of its head, knot by knot.
fn move_snake(snake: &Vec<(i32, i32)>, dir: (i32, i32), Ghost(k): Ghost<int>) -> (r: Vec<(i32, i32)>)
    requires
        snake.len() > 0,
        0 <= k < i32::MAX / 2,
        rope_within(snake@.map_values(|p: (i32, i32)| (p.0 as int, p.1 as int)), k),
        -1 <= dir.0 <= 1,
        -1 <= dir.1 <= 1,
    ensures
        r.len() == snake.len(),
        r@.map_values(|p: (i32, i32)| (p.0 as int, p.1 as int)) == move_rope(
            snake@.map_values(|p: (i32, i32)| (p.0 as int, p.1 as int)),
            (dir.0 as int, dir.1 as int),
        ),
{
    let ghost rope = snake@.map_values(|p: (i32, i32)| (p.0 as int, p.1 as int));
    let ghost d = (dir.0 as int, dir.1 as int);
    proof {
        lemma_move_within(rope, d, k);
        assert(rope[0] == (snake@[0].0 as int, snake@[0].1 as int));
    }
    let mut result: Vec<(i32, i32)> = Vec::new();
    result.push((snake[0].0 + dir.0, snake[0].1 + dir.1));
    let mut ix: usize = 1;
    while ix < snake.len()
        invariant
            rope == snake@.map_values(|p: (i32, i32)| (p.0 as int, p.1 as int)),
            d == (dir.0 as int, dir.1 as int),
            rope_within(move_rope(rope, d), k + 1),
            rope_within(rope, k),
            0 <= k < i32::MAX / 2,
            1 <= ix <= snake.len(),
            result.len() == ix,
            forall|i: int| 0 <= i < ix ==> (#[trigger] result@[i]).0 == moved_knot(rope, d, i).0 && result@[i].1 == moved_knot(rope, d, i).1,
        decreases snake.len() - ix,
    {
        let lead = result[ix - 1];
        let knot = snake[ix];
        proof {
            assert(move_rope(rope, d)[ix - 1] == moved_knot(rope, d, ix - 1));
            assert(move_rope(rope, d)[ix as int] == moved_knot(rope, d, ix as int));
            assert(rope[ix as int] == (knot.0 as int, knot.1 as int));
        }
        let dx = lead.0 - knot.0;
        let dy = lead.1 - knot.1;
        let next = if dx > 1 || dx < -1 || dy > 1 || dy < -1 {
            let sx: i32 = if dx > 0 {
                1
            } else if dx < 0 {
                -1
            } else {
                0
            };
            let sy: i32 = if dy > 0 {
                1
            } else if dy < 0 {
                -1
            } else {
                0
            };
            (knot.0 + sx, knot.1 + sy)
        } else {
            knot
        };
        result.push(next);
        ix += 1;
    }
    proof {
        assert(result@.map_values(|p: (i32, i32)| (p.0 as int, p.1 as int)) =~= move_rope(rope, d));
    }
    result
}

/// The number of places the tail of a rope of `knots` knots visits, all
/// starting at the origin; the moves must take fewer than `i32::MAX` steps
/// in all.
pub fn calculate_from(knots: usize, steps: &Vec<((i32, i32), i32)>) -> (r: usize)
    requires
        knots > 0,
        unit_steps(steps@).len() < i32::MAX / 2,
        forall|k: int|
            0 <= k < steps.len() ==> -1 <= (#[trigger] steps@[k]).0.0 <= 1 && -1 <= steps@[k].0.1 <= 1,
    ensures
        r == tail_trail(knots as nat, unit_steps(steps@)).to_set().len(),
{
    let ghost units = unit_steps(steps@);
    let mut snake: Vec<(i32, i32)> = Vec::new();
    let mut i: usize = 0;
    while i < knots
        invariant
            i <= knots,
            snake.len() == i,
            forall|j: int| 0 <= j < i ==> #[trigger] snake@[j] == (0i32, 0i32),
        decreases knots - i,
    {
        snake.push((0, 0));
        i += 1;
    }
    proof {
        assert(snake@.map_values(|p: (i32, i32)| (p.0 as int, p.1 as int)) =~= rope_after(knots as nat, units, 0));
    }
    let mut places: Vec<(i32, i32)> = Vec::new();
    let ghost mut done: int = 0;
    let mut m: usize = 0;
    while m < steps.len()
        invariant
            knots > 0,
            units == unit_steps(steps@),
            units.len() < i32::MAX / 2,
            forall|k: int|
                0 <= k < steps.len() ==> -1 <= (#[trigger] steps@[k]).0.0 <= 1 && -1 <= steps@[k].0.1 <= 1,
            m <= steps.len(),
            done == unit_steps(steps@.subrange(0, m as int)).len(),
            unit_steps(steps@.subrange(0, m as int)) == units.subrange(0, done),
            0 <= done <= units.len(),
            snake.len() == knots,
            snake@.map_values(|p: (i32, i32)| (p.0 as int, p.1 as int)) == rope_after(knots as nat, units, done),
            rope_within(rope_after(knots as nat, units, done), done),
            places@.no_duplicates(),
            places@.map_values(|p: (i32, i32)| (p.0 as int, p.1 as int)).to_set() == tail_trail(
                knots as nat,
                units.subrange(0, done),
            ).to_set(),
        decreases steps.len() - m,
    {
        let (dir, count) = steps[m];
        proof {
            lemma_unit_steps_split(steps@, m as int);
        }
        let mut c: i32 = 0;
        while c < count
            invariant
                knots > 0,
                units == unit_steps(steps@),
                units.len() < i32::MAX / 2,
                -1 <= dir.0 <= 1,
                -1 <= dir.1 <= 1,
                m < steps.len(),
                steps@[m as int] == (dir, count),
                0 <= c,
                c <= count || count <= 0,
                count <= 0 ==> c == 0,
                unit_steps(steps@.subrange(0, m + 1)).len() <= units.len(),
                unit_steps(steps@.subrange(0, m + 1)) == units.subrange(0, unit_steps(steps@.subrange(0, m as int)).len() + (if count > 0 { count as int } else { 0 })),
                unit_steps(steps@.subrange(0, m + 1)) == unit_steps(steps@.subrange(0, m as int)) + Seq::new(
                    (if count > 0 { count as nat } else { 0 }),
                    |i: int| (dir.0 as int, dir.1 as int),
                ),
                done == unit_steps(steps@.subrange(0, m as int)).len() + c,
                0 <= done <= units.len(),
                snake.len() == knots,
                snake@.map_values(|p: (i32, i32)| (p.0 as int, p.1 as int)) == rope_after(knots as nat, units, done),
                rope_within(rope_after(knots as nat, units, done), done),
                places@.no_duplicates(),
                places@.map_values(|p: (i32, i32)| (p.0 as int, p.1 as int)).to_set() == tail_trail(
                    knots as nat,
                    units.subrange(0, done),
                ).to_set(),
            decreases count - c,
        {
            proof {
                let a = unit_steps(steps@.subrange(0, m as int));
                let b = unit_steps(steps@.subrange(0, m + 1));
                assert(b.len() == a.len() + count);
                assert(done < b.len());
                assert(b[done] == (dir.0 as int, dir.1 as int));
                assert(units.subrange(0, b.len() as int)[done] == units[done]);
                assert(units[done] == (dir.0 as int, dir.1 as int));
            }
            snake = move_snake(&snake, dir, Ghost(done));
            proof {
                lemma_move_within(rope_after(knots as nat, units, done), units[done], done);
            }
            let tail = snake[knots - 1];
            let ghost before = places@;
            let mut seen = false;
            let mut j: usize = 0;
            while j < places.len()
                invariant
                    j <= places.len(),
                    seen ==> places@.contains(tail),
                    !seen ==> forall|q: int| 0 <= q < j ==> places@[q] != tail,
                decreases places.len() - j,
            {
                if places[j].0 == tail.0 && places[j].1 == tail.1 {
                    seen = true;
                }
                j += 1;
            }
            if !seen {
                places.push(tail);
            }
            proof {
                lemma_trail_push(knots as nat, units, done);
                let view = |p: (i32, i32)| (p.0 as int, p.1 as int);
                let t = (tail.0 as int, tail.1 as int);
                let trail0 = tail_trail(knots as nat, units.subrange(0, done));
                let last = rope_after(knots as nat, units, done + 1).last();
                assert(snake@.map_values(view)[knots - 1] == t);
                assert(rope_after(knots as nat, units, done + 1).len() == knots);
                assert(last == t);
                trail0.lemma_push_to_set_commute(last);
                before.map_values(view).lemma_push_to_set_commute(t);
                if seen {
                    assert(places@ == before);
                    let q = choose|q: int| 0 <= q < before.len() && before[q] == tail;
                    assert(before.map_values(view)[q] == t);
                    assert(before.map_values(view).to_set().contains(t));
                    assert(before.map_values(view).to_set().insert(t) =~= before.map_values(view).to_set());
                } else {
                    assert(places@ == before.push(tail));
                    assert(places@.map_values(view) =~= before.map_values(view).push(t));
                }
                assert(places@.map_values(view).to_set() =~= tail_trail(knots as nat, units.subrange(0, done + 1)).to_set());
                done = done + 1;
            }
            c += 1;
        }
        m += 1;
    }
    proof {
        assert(steps@.subrange(0, steps.len() as int) =~= steps@);
        assert(units.subrange(0, done) =~= units);
        lemma_no_dup_map(places@);
        places@.map_values(|p: (i32, i32)| (p.0 as int, p.1 as int)).unique_seq_to_set();
    }
    places.len()
}

proof fn lemma_no_dup_map(s: Seq<(i32, i32)>)
    requires
        s.no_duplicates(),
    ensures
        s.map_values(|p: (i32, i32)| (p.0 as int, p.1 as int)).no_duplicates(),
{
    let t = s.map_values(|p: (i32, i32)| (p.0 as int, p.1 as int));
    assert forall|i: int, j: int| 0 <= i < t.len() && 0 <= j < t.len() && i != j implies t[i] != t[j] by {
        assert(s[i] != s[j]);
    }
}

proof fn lemma_unit_steps_split(moves: Seq<((i32, i32), i32)>, m: int)
    requires
        0 <= m < moves.len(),
    ensures
        unit_steps(moves.subrange(0, m + 1)) == unit_steps(moves.subrange(0, m)) + Seq::new(
            (if moves[m].1 > 0 { moves[m].1 as nat } else { 0 }),
            |i: int| (moves[m].0.0 as int, moves[m].0.1 as int),
        ),
        unit_steps(moves.subrange(0, m + 1)).len() <= unit_steps(moves).len(),
        unit_steps(moves.subrange(0, m + 1)) == unit_steps(moves).subrange(0, unit_steps(moves.subrange(0, m + 1)).len() as int),
{
    assert(moves.subrange(0, m + 1).drop_last() =~= moves.subrange(0, m));
    lemma_unit_steps_prefix(moves, m + 1);
}

proof fn lemma_unit_steps_prefix(moves: Seq<((i32, i32), i32)>, n: int)
    requires
        0 <= n <= moves.len(),
    ensures
        unit_steps(moves.subrange(0, n)).len() <= unit_steps(moves).len(),
        unit_steps(moves.subrange(0, n)) == unit_steps(moves).subrange(0, unit_steps(moves.subrange(0, n)).len() as int),
    decreases moves.len() - n,
{
    if n == moves.len() {
        assert(moves.subrange(0, n) =~= moves);
        assert(unit_steps(moves).subrange(0, unit_steps(moves).len() as int) =~= unit_steps(moves));
    } else {
        lemma_unit_steps_prefix(moves, n + 1);
        assert(moves.subrange(0, n + 1).drop_last() =~= moves.subrange(0, n));
        let a = unit_steps(moves.subrange(0, n));
        let b = unit_steps(moves.subrange(0, n + 1));
        assert(b.subrange(0, a.len() as int) =~= a);
        assert(unit_steps(moves).subrange(0, a.len() as int) =~= unit_steps(moves).subrange(0, b.len() as int).subrange(0, a.len() as int));
    }
}

proof fn lemma_trail_push(knots: nat, units: Seq<(int, int)>, done: int)
    requires
        0 <= done < units.len(),
    ensures
        tail_trail(knots, units.subrange(0, done + 1)) == tail_trail(knots, units.subrange(0, done)).push(
            rope_after(knots, units, done + 1).last(),
        ),
{
    assert forall|k: int| 0 <= k <= done + 1 implies #[trigger] rope_after(knots, units.subrange(0, done + 1), k) == rope_after(knots, units, k) by {
        lemma_rope_prefix(knots, units, done + 1, k);
    }
    assert forall|k: int| 0 <= k <= done implies #[trigger] rope_after(knots, units.subrange(0, done), k) == rope_after(knots, units, k) by {
        lemma_rope_prefix(knots, units, done, k);
    }
    assert(tail_trail(knots, units.subrange(0, done + 1)) =~= tail_trail(knots, units.subrange(0, done)).push(
        rope_after(knots, units, done + 1).last(),
    ));
}

proof fn lemma_rope_prefix(knots: nat, units: Seq<(int, int)>, n: int, k: int)
    requires
        0 <= k <= n <= units.len(),
    ensures
        rope_after(knots, units.subrange(0, n), k) == rope_after(knots, units, k),
    decreases k,
{
    if k > 0 {
        lemma_rope_prefix(knots, units, n, k - 1);
    }
}

/// The places the tail of a two-knot rope visits.
pub fn calculate_part1(steps: &Vec<((i32, i32), i32)>) -> (r: usize)
    requires
        unit_steps(steps@).len() < i32::MAX / 2,
        forall|k: int|
            0 <= k < steps.len() ==> -1 <= (#[trigger] steps@[k]).0.0 <= 1 && -1 <= steps@[k].0.1 <= 1,
    ensures
        r == tail_trail(2, unit_steps(steps@)).to_set().len(),
{
    calculate_from(2, steps)
}

/// The places the tail of a ten-knot rope visits.
pub fn calculate_part2(steps: &Vec<((i32, i32), i32)>) -> (r: usize)
    requires
        unit_steps(steps@).len() < i32::MAX / 2,
        forall|k: int|
            0 <= k < steps.len() ==> -1 <= (#[trigger] steps@[k]).0.0 <= 1 && -1 <= steps@[k].0.1 <= 1,
    ensures
        r == tail_trail(10, unit_steps(steps@)).to_set().len(),
{
    calculate_from(10, steps)
}

} // verus!
