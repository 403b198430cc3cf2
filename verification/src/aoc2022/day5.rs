//! Supply stacks: crates moved between stacks by a crane; the answer is the
//! crate on top of every stack, found by tracing each top back through the
//! moves.
use crate::parsing::{digits_from, lemma_digits_from_bound, number_at, parse_u64_at};
use crate::parsing::{split_lines, span_view, text_lines};
use crate::text::{all_ascii, ascii_chars, ascii_string};
use vstd::prelude::*;

verus! {

/// A move of `count` crates from one stack to another (indices from 0).
#[derive(Copy, Clone, Debug, PartialEq, Eq, Structural)]
pub struct Command {
    pub count: usize,
    pub from_stack_ix: usize,
    pub to_stack_ix: usize,
}

/// A crate's place: its stack and its depth from the top.
#[derive(Copy, Clone, Debug, PartialEq, Eq, Structural)]
pub struct Position {
    pub stack_ix: usize,
    pub char_ix: usize,
}

/// The place a crate had before `command`, given its place after it. When
/// the crane moves crates one at a time (`reversed`), the moved crates end
/// up in reverse order.
pub open spec fn trace_back(p: Position, c: Command, reversed: bool) -> Position {
    if c.from_stack_ix == p.stack_ix {
        Position { stack_ix: p.stack_ix, char_ix: (p.char_ix + c.count) as usize }
    } else if c.to_stack_ix == p.stack_ix {
        if p.char_ix >= c.count {
            Position { stack_ix: p.stack_ix, char_ix: (p.char_ix - c.count) as usize }
        } else if reversed {
            Position { stack_ix: c.from_stack_ix, char_ix: (c.count - (p.char_ix + 1)) as usize }
        } else {
            Position { stack_ix: c.from_stack_ix, char_ix: p.char_ix }
        }
    } else {
        p
    }
}

/// The place traced back through the first `n` commands, which are the
/// moves latest first.
pub open spec fn trace_all(p: Position, commands: Seq<Command>, n: int, reversed: bool) -> Position
    decreases n,
{
    if n <= 0 {
        p
    } else {
        trace_back(trace_all(p, commands, n - 1, reversed), commands[n - 1], reversed)
    }
}

/// The top of stack `i`.
pub open spec fn start_of(i: int) -> Position {
    Position { stack_ix: i as usize, char_ix: 0 }
}

/// No depth on the way overflows `usize`: where a move takes crates from
/// the traced crate's stack, its depth plus the count still fits.
pub open spec fn trace_fits(p: Position, commands: Seq<Command>, reversed: bool) -> bool {
    forall|n: int|
        0 <= n < commands.len() && commands[n].from_stack_ix == trace_all(p, commands, n, reversed).stack_ix
            ==> #[trigger] trace_all(p, commands, n, reversed).char_ix + commands[n].count <= usize::MAX
}

/// The stacks, each listed from its top, after the crane makes move `c`:
/// the top `count` crates of the source stack go onto the target stack, in
/// reverse order when they are moved one at a time.
pub open spec fn crane_move(stacks: Seq<Seq<u8>>, c: Command, reversed: bool) -> Seq<Seq<u8>> {
    let from = c.from_stack_ix as int;
    let to = c.to_stack_ix as int;
    let n = c.count as int;
    let moved = stacks[from].take(n);
    let placed = if reversed {
        Seq::new(n as nat, |k: int| moved[n - 1 - k])
    } else {
        moved
    };
    stacks.update(from, stacks[from].skip(n)).update(to, placed + stacks[to])
}

/// The crane can make move `c`: two different stacks that exist, and the
/// source holds at least `count` crates.
pub open spec fn move_ok(stacks: Seq<Seq<u8>>, c: Command) -> bool {
    &&& c.from_stack_ix < stacks.len()
    &&& c.to_stack_ix < stacks.len()
    &&& c.from_stack_ix != c.to_stack_ix
    &&& c.count <= stacks[c.from_stack_ix as int].len() <= usize::MAX
}

/// The stacks once the moves `commands[n..]` have been made; the list holds
/// the latest move first, so they run from its end.
pub open spec fn run_from(stacks: Seq<Seq<u8>>, commands: Seq<Command>, n: int, reversed: bool) -> Seq<Seq<u8>>
    decreases commands.len() - n,
{
    if n < 0 || n >= commands.len() {
        stacks
    } else {
        crane_move(run_from(stacks, commands, n + 1, reversed), commands[n], reversed)
    }
}

/// Every move can be made when its turn comes.
pub open spec fn runs_ok(stacks: Seq<Seq<u8>>, commands: Seq<Command>, reversed: bool) -> bool {
    forall|k: int| 0 <= k < commands.len() ==> move_ok(#[trigger] run_from(stacks, commands, k + 1, reversed), commands[k])
}

/// A crate after one move sat, before it, where tracing back leads.
proof fn lemma_trace_back_move(stacks: Seq<Seq<u8>>, c: Command, reversed: bool, p: Position)
    requires
        move_ok(stacks, c),
        p.stack_ix < stacks.len(),
        p.char_ix < crane_move(stacks, c, reversed)[p.stack_ix as int].len(),
    ensures
        c.from_stack_ix == p.stack_ix ==> p.char_ix + c.count <= usize::MAX,
        trace_back(p, c, reversed).stack_ix < stacks.len(),
        trace_back(p, c, reversed).char_ix < stacks[trace_back(p, c, reversed).stack_ix as int].len(),
        crane_move(stacks, c, reversed)[p.stack_ix as int][p.char_ix as int] == stacks[trace_back(
            p,
            c,
            reversed,
        ).stack_ix as int][trace_back(p, c, reversed).char_ix as int],
{
    let after = crane_move(stacks, c, reversed);
    let s = p.stack_ix as int;
    let k = p.char_ix as int;
    let from = c.from_stack_ix as int;
    let to = c.to_stack_ix as int;
    let n = c.count as int;
    if s == from {
        assert(after[s] == stacks[from].skip(n));
    } else if s == to {
        let moved = stacks[from].take(n);
        let placed = if reversed {
            Seq::new(n as nat, |j: int| moved[n - 1 - j])
        } else {
            moved
        };
        assert(after[s] == placed + stacks[to]);
        if k >= n {
            assert(after[s][k] == stacks[to][k - n]);
        } else {
            assert(after[s][k] == placed[k]);
        }
    } else {
        assert(after[s] == stacks[s]);
    }
}

/// Tracing a crate of the final stacks back through the `n` latest moves
/// leads to where it sat before them, without overflowing on the way.
proof fn lemma_trace_run(stacks: Seq<Seq<u8>>, commands: Seq<Command>, reversed: bool, p: Position, n: int)
    requires
        runs_ok(stacks, commands, reversed),
        0 <= n <= commands.len(),
        p.stack_ix < stacks.len(),
        p.char_ix < run_from(stacks, commands, 0, reversed)[p.stack_ix as int].len(),
    ensures
        trace_all(p, commands, n, reversed).stack_ix < stacks.len(),
        trace_all(p, commands, n, reversed).char_ix < run_from(stacks, commands, n, reversed)[trace_all(
            p,
            commands,
            n,
            reversed,
        ).stack_ix as int].len(),
        run_from(stacks, commands, 0, reversed)[p.stack_ix as int][p.char_ix as int] == run_from(
            stacks,
            commands,
            n,
            reversed,
        )[trace_all(p, commands, n, reversed).stack_ix as int][trace_all(p, commands, n, reversed).char_ix as int],
        forall|m: int|
            0 <= m < n && commands[m].from_stack_ix == trace_all(p, commands, m, reversed).stack_ix
                ==> #[trigger] trace_all(p, commands, m, reversed).char_ix + commands[m].count <= usize::MAX,
    decreases n,
{
    lemma_run_len(stacks, commands, reversed, n);
    if n > 0 {
        lemma_trace_run(stacks, commands, reversed, p, n - 1);
        let q = trace_all(p, commands, n - 1, reversed);
        let before = run_from(stacks, commands, n, reversed);
        assert(run_from(stacks, commands, n - 1, reversed) == crane_move(before, commands[n - 1], reversed));
        assert(move_ok(run_from(stacks, commands, n - 1 + 1, reversed), commands[n - 1]));
        lemma_run_len(stacks, commands, reversed, n - 1);
        lemma_trace_back_move(before, commands[n - 1], reversed, q);
    }
}

/// Moves keep the number of stacks.
proof fn lemma_run_len(stacks: Seq<Seq<u8>>, commands: Seq<Command>, reversed: bool, n: int)
    requires
        runs_ok(stacks, commands, reversed),
        0 <= n <= commands.len(),
    ensures
        run_from(stacks, commands, n, reversed).len() == stacks.len(),
    decreases commands.len() - n,
{
    if n < commands.len() {
        lemma_run_len(stacks, commands, reversed, n + 1);
        assert(move_ok(run_from(stacks, commands, n + 1, reversed), commands[n]));
    }
}

/// Tracing the top of a stack back through all the moves finds, in the
/// starting stacks, the crate that running the crane leaves on top of that
/// stack; and the trace stays within `usize` on the way. With the contract
/// of `calculate`, its letter for stack `i` is that top crate.
pub proof fn lemma_trace_finds_top(stacks: Seq<Seq<u8>>, commands: Seq<Command>, reversed: bool, i: int)
    requires
        runs_ok(stacks, commands, reversed),
        stacks.len() <= usize::MAX,
        0 <= i < stacks.len(),
        run_from(stacks, commands, 0, reversed)[i].len() > 0,
    ensures
        trace_fits(start_of(i), commands, reversed),
        trace_all(start_of(i), commands, commands.len() as int, reversed).stack_ix < stacks.len(),
        trace_all(start_of(i), commands, commands.len() as int, reversed).char_ix < stacks[trace_all(
            start_of(i),
            commands,
            commands.len() as int,
            reversed,
        ).stack_ix as int].len(),
        stacks[trace_all(start_of(i), commands, commands.len() as int, reversed).stack_ix as int][trace_all(
            start_of(i),
            commands,
            commands.len() as int,
            reversed,
        ).char_ix as int] == run_from(stacks, commands, 0, reversed)[i][0],
{
    assert(start_of(i).stack_ix == i && start_of(i).char_ix == 0);
    lemma_trace_run(stacks, commands, reversed, start_of(i), commands.len() as int);
    assert(run_from(stacks, commands, commands.len() as int, reversed) == stacks);
}

impl Position {
    /// The place this crate had before `command`.
    pub fn trace_back_command(self, command: &Command, reversed: bool) -> (r: Position)
        requires
            command.from_stack_ix == self.stack_ix ==> self.char_ix + command.count <= usize::MAX,
        ensures
            r == trace_back(self, *command, reversed),
    {
        let mut p = self;
        if command.from_stack_ix == p.stack_ix {
            p.char_ix = p.char_ix + command.count;
        } else if command.to_stack_ix == p.stack_ix {
            if p.char_ix >= command.count {
                p.char_ix = p.char_ix - command.count;
            } else {
                p.stack_ix = command.from_stack_ix;
                if reversed {
                    p.char_ix = command.count - (p.char_ix + 1);
                }
            }
        }
        p
    }
}

/// The letter of column `ix` in each of the first `n` lines that has one.
pub open spec fn column_letters(lines: Seq<Seq<u8>>, ix: int, n: int) -> Seq<u8>
    decreases n,
{
    if n <= 0 {
        Seq::empty()
    } else {
        let rest = column_letters(lines, ix, n - 1);
        let line = lines[n - 1];
        if 4 * ix + 1 < line.len() && 65 <= line[4 * ix + 1] <= 90 {
            rest.push(line[4 * ix + 1])
        } else {
            rest
        }
    }
}

/// How many pieces a text splits into at the non-overlapping double spaces,
/// found from the left.
pub open spec fn split_count(s: Seq<u8>, i: int) -> int
    decreases s.len() - i,
{
    if i < 0 || i + 1 >= s.len() {
        1
    } else if s[i] == 32 && s[i + 1] == 32 {
        1 + split_count(s, i + 2)
    } else {
        split_count(s, i + 1)
    }
}

/// The stacks drawn by the lines above the moves, top crate first; the last
/// line numbers the stacks, and their count is the number of pieces it
/// splits into at double spaces.
pub fn parse_stacks(lines: &Vec<Vec<u8>>) -> (r: Vec<Vec<u8>>)
    requires
        lines.len() > 0,
    ensures
        r.len() == split_count(lines@.last()@, 0),
        forall|ix: int|
            0 <= ix < r.len() ==> #[trigger] r@[ix]@ == column_letters(
                lines@.map_values(|v: Vec<u8>| v@),
                ix,
                lines.len() as int,
            ),
{
    let ghost lv = lines@.map_values(|v: Vec<u8>| v@);
    let last = &lines[lines.len() - 1];
    let mut count: usize = 1;
    let mut i: usize = 0;
    while last.len() > 0 && i < last.len() - 1
        invariant
            i <= last.len(),
            count <= i + 1,
            split_count(last@, 0) == (count - 1) + split_count(last@, i as int),
        decreases last.len() - i,
    {
        if last[i] == 32 && last[i + 1] == 32 {
            count += 1;
            i += 2;
        } else {
            i += 1;
        }
    }
    let mut stacks: Vec<Vec<u8>> = Vec::new();
    let mut ix: usize = 0;
    while ix < count
        invariant
            ix <= count,
            count <= last.len() + 1,
            stacks.len() == ix,
            lv == lines@.map_values(|v: Vec<u8>| v@),
            forall|j: int| 0 <= j < ix ==> #[trigger] stacks@[j]@ == column_letters(lv, j, lines.len() as int),
        decreases count - ix,
    {
        let mut stack: Vec<u8> = Vec::new();
        let mut k: usize = 0;
        while k < lines.len()
            invariant
                k <= lines.len(),
                ix < count <= last.len() + 1,
                lv == lines@.map_values(|v: Vec<u8>| v@),
                stack@ == column_letters(lv, ix as int, k as int),
            decreases lines.len() - k,
        {
            let line = &lines[k];
            proof {
                assert(lv[k as int] == line@);
            }
            if ix < line.len() / 4 + 1 && 4 * ix + 1 < line.len() {
                let c = line[4 * ix + 1];
                if c >= 65 && c <= 90 {
                    stack.push(c);
                }
            }
            k += 1;
        }
        let ghost before = stacks@;
        stacks.push(stack);
        proof {
            assert forall|j: int| 0 <= j < ix + 1 implies #[trigger] stacks@[j]@ == column_letters(
                lv,
                j,
                lines.len() as int,
            ) by {
                if j < ix {
                    assert(stacks@[j] == before[j]);
                }
            }
        }
        ix += 1;
    }
    stacks
}

/// The crate on top of every stack after the moves, given the moves latest
/// first: each top is traced back to where it stood at the start.
pub fn calculate(stacks: &Vec<Vec<u8>>, commands: &Vec<Command>, reversed: bool) -> (r: String)
    requires
        forall|i: int| 0 <= i < stacks.len() ==> all_ascii(#[trigger] stacks@[i]@),
        forall|i: int|
            0 <= i < stacks.len() ==> #[trigger] trace_fits(
                start_of(i),
                commands@,
                reversed,
            ),
        forall|i: int|
            0 <= i < stacks.len() ==> {
                let p = #[trigger] trace_all(start_of(i), commands@, commands.len() as int, reversed);
                p.stack_ix < stacks.len() && p.char_ix < stacks@[p.stack_ix as int].len()
            },
    ensures
        r@.len() == stacks.len(),
        forall|i: int|
            0 <= i < stacks.len() ==> {
                let p = #[trigger] trace_all(start_of(i), commands@, commands.len() as int, reversed);
                r@[i] == stacks@[p.stack_ix as int]@[p.char_ix as int] as char
            },
{
    let mut out: Vec<u8> = Vec::new();
    let mut stack_ix: usize = 0;
    while stack_ix < stacks.len()
        invariant
            stack_ix <= stacks.len(),
            out.len() == stack_ix,
            all_ascii(out@),
            forall|i: int| 0 <= i < stacks.len() ==> all_ascii(#[trigger] stacks@[i]@),
            forall|i: int|
                0 <= i < stacks.len() ==> #[trigger] trace_fits(
                    start_of(i),
                    commands@,
                    reversed,
                ),
            forall|i: int|
                0 <= i < stacks.len() ==> {
                    let p = #[trigger] trace_all(start_of(i), commands@, commands.len() as int, reversed);
                    p.stack_ix < stacks.len() && p.char_ix < stacks@[p.stack_ix as int].len()
                },
            forall|i: int|
                0 <= i < stack_ix ==> {
                    let p = #[trigger] trace_all(start_of(i), commands@, commands.len() as int, reversed);
                    out@[i] == stacks@[p.stack_ix as int]@[p.char_ix as int]
                },
        decreases stacks.len() - stack_ix,
    {
        let start = Position { stack_ix, char_ix: 0 };
        assert(start == start_of(stack_ix as int));
        let mut pos = start;
        let mut k: usize = 0;
        while k < commands.len()
            invariant
                k <= commands.len(),
                pos == trace_all(start, commands@, k as int, reversed),
                trace_fits(start, commands@, reversed),
            decreases commands.len() - k,
        {
            pos = pos.trace_back_command(&commands[k], reversed);
            k += 1;
        }
        let ghost p = trace_all(start, commands@, commands.len() as int, reversed);
        assert(pos == p);
        let c = stacks[pos.stack_ix][pos.char_ix];
        proof {
            assert(all_ascii(stacks@[p.stack_ix as int]@));
        }
        let ghost before = out@;
        out.push(c);
        proof {
            assert forall|i: int|
                0 <= i < stack_ix + 1 implies {
                    let p = #[trigger] trace_all(start_of(i), commands@, commands.len() as int, reversed);
                    out@[i] == stacks@[p.stack_ix as int]@[p.char_ix as int]
                } by {
                if i < stack_ix {
                    assert(out@[i] == before[i]);
                }
            }
        }
        stack_ix += 1;
    }
    let ghost bytes = out@;
    let r = ascii_string(out);
    r
}

/// A number that fits in `usize` and is at least 1 is written at `i`.
pub open spec fn index_at(s: Seq<u8>, i: int) -> bool {
    digits_from(s, i) > 0 && 1 <= number_at(s, i) <= usize::MAX
}

/// `t` is written at `i` in `s`.
pub open spec fn text_at(s: Seq<u8>, i: int, t: Seq<u8>) -> bool {
    0 <= i && i + t.len() <= s.len() && s.subrange(i, i + t.len()) == t
}

fn has_text(s: &[u8], i: usize, t: &[u8]) -> (r: bool)
    requires
        i <= s.len(),
    ensures
        r == text_at(s@, i as int, t@),
{
    if t.len() > s.len() - i {
        return false;
    }
    let mut k: usize = 0;
    while k < t.len()
        invariant
            k <= t.len(),
            i + t.len() <= s.len(),
            forall|j: int| 0 <= j < k ==> s@[i + j] == t@[j],
        decreases t.len() - k,
    {
        if s[i + k] != t[k] {
            proof {
                assert(s@.subrange(i as int, i + t.len())[k as int] != t@[k as int]);
            }
            return false;
        }
        k += 1;
    }
    proof {
        assert(s@.subrange(i as int, i + t.len()) =~= t@);
    }
    true
}

fn number_at_pos(s: &[u8], i: usize) -> (r: Option<(usize, usize)>)
    requires
        i <= s.len(),
    ensures
        r is Some <==> index_at(s@, i as int),
        r matches Some((v, e)) ==> v == number_at(s@, i as int) && e == i + digits_from(s@, i as int),
{
    proof {
        lemma_digits_from_bound(s@, i as int);
        crate::parsing::lemma_number_at_nonneg(s@, i as int);
    }
    match parse_u64_at(s, i) {
        Ok((n, v)) => {
            if v == 0 || v > usize::MAX as u64 {
                return None;
            }
            Some((v as usize, i + n))
        },
        Err(_) => None,
    }
}

/// The word `move ` and the separators ` from ` and ` to `.
pub open spec fn word_move() -> Seq<u8> {
    seq![109u8, 111, 118, 101, 32]
}

pub open spec fn word_from() -> Seq<u8> {
    seq![32u8, 102, 114, 111, 109, 32]
}

pub open spec fn word_to() -> Seq<u8> {
    seq![32u8, 116, 111, 32]
}

/// Where the parts of `move N from A to B` start when it is written at
/// `i`: the end of `N`, the start and end of `A`, the start of `B`.
pub open spec fn command_parts(s: Seq<u8>, i: int) -> (int, int, int, int) {
    let e1 = i + 5 + digits_from(s, i + 5);
    let p2 = e1 + 6;
    let e2 = p2 + digits_from(s, p2);
    let p3 = e2 + 4;
    (e1, p2, e2, p3)
}

/// `move N from A to B`, with numbers of one or more digits, is written at
/// `i`.
pub open spec fn pattern_at(s: Seq<u8>, i: int) -> bool {
    let (e1, p2, e2, p3) = command_parts(s, i);
    &&& text_at(s, i, word_move())
    &&& digits_from(s, i + 5) > 0
    &&& text_at(s, e1, word_from())
    &&& digits_from(s, p2) > 0
    &&& text_at(s, e2, word_to())
    &&& digits_from(s, p3) > 0
}

/// The first place at or after `i` where the pattern is written.
pub open spec fn first_match(s: Seq<u8>, i: int) -> Option<int>
    decreases s.len() + 1 - i,
{
    if i < 0 || i > s.len() {
        None
    } else if pattern_at(s, i) {
        Some(i)
    } else {
        first_match(s, i + 1)
    }
}

/// The numbers of the match at `i` fit: `N` in `usize`, and the stacks are
/// numbered from 1.
pub open spec fn command_fits(s: Seq<u8>, i: int) -> bool {
    let (e1, p2, e2, p3) = command_parts(s, i);
    &&& number_at(s, i + 5) <= usize::MAX
    &&& index_at(s, p2)
    &&& index_at(s, p3)
}

/// The command of the match at `i`, with stacks counted from 0.
pub open spec fn command_value(s: Seq<u8>, i: int) -> Command {
    let (e1, p2, e2, p3) = command_parts(s, i);
    Command {
        count: number_at(s, i + 5) as usize,
        from_stack_ix: (number_at(s, p2) - 1) as usize,
        to_stack_ix: (number_at(s, p3) - 1) as usize,
    }
}

/// Whether the pattern is written at `i`; the numbers' ends come along.
fn match_at(line: &[u8], i: usize) -> (r: bool)
    requires
        i <= line.len(),
    ensures
        r == pattern_at(line@, i as int),
{
    let kw_move: [u8; 5] = [109, 111, 118, 101, 32];
    let kw_from: [u8; 6] = [32, 102, 114, 111, 109, 32];
    let kw_to: [u8; 4] = [32, 116, 111, 32];
    proof {
        assert(kw_move@ =~= word_move());
        assert(kw_from@ =~= word_from());
        assert(kw_to@ =~= word_to());
    }
    if !has_text(line, i, kw_move.as_slice()) {
        return false;
    }
    let e1 = digit_run_end(line, i + 5);
    if e1 == i + 5 || !has_text(line, e1, kw_from.as_slice()) {
        return false;
    }
    let e2 = digit_run_end(line, e1 + 6);
    if e2 == e1 + 6 || !has_text(line, e2, kw_to.as_slice()) {
        return false;
    }
    let e3 = digit_run_end(line, e2 + 4);
    proof {
        let (c1, c2, c3, c4) = command_parts(line@, i as int);
        assert(c1 == e1);
        assert(c2 == e1 + 6);
        assert(c3 == e2);
        assert(c4 == e2 + 4);
        assert(text_at(line@, i as int, word_move()));
        assert(digits_from(line@, i + 5) > 0);
        assert(text_at(line@, c1, word_from()));
        assert(digits_from(line@, c2) > 0);
        assert(text_at(line@, c3, word_to()));
        assert((e3 > e2 + 4) == (digits_from(line@, c4) > 0));
    }
    e3 > e2 + 4
}

/// The end of the run of digits at `i`.
fn digit_run_end(s: &[u8], i: usize) -> (r: usize)
    requires
        i <= s.len(),
    ensures
        r == i + digits_from(s@, i as int),
        i <= r <= s.len(),
{
    proof {
        lemma_digits_from_bound(s@, i as int);
    }
    let mut j = i;
    while j < s.len() && s[j] >= 48 && s[j] <= 57
        invariant
            i <= j <= s.len(),
            digits_from(s@, i as int) == (j - i) + digits_from(s@, j as int),
        decreases s.len() - j,
    {
        j += 1;
    }
    j
}

impl Command {
    /// Finds the first `move N from A to B` in a line, with stacks numbered
    /// from 1; the command holds them from 0. The numbers of that match must
    /// fit.
    pub fn from_str(line: &[u8]) -> (r: Result<Command, ()>)
        requires
            first_match(line@, 0) matches Some(i) ==> command_fits(line@, i),
        ensures
            first_match(line@, 0) is None ==> r is Err,
            first_match(line@, 0) matches Some(i) ==> r == Ok::<Command, ()>(command_value(line@, i)),
    {
        let mut i: usize = 0;
        while i < line.len()
            invariant
                i <= line.len(),
                first_match(line@, 0) == first_match(line@, i as int),
                first_match(line@, 0) matches Some(m) ==> command_fits(line@, m),
            decreases line.len() + 1 - i,
        {
            if match_at(line, i) {
                proof {
                    lemma_digits_from_bound(line@, i + 5);
                    crate::parsing::lemma_number_at_nonneg(line@, i + 5);
                }
                let count = match parse_u64_at(line, i + 5) {
                    Ok((_, v)) => v as usize,
                    Err(_) => 0,
                };
                let e1 = digit_run_end(line, i + 5);
                let (from, e2) = match number_at_pos(line, e1 + 6) {
                    Some(x) => x,
                    None => (1, 0),
                };
                let (to, _) = match number_at_pos(line, e2 + 4) {
                    Some(x) => x,
                    None => (1, 0),
                };
                return Ok(Command { count, from_stack_ix: from - 1, to_stack_ix: to - 1 });
            }
            i += 1;
        }
        proof {
            assert(!pattern_at(line@, line.len() as int));
            assert(first_match(line@, line.len() + 1) is None);
        }
        Err(())
    }
}

/// The text of line `k`.
pub open spec fn line_at(s: Seq<u8>, k: int) -> Seq<u8> {
    let l = text_lines(s)[k];
    s.subrange(l.0, l.0 + l.1)
}

/// The first blank line at or after `k`, or the number of lines.
pub open spec fn first_blank(s: Seq<u8>, k: int) -> int
    decreases text_lines(s).len() - k,
{
    if k < 0 || k >= text_lines(s).len() || text_lines(s)[k].1 == 0 {
        k
    } else {
        first_blank(s, k + 1)
    }
}

/// The lines that draw the stacks: those before the first blank line.
pub open spec fn stack_lines(s: Seq<u8>) -> Seq<Seq<u8>> {
    Seq::new(first_blank(s, 0) as nat, |k: int| line_at(s, k))
}

/// The commands of lines `from..n`, skipping lines without one, latest
/// first.
pub open spec fn commands_back(s: Seq<u8>, from: int, n: int) -> Seq<Command>
    decreases n - from,
{
    if n <= from {
        Seq::empty()
    } else {
        let rest = commands_back(s, from, n - 1);
        match first_match(line_at(s, n - 1), 0) {
            Some(i) => seq![command_value(line_at(s, n - 1), i)] + rest,
            None => rest,
        }
    }
}

/// The stacks and the moves of a text, the moves latest first: the lines
/// up to the first blank one draw the stacks, and every later line with a
/// move in it gives one. The first line must not be blank, and the numbers
/// of every move must fit.
pub fn parse_input(input: &[u8]) -> (r: (Vec<Vec<u8>>, Vec<Command>))
    requires
        text_lines(input@).len() > 0,
        text_lines(input@)[0].1 > 0,
        forall|k: int|
            first_blank(input@, 0) < k < text_lines(input@).len() ==> (first_match(#[trigger] line_at(input@, k), 0) matches Some(
                i,
            ) ==> command_fits(line_at(input@, k), i)),
    ensures
        r.0.len() == split_count(stack_lines(input@).last(), 0),
        forall|ix: int|
            0 <= ix < r.0.len() ==> #[trigger] r.0@[ix]@ == column_letters(
                stack_lines(input@),
                ix,
                stack_lines(input@).len() as int,
            ),
        r.1@ == commands_back(input@, first_blank(input@, 0) + 1, text_lines(input@).len() as int),
{
    let lines = split_lines(input);
    let ghost tl = text_lines(input@);
    proof {
        assert(span_view(lines@).len() == lines@.len());
        assert(tl[0] == (lines@[0].0 as int, lines@[0].1 as int));
    }
    let mut stack_rows: Vec<Vec<u8>> = Vec::new();
    let mut k: usize = 0;
    while k < lines.len() && lines[k].1 > 0
        invariant
            span_view(lines@) == tl,
            tl == text_lines(input@),
            lines.len() == tl.len(),
            forall|j: int| 0 <= j < lines.len() ==> #[trigger] lines@[j].0 + lines@[j].1 <= input.len(),
            k <= lines.len(),
            first_blank(input@, 0) == first_blank(input@, k as int),
            stack_rows.len() == k,
            forall|j: int| 0 <= j < k ==> (#[trigger] stack_rows@[j])@ == line_at(input@, j),
        decreases lines.len() - k,
    {
        let (st, l) = lines[k];
        proof {
            assert(tl[k as int] == (st as int, l as int));
        }
        let line = &input[st..st + l];
        let mut row: Vec<u8> = Vec::new();
        let mut x: usize = 0;
        while x < l
            invariant
                st + l <= input.len(),
                line@ == input@.subrange(st as int, st + l),
                x <= l,
                row@ == line@.subrange(0, x as int),
            decreases l - x,
        {
            row.push(line[x]);
            x += 1;
        }
        proof {
            assert(row@ =~= line_at(input@, k as int));
        }
        stack_rows.push(row);
        k += 1;
    }
    let b = k;
    proof {
        if b < lines.len() {
            assert(tl[b as int] == (lines@[b as int].0 as int, lines@[b as int].1 as int));
        }
        assert(first_blank(input@, b as int) == b);
        assert(stack_rows@.map_values(|v: Vec<u8>| v@) =~= stack_lines(input@));
    }
    let stacks = parse_stacks(&stack_rows);
    let mut commands: Vec<Command> = Vec::new();
    if b < lines.len() {
        let mut k: usize = b + 1;
        proof {
            assert(commands@ =~= commands_back(input@, b + 1, (b + 1) as int));
        }
        while k < lines.len()
            invariant
                span_view(lines@) == tl,
                tl == text_lines(input@),
                lines.len() == tl.len(),
                forall|j: int| 0 <= j < lines.len() ==> #[trigger] lines@[j].0 + lines@[j].1 <= input.len(),
                b == first_blank(input@, 0),
                b + 1 <= k <= lines.len(),
                commands@ == commands_back(input@, b + 1, k as int),
                forall|j: int|
                    first_blank(input@, 0) < j < text_lines(input@).len() ==> (first_match(
                        #[trigger] line_at(input@, j),
                        0,
                    ) matches Some(i) ==> command_fits(line_at(input@, j), i)),
            decreases lines.len() - k,
        {
            let (st, l) = lines[k];
            proof {
                assert(tl[k as int] == (st as int, l as int));
            }
            let line = &input[st..st + l];
            proof {
                assert(line@ == line_at(input@, k as int));
            }
            let ghost before = commands@;
            match Command::from_str(line) {
                Ok(c) => {
                    commands.insert(0, c);
                    proof {
                        assert(commands@ =~= seq![c] + before);
                    }
                },
                Err(_) => {},
            }
            k += 1;
        }
    }
    (stacks, commands)
}

} // verus!
