//! Directory sizes from a terminal session: `$ cd name` enters a directory,
//! `$ cd ..` leaves it, and `size name` lines list files.
use crate::parsing::{digits_from, lemma_digits_from_bound, number_at, parse_u64_at, split_lines, span_view, text_lines};
use vstd::prelude::*;

verus! {

/// The lines of a session that matter for the sizes.
#[derive(Copy, Clone, Debug, PartialEq, Eq, Structural)]
pub enum Command {
    CdUp,
    CdDown,
    File(u32),
}

/// The position of the first space in `s`, or its length.
pub open spec fn space_at(s: Seq<u8>, i: int) -> int
    decreases s.len() - i,
{
    if i < 0 || i >= s.len() || s[i] == 32 {
        i
    } else {
        space_at(s, i + 1)
    }
}

/// `s` starts with `t`.
pub open spec fn starts_with(s: Seq<u8>, t: Seq<u8>) -> bool {
    t.len() <= s.len() && s.subrange(0, t.len() as int) == t
}

/// `$ cd ..`, `$ cd `, `$` and `dir `.
pub open spec fn text_cd_up() -> Seq<u8> {
    seq![36u8, 32, 99, 100, 32, 46, 46]
}

pub open spec fn text_cd() -> Seq<u8> {
    seq![36u8, 32, 99, 100, 32]
}

pub open spec fn text_dir() -> Seq<u8> {
    seq![100u8, 105, 114, 32]
}

/// What a line of the session means: `None` for lines that do not matter.
pub open spec fn command_of(s: Seq<u8>) -> Option<Command> {
    if s == text_cd_up() {
        Some(Command::CdUp)
    } else if starts_with(s, text_cd()) {
        Some(Command::CdDown)
    } else if starts_with(s, seq![36u8]) || starts_with(s, text_dir()) {
        None
    } else {
        let e = space_at(s, 0);
        if e < s.len() && digits_from(s, 0) == e && e > 0 && number_at(s, 0) <= u32::MAX {
            Some(Command::File(number_at(s, 0) as u32))
        } else {
            None
        }
    }
}

fn starts(s: &[u8], t: &[u8]) -> (r: bool)
    ensures
        r == starts_with(s@, t@),
{
    if t.len() > s.len() {
        return false;
    }
    let mut k: usize = 0;
    while k < t.len()
        invariant
            k <= t.len() <= s.len(),
            forall|j: int| 0 <= j < k ==> s@[j] == t@[j],
        decreases t.len() - k,
    {
        if s[k] != t[k] {
            proof {
                assert(s@.subrange(0, t.len() as int)[k as int] != t@[k as int]);
            }
            return false;
        }
        k += 1;
    }
    proof {
        assert(s@.subrange(0, t.len() as int) =~= t@);
    }
    true
}

impl Command {
    /// Reads a line of the session.
    pub fn from_str(line: &[u8]) -> (r: Result<Command, ()>)
        ensures
            command_of(line@) matches Some(c) ==> r == Ok::<Command, ()>(c),
            command_of(line@) is None ==> r is Err,
    {
        let cd_up: [u8; 7] = [36, 32, 99, 100, 32, 46, 46];
        let cd: [u8; 5] = [36, 32, 99, 100, 32];
        let dollar: [u8; 1] = [36];
        let dir: [u8; 4] = [100, 105, 114, 32];
        proof {
            assert(cd_up@ =~= text_cd_up());
            assert(cd@ =~= text_cd());
            assert(dollar@ =~= seq![36u8]);
            assert(dir@ =~= text_dir());
        }
        if line.len() == 7 && starts(line, cd_up.as_slice()) {
            proof {
                assert(line@ =~= line@.subrange(0, 7));
            }
            return Ok(Command::CdUp);
        }
        proof {
            if line@ == text_cd_up() {
                assert(line@.subrange(0, 7) =~= text_cd_up());
                assert(starts_with(line@, cd_up@));
            }
        }
        if starts(line, cd.as_slice()) {
            return Ok(Command::CdDown);
        }
        if starts(line, dollar.as_slice()) || starts(line, dir.as_slice()) {
            return Err(());
        }
        let mut e: usize = 0;
        while e < line.len() && line[e] != 32
            invariant
                e <= line.len(),
                space_at(line@, 0) == space_at(line@, e as int),
            decreases line.len() - e,
        {
            e += 1;
        }
        if e >= line.len() {
            return Err(());
        }
        proof {
            lemma_digits_from_bound(line@, 0);
        }
        match parse_u64_at(line, 0) {
            Ok((n, v)) => {
                if n != e || v > 4294967295u64 {
                    return Err(());
                }
                Ok(Command::File(v as u32))
            },
            Err(_) => Err(()),
        }
    }
}

/// The sum of a sequence of sizes.
pub open spec fn size_sum(s: Seq<u32>) -> int
    decreases s.len(),
{
    if s.len() == 0 {
        0
    } else {
        size_sum(s.drop_last()) + s.last()
    }
}

/// The sum of the file sizes among the commands from `i` on.
pub open spec fn files_from(c: Seq<Command>, i: int) -> int
    decreases c.len() - i,
{
    if i < 0 || i >= c.len() {
        0
    } else {
        (match c[i] {
            Command::File(s) => s as int,
            _ => 0int,
        }) + files_from(c, i + 1)
    }
}

/// The open sizes after the innermost directory closes: its size is added to
/// the directory around it.
pub open spec fn after_pop(stack: Seq<u32>) -> Seq<u32> {
    if stack.len() < 2 {
        Seq::empty()
    } else {
        stack.subrange(0, stack.len() - 2).push((stack[stack.len() - 2] + stack.last()) as u32)
    }
}

/// The open sizes after a file of size `s` is listed: it counts for the
/// innermost open directory.
pub open spec fn add_file(stack: Seq<u32>, s: u32) -> Seq<u32> {
    if stack.len() == 0 {
        stack
    } else {
        stack.drop_last().push((stack.last() + s) as u32)
    }
}

/// The sizes of the directories, in the order they close, from command `pos`
/// on with the directories of `stack` open: a `$ cd ..` closes the innermost
/// one, and after the last command the open ones close innermost first. A
/// `$ cd ..` with none open ends the list.
pub open spec fn closed_sizes(c: Seq<Command>, pos: int, stack: Seq<u32>) -> Seq<u32>
    decreases c.len() - pos, stack.len(),
{
    if pos >= c.len() {
        if stack.len() == 0 {
            Seq::empty()
        } else {
            seq![stack.last()] + closed_sizes(c, pos, after_pop(stack))
        }
    } else {
        match c[pos] {
            Command::CdUp => if stack.len() == 0 {
                Seq::empty()
            } else {
                seq![stack.last()] + closed_sizes(c, pos + 1, after_pop(stack))
            },
            Command::CdDown => closed_sizes(c, pos + 1, stack.push(0)),
            Command::File(s) => closed_sizes(c, pos + 1, add_file(stack, s)),
        }
    }
}

/// A walk through the commands that keeps the size of every directory
/// still open, innermost last.
pub struct TraverseWithStack {
    commands: Vec<Command>,
    pos: usize,
    stack: Vec<u32>,
}

proof fn lemma_size_sum_push(s: Seq<u32>, v: u32)
    ensures
        size_sum(s.push(v)) == size_sum(s) + v,
{
    assert(s.push(v).drop_last() =~= s);
}

proof fn lemma_size_sum_nonneg(s: Seq<u32>)
    ensures
        size_sum(s) >= 0,
        s.len() > 0 ==> s.last() <= size_sum(s),
    decreases s.len(),
{
    if s.len() > 0 {
        lemma_size_sum_nonneg(s.drop_last());
    }
}

impl TraverseWithStack {
    /// The sizes of the open directories and the files still to come fit in
    /// a `u32` together.
    pub closed spec fn wf(&self) -> bool {
        &&& self.pos <= self.commands@.len()
        &&& size_sum(self.stack@) + files_from(self.commands@, self.pos as int) <= u32::MAX
    }

    /// The sizes of the open directories.
    pub closed spec fn open_sizes(&self) -> Seq<u32> {
        self.stack@
    }

    /// How many commands were read.
    pub closed spec fn position(&self) -> int {
        self.pos as int
    }

    /// The commands.
    pub closed spec fn spec_commands(&self) -> Seq<Command> {
        self.commands@
    }

    /// The sizes the walk still yields.
    pub closed spec fn remaining(&self) -> Seq<u32> {
        closed_sizes(self.commands@, self.pos as int, self.stack@)
    }

    /// A walk from the first command, with no directory open.
    pub fn new(commands: Vec<Command>) -> (r: Self)
        requires
            files_from(commands@, 0) <= u32::MAX,
        ensures
            r.wf(),
            r.spec_commands() == commands@,
            r.position() == 0,
            r.open_sizes() == Seq::<u32>::empty(),
            r.remaining() == closed_sizes(commands@, 0, Seq::empty()),
    {
        let r = TraverseWithStack { commands, pos: 0, stack: Vec::new() };
        proof {
            assert(r.stack@ =~= Seq::<u32>::empty());
        }
        r
    }

    /// Closes the innermost open directory: its size is returned and added
    /// to the directory around it.
    pub fn pop(&mut self) -> (r: Option<u32>)
        requires
            old(self).wf(),
        ensures
            final(self).wf(),
            final(self).spec_commands() == old(self).spec_commands(),
            final(self).position() == old(self).position(),
            old(self).open_sizes().len() == 0 ==> r is None && final(self).open_sizes() == old(self).open_sizes(),
            old(self).open_sizes().len() == 1 ==> r == Some(old(self).open_sizes()[0]) && final(self).open_sizes()
                == Seq::<u32>::empty(),
            old(self).open_sizes().len() > 1 ==> {
                let s = old(self).open_sizes();
                &&& r == Some(s.last())
                &&& final(self).open_sizes() == s.subrange(0, s.len() - 2).push((s[s.len() - 2] + s.last()) as u32)
            },
    {
        let ghost s = self.stack@;
        let current = match self.stack.pop() {
            Some(c) => c,
            None => {
                return None;
            },
        };
        proof {
            assert(s.drop_last() == self.stack@);
            lemma_size_sum_nonneg(self.stack@);
        }
        let n = self.stack.len();
        if n > 0 {
            let ghost below = self.stack@;
            proof {
                assert(size_sum(s) == size_sum(below) + current);
                assert(below.drop_last() =~= s.subrange(0, s.len() - 2));
                assert(size_sum(below) == size_sum(below.drop_last()) + below.last());
                lemma_size_sum_nonneg(below.drop_last());
                lemma_size_sum_nonneg(below);
                crate::aoc2022::day7::lemma_files_nonneg(self.commands@, self.pos as int);
            }
            let parent = self.stack[n - 1] + current;
            self.stack.set(n - 1, parent);
            proof {
                assert(self.stack@ =~= s.subrange(0, s.len() - 2).push(parent));
                lemma_size_sum_push(s.subrange(0, s.len() - 2), parent);
            }
        } else {
            proof {
                assert(self.stack@ =~= Seq::<u32>::empty());
                crate::aoc2022::day7::lemma_files_nonneg(self.commands@, self.pos as int);
            }
        }
        Some(current)
    }

    /// The size of the next directory to be closed: commands are read until
    /// a `$ cd ..` closes one, and after the last command the open ones close
    /// innermost first.
    pub fn next(&mut self) -> (r: Option<u32>)
        requires
            old(self).wf(),
        ensures
            final(self).wf(),
            final(self).spec_commands() == old(self).spec_commands(),
            r is None ==> final(self).open_sizes().len() == 0,
            r is None && old(self).position() == old(self).spec_commands().len() ==> final(self).position()
                == old(self).position(),
            r is Some ==> 2 * (final(self).spec_commands().len() - final(self).position()) + final(self).open_sizes().len()
                < 2 * (old(self).spec_commands().len() - old(self).position()) + old(self).open_sizes().len(),
            r is None ==> old(self).remaining() == Seq::<u32>::empty(),
            r matches Some(v) ==> old(self).remaining() == seq![v] + final(self).remaining(),
    {
        loop
            invariant
                self.wf(),
                self.spec_commands() == old(self).spec_commands(),
                old(self).position() == old(self).spec_commands().len() ==> self.position() == old(self).position(),
                2 * (self.spec_commands().len() - self.position()) + self.open_sizes().len() < 2 * (
                old(self).spec_commands().len() - old(self).position()) + old(self).open_sizes().len() + 1,
                self.remaining() == old(self).remaining(),
            decreases self.commands.len() - self.pos,
        {
            if self.pos >= self.commands.len() {
                return self.pop();
            }
            let command = self.commands[self.pos];
            let ghost p0 = self.pos as int;
            let ghost sizes0 = size_sum(self.stack@);
            proof {
                lemma_size_sum_nonneg(self.stack@);
                lemma_files_nonneg(self.commands@, self.pos + 1);
                assert(files_from(self.commands@, self.pos as int) == (match self.commands@[self.pos as int] {
                    Command::File(s) => s as int,
                    _ => 0int,
                }) + files_from(self.commands@, self.pos + 1));
            }
            self.pos = self.pos + 1;
            match command {
                Command::CdUp => {
                    return self.pop();
                },
                Command::CdDown => {
                    let ghost s = self.stack@;
                    self.stack.push(0);
                    proof {
                        lemma_size_sum_push(s, 0);
                        assert(self.stack@ =~= s.push(0));
                        assert(files_from(self.commands@, p0) == files_from(self.commands@, p0 + 1));
                    }
                },
                Command::File(file_size) => {
                    proof {
                        assert(files_from(self.commands@, p0) == file_size + files_from(self.commands@, p0 + 1));
                    }
                    let n = self.stack.len();
                    if n > 0 {
                        let ghost s = self.stack@;
                        proof {
                            assert(size_sum(s) == size_sum(s.drop_last()) + s.last());
                            lemma_size_sum_nonneg(s.drop_last());
                        }
                        let v = self.stack[n - 1] + file_size;
                        self.stack.set(n - 1, v);
                        proof {
                            assert(self.stack@ =~= s.drop_last().push(v));
                            lemma_size_sum_push(s.drop_last(), v);
                        }
                    }
                },
            }
        }
    }
}

proof fn lemma_files_nonneg(c: Seq<Command>, i: int)
    ensures
        files_from(c, i) >= 0,
    decreases c.len() - i,
{
    if 0 <= i < c.len() {
        lemma_files_nonneg(c, i + 1);
    }
}

/// The commands from `pos` on never leave the outermost of `depth` open
/// directories: a `$ cd ..` always finds another directory around.
pub open spec fn stays_inside(c: Seq<Command>, pos: int, depth: int) -> bool
    decreases c.len() - pos,
{
    if pos < 0 || pos >= c.len() {
        true
    } else {
        match c[pos] {
            Command::CdUp => depth >= 2 && stays_inside(c, pos + 1, depth - 1),
            Command::CdDown => stays_inside(c, pos + 1, depth + 1),
            Command::File(_) => stays_inside(c, pos + 1, depth),
        }
    }
}

/// How many directories the commands from `pos` on enter.
pub open spec fn entered(c: Seq<Command>, pos: int) -> int
    decreases c.len() - pos,
{
    if pos < 0 || pos >= c.len() {
        0
    } else {
        (if c[pos] is CdDown {
            1int
        } else {
            0int
        }) + entered(c, pos + 1)
    }
}

proof fn lemma_entered_nonneg(c: Seq<Command>, pos: int)
    ensures
        entered(c, pos) >= 0,
    decreases c.len() - pos,
{
    if 0 <= pos < c.len() {
        lemma_entered_nonneg(c, pos + 1);
    }
}

proof fn lemma_size_sum_after_pop(stack: Seq<u32>)
    requires
        stack.len() >= 2,
        size_sum(stack) <= u32::MAX,
    ensures
        after_pop(stack).len() == stack.len() - 1,
        size_sum(after_pop(stack)) == size_sum(stack),
{
    let n = stack.len() as int;
    let base = stack.subrange(0, n - 2);
    assert(stack =~= base.push(stack[n - 2]).push(stack[n - 1]));
    lemma_size_sum_push(base, stack[n - 2]);
    lemma_size_sum_push(base.push(stack[n - 2]), stack[n - 1]);
    lemma_size_sum_nonneg(base);
    lemma_size_sum_push(base, (stack[n - 2] + stack[n - 1]) as u32);
}

proof fn lemma_size_sum_add_file(stack: Seq<u32>, f: u32)
    requires
        stack.len() >= 1,
        size_sum(stack) + f <= u32::MAX,
    ensures
        add_file(stack, f).len() == stack.len(),
        size_sum(add_file(stack, f)) == size_sum(stack) + f,
{
    let n = stack.len() as int;
    let base = stack.drop_last();
    assert(stack =~= base.push(stack[n - 1]));
    lemma_size_sum_push(base, stack[n - 1]);
    lemma_size_sum_nonneg(base);
    lemma_size_sum_push(base, (stack[n - 1] + f) as u32);
}

/// Every directory is reported once, when it closes: as many sizes as there
/// are directories open and still to enter; and the last one reported, the
/// outermost, holds all the files, those counted in the open directories
/// and those still to come.
pub proof fn lemma_closed_sizes_law(c: Seq<Command>, pos: int, stack: Seq<u32>)
    requires
        0 <= pos,
        stack.len() >= 1,
        stays_inside(c, pos, stack.len() as int),
        size_sum(stack) + files_from(c, pos) <= u32::MAX,
    ensures
        closed_sizes(c, pos, stack).len() == stack.len() + entered(c, pos),
        closed_sizes(c, pos, stack).last() == size_sum(stack) + files_from(c, pos),
    decreases c.len() - pos, stack.len(),
{
    lemma_files_nonneg(c, pos);
    lemma_size_sum_nonneg(stack);
    lemma_entered_nonneg(c, pos + 1);
    if pos >= c.len() {
        if stack.len() == 1 {
            assert(after_pop(stack) =~= Seq::<u32>::empty());
            assert(stack.drop_last() =~= Seq::<u32>::empty());
            assert(size_sum(stack.drop_last()) == 0);
            assert(closed_sizes(c, pos, after_pop(stack)) =~= Seq::<u32>::empty());
            assert(closed_sizes(c, pos, stack) =~= seq![stack.last()]);
        } else {
            lemma_size_sum_after_pop(stack);
            lemma_closed_sizes_law(c, pos, after_pop(stack));
            let rest = closed_sizes(c, pos, after_pop(stack));
            assert(closed_sizes(c, pos, stack) == seq![stack.last()] + rest);
            assert((seq![stack.last()] + rest).last() == rest.last());
        }
    } else {
        lemma_files_nonneg(c, pos + 1);
        match c[pos] {
            Command::CdUp => {
                lemma_size_sum_after_pop(stack);
                lemma_closed_sizes_law(c, pos + 1, after_pop(stack));
                let rest = closed_sizes(c, pos + 1, after_pop(stack));
                assert(closed_sizes(c, pos, stack) == seq![stack.last()] + rest);
                assert((seq![stack.last()] + rest).last() == rest.last());
            },
            Command::CdDown => {
                lemma_size_sum_push(stack, 0);
                lemma_closed_sizes_law(c, pos + 1, stack.push(0));
            },
            Command::File(f) => {
                lemma_size_sum_add_file(stack, f);
                lemma_closed_sizes_law(c, pos + 1, add_file(stack, f));
            },
        }
    }
}

/// The sizes of the directories in the order they are closed.
pub fn directory_sizes(commands: Vec<Command>) -> (r: Vec<u32>)
    requires
        files_from(commands@, 0) <= u32::MAX,
    ensures
        r@ == closed_sizes(commands@, 0, Seq::empty()),
{
    let ghost all = closed_sizes(commands@, 0, Seq::empty());
    let mut walk = TraverseWithStack::new(commands);
    let mut sizes: Vec<u32> = Vec::new();
    loop
        invariant_except_break
            sizes@ + walk.remaining() == all,
        invariant
            walk.wf(),
        ensures
            sizes@ == all,
        decreases 2 * (walk.spec_commands().len() - walk.position()) + walk.open_sizes().len(),
    {
        match walk.next() {
            Some(size) => {
                let ghost before = sizes@;
                sizes.push(size);
                proof {
                    assert(sizes@ + walk.remaining() =~= before + (seq![size] + walk.remaining()));
                }
            },
            None => {
                proof {
                    assert(sizes@ + Seq::<u32>::empty() =~= sizes@);
                }
                break;
            },
        }
    }
    sizes
}

/// The commands of the first `n` lines of a text, skipping the lines that
/// do not matter.
pub open spec fn commands_in(s: Seq<u8>, lines: Seq<(int, int)>, n: int) -> Seq<Command>
    decreases n,
{
    if n <= 0 {
        Seq::empty()
    } else {
        let prev = commands_in(s, lines, n - 1);
        match command_of(s.subrange(lines[n - 1].0, lines[n - 1].0 + lines[n - 1].1)) {
            Some(c) => prev.push(c),
            None => prev,
        }
    }
}

/// The commands of a whole session.
pub open spec fn session_commands(s: Seq<u8>) -> Seq<Command> {
    commands_in(s, text_lines(s), text_lines(s).len() as int)
}

/// Reads the commands of a session, one per line, leaving out the lines
/// that do not matter.
pub fn parse_commands(input: &[u8]) -> (r: Vec<Command>)
    ensures
        r@ == session_commands(input@),
{
    let lines = split_lines(input);
    let ghost tl = text_lines(input@);
    let mut commands: Vec<Command> = Vec::new();
    let mut k: usize = 0;
    while k < lines.len()
        invariant
            span_view(lines@) == tl,
            tl == text_lines(input@),
            forall|j: int| 0 <= j < lines.len() ==> #[trigger] lines@[j].0 + lines@[j].1 <= input.len(),
            k <= lines.len(),
            commands@ == commands_in(input@, tl, k as int),
        decreases lines.len() - k,
    {
        let (st, l) = lines[k];
        proof {
            assert(tl[k as int] == (st as int, l as int));
        }
        let line = &input[st..st + l];
        proof {
            assert(line@ == input@.subrange(st as int, st + l));
        }
        match Command::from_str(line) {
            Ok(c) => {
                commands.push(c);
            },
            Err(_) => {},
        }
        k += 1;
    }
    commands
}

proof fn lemma_files_from_prefix(c: Seq<Command>, i: int)
    requires
        0 <= i,
    ensures
        files_from(c, 0) >= files_from(c, i),
    decreases i,
{
    if i > 0 {
        lemma_files_from_prefix(c, i - 1);
        lemma_files_nonneg(c, i);
        if i - 1 < c.len() {
            assert(files_from(c, i - 1) == (match c[i - 1] {
                Command::File(s) => s as int,
                _ => 0int,
            }) + files_from(c, i));
        }
    }
}

/// Whether the files of the session add up to at most `u32::MAX`.
fn files_fit(commands: &Vec<Command>) -> (r: bool)
    ensures
        r == (files_from(commands@, 0) <= u32::MAX),
{
    let mut acc: u64 = 0;
    let mut i: usize = commands.len();
    while i > 0
        invariant
            i <= commands.len(),
            acc == files_from(commands@, i as int),
            acc <= u32::MAX,
        decreases i,
    {
        let f: u64 = match commands[i - 1] {
            Command::File(s) => s as u64,
            _ => 0,
        };
        proof {
            assert(files_from(commands@, i - 1) == f + files_from(commands@, i as int));
        }
        acc = acc + f;
        i -= 1;
        if acc > 4294967295u64 {
            proof {
                lemma_files_from_prefix(commands@, i as int);
            }
            return false;
        }
    }
    true
}

/// The sizes of the directories of a session, in the order they close;
/// `None` when its files add up to more than a `u32` holds.
pub fn parse_input(input: &[u8]) -> (r: Option<Vec<u32>>)
    ensures
        r is Some <==> files_from(session_commands(input@), 0) <= u32::MAX,
        r matches Some(sizes) ==> sizes@ == closed_sizes(session_commands(input@), 0, Seq::empty()),
{
    let commands = parse_commands(input);
    if !files_fit(&commands) {
        return None;
    }
    Some(directory_sizes(commands))
}

/// The sum of the sizes below 100000 among the first `n`.
pub open spec fn small_sum(sizes: Seq<u32>, n: int) -> int
    decreases n,
{
    if n <= 0 {
        0
    } else {
        small_sum(sizes, n - 1) + if sizes[n - 1] < 100000 {
            sizes[n - 1] as int
        } else {
            0
        }
    }
}

/// The total size of the directories smaller than 100000.
pub fn calculate_part1(sizes: &[u32]) -> (r: u64)
    requires
        sizes.len() <= u32::MAX,
    ensures
        r == small_sum(sizes@, sizes.len() as int),
{
    let mut total: u64 = 0;
    let mut i: usize = 0;
    while i < sizes.len()
        invariant
            i <= sizes.len() <= u32::MAX,
            total == small_sum(sizes@, i as int),
            total <= 100000 * i,
        decreases sizes.len() - i,
    {
        if sizes[i] < 100000 {
            total = total + sizes[i] as u64;
        }
        i += 1;
    }
    total
}

/// The smallest size that is at least the last size less 40000000: the
/// directory to delete so that enough space is free.
pub fn calculate_part2(sizes: &[u32]) -> (r: u32)
    requires
        sizes.len() > 0,
        sizes@.last() >= 40000000,
    ensures
        r >= sizes@.last() - 40000000,
        exists|i: int| 0 <= i < sizes.len() && sizes@[i] == r,
        forall|i: int| 0 <= i < sizes.len() && sizes@[i] >= sizes@.last() - 40000000 ==> r <= sizes@[i],
{
    let min_size = sizes[sizes.len() - 1] - 40000000;
    let mut best = sizes[sizes.len() - 1];
    let mut i: usize = 0;
    while i < sizes.len()
        invariant
            i <= sizes.len(),
            sizes.len() > 0,
            min_size == sizes@.last() - 40000000,
            best >= min_size,
            exists|j: int| 0 <= j < sizes.len() && sizes@[j] == best,
            forall|j: int| 0 <= j < i && sizes@[j] >= min_size ==> best <= sizes@[j],
        decreases sizes.len() - i,
    {
        if sizes[i] >= min_size && sizes[i] < best {
            best = sizes[i];
        }
        i += 1;
    }
    best
}

} // verus!
