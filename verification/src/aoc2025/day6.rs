//! Trash compactor: a worksheet of numbers in columns, each column summed
//! or multiplied as the operator under it says.
use crate::parsing::{digits_from, is_digit, number_at, parse_u64_at};
use vstd::prelude::*;

verus! {

/// The worksheet: its lines of numbers and, for every problem, its
/// operator with the width of the space after it.
pub struct Input {
    pub lines: Vec<Vec<u8>>,
    pub operations: Vec<(char, usize)>,
}

/// A byte of a number line: a space or a digit from 1 to 9.
pub open spec fn sheet_byte(b: u8) -> bool {
    b == 32 || (49 <= b <= 57)
}

/// Every line holds only spaces and the digits 1 to 9.
pub open spec fn sheet_ok(lines: Seq<Seq<u8>>) -> bool {
    forall|l: int, i: int| 0 <= l < lines.len() && 0 <= i < lines[l].len() ==> sheet_byte(#[trigger] lines[l][i])
}

/// `values[0..n]` added up (`+`) or multiplied (anything else).
pub open spec fn combine(op: char, values: Seq<int>, n: int) -> int
    decreases n,
{
    if n <= 0 {
        if op == '+' {
            0
        } else {
            1
        }
    } else if op == '+' {
        combine(op, values, n - 1) + values[n - 1]
    } else {
        combine(op, values, n - 1) * values[n - 1]
    }
}

/// Combining the values stays within a `u64` at every step.
pub open spec fn combine_fits(op: char, values: Seq<int>) -> bool {
    forall|n: int| 0 <= n <= values.len() ==> #[trigger] combine(op, values, n) <= u64::MAX
}

/// The numbers of a line from `i` on: runs of digits between spaces.
pub open spec fn numbers_from(line: Seq<u8>, i: int) -> Seq<int>
    decreases line.len() - i,
{
    if i < 0 || i >= line.len() {
        Seq::empty()
    } else if !is_digit(line[i]) {
        numbers_from(line, i + 1)
    } else {
        proof {
            crate::parsing::lemma_digits_from_bound(line, i + 1);
        }
        seq![number_at(line, i)] + numbers_from(line, i + digits_from(line, i))
    }
}

/// The numbers of a line.
pub open spec fn line_numbers(line: Seq<u8>) -> Seq<int> {
    numbers_from(line, 0)
}

/// The `ix`th number of every line.
pub open spec fn column(lines: Seq<Seq<u8>>, ix: int) -> Seq<int> {
    Seq::new(lines.len(), |l: int| line_numbers(lines[l])[ix])
}

/// The answer of every problem, reading the numbers along the lines.
pub open spec fn row_results(lines: Seq<Seq<u8>>, ops: Seq<(char, usize)>) -> Seq<int> {
    Seq::new(ops.len(), |ix: int| combine(ops[ix].0, column(lines, ix), lines.len() as int))
}

/// Every line has a number, one for every problem, each a `u64`; and every
/// answer and their sum stay within a `u64` at every step.
pub open spec fn rows_ok(lines: Seq<Seq<u8>>, ops: Seq<(char, usize)>) -> bool {
    &&& forall|l: int|
        0 <= l < lines.len() ==> {
            let ns = #[trigger] line_numbers(lines[l]);
            &&& ns.len() >= 1
            &&& ns.len() >= ops.len()
            &&& forall|k: int| 0 <= k < ns.len() ==> ns[k] <= u64::MAX
        }
    &&& forall|ix: int| 0 <= ix < ops.len() ==> combine_fits(ops[ix].0, #[trigger] column(lines, ix))
    &&& combine_fits('+', row_results(lines, ops))
}

proof fn lemma_digits_run(line: Seq<u8>, i: int)
    requires
        0 <= i < line.len(),
        is_digit(line[i]),
    ensures
        1 <= digits_from(line, i) <= line.len() - i,
{
    crate::parsing::lemma_digits_from_bound(line, i + 1);
}

/// The numbers of a line; `None` when it has none or one exceeds `u64`.
fn line_values(line: &[u8]) -> (r: Option<Vec<u64>>)
    ensures
        r is Some <==> line_numbers(line@).len() >= 1 && forall|k: int|
            0 <= k < line_numbers(line@).len() ==> line_numbers(line@)[k] <= u64::MAX,
        r matches Some(vs) ==> vs@.len() == line_numbers(line@).len() && forall|k: int|
            0 <= k < vs.len() ==> vs@[k] == #[trigger] line_numbers(line@)[k],
{
    let mut values: Vec<u64> = Vec::new();
    let mut i: usize = 0;
    while i < line.len()
        invariant
            i <= line.len(),
            line_numbers(line@) == values@.map_values(|v: u64| v as int) + numbers_from(line@, i as int),
        decreases line.len() - i,
    {
        if line[i] >= 48 && line[i] <= 57 {
            proof {
                lemma_digits_run(line@, i as int);
            }
            match parse_u64_at(line, i) {
                Ok((n, v)) => {
                    proof {
                        assert(values@.push(v).map_values(|v: u64| v as int) =~= values@.map_values(|v: u64| v as int)
                            + seq![v as int]);
                    }
                    values.push(v);
                    i = i + n;
                },
                Err(_) => {
                    proof {
                        let pre = values@.map_values(|v: u64| v as int);
                        assert(line_numbers(line@)[pre.len() as int] == number_at(line@, i as int));
                    }
                    return None;
                },
            }
        } else {
            i += 1;
        }
    }
    proof {
        assert(line_numbers(line@) =~= values@.map_values(|v: u64| v as int));
    }
    if values.len() == 0 {
        return None;
    }
    Some(values)
}

/// The lines of the worksheet.
pub open spec fn sheet_lines(input: &Input) -> Seq<Seq<u8>> {
    views(input.lines@)
}

/// The contents of lines.
pub open spec fn views(lines: Seq<Vec<u8>>) -> Seq<Seq<u8>> {
    lines.map_values(|l: Vec<u8>| l@)
}

/// `vs` holds the numbers `ns` of a line, at least `width` of them.
pub open spec fn line_read(vs: Seq<u64>, ns: Seq<int>, width: int) -> bool {
    &&& vs.len() == ns.len()
    &&& ns.len() >= 1
    &&& vs.len() >= width
    &&& forall|k: int| 0 <= k < ns.len() ==> vs[k] == ns[k]
}

/// The sum of the answers, reading every problem's numbers along the lines;
/// `None` when a line has no number or too few, a number exceeds `u64`, or
/// an answer or the sum leaves the `u64` range.
pub fn calculate_part1(input: &Input) -> (r: Option<u64>)
    ensures
        r is Some <==> rows_ok(sheet_lines(input), input.operations@),
        r matches Some(v) ==> v == combine(
            '+',
            row_results(sheet_lines(input), input.operations@),
            input.operations.len() as int,
        ),
{
    let ghost ls = sheet_lines(input);
    let ghost ops = input.operations@;
    let mut numbers: Vec<Vec<u64>> = Vec::new();
    let mut l: usize = 0;
    while l < input.lines.len()
        invariant
            ls == sheet_lines(input),
            l <= input.lines.len(),
            numbers.len() == l,
            forall|m: int|
                0 <= m < l ==> {
                    let ns = #[trigger] line_numbers(ls[m]);
                    &&& ns.len() >= 1
                    &&& numbers@[m]@.len() == ns.len()
                    &&& forall|k: int| 0 <= k < ns.len() ==> numbers@[m]@[k] == ns[k]
                },
        decreases input.lines.len() - l,
    {
        match line_values(&input.lines[l]) {
            Some(vs) => {
                numbers.push(vs);
            },
            None => {
                proof {
                    assert(ls[l as int] == input.lines@[l as int]@);
                }
                return None;
            },
        }
        l += 1;
    }
    proof {
        assert forall|m: int| 0 <= m < numbers.len() implies line_read(numbers@[m]@, #[trigger] line_numbers(ls[m]), 0) by {
            assert(line_numbers(ls[m]).len() >= 1);
        }
    }
    let mut l: usize = 0;
    while l < numbers.len()
        invariant
            ls == sheet_lines(input),
            numbers.len() == ls.len(),
            l <= numbers.len(),
            forall|m: int| 0 <= m < numbers.len() ==> line_read(numbers@[m]@, #[trigger] line_numbers(ls[m]), 0),
            forall|m: int| 0 <= m < l ==> numbers@[m]@.len() >= input.operations.len(),
        decreases numbers.len() - l,
    {
        if numbers[l].len() < input.operations.len() {
            proof {
                assert(line_read(numbers@[l as int]@, line_numbers(ls[l as int]), 0));
            }
            return None;
        }
        l += 1;
    }
    proof {
        assert forall|m: int| 0 <= m < numbers.len() implies line_read(
            numbers@[m]@,
            #[trigger] line_numbers(ls[m]),
            ops.len() as int,
        ) by {
            assert(line_read(numbers@[m]@, line_numbers(ls[m]), 0));
        }
    }
    let mut total: u64 = 0;
    let mut ix: usize = 0;
    while ix < input.operations.len()
        invariant
            ls == sheet_lines(input),
            ops == input.operations@,
            numbers.len() == ls.len(),
            forall|m: int| 0 <= m < numbers.len() ==> line_read(numbers@[m]@, #[trigger] line_numbers(ls[m]), ops.len() as int),
            ix <= ops.len(),
            forall|j: int| 0 <= j < ix ==> combine_fits(ops[j].0, #[trigger] column(ls, j)),
            total == combine('+', row_results(ls, ops), ix as int),
            forall|n: int| 0 <= n <= ix ==> #[trigger] combine('+', row_results(ls, ops), n) <= u64::MAX,
        decreases ops.len() - ix,
    {
        let op = input.operations[ix].0;
        let ghost col = column(ls, ix as int);
        let mut acc: u64 = if op == '+' {
            0
        } else {
            1
        };
        let mut m: usize = 0;
        while m < numbers.len()
            invariant
                ls == sheet_lines(input),
                numbers.len() == ls.len(),
                col == column(ls, ix as int),
                op == ops[ix as int].0,
                ops == input.operations@,
                ix < ops.len(),
                forall|q: int|
                    0 <= q < numbers.len() ==> line_read(numbers@[q]@, #[trigger] line_numbers(ls[q]), ops.len() as int),
                m <= numbers.len(),
                acc == combine(op, col, m as int),
                forall|n: int| 0 <= n <= m ==> #[trigger] combine(op, col, n) <= u64::MAX,
            decreases numbers.len() - m,
        {
            proof {
                assert(line_read(numbers@[m as int]@, line_numbers(ls[m as int]), ops.len() as int));
            }
            let v = numbers[m][ix];
            proof {
                assert(col[m as int] == v);
            }
            let next = if op == '+' {
                acc.checked_add(v)
            } else {
                acc.checked_mul(v)
            };
            match next {
                Some(a) => {
                    acc = a;
                },
                None => {
                    proof {
                        assert(combine(op, col, m + 1) > u64::MAX);
                        assert(!combine_fits(op, column(ls, ix as int)));
                    }
                    return None;
                },
            }
            m += 1;
        }
        proof {
            assert(row_results(ls, ops)[ix as int] == acc);
        }
        match total.checked_add(acc) {
            Some(t) => {
                total = t;
            },
            None => {
                proof {
                    assert(combine('+', row_results(ls, ops), ix + 1) > u64::MAX);
                }
                return None;
            },
        }
        ix += 1;
    }
    Some(total)
}

/// The byte of a line at column `c`; a space past its end.
pub open spec fn byte_at(line: Seq<u8>, c: int) -> u8 {
    if 0 <= c < line.len() {
        line[c]
    } else {
        32
    }
}

/// The number written down column `c` in the first `n` lines: its digits
/// from the top, spaces skipped.
pub open spec fn column_number(lines: Seq<Seq<u8>>, c: int, n: int) -> int
    decreases n,
{
    if n <= 0 {
        0
    } else if byte_at(lines[n - 1], c) == 32 {
        column_number(lines, c, n - 1)
    } else {
        column_number(lines, c, n - 1) * 10 + (byte_at(lines[n - 1], c) - 48)
    }
}

/// The first column of problem `k`: every problem before it takes its
/// width and one separating column.
pub open spec fn block_start(ops: Seq<(char, usize)>, k: int) -> int
    decreases k,
{
    if k <= 0 {
        0
    } else {
        block_start(ops, k - 1) + ops[k - 1].1 + 1
    }
}

/// The numbers of problem `k`, read down its columns.
pub open spec fn block_numbers(lines: Seq<Seq<u8>>, ops: Seq<(char, usize)>, k: int) -> Seq<int> {
    Seq::new(ops[k].1 as nat, |i: int| column_number(lines, block_start(ops, k) + i, lines.len() as int))
}

/// The answer of every problem, reading the numbers down the columns.
pub open spec fn column_results(lines: Seq<Seq<u8>>, ops: Seq<(char, usize)>) -> Seq<int> {
    Seq::new(ops.len(), |k: int| combine(ops[k].0, block_numbers(lines, ops, k), ops[k].1 as int))
}

/// Every column number, every answer and their sum stay within a `u64` at
/// every step.
pub open spec fn columns_ok(lines: Seq<Seq<u8>>, ops: Seq<(char, usize)>) -> bool {
    &&& forall|k: int, i: int, n: int|
        0 <= k < ops.len() && 0 <= i < ops[k].1 && 0 <= n <= lines.len() ==> #[trigger] column_number(
            lines,
            block_start(ops, k) + i,
            n,
        ) <= u64::MAX
    &&& forall|k: int| 0 <= k < ops.len() ==> combine_fits(ops[k].0, #[trigger] block_numbers(lines, ops, k))
    &&& combine_fits('+', column_results(lines, ops))
}

proof fn lemma_block_start_grows(ops: Seq<(char, usize)>, k: int, m: int)
    requires
        0 <= k <= m,
    ensures
        block_start(ops, k) <= block_start(ops, m),
    decreases m - k,
{
    if k < m {
        lemma_block_start_grows(ops, k, m - 1);
    }
}

/// The number down column `c`; `None` when it leaves the `u64` range.
fn read_column(lines: &Vec<Vec<u8>>, c: usize) -> (r: Option<u64>)
    requires
        sheet_ok(views(lines@)),
    ensures
        r is Some <==> forall|n: int|
            0 <= n <= lines.len() ==> #[trigger] column_number(views(lines@), c as int, n)
                <= u64::MAX,
        r matches Some(v) ==> v == column_number(views(lines@), c as int, lines.len() as int),
{
    let ghost ls = views(lines@);
    let mut nr: u64 = 0;
    let mut l: usize = 0;
    while l < lines.len()
        invariant
            ls == views(lines@),
            sheet_ok(ls),
            l <= lines.len(),
            nr == column_number(ls, c as int, l as int),
            forall|n: int| 0 <= n <= l ==> #[trigger] column_number(ls, c as int, n) <= u64::MAX,
        decreases lines.len() - l,
    {
        let b: u8 = if c < lines[l].len() {
            lines[l][c]
        } else {
            32
        };
        proof {
            assert(ls[l as int] == lines@[l as int]@);
            assert(b == byte_at(ls[l as int], c as int));
            if c < lines@[l as int].len() {
                assert(sheet_byte(ls[l as int][c as int]));
            }
        }
        if b != 32 {
            let d = (b - 48) as u64;
            if nr > (u64::MAX - d) / 10 {
                proof {
                    assert(column_number(ls, c as int, l + 1) > u64::MAX);
                }
                return None;
            }
            nr = nr * 10 + d;
        }
        l += 1;
    }
    Some(nr)
}

/// The sum of the answers, reading every problem's numbers down its
/// columns; `None` when a number, an answer or the sum leaves the `u64`
/// range.
pub fn calculate_part2(input: &Input) -> (r: Option<u64>)
    requires
        sheet_ok(sheet_lines(input)),
        block_start(input.operations@, input.operations.len() as int) <= usize::MAX,
    ensures
        r is Some <==> columns_ok(sheet_lines(input), input.operations@),
        r matches Some(v) ==> v == combine(
            '+',
            column_results(sheet_lines(input), input.operations@),
            input.operations.len() as int,
        ),
{
    let ghost ls = sheet_lines(input);
    let ghost ops = input.operations@;
    let mut total: u64 = 0;
    let mut ix: usize = 0;
    let mut k: usize = 0;
    while k < input.operations.len()
        invariant
            ls == sheet_lines(input),
            ops == input.operations@,
            sheet_ok(ls),
            block_start(ops, ops.len() as int) <= usize::MAX,
            k <= ops.len(),
            ix == block_start(ops, k as int),
            forall|j: int, i: int, n: int|
                0 <= j < k && 0 <= i < ops[j].1 && 0 <= n <= ls.len() ==> #[trigger] column_number(
                    ls,
                    block_start(ops, j) + i,
                    n,
                ) <= u64::MAX,
            forall|j: int| 0 <= j < k ==> combine_fits(ops[j].0, #[trigger] block_numbers(ls, ops, j)),
            total == combine('+', column_results(ls, ops), k as int),
            forall|n: int| 0 <= n <= k ==> #[trigger] combine('+', column_results(ls, ops), n) <= u64::MAX,
        decreases ops.len() - k,
    {
        let (op, cnt) = input.operations[k];
        let ghost nums = block_numbers(ls, ops, k as int);
        proof {
            lemma_block_start_grows(ops, k + 1, ops.len() as int);
        }
        let mut acc: u64 = if op == '+' {
            0
        } else {
            1
        };
        let mut i: usize = 0;
        while i < cnt
            invariant
                ls == sheet_lines(input),
                ops == input.operations@,
                sheet_ok(ls),
                k < ops.len(),
                (op, cnt) == ops[k as int],
                nums == block_numbers(ls, ops, k as int),
                block_start(ops, k + 1) <= usize::MAX,
                i <= cnt,
                ix == block_start(ops, k as int) + i,
                forall|j: int, n: int|
                    0 <= j < i && 0 <= n <= ls.len() ==> #[trigger] column_number(
                        ls,
                        block_start(ops, k as int) + j,
                        n,
                    ) <= u64::MAX,
                acc == combine(op, nums, i as int),
                forall|n: int| 0 <= n <= i ==> #[trigger] combine(op, nums, n) <= u64::MAX,
            decreases cnt - i,
        {
            let nr = match read_column(&input.lines, ix) {
                Some(v) => v,
                None => {
                    proof {
                        let n = choose|n: int|
                            0 <= n <= ls.len() && !(#[trigger] column_number(ls, ix as int, n) <= u64::MAX);
                        assert(column_number(ls, block_start(ops, k as int) + i, n) > u64::MAX);
                    }
                    return None;
                },
            };
            proof {
                assert(nums[i as int] == nr);
            }
            ix += 1;
            let next = if op == '+' {
                acc.checked_add(nr)
            } else {
                acc.checked_mul(nr)
            };
            match next {
                Some(a) => {
                    acc = a;
                },
                None => {
                    proof {
                        assert(combine(op, nums, i + 1) > u64::MAX);
                        assert(!combine_fits(op, block_numbers(ls, ops, k as int)));
                    }
                    return None;
                },
            }
            i += 1;
        }
        ix += 1;
        proof {
            assert(column_results(ls, ops)[k as int] == acc);
        }
        match total.checked_add(acc) {
            Some(t) => {
                total = t;
            },
            None => {
                proof {
                    assert(combine('+', column_results(ls, ops), k + 1) > u64::MAX);
                }
                return None;
            },
        }
        k += 1;
    }
    Some(total)
}

/// The length of the run of spaces and newlines from `i`.
pub open spec fn space_run(s: Seq<u8>, i: int) -> int
    decreases s.len() - i,
{
    if 0 <= i < s.len() && (s[i] == 32 || s[i] == 10) {
        1 + space_run(s, i + 1)
    } else {
        0
    }
}

/// The length of the run of number-line bytes from `i`.
pub open spec fn sheet_run(s: Seq<u8>, i: int) -> int
    decreases s.len() - i,
{
    if 0 <= i < s.len() && sheet_byte(s[i]) {
        1 + sheet_run(s, i + 1)
    } else {
        0
    }
}

pub proof fn lemma_runs_nonneg(s: Seq<u8>, i: int)
    ensures
        space_run(s, i) >= 0,
        sheet_run(s, i) >= 0,
        0 <= i <= s.len() ==> space_run(s, i) <= s.len() - i && sheet_run(s, i) <= s.len() - i,
    decreases s.len() - i,
{
    if 0 <= i < s.len() {
        lemma_runs_nonneg(s, i + 1);
    }
}

/// The operator a byte stands for.
pub open spec fn op_char(b: u8) -> char {
    if b == 42 {
        '*'
    } else {
        '+'
    }
}

/// The operators from `i` to the end of the text: each `*` or `+` followed
/// by at least one space or newline, whose count it keeps.
pub open spec fn ops_from(s: Seq<u8>, i: int) -> Option<Seq<(char, usize)>>
    decreases s.len() - i,
{
    if i < 0 || i >= s.len() {
        Some(Seq::empty())
    } else if s[i] == 42 || s[i] == 43 {
        let n = space_run(s, i + 1);
        proof {
            lemma_runs_nonneg(s, i + 1);
        }
        if n == 0 {
            None
        } else {
            match ops_from(s, i + 1 + n) {
                Some(rest) => Some(seq![(op_char(s[i]), n as usize)] + rest),
                None => None,
            }
        }
    } else {
        None
    }
}

/// The worksheet whose first number line starts at `i`: number lines, each
/// ended by a newline, then the operators to the end.
pub open spec fn sheet_from(s: Seq<u8>, i: int) -> Option<(Seq<Seq<u8>>, Seq<(char, usize)>)>
    decreases s.len() - i,
{
    let n = sheet_run(s, i);
    proof {
        lemma_runs_nonneg(s, i);
    }
    if i < 0 || n == 0 || i + n >= s.len() || s[i + n] != 10 {
        None
    } else {
        let line = s.subrange(i, i + n);
        let j = i + n + 1;
        if j < s.len() && sheet_byte(s[j]) {
            match sheet_from(s, j) {
                Some((ls, ops)) => Some((seq![line] + ls, ops)),
                None => None,
            }
        } else {
            match ops_from(s, j) {
                Some(ops) => if ops.len() > 0 {
                    Some((seq![line], ops))
                } else {
                    None
                },
                None => None,
            }
        }
    }
}

proof fn lemma_block_start_cons(x: (char, usize), rest: Seq<(char, usize)>, m: int)
    requires
        0 <= m <= rest.len(),
    ensures
        block_start(seq![x] + rest, m + 1) == x.1 + 1 + block_start(rest, m),
    decreases m,
{
    let c = seq![x] + rest;
    assert(c[0] == x);
    assert(block_start(c, 1) == block_start(c, 0) + c[0].1 + 1);
    if m > 0 {
        lemma_block_start_cons(x, rest, m - 1);
        assert(c[m] == rest[m - 1]);
        assert(block_start(c, m + 1) == block_start(c, m) + c[m].1 + 1);
        assert(block_start(rest, m) == block_start(rest, m - 1) + rest[m - 1].1 + 1);
    }
}

/// The operators from `i` on take up the rest of the text: each its own
/// byte and its spaces.
proof fn lemma_ops_width(s: Seq<u8>, i: int)
    requires
        0 <= i <= s.len(),
        s.len() <= usize::MAX,
        ops_from(s, i) is Some,
    ensures
        block_start(ops_from(s, i)->0, ops_from(s, i)->0.len() as int) == s.len() - i,
    decreases s.len() - i,
{
    if i < s.len() {
        let n = space_run(s, i + 1);
        lemma_runs_nonneg(s, i + 1);
        lemma_ops_width(s, i + 1 + n);
        let rest = ops_from(s, i + 1 + n)->0;
        lemma_block_start_cons((op_char(s[i]), n as usize), rest, rest.len() as int);
    }
}

fn space_len(s: &[u8], i: usize) -> (r: usize)
    requires
        i <= s.len(),
    ensures
        r == space_run(s@, i as int),
        i + r <= s.len(),
{
    let mut j = i;
    while j < s.len() && (s[j] == 32 || s[j] == 10)
        invariant
            i <= j <= s.len(),
            space_run(s@, i as int) == (j - i) + space_run(s@, j as int),
        decreases s.len() - j,
    {
        j += 1;
    }
    j - i
}

fn sheet_len(s: &[u8], i: usize) -> (r: usize)
    requires
        i <= s.len(),
    ensures
        r == sheet_run(s@, i as int),
        i + r <= s.len(),
        forall|k: int| i <= k < i + r ==> sheet_byte(#[trigger] s@[k]),
{
    let mut j = i;
    while j < s.len() && (s[j] == 32 || (s[j] >= 49 && s[j] <= 57))
        invariant
            i <= j <= s.len(),
            sheet_run(s@, i as int) == (j - i) + sheet_run(s@, j as int),
            forall|k: int| i <= k < j ==> sheet_byte(#[trigger] s@[k]),
        decreases s.len() - j,
    {
        j += 1;
    }
    j - i
}

/// The operators from `i` to the end, or `None` as `ops_from` says.
fn read_ops(s: &[u8], i: usize) -> (r: Option<Vec<(char, usize)>>)
    requires
        i <= s.len(),
    ensures
        r is Some <==> ops_from(s@, i as int) is Some,
        r matches Some(ops) ==> ops@ == ops_from(s@, i as int)->0,
{
    let mut ops: Vec<(char, usize)> = Vec::new();
    let mut p = i;
    while p < s.len()
        invariant
            i <= p <= s.len(),
            ops_from(s@, i as int) == match ops_from(s@, p as int) {
                Some(rest) => Some(ops@ + rest),
                None => None::<Seq<(char, usize)>>,
            },
        decreases s.len() - p,
    {
        let b = s[p];
        if b != 42 && b != 43 {
            return None;
        }
        let n = space_len(s, p + 1);
        if n == 0 {
            return None;
        }
        let c = if b == 42 {
            '*'
        } else {
            '+'
        };
        proof {
            assert(c == op_char(b));
            match ops_from(s@, p + 1 + n) {
                Some(rest) => {
                    assert(ops@.push((c, n)) + rest =~= ops@ + (seq![(c, n)] + rest));
                },
                None => {},
            }
        }
        ops.push((c, n));
        p = p + 1 + n;
    }
    proof {
        assert(ops@ + Seq::<(char, usize)>::empty() =~= ops@);
    }
    Some(ops)
}

/// The worksheet of a text: number lines of spaces and the digits 1 to 9,
/// each ended by a newline, then the operators, each followed by the
/// spaces and newlines up to the next; `None` when the text is not one.
pub fn parse_input(input: &[u8]) -> (r: Option<Input>)
    ensures
        r is Some <==> sheet_from(input@, 0) is Some,
        r matches Some(inp) ==> sheet_from(input@, 0) == Some((sheet_lines(&inp), inp.operations@)),
        r matches Some(inp) ==> sheet_ok(sheet_lines(&inp)),
        r matches Some(inp) ==> block_start(inp.operations@, inp.operations.len() as int) <= input.len(),
{
    let ghost s = input@;
    let mut lines: Vec<Vec<u8>> = Vec::new();
    let mut i: usize = 0;
    loop
        invariant
            s == input@,
            i <= input.len(),
            sheet_from(s, 0) == match sheet_from(s, i as int) {
                Some((ls, ops)) => Some((views(lines@) + ls, ops)),
                None => None::<(Seq<Seq<u8>>, Seq<(char, usize)>)>,
            },
            sheet_ok(views(lines@)),
        decreases input.len() - i,
    {
        let n = sheet_len(input, i);
        if n == 0 || i + n >= input.len() || input[i + n] != 10 {
            return None;
        }
        let mut line: Vec<u8> = Vec::new();
        let mut k: usize = i;
        while k < i + n
            invariant
                s == input@,
                i <= k <= i + n,
                i + n < input.len(),
                line@ == s.subrange(i as int, k as int),
            decreases i + n - k,
        {
            line.push(input[k]);
            k += 1;
        }
        let ghost v0 = views(lines@);
        lines.push(line);
        proof {
            assert(views(lines@) =~= v0.push(s.subrange(i as int, i + n)));
            assert forall|l: int, c: int|
                0 <= l < views(lines@).len() && 0 <= c < views(lines@)[l].len() implies sheet_byte(
                #[trigger] views(lines@)[l][c],
            ) by {
                if l < v0.len() {
                    assert(views(lines@)[l] == v0[l]);
                } else {
                    assert(views(lines@)[l][c] == s[i + c]);
                }
            }
        }
        let j = i + n + 1;
        if j < input.len() && (input[j] == 32 || (input[j] >= 49 && input[j] <= 57)) {
            proof {
                match sheet_from(s, j as int) {
                    Some((ls, ops)) => {
                        assert(v0 + (seq![s.subrange(i as int, i + n)] + ls) =~= views(lines@) + ls);
                    },
                    None => {},
                }
            }
            i = j;
        } else {
            let ops = match read_ops(input, j) {
                Some(ops) => ops,
                None => {
                    return None;
                },
            };
            if ops.len() == 0 {
                return None;
            }
            let r = Input { lines, operations: ops };
            proof {
                assert(v0 + seq![s.subrange(i as int, i + n)] =~= sheet_lines(&r));
                lemma_ops_width(s, j as int);
            }
            return Some(r);
        }
    }
}

} // verus!
