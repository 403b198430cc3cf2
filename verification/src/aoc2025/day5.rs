//! Cafeteria: ranges of fresh ingredient numbers, a blank line, and the
//! numbers of the available ingredients.
use crate::parsing::{digits_from, lemma_digits_from_bound, number_at, parse_u64_at, split_lines, span_view, text_lines};
use vstd::prelude::*;

verus! {

/// The ranges and the ingredients.
pub struct Input {
    pub ranges: Vec<(u64, u64)>,
    pub ingredients: Vec<u64>,
}

/// The text of line `k`.
pub open spec fn line_text(s: Seq<u8>, k: int) -> Seq<u8> {
    let l = text_lines(s)[k];
    s.subrange(l.0, l.0 + l.1)
}

/// A whole line that is one `u64`.
pub open spec fn number_line(t: Seq<u8>) -> Option<u64> {
    if t.len() > 0 && digits_from(t, 0) == t.len() && number_at(t, 0) <= u64::MAX {
        Some(number_at(t, 0) as u64)
    } else {
        None
    }
}

/// A whole line `a-b` of two `u64`s.
pub open spec fn range_line(t: Seq<u8>) -> Option<(u64, u64)> {
    let e = digits_from(t, 0);
    if 0 < e < t.len() && t[e] == 45 && number_line(t.subrange(e + 1, t.len() as int)) is Some && number_at(t, 0)
        <= u64::MAX {
        Some((number_at(t, 0) as u64, number_line(t.subrange(e + 1, t.len() as int))->0))
    } else {
        None
    }
}

/// The text is ranges, one per line, a blank line, and ingredients, one
/// per line, with at least one of each; `b` is the blank line.
pub open spec fn input_ok(s: Seq<u8>, b: int) -> bool {
    let n = text_lines(s).len();
    &&& 1 <= b < n - 1
    &&& text_lines(s)[b].1 == 0
    &&& forall|k: int| 0 <= k < b ==> #[trigger] range_line(line_text(s, k)) is Some
    &&& forall|k: int| b < k < n ==> #[trigger] number_line(line_text(s, k)) is Some
}

fn read_number(t: &[u8]) -> (r: Option<u64>)
    ensures
        r == number_line(t@),
{
    if t.len() == 0 {
        return None;
    }
    proof {
        lemma_digits_from_bound(t@, 0);
    }
    match parse_u64_at(t, 0) {
        Ok((n, v)) => {
            if n == t.len() {
                Some(v)
            } else {
                None
            }
        },
        Err(_) => None,
    }
}

fn read_range(t: &[u8]) -> (r: Option<(u64, u64)>)
    ensures
        r == range_line(t@),
{
    proof {
        lemma_digits_from_bound(t@, 0);
    }
    let (e, a) = match parse_u64_at(t, 0) {
        Ok((n, v)) => (n, v),
        Err(_) => {
            return None;
        },
    };
    if e >= t.len() || t[e] != 45 {
        return None;
    }
    let rest = &t[e + 1..t.len()];
    proof {
        assert(rest@ == t@.subrange(e + 1, t.len() as int));
    }
    match read_number(rest) {
        Some(b) => Some((a, b)),
        None => None,
    }
}

/// The ranges and ingredients of a text; `None` unless it is laid out as
/// `input_ok` says, for some blank line.
pub fn parse_input(input: &[u8]) -> (r: Option<Input>)
    ensures
        r is Some <==> exists|b: int| input_ok(input@, b),
        r matches Some(inp) ==> exists|b: int|
            #![trigger input_ok(input@, b)]
            {
                &&& input_ok(input@, b)
                &&& inp.ranges.len() == b
                &&& inp.ingredients.len() == text_lines(input@).len() - b - 1
                &&& forall|k: int| 0 <= k < b ==> Some(#[trigger] inp.ranges@[k]) == range_line(line_text(input@, k))
                &&& forall|k: int|
                    0 <= k < inp.ingredients.len() ==> Some(#[trigger] inp.ingredients@[k]) == number_line(
                        line_text(input@, b + 1 + k),
                    )
            },
{
    let lines = split_lines(input);
    let ghost tl = text_lines(input@);
    proof {
        assert(span_view(lines@).len() == lines@.len());
    }
    let mut ranges: Vec<(u64, u64)> = Vec::new();
    let mut k: usize = 0;
    while k < lines.len() && lines[k].1 > 0
        invariant
            span_view(lines@) == tl,
            tl == text_lines(input@),
            lines.len() == tl.len(),
            forall|j: int| 0 <= j < lines.len() ==> #[trigger] lines@[j].0 + lines@[j].1 <= input.len(),
            k <= lines.len(),
            ranges.len() == k,
            forall|j: int| 0 <= j < k ==> tl[j].1 > 0,
            forall|j: int| 0 <= j < k ==> Some(#[trigger] ranges@[j]) == range_line(line_text(input@, j)),
        decreases lines.len() - k,
    {
        let (st, l) = lines[k];
        proof {
            assert(tl[k as int] == (st as int, l as int));
        }
        let line = &input[st..st + l];
        proof {
            assert(line@ == line_text(input@, k as int));
        }
        match read_range(line) {
            Some(rg) => {
                ranges.push(rg);
            },
            None => {
                proof {
                    assert forall|b: int| !input_ok(input@, b) by {
                        if input_ok(input@, b) && k < b {
                            assert(range_line(line_text(input@, k as int)) is Some);
                        }
                    }
                }
                return None;
            },
        }
        k += 1;
    }
    let b = k;
    proof {
        if b < lines.len() {
            assert(tl[b as int] == (lines@[b as int].0 as int, lines@[b as int].1 as int));
        }
    }
    if b == 0 || b >= lines.len() - 1 {
        proof {
            assert forall|bb: int| !input_ok(input@, bb) by {
                if input_ok(input@, bb) {
                    if bb < b {
                        assert(tl[bb].1 > 0);
                    }
                    if bb > b && b < lines.len() {
                        assert(range_line(line_text(input@, b as int)) is Some);
                        assert(tl[b as int].1 == 0);
                    }
                }
            }
        }
        return None;
    }
    let mut ingredients: Vec<u64> = Vec::new();
    let mut k: usize = b + 1;
    while k < lines.len()
        invariant
            span_view(lines@) == tl,
            tl == text_lines(input@),
            lines.len() == tl.len(),
            forall|j: int| 0 <= j < lines.len() ==> #[trigger] lines@[j].0 + lines@[j].1 <= input.len(),
            1 <= b,
            b + 1 <= k <= lines.len(),
            tl[b as int].1 == 0,
            ranges.len() == b,
            forall|j: int| 0 <= j < b ==> tl[j].1 > 0,
            forall|j: int| 0 <= j < b ==> Some(#[trigger] ranges@[j]) == range_line(line_text(input@, j)),
            ingredients.len() == k - b - 1,
            forall|j: int|
                0 <= j < ingredients.len() ==> Some(#[trigger] ingredients@[j]) == number_line(
                    line_text(input@, b + 1 + j),
                ),
        decreases lines.len() - k,
    {
        let (st, l) = lines[k];
        proof {
            assert(tl[k as int] == (st as int, l as int));
        }
        let line = &input[st..st + l];
        proof {
            assert(line@ == line_text(input@, k as int));
        }
        match read_number(line) {
            Some(v) => {
                ingredients.push(v);
            },
            None => {
                proof {
                    assert forall|bb: int| !input_ok(input@, bb) by {
                        if input_ok(input@, bb) {
                            if bb < b {
                                assert(tl[bb].1 > 0);
                            }
                            if bb > b {
                                assert(range_line(line_text(input@, b as int)) is Some);
                            }
                            assert(bb == b);
                            assert(number_line(line_text(input@, k as int)) is Some);
                        }
                    }
                }
                return None;
            },
        }
        k += 1;
    }
    proof {
        assert forall|j: int| 0 <= j < b implies #[trigger] range_line(line_text(input@, j)) is Some by {
            assert(Some(ranges@[j]) == range_line(line_text(input@, j)));
        }
        assert forall|j: int| b < j < tl.len() implies #[trigger] number_line(line_text(input@, j)) is Some by {
            assert(Some(ingredients@[j - b - 1]) == number_line(line_text(input@, b + 1 + (j - b - 1))));
        }
        assert(input_ok(input@, b as int));
    }
    Some(Input { ranges, ingredients })
}

/// Some range holds `v`.
pub open spec fn fresh(ranges: Seq<(u64, u64)>, v: u64) -> bool {
    exists|k: int| 0 <= k < ranges.len() && #[trigger] ranges[k].0 <= v && v <= ranges[k].1
}

/// How many of the first `n` ingredients are fresh.
pub open spec fn fresh_count(ranges: Seq<(u64, u64)>, ingredients: Seq<u64>, n: int) -> int
    decreases n,
{
    if n <= 0 {
        0
    } else {
        fresh_count(ranges, ingredients, n - 1) + if fresh(ranges, ingredients[n - 1]) {
            1int
        } else {
            0
        }
    }
}

/// The number of available ingredients that some range holds.
pub fn calculate_part1(input: &Input) -> (r: usize)
    ensures
        r == fresh_count(input.ranges@, input.ingredients@, input.ingredients.len() as int),
{
    let mut count: usize = 0;
    let mut i: usize = 0;
    while i < input.ingredients.len()
        invariant
            i <= input.ingredients.len(),
            count == fresh_count(input.ranges@, input.ingredients@, i as int),
            count <= i,
        decreases input.ingredients.len() - i,
    {
        let v = input.ingredients[i];
        let mut found = false;
        let mut k: usize = 0;
        while k < input.ranges.len()
            invariant
                k <= input.ranges.len(),
                found <==> exists|j: int| 0 <= j < k && #[trigger] input.ranges@[j].0 <= v && v <= input.ranges@[j].1,
            decreases input.ranges.len() - k,
        {
            if input.ranges[k].0 <= v && v <= input.ranges[k].1 {
                found = true;
            }
            k += 1;
        }
        if found {
            count += 1;
        }
        i += 1;
    }
    count
}

/// The count of all fresh ingredient ids over the merged ranges is not
/// worked out: the answer given is always 0.
pub fn calculate_part2(_input: &Input) -> (r: usize)
    ensures
        r == 0,
{
    0
}

} // verus!
