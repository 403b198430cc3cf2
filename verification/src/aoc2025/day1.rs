//! The dial: positions 0 to 99, starting at 50, turned left or right by a
//! number of clicks.
use crate::parsing::{
    digits_from, lemma_digits_from_bound, lemma_number_at_nonneg, number_at, parse_u64_at, split_lines, span_view, text_lines,
    ErrorKind, ParseResult,
};
use vstd::prelude::*;

verus! {

/// A turn of the dial by a number of clicks: negative to the left, positive
/// to the right.
#[derive(Copy, Clone, Debug, PartialEq, Eq, Structural)]
pub struct Turn(pub i64);

/// A turn is written at `i`: `L` or `R`, then a number that fits in `u32`.
pub open spec fn turn_ok(s: Seq<u8>, i: int) -> bool {
    &&& 0 <= i < s.len()
    &&& s[i] == 76 || s[i] == 82
    &&& digits_from(s, i + 1) > 0
    &&& number_at(s, i + 1) <= u32::MAX
}

/// The clicks of the turn written at `i`: negative for `L`.
pub open spec fn turn_value(s: Seq<u8>, i: int) -> int {
    if s[i] == 76 {
        -number_at(s, i + 1)
    } else {
        number_at(s, i + 1)
    }
}

/// The bytes of the line `span` of a text.
pub open spec fn line_bytes(s: Seq<u8>, span: (int, int)) -> Seq<u8> {
    s.subrange(span.0, span.0 + span.1)
}

/// Every line of the text is exactly one turn.
pub open spec fn turns_text_ok(s: Seq<u8>) -> bool {
    forall|k: int|
        0 <= k < text_lines(s).len() ==> {
            let b = #[trigger] line_bytes(s, text_lines(s)[k]);
            turn_ok(b, 0) && 1 + digits_from(b, 1) == b.len()
        }
}

/// The dial's position, before reduction, after the first `k` turns.
pub open spec fn dial_sum(turns: Seq<Turn>, k: int) -> int
    decreases k,
{
    if k <= 0 {
        50
    } else {
        dial_sum(turns, k - 1) + turns[k - 1].0
    }
}

/// The dial's position after the first `k` turns.
pub open spec fn dial_at(turns: Seq<Turn>, k: int) -> int {
    dial_sum(turns, k) % 100
}

/// How many of the first `n` turns leave the dial at 0.
pub open spec fn zero_stops(turns: Seq<Turn>, n: int) -> nat
    decreases n,
{
    if n <= 0 {
        0
    } else {
        zero_stops(turns, n - 1) + if dial_at(turns, n) == 0 {
            1nat
        } else {
            0nat
        }
    }
}

/// How many of the clicks of a turn by `t` from position `p` make the dial
/// point at 0.
pub open spec fn zero_clicks(p: int, t: int) -> nat
    decreases (if t < 0 { -t } else { t }),
{
    if t == 0 {
        0
    } else if t > 0 {
        zero_clicks(p, t - 1) + if (p + t) % 100 == 0 {
            1nat
        } else {
            0nat
        }
    } else {
        zero_clicks(p, t + 1) + if (p + t) % 100 == 0 {
            1nat
        } else {
            0nat
        }
    }
}

/// How many clicks of the first `n` turns make the dial point at 0.
pub open spec fn total_clicks(turns: Seq<Turn>, n: int) -> nat
    decreases n,
{
    if n <= 0 {
        0
    } else {
        total_clicks(turns, n - 1) + zero_clicks(dial_at(turns, n - 1), turns[n - 1].0 as int)
    }
}

/// Counted to the right, the dial passes 0 once per hundred clicks, and once
/// more when the rest reaches 100 from a position other than 0.
pub proof fn lemma_zero_clicks_right(p: int, t: int)
    requires
        0 <= p < 100,
        t >= 0,
    ensures
        zero_clicks(p, t) == t / 100 + if p > 0 && p + t % 100 >= 100 {
            1int
        } else {
            0int
        },
    decreases t,
{
    if t > 0 {
        lemma_zero_clicks_right(p, t - 1);
        let q = (t - 1) / 100;
        let r = (t - 1) % 100;
        assert(t - 1 == 100 * q + r);
        if r < 99 {
            assert(t / 100 == q && t % 100 == r + 1);
            assert((p + t) % 100 == 0 <==> p + r + 1 == 100);
        } else {
            assert(t / 100 == q + 1 && t % 100 == 0);
            assert((p + t) % 100 == 0 <==> p == 0);
        }
    }
}

/// Counted to the left, the dial passes 0 once per hundred clicks, and once
/// more when the rest reaches 0 from a position other than 0.
pub proof fn lemma_zero_clicks_left(p: int, m: int)
    requires
        0 <= p < 100,
        m >= 0,
    ensures
        zero_clicks(p, -m) == m / 100 + if p > 0 && p - m % 100 <= 0 {
            1int
        } else {
            0int
        },
    decreases m,
{
    if m > 0 {
        lemma_zero_clicks_left(p, m - 1);
        let q = (m - 1) / 100;
        let r = (m - 1) % 100;
        assert(m - 1 == 100 * q + r);
        assert(zero_clicks(p, -m) == zero_clicks(p, -m + 1) + if (p - m) % 100 == 0 {
            1nat
        } else {
            0nat
        });
        if r < 99 {
            assert(m / 100 == q && m % 100 == r + 1);
            assert((p - m) % 100 == 0 <==> p - r - 1 == 0);
        } else {
            assert(m / 100 == q + 1 && m % 100 == 0);
            assert((p - m) % 100 == 0 <==> p == 0);
        }
    }
}

impl Turn {
    /// Reads a turn: `L` or `R` (else `OneOf`), then a number of clicks that
    /// fits in `u32` (else `Digit`).
    pub fn parse(input: &[u8]) -> (r: ParseResult<Turn>)
        ensures
            !(input.len() > 0 && (input[0] == 76 || input[0] == 82)) ==> r == Err::<(usize, Turn), ErrorKind>(
                ErrorKind::OneOf,
            ),
            input.len() > 0 && (input[0] == 76 || input[0] == 82) && !turn_ok(input@, 0) ==> r == Err::<
                (usize, Turn),
                ErrorKind,
            >(ErrorKind::Digit),
            turn_ok(input@, 0) ==> r == Ok::<(usize, Turn), ErrorKind>(
                ((1 + digits_from(input@, 1)) as usize, Turn(turn_value(input@, 0) as i64)),
            ),
    {
        if input.len() == 0 || (input[0] != 76 && input[0] != 82) {
            return Err(ErrorKind::OneOf);
        }
        proof {
            lemma_digits_from_bound(input@, 1);
        }
        match parse_u64_at(input, 1) {
            Err(e) => Err(e),
            Ok((n, v)) => {
                assert(n == digits_from(input@, 1) && v == number_at(input@, 1));
                if v > 4294967295u64 {
                    return Err(ErrorKind::Digit);
                }
                let t = if input[0] == 76 {
                    -(v as i64)
                } else {
                    v as i64
                };
                Ok((1 + n, Turn(t)))
            },
        }
    }
}

/// Reads one turn per line; `None` unless every line is exactly one turn.
pub fn parse_turns(input: &[u8]) -> (r: Option<Vec<Turn>>)
    ensures
        r is Some <==> turns_text_ok(input@),
        r matches Some(turns) ==> turns.len() == text_lines(input@).len() && forall|k: int|
            0 <= k < turns.len() ==> #[trigger] turns@[k].0 == turn_value(
                line_bytes(input@, text_lines(input@)[k]),
                0,
            ),
{
    let lines = split_lines(input);
    let ghost tl = text_lines(input@);
    let mut turns: Vec<Turn> = Vec::new();
    let mut k: usize = 0;
    while k < lines.len()
        invariant
            span_view(lines@) == tl,
            tl == text_lines(input@),
            forall|j: int| 0 <= j < lines.len() ==> #[trigger] lines@[j].0 + lines@[j].1 <= input.len(),
            k <= lines.len(),
            turns.len() == k,
            forall|j: int|
                0 <= j < k ==> {
                    let b = #[trigger] line_bytes(input@, tl[j]);
                    turn_ok(b, 0) && 1 + digits_from(b, 1) == b.len()
                },
            forall|j: int| 0 <= j < k ==> #[trigger] turns@[j].0 == turn_value(line_bytes(input@, tl[j]), 0),
        decreases lines.len() - k,
    {
        let (st, l) = lines[k];
        let line = &input[st..st + l];
        proof {
            assert(tl[k as int] == (st as int, l as int));
            assert(line@ == line_bytes(input@, tl[k as int]));
        }
        match Turn::parse(line) {
            Ok((n, t)) => {
                if n != l {
                    proof {
                        assert(!turns_text_ok(input@)) by {
                            assert(line_bytes(input@, tl[k as int]) == line@);
                        }
                    }
                    return None;
                }
                let ghost before = turns@;
                turns.push(t);
                proof {
                    let b = line_bytes(input@, tl[k as int]);
                    assert(b == line@);
                    assert(turn_ok(b, 0));
                    lemma_number_at_nonneg(b, 1);
                    lemma_digits_from_bound(b, 1);
                    assert(-u32::MAX <= turn_value(b, 0) <= u32::MAX);
                    assert(t.0 == turn_value(b, 0));
                    assert(1 + digits_from(b, 1) == b.len());
                    assert(turns@[k as int] == t);
                    assert forall|j: int| 0 <= j < k + 1 implies #[trigger] turns@[j].0 == turn_value(
                        line_bytes(input@, tl[j]),
                        0,
                    ) by {
                        if j < k {
                            assert(turns@[j] == before[j]);
                        }
                    }
                }
            },
            Err(_) => {
                proof {
                    assert(!turns_text_ok(input@)) by {
                        assert(line_bytes(input@, tl[k as int]) == line@);
                    }
                }
                return None;
            },
        }
        k += 1;
    }
    Some(turns)
}

/// Counts the turns after which the dial is at 0.
pub fn calculate_part1(turns: &[Turn]) -> (r: usize)
    ensures
        r == zero_stops(turns@, turns.len() as int),
{
    let mut pos: i64 = 50;
    let mut count: usize = 0;
    let mut i: usize = 0;
    while i < turns.len()
        invariant
            i <= turns.len(),
            0 <= pos < 100,
            pos == dial_at(turns@, i as int),
            count == zero_stops(turns@, i as int),
            count <= i,
        decreases turns.len() - i,
    {
        let t = turns[i].0;
        let step = t % 100;
        let ghost before = pos;
        pos = pos + step;
        if pos < 0 {
            pos = pos + 100;
        } else if pos >= 100 {
            pos = pos - 100;
        }
        proof {
            let d = dial_sum(turns@, i as int);
            assert(dial_sum(turns@, i + 1) == d + t);
            let k = (t - step) / 100;
            assert((t - step) % 100 == 0);
            vstd::arithmetic::div_mod::lemma_fundamental_div_mod(t - step, 100);
            assert(t == k * 100 + step);
            assert(before == d % 100);
            assert(pos == (d + t) % 100) by {
                assert(d == (d / 100) * 100 + before);
                assert(d + t == (d / 100 + k) * 100 + before + step);
                assert(pos - (before + step) == 0 || pos - (before + step) == 100 || pos - (before + step)
                    == -100);
                vstd::arithmetic::div_mod::lemma_fundamental_div_mod_converse(
                    d + t,
                    100,
                    (d / 100 + k) + (before + step - pos) / 100,
                    pos as int,
                );
            }
        }
        if pos == 0 {
            count += 1;
        }
        i += 1;
    }
    count
}

/// Counts every click, over all turns, at which the dial points at 0.
pub fn calculate_part2(turns: &[Turn]) -> (r: u64)
    requires
        total_clicks(turns@, turns.len() as int) <= u64::MAX,
    ensures
        r == total_clicks(turns@, turns.len() as int),
{
    let mut pos: i64 = 50;
    let mut total: u64 = 0;
    let mut i: usize = 0;
    while i < turns.len()
        invariant
            i <= turns.len(),
            0 <= pos < 100,
            pos == dial_at(turns@, i as int),
            total == total_clicks(turns@, i as int),
            total_clicks(turns@, turns.len() as int) <= u64::MAX,
        decreases turns.len() - i,
    {
        let t = turns[i].0;
        let ghost before = pos;
        let rounds = t / 100;
        let mut clicks: u64 = if rounds < 0 {
            (-rounds) as u64
        } else {
            rounds as u64
        };
        let steps = t % 100;
        if steps != 0 {
            pos += steps;
            if pos < 0 {
                if pos != steps {
                    clicks += 1;
                }
                pos += 100;
            } else if pos >= 100 {
                pos -= 100;
                clicks += 1;
            } else if pos == 0 {
                clicks += 1;
            }
        }
        proof {
            let d = dial_sum(turns@, i as int);
            assert(dial_sum(turns@, i + 1) == d + t);
            assert(t == rounds * 100 + steps);
            assert(before == d % 100);
            assert(pos == (d + t) % 100) by {
                assert(d == (d / 100) * 100 + before);
                assert(d + t == (d / 100 + rounds) * 100 + before + steps);
                assert(pos - (before + steps) == 0 || pos - (before + steps) == 100 || pos - (before + steps)
                    == -100);
                vstd::arithmetic::div_mod::lemma_fundamental_div_mod_converse(
                    d + t,
                    100,
                    (d / 100 + rounds) + (before + steps - pos) / 100,
                    pos as int,
                );
            }
            if t >= 0 {
                lemma_zero_clicks_right(before as int, t as int);
            } else {
                lemma_zero_clicks_left(before as int, -t);
            }
            assert(clicks == zero_clicks(before as int, t as int));
            lemma_total_clicks_monotone(turns@, i + 1, turns.len() as int);
        }
        total = total + clicks;
        i += 1;
    }
    total
}

proof fn lemma_total_clicks_monotone(turns: Seq<Turn>, a: int, b: int)
    requires
        0 <= a <= b,
    ensures
        total_clicks(turns, a) <= total_clicks(turns, b),
    decreases b - a,
{
    if a < b {
        lemma_total_clicks_monotone(turns, a, b - 1);
    }
}

} // verus!
