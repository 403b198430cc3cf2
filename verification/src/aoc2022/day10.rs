//! Cathode-ray tube: a register changed by `addx` instructions, sampled at
//! every cycle.
use crate::parsing::{parse_i32_text, signed_text, split_lines, span_view, text_lines};
use crate::text::{all_ascii, ascii_chars, ascii_string, int_to_string, signed_decimal_bytes};
use vstd::prelude::*;

verus! {

/// `addx ` and the number after it.
pub open spec fn addx_prefix() -> Seq<u8> {
    seq![97u8, 100, 100, 120, 32]
}

/// The line is an `addx` instruction.
pub open spec fn is_addx(line: Seq<u8>) -> bool {
    line.len() >= 5 && line.subrange(0, 5) == addx_prefix()
}

/// The number an `addx` line adds, when it is an `i32`.
pub open spec fn addx_value(line: Seq<u8>) -> Option<int> {
    let v = signed_text(line.subrange(5, line.len() as int));
    if v is Some && i32::MIN <= v->0 <= i32::MAX {
        v
    } else {
        None
    }
}

/// The register value during every cycle of the first `n` lines, and the
/// value after them: an `addx` takes two cycles and then changes it.
pub open spec fn register_trace(s: Seq<u8>, lines: Seq<(int, int)>, n: int) -> (Seq<int>, int)
    decreases n,
{
    if n <= 0 {
        (Seq::empty(), 1)
    } else {
        let (values, x) = register_trace(s, lines, n - 1);
        let line = s.subrange(lines[n - 1].0, lines[n - 1].0 + lines[n - 1].1);
        if is_addx(line) {
            (values.push(x).push(x), x + addx_value(line)->0)
        } else {
            (values.push(x), x)
        }
    }
}

/// Every `addx` adds an `i32`, and the register stays an `i32`.
pub open spec fn program_ok(s: Seq<u8>) -> bool {
    let lines = text_lines(s);
    &&& forall|k: int|
        0 <= k < lines.len() && #[trigger] is_addx(s.subrange(lines[k].0, lines[k].0 + lines[k].1)) ==> addx_value(
            s.subrange(lines[k].0, lines[k].0 + lines[k].1),
        ) is Some
    &&& forall|k: int|
        0 <= k <= lines.len() ==> i32::MIN <= #[trigger] register_trace(s, lines, k).1 <= i32::MAX
}

/// The register value during every cycle; `None` when an `addx` does not
/// add an `i32` or the register leaves the `i32` range.
pub fn parse_input(input: &[u8]) -> (r: Option<Vec<i32>>)
    ensures
        r is Some <==> program_ok(input@),
        r matches Some(values) ==> values@.map_values(|v: i32| v as int) == register_trace(
            input@,
            text_lines(input@),
            text_lines(input@).len() as int,
        ).0,
{
    let lines = split_lines(input);
    let ghost tl = text_lines(input@);
    let prefix: [u8; 5] = [97, 100, 100, 120, 32];
    proof {
        assert(prefix@ =~= addx_prefix());
    }
    let mut values: Vec<i32> = Vec::new();
    let mut x: i32 = 1;
    let mut k: usize = 0;
    while k < lines.len()
        invariant
            span_view(lines@) == tl,
            tl == text_lines(input@),
            prefix@ == addx_prefix(),
            forall|j: int| 0 <= j < lines.len() ==> #[trigger] lines@[j].0 + lines@[j].1 <= input.len(),
            k <= lines.len(),
            values@.map_values(|v: i32| v as int) == register_trace(input@, tl, k as int).0,
            x == register_trace(input@, tl, k as int).1,
            forall|j: int|
                0 <= j < k && #[trigger] is_addx(input@.subrange(tl[j].0, tl[j].0 + tl[j].1)) ==> addx_value(
                    input@.subrange(tl[j].0, tl[j].0 + tl[j].1),
                ) is Some,
            forall|j: int| 0 <= j <= k ==> i32::MIN <= #[trigger] register_trace(input@, tl, j).1 <= i32::MAX,
        decreases lines.len() - k,
    {
        let (st, l) = lines[k];
        proof {
            assert(tl[k as int] == (st as int, l as int));
        }
        let line = &input[st..st + l];
        proof {
            assert(line@ == input@.subrange(st as int, st + l));
        }
        let ghost v0 = values@;
        values.push(x);
        let addx = l >= 5 && line[0] == prefix[0] && line[1] == prefix[1] && line[2] == prefix[2] && line[3]
            == prefix[3] && line[4] == prefix[4];
        proof {
            if addx {
                assert(line@.subrange(0, 5) =~= addx_prefix());
            }
            if is_addx(line@) {
                assert(line@.subrange(0, 5)[0] == line@[0]);
                assert(line@.subrange(0, 5)[1] == line@[1]);
                assert(line@.subrange(0, 5)[2] == line@[2]);
                assert(line@.subrange(0, 5)[3] == line@[3]);
                assert(line@.subrange(0, 5)[4] == line@[4]);
            }
            assert(addx == is_addx(line@));
        }
        if addx {
            values.push(x);
            let arg = &line[5..l];
            proof {
                assert(arg@ == line@.subrange(5, line@.len() as int));
            }
            let d = match parse_i32_text(arg) {
                Some(d) => d,
                None => {
                    proof {
                        assert(addx_value(line@) is None);
                    }
                    return None;
                },
            };
            let next = (x as i64) + (d as i64);
            if next < i32::MIN as i64 || next > i32::MAX as i64 {
                proof {
                    assert(register_trace(input@, tl, k + 1).1 == next);
                }
                return None;
            }
            x = next as i32;
            proof {
                assert(values@.map_values(|v: i32| v as int) =~= v0.map_values(|v: i32| v as int).push(
                    register_trace(input@, tl, k as int).1,
                ).push(register_trace(input@, tl, k as int).1));
            }
        } else {
            proof {
                assert(values@.map_values(|v: i32| v as int) =~= v0.map_values(|v: i32| v as int).push(
                    register_trace(input@, tl, k as int).1,
                ));
            }
        }
        k += 1;
    }
    proof {
        assert(span_view(lines@).len() == lines@.len());
    }
    Some(values)
}

/// The sum of the signal strengths, cycle number times register value, at
/// the 20th cycle and every 40 after it, among the first `n` cycles.
pub open spec fn signal_sum(values: Seq<i32>, n: int) -> int
    decreases n,
{
    if n <= 0 {
        0
    } else {
        signal_sum(values, n - 1) + if (n - 1) % 40 == 19 {
            n * values[n - 1]
        } else {
            0
        }
    }
}

/// The first `m` sampled strengths added up: cycle `20 + 40 k` times the
/// register value during it, for `k` below `m`.
pub open spec fn sampled_sum(values: Seq<i32>, m: int) -> int
    decreases m,
{
    if m <= 0 {
        0
    } else {
        sampled_sum(values, m - 1) + (40 * (m - 1) + 20) * values[40 * (m - 1) + 19]
    }
}

/// The signal sum over the first `n` cycles takes the strengths at cycles
/// 20, 60, 100, ... up to `n`: as many as `(n + 20) / 40`.
pub proof fn lemma_signal_sum_samples(values: Seq<i32>, n: int)
    requires
        0 <= n,
    ensures
        signal_sum(values, n) == sampled_sum(values, (n + 20) / 40),
    decreases n,
{
    if n > 0 {
        lemma_signal_sum_samples(values, n - 1);
        if (n - 1) % 40 == 19 {
            assert((n + 20) / 40 == (n + 19) / 40 + 1);
            assert(40 * ((n + 20) / 40 - 1) + 19 == n - 1);
        } else {
            assert((n + 20) / 40 == (n + 19) / 40);
        }
    }
}

/// Every sampled strength and every running sum of them fits in an `i32`.
pub open spec fn signal_ok(values: Seq<i32>) -> bool {
    &&& forall|t: int|
        0 <= t < values.len() && t % 40 == 19 ==> i32::MIN <= (t + 1) * #[trigger] values[t] <= i32::MAX
    &&& forall|n: int| 0 <= n <= values.len() ==> i32::MIN <= #[trigger] signal_sum(values, n) <= i32::MAX
}

/// The sum of the signal strengths, in decimal; `None` when a strength or
/// a running sum leaves the `i32` range.
pub fn calculate_part1(values: &[i32]) -> (r: Option<String>)
    requires
        values.len() <= i32::MAX,
    ensures
        r is Some <==> signal_ok(values@),
        r matches Some(text) ==> text@ == ascii_chars(signed_decimal_bytes(signal_sum(values@, values.len() as int))),
{
    let mut total: i64 = 0;
    let mut t: usize = 0;
    while t < values.len()
        invariant
            t <= values.len() <= i32::MAX,
            total == signal_sum(values@, t as int),
            forall|n: int| 0 <= n <= t ==> i32::MIN <= #[trigger] signal_sum(values@, n) <= i32::MAX,
            forall|u: int|
                0 <= u < t && u % 40 == 19 ==> i32::MIN <= (u + 1) * #[trigger] values[u] <= i32::MAX,
        decreases values.len() - t,
    {
        if t % 40 == 19 {
            let x = values[t] as i64;
            proof {
                assert(-0x4000_0000_0000_0000 <= (t + 1) * x <= 0x4000_0000_0000_0000) by (nonlinear_arith)
                    requires
                        0 <= t < 0x8000_0000,
                        -0x8000_0000 <= x < 0x8000_0000;
            }
            let strength = (t as i64 + 1) * x;
            if strength < i32::MIN as i64 || strength > i32::MAX as i64 {
                proof {
                    assert((t + 1) * values@[t as int] == strength);
                    assert(!(i32::MIN <= (t + 1) * values@[t as int] <= i32::MAX));
                }
                return None;
            }
            total = total + strength;
        }
        proof {
            assert(total == signal_sum(values@, t + 1));
        }
        if total < i32::MIN as i64 || total > i32::MAX as i64 {
            proof {
                assert(!(i32::MIN <= signal_sum(values@, t + 1) <= i32::MAX));
            }
            return None;
        }
        t += 1;
    }
    Some(int_to_string(total))
}

/// The pixel drawn at cycle `t` (from 0): lit when the three-wide sprite
/// at register value `x` covers the column.
pub open spec fn pixel(t: int, x: int) -> u8 {
    if -1 <= x - t % 40 <= 1 {
        35
    } else {
        46
    }
}

/// The screen after the first `n` cycles: a line break before every row of
/// 40 pixels.
pub open spec fn screen(values: Seq<i32>, n: int) -> Seq<u8>
    decreases n,
{
    if n <= 0 {
        Seq::empty()
    } else {
        let prev = screen(values, n - 1);
        let with_break = if (n - 1) % 40 == 0 {
            prev.push(10u8)
        } else {
            prev
        };
        with_break.push(pixel(n - 1, values[n - 1] as int))
    }
}

proof fn lemma_screen_ascii(values: Seq<i32>, n: int)
    ensures
        all_ascii(screen(values, n)),
    decreases n,
{
    if n > 0 {
        lemma_screen_ascii(values, n - 1);
    }
}

/// The screen holds the first `n` pixels with a line break before each row
/// of 40: `n` plus one break per started row.
pub proof fn lemma_screen_len(values: Seq<i32>, n: int)
    requires
        0 <= n <= values.len(),
    ensures
        screen(values, n).len() == n + (n + 39) / 40,
    decreases n,
{
    if n > 0 {
        lemma_screen_len(values, n - 1);
    }
}

/// The character drawn for cycle `t` sits after the `t / 40 + 1` line
/// breaks of the rows up to its own, and is `#` exactly when the register
/// value during that cycle, `values[t]`, is within one of the column
/// `t % 40`, `.` otherwise; every row starts with a line break.
pub proof fn lemma_screen_pixels(values: Seq<i32>, n: int)
    requires
        0 <= n <= values.len(),
    ensures
        forall|t: int|
            0 <= t < n ==> #[trigger] screen(values, n)[t + t / 40 + 1] == if -1 <= values[t] - t % 40 <= 1 {
                35u8
            } else {
                46u8
            },
        forall|t: int| 0 <= t < n && t % 40 == 0 ==> #[trigger] screen(values, n)[t + t / 40] == 10u8,
    decreases n,
{
    if n > 0 {
        lemma_screen_pixels(values, n - 1);
        lemma_screen_len(values, n - 1);
        lemma_screen_len(values, n);
        let prev = screen(values, n - 1);
        let cur = screen(values, n);
        let t = n - 1;
        if t % 40 == 0 {
            assert((t + 39) / 40 == t / 40);
        } else {
            assert((t + 39) / 40 == t / 40 + 1);
        }
        assert forall|s: int| 0 <= s < n implies #[trigger] cur[s + s / 40 + 1] == if -1 <= values[s] - s % 40 <= 1 {
            35u8
        } else {
            46u8
        } by {
            if s < t {
                assert(s + s / 40 + 1 < prev.len()) by {
                    assert(s / 40 <= t / 40);
                    if t % 40 == 0 {
                        assert(s / 40 < t / 40 || s / 40 == t / 40);
                    }
                }
                assert(cur[s + s / 40 + 1] == prev[s + s / 40 + 1]);
            }
        }
        assert forall|s: int| 0 <= s < n && s % 40 == 0 implies #[trigger] cur[s + s / 40] == 10u8 by {
            if s < t {
                assert(s / 40 < t / 40 || (s / 40 == t / 40 && s < t));
                assert(cur[s + s / 40] == prev[s + s / 40]);
            }
        }
    }
}

/// The picture the cycles draw, row by row.
pub fn calculate_part2(values: &[i32]) -> (r: String)
    ensures
        r@ == ascii_chars(screen(values@, values.len() as int)),
{
    let mut out: Vec<u8> = Vec::new();
    let mut t: usize = 0;
    while t < values.len()
        invariant
            t <= values.len(),
            out@ == screen(values@, t as int),
        decreases values.len() - t,
    {
        if t % 40 == 0 {
            out.push(10);
        }
        let col = (t % 40) as i64;
        let d = (values[t] as i64) - col;
        if d >= -1 && d <= 1 {
            out.push(35);
        } else {
            out.push(46);
        }
        t += 1;
    }
    proof {
        lemma_screen_ascii(values@, values.len() as int);
    }
    ascii_string(out)
}

} // verus!
