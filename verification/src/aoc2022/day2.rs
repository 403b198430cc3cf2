//! Rock, paper, scissors: each line is the opponent's shape (`A`, `B`,
//! `C`) and a second letter (`X`, `Y`, `Z`).
use crate::parsing::{split_lines, span_view, text_lines};
use vstd::prelude::*;

verus! {

/// The score of a round when the second letter is the shape to play.
pub open spec fn score_shape(a: u8, x: u8) -> int {
    if a == 65 && x == 88 {
        4
    } else if a == 65 && x == 89 {
        8
    } else if a == 65 && x == 90 {
        3
    } else if a == 66 && x == 88 {
        1
    } else if a == 66 && x == 89 {
        5
    } else if a == 66 && x == 90 {
        9
    } else if a == 67 && x == 88 {
        7
    } else if a == 67 && x == 89 {
        2
    } else {
        6
    }
}

/// The score of a round when the second letter is the outcome to reach.
pub open spec fn score_outcome(a: u8, x: u8) -> int {
    if a == 65 && x == 88 {
        3
    } else if a == 65 && x == 89 {
        4
    } else if a == 65 && x == 90 {
        8
    } else if a == 66 && x == 88 {
        1
    } else if a == 66 && x == 89 {
        5
    } else if a == 66 && x == 90 {
        9
    } else if a == 67 && x == 88 {
        2
    } else if a == 67 && x == 89 {
        6
    } else {
        7
    }
}

/// Shape `m` beats shape `o`, shapes numbered 0 rock, 1 paper, 2 scissors:
/// paper beats rock, scissors beat paper, rock beats scissors.
pub open spec fn beats(m: int, o: int) -> bool {
    (m == 1 && o == 0) || (m == 2 && o == 1) || (m == 0 && o == 2)
}

/// The points a round's outcome gives the player of `m` against `o`: 6 for
/// a win, 3 for a draw, 0 for a loss.
pub open spec fn outcome_points(m: int, o: int) -> int {
    if beats(m, o) {
        6
    } else if m == o {
        3
    } else {
        0
    }
}

/// With `X`, `Y`, `Z` the shapes rock, paper, scissors to play against the
/// opponent's `A`, `B`, `C`, a round scores the shape (1, 2 or 3) plus the
/// outcome (0, 3 or 6).
pub proof fn lemma_shape_score_rules(a: u8, x: u8)
    requires
        round_ok((a, x)),
    ensures
        score_shape(a, x) == (x - 88 + 1) + outcome_points(x - 88, a - 65),
{
}

/// With `X`, `Y`, `Z` asking to lose, draw or win, a round scores 0, 3 or 6
/// plus the shape (1, 2 or 3) that gives that outcome against the
/// opponent's `A`, `B`, `C`.
pub proof fn lemma_outcome_score_rules(a: u8, x: u8)
    requires
        round_ok((a, x)),
    ensures
        0 <= score_outcome(a, x) - 3 * (x - 88) - 1 <= 2,
        outcome_points(score_outcome(a, x) - 3 * (x - 88) - 1, a - 65) == 3 * (x - 88),
{
}

/// A round is an opponent shape `A`-`C` and a letter `X`-`Z`.
pub open spec fn round_ok(g: (u8, u8)) -> bool {
    65 <= g.0 <= 67 && 88 <= g.1 <= 90
}

/// The total score of the first `n` rounds.
pub open spec fn total(games: Seq<(u8, u8)>, n: int, outcome: bool) -> int
    decreases n,
{
    if n <= 0 {
        0
    } else {
        total(games, n - 1, outcome) + if outcome {
            score_outcome(games[n - 1].0, games[n - 1].1)
        } else {
            score_shape(games[n - 1].0, games[n - 1].1)
        }
    }
}

/// The line at `span` is `A X`: a letter, a space and a letter.
pub open spec fn line_is_round(s: Seq<u8>, span: (int, int)) -> bool {
    span.1 == 3 && s[span.0 + 1] == 32 && round_ok((s[span.0], s[span.0 + 2]))
}

/// Reads one round per line; `None` when a line is not a round.
pub fn parse_input(input: &[u8]) -> (r: Option<Vec<(u8, u8)>>)
    ensures
        r is Some <==> forall|k: int| 0 <= k < text_lines(input@).len() ==> line_is_round(input@, #[trigger] text_lines(input@)[k]),
        r matches Some(games) ==> games.len() == text_lines(input@).len() && forall|k: int|
            0 <= k < games.len() ==> #[trigger] games@[k] == (
                input@[text_lines(input@)[k].0],
                input@[text_lines(input@)[k].0 + 2],
            ),
{
    let lines = split_lines(input);
    let ghost tl = text_lines(input@);
    let mut games: Vec<(u8, u8)> = Vec::new();
    let mut k: usize = 0;
    while k < lines.len()
        invariant
            span_view(lines@) == tl,
            tl == text_lines(input@),
            forall|j: int| 0 <= j < lines.len() ==> #[trigger] lines@[j].0 + lines@[j].1 <= input.len(),
            k <= lines.len(),
            games.len() == k,
            forall|j: int| 0 <= j < k ==> line_is_round(input@, #[trigger] tl[j]),
            forall|j: int| 0 <= j < k ==> #[trigger] games@[j] == (input@[tl[j].0], input@[tl[j].0 + 2]),
        decreases lines.len() - k,
    {
        let (st, l) = lines[k];
        proof {
            assert(tl[k as int] == (st as int, l as int));
        }
        if l != 3 {
            return None;
        }
        let a = input[st];
        let sp = input[st + 1];
        let x = input[st + 2];
        if sp != 32 || a < 65 || a > 67 || x < 88 || x > 90 {
            return None;
        }
        games.push((a, x));
        k += 1;
    }
    Some(games)
}

fn score(a: u8, x: u8, outcome: bool) -> (r: u32)
    ensures
        r == if outcome { score_outcome(a, x) } else { score_shape(a, x) },
        r <= 9,
{
    let table: [u32; 9] = if outcome {
        [3, 4, 8, 1, 5, 9, 2, 6, 7]
    } else {
        [4, 8, 3, 1, 5, 9, 7, 2, 6]
    };
    if a == 65 && x == 88 {
        table[0]
    } else if a == 65 && x == 89 {
        table[1]
    } else if a == 65 && x == 90 {
        table[2]
    } else if a == 66 && x == 88 {
        table[3]
    } else if a == 66 && x == 89 {
        table[4]
    } else if a == 66 && x == 90 {
        table[5]
    } else if a == 67 && x == 88 {
        table[6]
    } else if a == 67 && x == 89 {
        table[7]
    } else {
        table[8]
    }
}

fn total_score(games: &[(u8, u8)], outcome: bool) -> (r: u64)
    requires
        games.len() <= u32::MAX,
    ensures
        r == total(games@, games.len() as int, outcome),
{
    let mut sum: u64 = 0;
    let mut i: usize = 0;
    while i < games.len()
        invariant
            i <= games.len() <= u32::MAX,
            sum == total(games@, i as int, outcome),
            sum <= 9 * i,
        decreases games.len() - i,
    {
        let s = score(games[i].0, games[i].1, outcome);
        sum = sum + s as u64;
        i += 1;
    }
    sum
}

/// The total score when `X`, `Y`, `Z` are the shapes to play.
pub fn calculate_part1(games: &[(u8, u8)]) -> (r: u64)
    requires
        games.len() <= u32::MAX,
    ensures
        r == total(games@, games.len() as int, false),
{
    total_score(games, false)
}

/// The total score when `X`, `Y`, `Z` are the outcomes to reach.
pub fn calculate_part2(games: &[(u8, u8)]) -> (r: u64)
    requires
        games.len() <= u32::MAX,
    ensures
        r == total(games@, games.len() as int, true),
{
    total_score(games, true)
}

} // verus!
