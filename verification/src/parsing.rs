//! Byte-level parsers. Every parser takes the input bytes and, on success,
//! returns how many bytes it consumed together with the parsed value.
use vstd::prelude::*;

verus! {

/// Why a parser rejected its input.
#[derive(Debug, Clone, Copy, PartialEq, Eq, Structural)]
pub enum ErrorKind {
    /// The input ended before the parser could finish.
    Eof,
    /// The next byte is not one of the accepted bytes.
    OneOf,
    /// The next byte does not match.
    Char,
    /// Fewer characters than required matched.
    TakeWhileMN,
    /// A fixed text was expected.
    Tag,
    /// The lines of a grid do not all have the same length.
    LengthValue,
    /// A number was expected.
    Digit,
    /// A line ending was expected.
    CrLf,
}

/// The result of a parser: the number of bytes consumed and the value.
pub type ParseResult<T> = Result<(usize, T), ErrorKind>;

/// True for the ASCII digits `0` to `9`.
pub open spec fn is_digit(b: u8) -> bool {
    48 <= b <= 57
}

/// The number of digits in the run that starts at `i`.
pub open spec fn digits_from(s: Seq<u8>, i: int) -> int
    decreases s.len() - i,
{
    if i < 0 || i >= s.len() || !is_digit(s[i]) {
        0
    } else {
        1 + digits_from(s, i + 1)
    }
}

/// The value of a sequence of decimal digits.
pub open spec fn decimal(s: Seq<u8>) -> int
    decreases s.len(),
{
    if s.len() == 0 {
        0
    } else {
        decimal(s.drop_last()) * 10 + (s.last() - 48)
    }
}

/// The value of the run of digits that starts at `i`.
pub open spec fn number_at(s: Seq<u8>, i: int) -> int {
    decimal(s.subrange(i, i + digits_from(s, i)))
}

pub proof fn lemma_digits_from_bound(s: Seq<u8>, i: int)
    requires
        0 <= i <= s.len(),
    ensures
        0 <= digits_from(s, i) <= s.len() - i,
    decreases s.len() - i,
{
    if i < s.len() && is_digit(s[i]) {
        lemma_digits_from_bound(s, i + 1);
    }
}

/// Reads an unsigned decimal number at `start`: the whole run of digits
/// there. `Digit` when there is no digit or the value exceeds `u64::MAX`.
pub fn parse_u64_at(input: &[u8], start: usize) -> (r: ParseResult<u64>)
    requires
        start <= input.len(),
    ensures
        digits_from(input@, start as int) == 0 || number_at(input@, start as int) > u64::MAX ==> r == Err::<
            (usize, u64),
            ErrorKind,
        >(ErrorKind::Digit),
        digits_from(input@, start as int) > 0 && number_at(input@, start as int) <= u64::MAX ==> r == Ok::<
            (usize, u64),
            ErrorKind,
        >((digits_from(input@, start as int) as usize, number_at(input@, start as int) as u64)),
        r matches Ok((n, v)) ==> n == digits_from(input@, start as int) && v == number_at(input@, start as int),
{
    let mut value: u64 = 0;
    let mut ix: usize = start;
    let mut overflow = false;
    proof {
        lemma_digits_from_bound(input@, start as int);
        assert(input@.subrange(start as int, start as int) =~= Seq::<u8>::empty());
    }
    while ix < input.len() && input[ix] >= 48 && input[ix] <= 57
        invariant
            start <= ix <= input.len(),
            forall|k: int| start <= k < ix ==> is_digit(#[trigger] input@[k]),
            digits_from(input@, start as int) == (ix - start) + digits_from(input@, ix as int),
            !overflow ==> value == decimal(input@.subrange(start as int, ix as int)),
            overflow ==> decimal(input@.subrange(start as int, ix as int)) > u64::MAX,
        decreases input.len() - ix,
    {
        let d = (input[ix] - 48) as u64;
        proof {
            let t = input@.subrange(start as int, ix + 1);
            assert(t.drop_last() =~= input@.subrange(start as int, ix as int));
            assert(t.last() == input@[ix as int]);
            assert(decimal(input@.subrange(start as int, ix as int)) >= 0) by {
                assert forall|k: int| 0 <= k < ix - start implies is_digit(#[trigger] input@.subrange(start as int, ix as int)[k]) by {
                    assert(input@.subrange(start as int, ix as int)[k] == input@[start + k]);
                }
                lemma_decimal_nonneg(input@.subrange(start as int, ix as int));
            }
        }
        if !overflow {
            if value > (u64::MAX - d) / 10 {
                overflow = true;
            } else {
                value = value * 10 + d;
            }
        }
        ix += 1;
    }
    let n = ix - start;
    proof {
        assert(digits_from(input@, ix as int) == 0);
    }
    if n == 0 || overflow {
        return Err(ErrorKind::Digit);
    }
    Ok((n, value))
}

proof fn lemma_decimal_nonneg(s: Seq<u8>)
    requires
        forall|i: int| 0 <= i < s.len() ==> is_digit(#[trigger] s[i]),
    ensures
        decimal(s) >= 0,
    decreases s.len(),
{
    if s.len() > 0 {
        lemma_decimal_nonneg(s.drop_last());
    }
}

/// The length of the line separator at `j` before `end`: 1 for `\n`, 2 for
/// `\r\n`, 0 when there is none.
pub open spec fn sep_at(s: Seq<u8>, j: int, end: int) -> int {
    if 0 <= j < end && j < s.len() && s[j] == 10 {
        1
    } else if 0 <= j && j + 1 < end && j + 1 < s.len() && s[j] == 13 && s[j + 1] == 10 {
        2
    } else {
        0
    }
}

/// The number of bytes from `i` up to the next separator or `end`.
pub open spec fn piece_len(s: Seq<u8>, i: int, end: int) -> int
    decreases end - i,
{
    if i < 0 || i >= end || sep_at(s, i, end) > 0 {
        0
    } else {
        1 + piece_len(s, i + 1, end)
    }
}

/// The lines of `s[i..end]` as (start, length) pairs, split at `\n` and
/// `\r\n`.
pub open spec fn pieces(s: Seq<u8>, i: int, end: int) -> Seq<(int, int)>
    decreases end - i,
{
    let l = piece_len(s, i, end);
    let e = i + l;
    let k = sep_at(s, e, end);
    if i < 0 || l < 0 || e >= end || k <= 0 {
        seq![(i, l)]
    } else {
        seq![(i, l)] + pieces(s, e + k, end)
    }
}

/// The length of the input without its trailing `\n` bytes.
pub open spec fn trimmed_len(s: Seq<u8>) -> int
    decreases s.len(),
{
    if s.len() > 0 && s.last() == 10 {
        trimmed_len(s.drop_last())
    } else {
        s.len() as int
    }
}

/// The lines of a text: the trailing `\n` bytes are dropped and the rest is
/// split at `\n` and `\r\n`; no lines when nothing is left.
pub open spec fn text_lines(s: Seq<u8>) -> Seq<(int, int)> {
    if trimmed_len(s) == 0 {
        Seq::empty()
    } else {
        pieces(s, 0, trimmed_len(s))
    }
}

/// The lines as integer pairs.
pub open spec fn span_view(v: Seq<(usize, usize)>) -> Seq<(int, int)> {
    v.map_values(|p: (usize, usize)| (p.0 as int, p.1 as int))
}

proof fn lemma_trimmed(s: Seq<u8>)
    ensures
        0 <= trimmed_len(s) <= s.len(),
        trimmed_len(s) > 0 ==> s[trimmed_len(s) - 1] != 10,
        forall|j: int| trimmed_len(s) <= j < s.len() ==> s[j] == 10,
    decreases s.len(),
{
    if s.len() > 0 && s.last() == 10 {
        lemma_trimmed(s.drop_last());
        assert forall|j: int| trimmed_len(s) <= j < s.len() implies s[j] == 10 by {
            if j < s.len() - 1 {
                assert(s.drop_last()[j] == s[j]);
            }
        }
        if trimmed_len(s) > 0 {
            assert(s.drop_last()[trimmed_len(s) - 1] == s[trimmed_len(s) - 1]);
        }
    }
}

/// The length of the input without its trailing `\n` bytes.
fn trim_newlines(input: &[u8]) -> (r: usize)
    ensures
        r == trimmed_len(input@),
{
    let mut n = input.len();
    proof {
        assert(input@.subrange(0, n as int) =~= input@);
    }
    while n > 0 && input[n - 1] == 10
        invariant
            n <= input.len(),
            trimmed_len(input@) == trimmed_len(input@.subrange(0, n as int)),
        decreases n,
    {
        proof {
            assert(input@.subrange(0, n as int).drop_last() =~= input@.subrange(0, n - 1));
        }
        n -= 1;
    }
    proof {
        assert(input@.subrange(0, n as int).len() == n);
        if n > 0 {
            assert(input@.subrange(0, n as int).last() == input@[n - 1]);
        }
    }
    n
}

/// The separator length at `j` before `end`.
fn sep_len(input: &[u8], j: usize, end: usize) -> (r: usize)
    requires
        end <= input.len(),
        j <= end,
    ensures
        r == sep_at(input@, j as int, end as int),
{
    if j < end && input[j] == 10 {
        1
    } else if j < end && j + 1 < end && input[j] == 13 && input[j + 1] == 10 {
        2
    } else {
        0
    }
}

/// Splits the input into its lines, as `text_lines` describes.
pub fn split_lines(input: &[u8]) -> (r: Vec<(usize, usize)>)
    ensures
        span_view(r@) == text_lines(input@),
        forall|k: int| 0 <= k < r.len() ==> #[trigger] r@[k].0 + r@[k].1 <= input.len(),
{
    let end = trim_newlines(input);
    proof {
        lemma_trimmed(input@);
    }
    let mut r: Vec<(usize, usize)> = Vec::new();
    if end == 0 {
        proof {
            assert(span_view(r@) =~= Seq::<(int, int)>::empty());
        }
        return r;
    }
    let mut i: usize = 0;
    loop
        invariant_except_break
            end <= input.len(),
            end > 0,
            i <= end,
            text_lines(input@) == span_view(r@) + pieces(input@, i as int, end as int),
            forall|k: int| 0 <= k < r.len() ==> #[trigger] r@[k].0 + r@[k].1 <= input.len(),
        ensures
            span_view(r@) == text_lines(input@),
            forall|k: int| 0 <= k < r.len() ==> #[trigger] r@[k].0 + r@[k].1 <= input.len(),
        decreases end - i,
    {
        let mut j = i;
        while j < end && sep_len(input, j, end) == 0
            invariant
                i <= j <= end,
                end <= input.len(),
                piece_len(input@, i as int, end as int) == (j - i) + piece_len(input@, j as int, end as int),
            decreases end - j,
        {
            j += 1;
        }
        let k = sep_len(input, j, end);
        let ghost before = r@;
        r.push((i, j - i));
        proof {
            assert(span_view(r@) =~= span_view(before).push((i as int, (j - i) as int)));
            assert forall|m: int| 0 <= m < r.len() implies #[trigger] r@[m].0 + r@[m].1 <= input.len() by {
                if m < before.len() {
                    assert(r@[m] == before[m]);
                }
            }
        }
        if j >= end || k == 0 {
            proof {
                assert(pieces(input@, i as int, end as int) == seq![(i as int, (j - i) as int)]);
                assert(span_view(before) + seq![(i as int, (j - i) as int)] =~= span_view(r@));
            }
            break;
        }
        proof {
            assert(pieces(input@, i as int, end as int) == seq![(i as int, (j - i) as int)] + pieces(
                input@,
                (j + k) as int,
                end as int,
            ));
            assert(span_view(before) + (seq![(i as int, (j - i) as int)] + pieces(input@, (j + k) as int, end as int))
                =~= span_view(r@) + pieces(input@, (j + k) as int, end as int));
        }
        i = j + k;
    }
    r
}

/// A run of digits has a non-negative value.
pub proof fn lemma_number_at_nonneg(s: Seq<u8>, i: int)
    requires
        0 <= i <= s.len(),
    ensures
        number_at(s, i) >= 0,
{
    lemma_digits_from_bound(s, i);
    lemma_digit_run(s, i);
    let t = s.subrange(i, i + digits_from(s, i));
    assert forall|k: int| 0 <= k < t.len() implies is_digit(#[trigger] t[k]) by {
        assert(t[k] == s[i + k]);
    }
    lemma_decimal_nonneg(t);
}

/// The bytes of a run of digits are digits.
pub proof fn lemma_digit_run(s: Seq<u8>, i: int)
    requires
        0 <= i <= s.len(),
    ensures
        forall|k: int| i <= k < i + digits_from(s, i) ==> is_digit(#[trigger] s[k]),
    decreases s.len() - i,
{
    if i < s.len() && is_digit(s[i]) {
        lemma_digit_run(s, i + 1);
    }
}

/// The value of a hexadecimal digit byte.
pub open spec fn hex_value(c: u8) -> Option<u8> {
    if 48 <= c <= 57 {
        Some((c - 48) as u8)
    } else if 65 <= c <= 70 {
        Some((c - 65 + 10) as u8)
    } else if 97 <= c <= 102 {
        Some((c - 97 + 10) as u8)
    } else {
        None
    }
}

/// Decodes a hexadecimal digit: `0`-`9`, `A`-`F` or `a`-`f`.
pub fn hex_decode(c: u8) -> (r: Option<u8>)
    ensures
        r == hex_value(c),
{
    if c >= 48 && c <= 57 {
        Some(c - 48)
    } else if c >= 65 && c <= 70 {
        Some(c - 65 + 10)
    } else if c >= 97 && c <= 102 {
        Some(c - 97 + 10)
    } else {
        None
    }
}

/// Reads a byte written as two hexadecimal digits: `Eof` with fewer than
/// two bytes, `Char` when one of them is not a hexadecimal digit.
pub fn hex8(input: &[u8]) -> (r: ParseResult<u8>)
    ensures
        input.len() < 2 ==> r == Err::<(usize, u8), ErrorKind>(ErrorKind::Eof),
        input.len() >= 2 && (hex_value(input[0]) is None || hex_value(input[1]) is None) ==> r == Err::<
            (usize, u8),
            ErrorKind,
        >(ErrorKind::Char),
        input.len() >= 2 && hex_value(input[0]) is Some && hex_value(input[1]) is Some ==> r == Ok::<
            (usize, u8),
            ErrorKind,
        >((2usize, (hex_value(input[0])->0 * 16 + hex_value(input[1])->0) as u8)),
{
    if input.len() < 2 {
        return Err(ErrorKind::Eof);
    }
    let first = match hex_decode(input[0]) {
        Some(v) => v,
        None => {
            return Err(ErrorKind::Char);
        },
    };
    let second = match hex_decode(input[1]) {
        Some(v) => v,
        None => {
            return Err(ErrorKind::Char);
        },
    };
    assert(first * 16 + second < 256);
    assert((first << 4u8) | second == first * 16 + second) by (bit_vector)
        requires
            first < 16,
            second < 16;
    Ok((2, (first << 4) | second))
}

/// Reads one byte that `matcher` accepts: `Eof` on empty input, `Char` when
/// the byte is refused.
pub fn single_match<F: Fn(u8) -> bool>(input: &[u8], matcher: F) -> (r: ParseResult<u8>)
    requires
        input.len() > 0 ==> call_requires(matcher, (input[0],)),
    ensures
        input.len() == 0 ==> r == Err::<(usize, u8), ErrorKind>(ErrorKind::Eof),
        input.len() > 0 ==> (r == Ok::<(usize, u8), ErrorKind>((1usize, input[0])) && call_ensures(
            matcher,
            (input[0],),
            true,
        )) || (r == Err::<(usize, u8), ErrorKind>(ErrorKind::Char) && call_ensures(matcher, (input[0],), false)),
{
    if input.len() == 0 {
        return Err(ErrorKind::Eof);
    }
    let b = input[0];
    if matcher(b) {
        Ok((1, b))
    } else {
        Err(ErrorKind::Char)
    }
}

/// Reads the byte `b`: `Eof` on empty input, `Char` on another byte.
pub fn single(input: &[u8], b: u8) -> (r: ParseResult<u8>)
    ensures
        input.len() == 0 ==> r == Err::<(usize, u8), ErrorKind>(ErrorKind::Eof),
        input.len() > 0 && input[0] == b ==> r == Ok::<(usize, u8), ErrorKind>((1usize, b)),
        input.len() > 0 && input[0] != b ==> r == Err::<(usize, u8), ErrorKind>(ErrorKind::Char),
{
    if input.len() == 0 {
        Err(ErrorKind::Eof)
    } else if input[0] == b {
        Ok((1, b))
    } else {
        Err(ErrorKind::Char)
    }
}

/// Reads one space.
pub fn single_space(input: &[u8]) -> (r: ParseResult<u8>)
    ensures
        input.len() == 0 ==> r == Err::<(usize, u8), ErrorKind>(ErrorKind::Eof),
        input.len() > 0 && input[0] == 32 ==> r == Ok::<(usize, u8), ErrorKind>((1usize, 32u8)),
        input.len() > 0 && input[0] != 32 ==> r == Err::<(usize, u8), ErrorKind>(ErrorKind::Char),
{
    single(input, 32)
}

/// True for ASCII letters.
pub open spec fn is_alpha(b: u8) -> bool {
    (65 <= b <= 90) || (97 <= b <= 122)
}

/// Reads one byte of a class: `Eof` on empty input, `Char` outside it.
fn single_of_class(input: &[u8], digit: bool) -> (r: ParseResult<u8>)
    ensures
        input.len() == 0 ==> r == Err::<(usize, u8), ErrorKind>(ErrorKind::Eof),
        input.len() > 0 && (if digit { is_digit(input[0]) } else { is_alpha(input[0]) }) ==> r == Ok::<
            (usize, u8),
            ErrorKind,
        >((1usize, input[0])),
        input.len() > 0 && !(if digit { is_digit(input[0]) } else { is_alpha(input[0]) }) ==> r == Err::<
            (usize, u8),
            ErrorKind,
        >(ErrorKind::Char),
{
    if input.len() == 0 {
        return Err(ErrorKind::Eof);
    }
    let b = input[0];
    let ok = if digit {
        b >= 48 && b <= 57
    } else {
        (b >= 65 && b <= 90) || (b >= 97 && b <= 122)
    };
    if ok {
        Ok((1, b))
    } else {
        Err(ErrorKind::Char)
    }
}

/// Reads one ASCII digit.
pub fn single_digit(input: &[u8]) -> (r: ParseResult<u8>)
    ensures
        input.len() == 0 ==> r == Err::<(usize, u8), ErrorKind>(ErrorKind::Eof),
        input.len() > 0 && is_digit(input[0]) ==> r == Ok::<(usize, u8), ErrorKind>((1usize, input[0])),
        input.len() > 0 && !is_digit(input[0]) ==> r == Err::<(usize, u8), ErrorKind>(ErrorKind::Char),
{
    single_of_class(input, true)
}

/// Reads one ASCII letter.
pub fn single_ascii(input: &[u8]) -> (r: ParseResult<u8>)
    ensures
        input.len() == 0 ==> r == Err::<(usize, u8), ErrorKind>(ErrorKind::Eof),
        input.len() > 0 && is_alpha(input[0]) ==> r == Ok::<(usize, u8), ErrorKind>((1usize, input[0])),
        input.len() > 0 && !is_alpha(input[0]) ==> r == Err::<(usize, u8), ErrorKind>(ErrorKind::Char),
{
    single_of_class(input, false)
}

/// Reads one ASCII letter as a character.
pub fn char_alpha(input: &[u8]) -> (r: ParseResult<char>)
    ensures
        input.len() == 0 ==> r == Err::<(usize, char), ErrorKind>(ErrorKind::Eof),
        input.len() > 0 && is_alpha(input[0]) ==> r == Ok::<(usize, char), ErrorKind>(
            (1usize, input[0] as char),
        ),
        input.len() > 0 && !is_alpha(input[0]) ==> r == Err::<(usize, char), ErrorKind>(ErrorKind::Char),
{
    match single_ascii(input) {
        Ok((n, b)) => Ok((n, b as char)),
        Err(e) => Err(e),
    }
}

/// The value `transform` gives the first byte, consuming nothing; `Eof` on
/// empty input.
pub fn peek_char_mapped<T, F: Fn(&u8) -> T>(input: &[u8], transform: F) -> (r: ParseResult<T>)
    requires
        input.len() > 0 ==> call_requires(transform, (&input[0],)),
    ensures
        input.len() == 0 ==> r is Err && r->Err_0 == ErrorKind::Eof,
        input.len() > 0 ==> (r matches Ok((n, v)) && n == 0 && call_ensures(transform, (&input[0],), v)),
{
    if input.len() == 0 {
        return Err(ErrorKind::Eof);
    }
    Ok((0, transform(&input[0])))
}

/// Two line endings, each `\n` or `\r\n`; `CrLf` when one is missing.
pub fn double_line_ending(input: &[u8]) -> (r: ParseResult<usize>)
    ensures
        sep_at(input@, 0, input.len() as int) == 0 || sep_at(
            input@,
            sep_at(input@, 0, input.len() as int),
            input.len() as int,
        ) == 0 ==> r == Err::<(usize, usize), ErrorKind>(ErrorKind::CrLf),
        ({
            let a = sep_at(input@, 0, input.len() as int);
            let b = sep_at(input@, a, input.len() as int);
            a > 0 && b > 0 ==> r == Ok::<(usize, usize), ErrorKind>(((a + b) as usize, (a + b) as usize))
        }),
{
    let a = sep_len(input, 0, input.len());
    if a == 0 {
        return Err(ErrorKind::CrLf);
    }
    let b = sep_len(input, a, input.len());
    if b == 0 {
        return Err(ErrorKind::CrLf);
    }
    Ok((a + b, a + b))
}

/// The value of a whole text that is an optional `+` or `-` sign and then
/// one or more decimal digits; `None` for any other text.
pub open spec fn signed_text(s: Seq<u8>) -> Option<int> {
    let neg = s.len() > 0 && s[0] == 45;
    let pos = s.len() > 0 && s[0] == 43;
    let start: int = if neg || pos {
        1
    } else {
        0
    };
    if start < s.len() && digits_from(s, start) == s.len() - start {
        Some(
            if neg {
                -number_at(s, start)
            } else {
                number_at(s, start)
            },
        )
    } else {
        None
    }
}

/// Reads a whole text as an `i32`, as `str::parse` does: an optional sign
/// and then only digits, with a value that fits.
pub fn parse_i32_text(bytes: &[u8]) -> (r: Option<i32>)
    ensures
        (signed_text(bytes@) matches Some(v) && i32::MIN <= v <= i32::MAX) ==> r == Some(
            signed_text(bytes@)->0 as i32,
        ),
        !(signed_text(bytes@) matches Some(v) && i32::MIN <= v <= i32::MAX) ==> r is None,
{
    let neg = bytes.len() > 0 && bytes[0] == 45;
    let pos = bytes.len() > 0 && bytes[0] == 43;
    let start: usize = if neg || pos {
        1
    } else {
        0
    };
    if start >= bytes.len() {
        return None;
    }
    proof {
        lemma_digits_from_bound(bytes@, start as int);
        lemma_number_at_nonneg(bytes@, start as int);
    }
    match parse_u64_at(bytes, start) {
        Ok((n, v)) => {
            if n != bytes.len() - start {
                return None;
            }
            if neg {
                if v > 2147483648u64 {
                    return None;
                }
                if v == 2147483648u64 {
                    return Some(-2147483647i32 - 1);
                }
                Some(-(v as i32))
            } else {
                if v > 2147483647u64 {
                    return None;
                }
                Some(v as i32)
            }
        },
        Err(_) => None,
    }
}

/// Reads a whole text as an `i64`, as `str::parse` does: an optional sign
/// and then only digits, with a value that fits.
pub fn parse_i64_text(bytes: &[u8]) -> (r: Option<i64>)
    ensures
        (signed_text(bytes@) matches Some(v) && i64::MIN <= v <= i64::MAX) ==> r == Some(
            signed_text(bytes@)->0 as i64,
        ),
        !(signed_text(bytes@) matches Some(v) && i64::MIN <= v <= i64::MAX) ==> r is None,
{
    let neg = bytes.len() > 0 && bytes[0] == 45;
    let pos = bytes.len() > 0 && bytes[0] == 43;
    let start: usize = if neg || pos {
        1
    } else {
        0
    };
    if start >= bytes.len() {
        return None;
    }
    proof {
        lemma_digits_from_bound(bytes@, start as int);
        lemma_number_at_nonneg(bytes@, start as int);
    }
    match parse_u64_at(bytes, start) {
        Ok((n, v)) => {
            if n != bytes.len() - start {
                return None;
            }
            if neg {
                if v > 9223372036854775808u64 {
                    return None;
                }
                if v == 9223372036854775808u64 {
                    return Some(-9223372036854775807i64 - 1);
                }
                Some(-(v as i64))
            } else {
                if v > 9223372036854775807u64 {
                    return None;
                }
                Some(v as i64)
            }
        },
        Err(_) => None,
    }
}

} // verus!
