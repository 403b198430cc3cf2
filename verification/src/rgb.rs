//! Colours written as `#rrggbb`.
use crate::parsing::{hex_value, ErrorKind, ParseResult};
use crate::text::{all_ascii, ascii_chars, ascii_string};
use vstd::prelude::*;

verus! {

/// A colour with eight bits per channel.
#[derive(Copy, Clone, Debug, Hash, PartialEq, Eq, Structural)]
pub struct RGB {
    pub red: u8,
    pub green: u8,
    pub blue: u8,
}

/// The number of hexadecimal digits at the start of `s`, at most `max`.
pub open spec fn hex_run(s: Seq<u8>, i: int, max: int) -> int
    decreases max,
{
    if max <= 0 || i < 0 || i >= s.len() || hex_value(s[i]) is None {
        0
    } else {
        1 + hex_run(s, i + 1, max - 1)
    }
}

/// The byte spelled by the two hexadecimal digits at `i`.
pub open spec fn hex_pair(s: Seq<u8>, i: int) -> int {
    hex_value(s[i])->0 * 16 + hex_value(s[i + 1])->0
}

/// The lower-case hexadecimal digit of a value below 16.
pub open spec fn hex_digit(v: int) -> u8 {
    if v < 10 {
        (48 + v) as u8
    } else {
        (97 + v - 10) as u8
    }
}

/// A byte in lower-case hexadecimal, without leading zeros.
pub open spec fn hex_text(v: u8) -> Seq<u8> {
    if v < 16 {
        seq![hex_digit(v as int)]
    } else {
        seq![hex_digit((v / 16) as int), hex_digit((v % 16) as int)]
    }
}

/// `#` followed by the three channels in hexadecimal.
pub open spec fn rgb_text(c: RGB) -> Seq<u8> {
    seq![35u8] + hex_text(c.red) + hex_text(c.green) + hex_text(c.blue)
}

fn push_hex(out: &mut Vec<u8>, v: u8)
    ensures
        final(out)@ == old(out)@ + hex_text(v),
{
    let hi = v / 16;
    let lo = v % 16;
    if hi > 0 {
        out.push(if hi < 10 {
            48 + hi
        } else {
            97 + hi - 10
        });
    }
    out.push(if lo < 10 {
        48 + lo
    } else {
        97 + lo - 10
    });
    proof {
        if v < 16 {
            assert(out@ =~= old(out)@ + hex_text(v));
        } else {
            assert(out@ =~= old(out)@ + hex_text(v));
        }
    }
}

impl RGB {
    /// Reads `#` (else `Tag`) and then exactly six hexadecimal digits (else
    /// `TakeWhileMN`).
    pub fn parse(input: &[u8]) -> (r: ParseResult<RGB>)
        ensures
            !(input.len() > 0 && input[0] == 35) ==> r == Err::<(usize, RGB), ErrorKind>(ErrorKind::Tag),
            input.len() > 0 && input[0] == 35 && hex_run(input@, 1, 6) < 6 ==> r == Err::<(usize, RGB), ErrorKind>(
                ErrorKind::TakeWhileMN,
            ),
            input.len() > 0 && input[0] == 35 && hex_run(input@, 1, 6) == 6 ==> r == Ok::<(usize, RGB), ErrorKind>(
                (
                    7usize,
                    RGB {
                        red: hex_pair(input@, 1) as u8,
                        green: hex_pair(input@, 3) as u8,
                        blue: hex_pair(input@, 5) as u8,
                    },
                ),
            ),
    {
        if input.len() == 0 || input[0] != 35 {
            return Err(ErrorKind::Tag);
        }
        let mut digits: [u8; 6] = [0; 6];
        let mut i: usize = 0;
        while i < 6
            invariant
                i <= 6,
                input.len() > 0 && input[0] == 35,
                hex_run(input@, 1, 6) == i + hex_run(input@, 1 + i, 6 - i),
                forall|k: int| 0 <= k < i ==> hex_value(input@[1 + k]) == Some(#[trigger] digits[k]),
            decreases 6 - i,
        {
            if 1 + i >= input.len() {
                return Err(ErrorKind::TakeWhileMN);
            }
            match crate::parsing::hex_decode(input[1 + i]) {
                Some(d) => {
                    digits[i] = d;
                },
                None => {
                    return Err(ErrorKind::TakeWhileMN);
                },
            }
            i += 1;
        }
        let red = digits[0] * 16 + digits[1];
        let green = digits[2] * 16 + digits[3];
        let blue = digits[4] * 16 + digits[5];
        Ok((7, RGB { red, green, blue }))
    }

    /// The colour as `0xrrggbb`.
    pub fn to_u32(self) -> (r: u32)
        ensures
            r == self.red * 65536 + self.green * 256 + self.blue,
    {
        (self.red as u32) * 65536 + (self.green as u32) * 256 + (self.blue as u32)
    }

    /// `#` and the three channels in lower-case hexadecimal, each without
    /// leading zeros.
    pub fn to_string(&self) -> (r: String)
        ensures
            r@ == ascii_chars(rgb_text(*self)),
    {
        let mut out: Vec<u8> = Vec::new();
        out.push(35);
        push_hex(&mut out, self.red);
        push_hex(&mut out, self.green);
        push_hex(&mut out, self.blue);
        proof {
            assert(out@ =~= rgb_text(*self));
            assert(all_ascii(out@));
        }
        ascii_string(out)
    }
}

} // verus!
