//! Turning ASCII bytes into text.
use vstd::prelude::*;

verus! {

/// True when every byte is an ASCII character.
pub open spec fn all_ascii(bytes: Seq<u8>) -> bool {
    forall|i: int| 0 <= i < bytes.len() ==> #[trigger] bytes[i] < 128
}

/// The characters that ASCII bytes stand for.
pub open spec fn ascii_chars(bytes: Seq<u8>) -> Seq<char> {
    bytes.map_values(|b: u8| b as char)
}

/// Makes a `String` out of ASCII bytes, by `String::from_utf8` of the
/// standard library. For ASCII input that function succeeds and the string
/// holds one character per byte, each the character with that byte's code;
/// that is what the contract claims.
#[verifier::external_body]
pub(crate) fn ascii_string(bytes: Vec<u8>) -> (r: String)
    requires
        all_ascii(bytes@),
    ensures
        r@ == ascii_chars(bytes@),
{
    match String::from_utf8(bytes) {
        Ok(s) => s,
        Err(_) => String::new(),
    }
}

/// The decimal digits of `n`, as ASCII bytes.
pub open spec fn decimal_bytes(n: nat) -> Seq<u8>
    decreases n,
{
    if n < 10 {
        seq![(48 + n) as u8]
    } else {
        decimal_bytes(n / 10).push((48 + n % 10) as u8)
    }
}

/// A number in decimal, with `-` in front when it is negative.
pub open spec fn signed_decimal_bytes(v: int) -> Seq<u8> {
    if v < 0 {
        seq![45u8] + decimal_bytes((-v) as nat)
    } else {
        decimal_bytes(v as nat)
    }
}

proof fn lemma_decimal_ascii(n: nat)
    ensures
        all_ascii(decimal_bytes(n)),
    decreases n,
{
    if n >= 10 {
        lemma_decimal_ascii(n / 10);
    }
}

/// Appends the decimal digits of `n`.
fn push_decimal(out: &mut Vec<u8>, n: u64)
    ensures
        final(out)@ == old(out)@ + decimal_bytes(n as nat),
    decreases n,
{
    if n >= 10 {
        push_decimal(out, n / 10);
    }
    let ghost before = out@;
    out.push(48 + (n % 10) as u8);
    proof {
        if n >= 10 {
            assert(out@ =~= old(out)@ + decimal_bytes(n as nat));
        } else {
            assert(out@ =~= old(out)@ + decimal_bytes(n as nat));
        }
    }
}

/// A number written in decimal.
pub fn int_to_string(v: i64) -> (r: String)
    ensures
        r@ == ascii_chars(signed_decimal_bytes(v as int)),
{
    let mut out: Vec<u8> = Vec::new();
    if v < 0 {
        out.push(45);
        let magnitude: u64 = ((-(v + 1)) as u64) + 1;
        push_decimal(&mut out, magnitude);
    } else {
        push_decimal(&mut out, v as u64);
    }
    proof {
        assert(out@ =~= signed_decimal_bytes(v as int));
        lemma_decimal_ascii((if v < 0 { -v } else { v as int }) as nat);
        assert(all_ascii(out@));
    }
    ascii_string(out)
}

} // verus!
