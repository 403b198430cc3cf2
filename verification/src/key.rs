//! Compact keys: short alphanumeric names packed into one `u64`.
//!
//! A key of up to twelve letters and digits is read as a number in bijective
//! base 36, where `a`..`z` (or `A`..`Z`) are the digits 1 to 26 and `0`..`9`
//! the digits 27 to 36; the key holds that number minus one. Upper and lower
//! case letters give the same key, and a key prints in lower case.
use crate::parsing::{ErrorKind, ParseResult};
use crate::text::{all_ascii, ascii_chars, ascii_string};
use vstd::prelude::*;

verus! {

/// A key of at most twelve alphanumeric characters.
#[derive(Copy, Clone, Debug, Hash, PartialEq, Eq, Structural, PartialOrd, Ord)]
pub struct Key {
    value: u64,
}

/// True for the bytes a key is made of: ASCII letters and digits.
pub open spec fn is_key_byte(c: u8) -> bool {
    (97 <= c <= 122) || (65 <= c <= 90) || (48 <= c <= 57)
}

/// The bijective base-36 digit of a key byte, from 1 to 36.
pub open spec fn key_digit(c: u8) -> int {
    if 97 <= c <= 122 {
        c - 97 + 1
    } else if 65 <= c <= 90 {
        c - 65 + 1
    } else {
        c - 48 + 27
    }
}

/// The number that a sequence of key bytes spells in bijective base 36.
pub open spec fn key_number(s: Seq<u8>) -> int
    decreases s.len(),
{
    if s.len() == 0 {
        0
    } else {
        key_number(s.drop_last()) * 36 + key_digit(s.last())
    }
}

/// The printed character for a digit value from 0 to 35.
pub open spec fn key_char(d: int) -> u8 {
    if d < 26 {
        (97 + d) as u8
    } else {
        (48 + d - 26) as u8
    }
}

/// The lower-case text that spells the number `n` in bijective base 36.
pub open spec fn key_text(n: nat) -> Seq<u8>
    decreases n,
{
    if n == 0 {
        Seq::empty()
    } else {
        key_text(((n - 1) / 36) as nat).push(key_char((n - 1) % 36))
    }
}

/// A byte with upper-case letters turned into lower case.
pub open spec fn lower(c: u8) -> u8 {
    if 65 <= c <= 90 {
        (c + 32) as u8
    } else {
        c
    }
}

/// The largest number that `n` key bytes can spell.
pub open spec fn key_number_bound(n: nat) -> int
    decreases n,
{
    if n == 0 {
        0
    } else {
        key_number_bound((n - 1) as nat) * 36 + 36
    }
}

/// True when every byte of `s` is a key byte.
pub open spec fn all_key_bytes(s: Seq<u8>) -> bool {
    forall|i: int| 0 <= i < s.len() ==> is_key_byte(#[trigger] s[i])
}

/// The number of leading key bytes of `input`, at most twelve.
pub open spec fn key_prefix_len(input: Seq<u8>) -> nat
    decreases input.len(),
{
    if input.len() == 0 || !is_key_byte(input[0]) {
        0
    } else {
        let rest = key_prefix_len(input.drop_first());
        if rest >= 12 { 12 } else { rest + 1 }
    }
}

proof fn lemma_key_number_step(s: Seq<u8>, i: int)
    requires
        0 <= i < s.len(),
    ensures
        key_number(s.subrange(0, i + 1)) == key_number(s.subrange(0, i)) * 36 + key_digit(s[i]),
{
    assert(s.subrange(0, i + 1).drop_last() =~= s.subrange(0, i));
}

proof fn lemma_key_number_bounds(s: Seq<u8>)
    requires
        all_key_bytes(s),
    ensures
        s.len() > 0 ==> key_number(s) >= 1,
        0 <= key_number(s) <= key_number_bound(s.len()),
    decreases s.len(),
{
    if s.len() > 0 {
        lemma_key_number_bounds(s.drop_last());
    }
}

proof fn lemma_bound_nonneg(a: nat)
    ensures
        key_number_bound(a) >= 0,
    decreases a,
{
    if a > 0 {
        lemma_bound_nonneg((a - 1) as nat);
    }
}

proof fn lemma_bound_monotone(a: nat, b: nat)
    requires
        a <= b,
    ensures
        key_number_bound(a) <= key_number_bound(b),
    decreases b,
{
    if a < b {
        lemma_bound_monotone(a, (b - 1) as nat);
        lemma_bound_nonneg((b - 1) as nat);
    }
}

proof fn lemma_bound_twelve()
    ensures
        key_number_bound(12) == 4873763662273663092,
        key_number_bound(11) == 135382323952046196,
{
    reveal_with_fuel(key_number_bound, 13);
}

/// Printing the number that a key spells gives back its text in lower case.
pub proof fn lemma_text_of_number(s: Seq<u8>)
    requires
        all_key_bytes(s),
    ensures
        key_text(key_number(s) as nat) == s.map_values(|c: u8| lower(c)),
    decreases s.len(),
{
    lemma_key_number_bounds(s);
    if s.len() == 0 {
        assert(s.map_values(|c: u8| lower(c)) =~= Seq::<u8>::empty());
    } else {
        let p = s.drop_last();
        lemma_key_number_bounds(p);
        lemma_text_of_number(p);
        let n = key_number(s);
        let d = key_digit(s.last());
        assert(1 <= d <= 36);
        assert((n - 1) % 36 == d - 1 && (n - 1) / 36 == key_number(p)) by {
            assert(n - 1 == key_number(p) * 36 + (d - 1));
        }
        assert(key_char(d - 1) == lower(s.last()));
        assert(s.map_values(|c: u8| lower(c)) =~= p.map_values(|c: u8| lower(c)).push(
            lower(s.last()),
        ));
    }
}

/// The text of a number is made of lower-case key bytes.
proof fn lemma_text_ascii(n: nat)
    ensures
        all_ascii(key_text(n)),
    decreases n,
{
    if n > 0 {
        lemma_text_ascii(((n - 1) / 36) as nat);
        let t = key_text(n);
        let p = key_text(((n - 1) / 36) as nat);
        assert forall|i: int| 0 <= i < t.len() implies #[trigger] t[i] < 128 by {
            if i < p.len() {
                assert(t[i] == p[i]);
            }
        }
    }
}

impl Key {
    /// The number this key stands for.
    pub closed spec fn spec_value(self) -> u64 {
        self.value
    }

    /// Makes a key from its text. The text must hold one to twelve letters or
    /// digits; this is meant for keys that are written in the source.
    pub fn fixed(s: &[u8]) -> (r: Key)
        requires
            1 <= s.len() <= 12,
            all_key_bytes(s@),
        ensures
            r.spec_value() == key_number(s@) - 1,
    {
        let mut value: u64 = 0;
        let mut ix: usize = 0;
        while ix < s.len()
            invariant
                0 <= ix <= s.len() <= 12,
                all_key_bytes(s@),
                value == key_number(s@.subrange(0, ix as int)),
            decreases s.len() - ix,
        {
            proof {
                lemma_key_number_step(s@, ix as int);
                lemma_key_number_bounds(s@.subrange(0, ix as int));
                lemma_bound_monotone(ix as nat, 11);
                lemma_bound_twelve();
            }
            let c = s[ix];
            if c >= 97 && c <= 122 {
                value = value * 36 + (c - 97) as u64 + 1;
            } else if c >= 65 && c <= 90 {
                value = value * 36 + (c - 65) as u64 + 1;
            } else {
                value = value * 36 + (c - 48) as u64 + 27;
            }
            ix += 1;
        }
        assert(s@.subrange(0, s.len() as int) =~= s@);
        proof {
            lemma_key_number_bounds(s@);
        }
        Key { value: value - 1 }
    }

    /// The character for the lowest base-36 position of the key: `a` plus
    /// the value modulo 36.
    pub fn last_char(&self) -> (r: u8)
        ensures
            r == 97 + self.spec_value() % 36,
    {
        97 + (self.value % 36) as u8
    }

    /// Parses a key: the longest run of letters and digits at the start of
    /// the input, but at most twelve of them.
    pub fn parse(input: &[u8]) -> (r: ParseResult<Key>)
        ensures
            key_prefix_len(input@) == 0 ==> r == Err::<(usize, Key), ErrorKind>(
                ErrorKind::TakeWhileMN,
            ),
            key_prefix_len(input@) > 0 ==> (r matches Ok((n, k)) && n == key_prefix_len(input@)
                && k.spec_value() == key_number(input@.subrange(0, n as int)) - 1),
    {
        let mut value: u64 = 0;
        let mut ix: usize = 0;
        while ix < input.len() && ix < 12 && Self::is_key_byte(input[ix])
            invariant
                0 <= ix <= input.len(),
                ix <= 12,
                all_key_bytes(input@.subrange(0, ix as int)),
                value == key_number(input@.subrange(0, ix as int)),
            decreases input.len() - ix,
        {
            proof {
                lemma_key_number_step(input@, ix as int);
                lemma_key_number_bounds(input@.subrange(0, ix as int));
                lemma_bound_monotone(ix as nat, 11);
                lemma_bound_twelve();
            }
            let c = input[ix];
            if c >= 97 && c <= 122 {
                value = value * 36 + (c - 97) as u64 + 1;
            } else if c >= 65 && c <= 90 {
                value = value * 36 + (c - 65) as u64 + 1;
            } else {
                value = value * 36 + (c - 48) as u64 + 27;
            }
            ix += 1;
            assert(all_key_bytes(input@.subrange(0, ix as int))) by {
                assert forall|k: int| 0 <= k < ix implies is_key_byte(
                    #[trigger] input@.subrange(0, ix as int)[k],
                ) by {
                    if k < ix - 1 {
                        assert(input@.subrange(0, ix as int)[k] == input@.subrange(
                            0,
                            ix - 1,
                        )[k]);
                    }
                }
            }
        }
        proof {
            lemma_prefix_len(input@, ix as nat);
        }
        if ix == 0 {
            return Err(ErrorKind::TakeWhileMN);
        }
        proof {
            lemma_key_number_bounds(input@.subrange(0, ix as int));
        }
        Ok((ix, Key { value: value - 1 }))
    }

    /// True for ASCII letters and digits.
    fn is_key_byte(c: u8) -> (r: bool)
        ensures
            r == is_key_byte(c),
    {
        (c >= 97 && c <= 122) || (c >= 65 && c <= 90) || (c >= 48 && c <= 57)
    }

    /// Parses a key from the start of a text; what follows the key is
    /// ignored.
    pub fn from_bytes(s: &[u8]) -> (r: Result<Key, ()>)
        ensures
            key_prefix_len(s@) == 0 <==> r.is_err(),
            r matches Ok(k) ==> k.spec_value() == key_number(
                s@.subrange(0, key_prefix_len(s@) as int),
            ) - 1,
    {
        match Key::parse(s) {
            Ok((_, k)) => Ok(k),
            Err(_) => Err(()),
        }
    }

    /// The key's text in lower case.
    pub fn to_string(&self) -> (r: String)
        requires
            self.spec_value() < u64::MAX,
        ensures
            r@ == ascii_chars(key_text((self.spec_value() + 1) as nat)),
    {
        let mut digits: Vec<u8> = Vec::new();
        let mut n: u64 = self.value + 1;
        while n > 0
            invariant
                key_text((self.value + 1) as nat) == key_text(n as nat) + digits@.reverse(),
            decreases n,
        {
            let m = n - 1;
            let code = (m % 36) as u8;
            let c = if code >= 26 { 48 + code - 26 } else { 97 + code };
            assert(c == key_char((n - 1) % 36));
            let ghost before = digits@;
            digits.push(c);
            assert(digits@.reverse() =~= seq![c] + before.reverse());
            n = m / 36;
        }
        let mut out: Vec<u8> = Vec::new();
        let mut i: usize = digits.len();
        while i > 0
            invariant
                i <= digits.len(),
                out@ == digits@.subrange(i as int, digits.len() as int).reverse(),
            decreases i,
        {
            i = i - 1;
            let ghost before = out@;
            out.push(digits[i]);
            assert(digits@.subrange(i as int, digits.len() as int).reverse() =~= before.push(
                digits@[i as int],
            )) by {
                assert(digits@.subrange(i as int, digits.len() as int) =~= seq![digits@[i as int]]
                    + digits@.subrange(i + 1, digits.len() as int));
            }
        }
        assert(digits@.subrange(0, digits.len() as int) =~= digits@);
        assert(out@ =~= key_text((self.value + 1) as nat));
        proof {
            lemma_text_ascii((self.value + 1) as nat);
        }
        ascii_string(out)
    }

    /// The key `rhs` places further.
    pub fn add(self, rhs: usize) -> (r: Key)
        requires
            self.spec_value() + rhs <= u64::MAX,
        ensures
            r.spec_value() == self.spec_value() + rhs,
    {
        Key { value: self.value + rhs as u64 }
    }

    /// The key for an index into a list.
    pub fn from(value: usize) -> (r: Key)
        ensures
            r.spec_value() == value,
    {
        Key { value: value as u64 }
    }

    /// The index that a key stands for.
    pub fn as_usize(self) -> (r: usize)
        requires
            self.spec_value() <= usize::MAX,
        ensures
            r == self.spec_value(),
    {
        self.value as usize
    }
}

proof fn lemma_prefix_len(input: Seq<u8>, ix: nat)
    requires
        ix <= input.len(),
        ix <= 12,
        all_key_bytes(input.subrange(0, ix as int)),
        ix == input.len() || ix == 12 || !is_key_byte(input[ix as int]),
    ensures
        key_prefix_len(input) == ix,
    decreases ix,
{
    if ix == 0 {
    } else {
        let rest = input.drop_first();
        assert(input.subrange(0, ix as int)[0] == input[0]);
        assert(all_key_bytes(rest.subrange(0, ix - 1))) by {
            assert forall|k: int| 0 <= k < ix - 1 implies is_key_byte(
                #[trigger] rest.subrange(0, ix - 1)[k],
            ) by {
                assert(rest.subrange(0, ix - 1)[k] == input.subrange(0, ix as int)[k + 1]);
            }
        }
        if ix == 12 {
            lemma_prefix_at_least(rest, 11);
        } else {
            lemma_prefix_len(rest, (ix - 1) as nat);
        }
    }
}

proof fn lemma_prefix_at_least(input: Seq<u8>, ix: nat)
    requires
        ix <= input.len(),
        ix <= 12,
        all_key_bytes(input.subrange(0, ix as int)),
    ensures
        key_prefix_len(input) >= ix,
    decreases ix,
{
    if ix > 0 {
        let rest = input.drop_first();
        assert(input.subrange(0, ix as int)[0] == input[0]);
        assert(all_key_bytes(rest.subrange(0, ix - 1))) by {
            assert forall|k: int| 0 <= k < ix - 1 implies is_key_byte(
                #[trigger] rest.subrange(0, ix - 1)[k],
            ) by {
                assert(rest.subrange(0, ix - 1)[k] == input.subrange(0, ix as int)[k + 1]);
            }
        }
        lemma_prefix_at_least(rest, (ix - 1) as nat);
    }
}

/// Parsing a key and printing it gives back the parsed text in lower case.
pub proof fn lemma_parse_print_round_trip(s: Seq<u8>)
    requires
        1 <= s.len() <= 12,
        all_key_bytes(s),
    ensures
        key_number(s) >= 1,
        key_text(((key_number(s) - 1) + 1) as nat) == s.map_values(|c: u8| lower(c)),
{
    lemma_key_number_bounds(s);
    lemma_text_of_number(s);
}

/// The byte with an upper-case letter turned to lower case.
pub open spec fn lower_byte(c: u8) -> u8 {
    if 65 <= c <= 90 {
        (c + 32) as u8
    } else {
        c
    }
}

/// The text with its upper-case letters turned to lower case.
pub open spec fn lower_text(s: Seq<u8>) -> Seq<u8> {
    s.map_values(|c: u8| lower_byte(c))
}

proof fn lemma_key_number_lower(s: Seq<u8>)
    requires
        all_key_bytes(s),
    ensures
        key_number(lower_text(s)) == key_number(s),
    decreases s.len(),
{
    if s.len() > 0 {
        assert(all_key_bytes(s.drop_last())) by {
            assert forall|i: int| 0 <= i < s.len() - 1 implies is_key_byte(#[trigger] s.drop_last()[i]) by {
                assert(is_key_byte(s[i]));
            }
        }
        lemma_key_number_lower(s.drop_last());
        assert(lower_text(s).drop_last() =~= lower_text(s.drop_last()));
        assert(is_key_byte(s.last()));
    }
}

/// A text of one to twelve letters and digits is read whole by
/// `Key::parse`, which then gives the key `Key::fixed` gives for it; and
/// the case of its letters does not change that key.
pub proof fn lemma_parse_matches_fixed(s: Seq<u8>)
    requires
        1 <= s.len() <= 12,
        all_key_bytes(s),
    ensures
        key_prefix_len(s) == s.len(),
        s.subrange(0, key_prefix_len(s) as int) == s,
        all_key_bytes(lower_text(s)),
        key_number(lower_text(s)) == key_number(s),
{
    assert(s.subrange(0, s.len() as int) =~= s);
    lemma_prefix_len(s, s.len());
    lemma_key_number_lower(s);
    assert forall|i: int| 0 <= i < lower_text(s).len() implies is_key_byte(#[trigger] lower_text(s)[i]) by {
        assert(is_key_byte(s[i]));
    }
}

} // verus!
