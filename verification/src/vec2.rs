//! Two-dimensional integer vectors written as `x,y`.
use crate::parsing::{parse_i32_text, signed_text};
use vstd::prelude::*;

verus! {

/// A pair of coordinates.
#[derive(Copy, Clone, Debug, PartialEq, Eq, Structural)]
pub struct Vec2<T> {
    pub x: T,
    pub y: T,
}

/// The position of the first comma in `s`, if any.
pub open spec fn first_comma(s: Seq<u8>) -> Option<int>
    decreases s.len(),
{
    if s.len() == 0 {
        None
    } else if s[0] == 44 {
        Some(0)
    } else {
        match first_comma(s.drop_first()) {
            Some(i) => Some(i + 1),
            None => None,
        }
    }
}

/// A text is a whole `i32`.
pub open spec fn i32_text(s: Seq<u8>) -> bool {
    signed_text(s) matches Some(v) && i32::MIN <= v <= i32::MAX
}

impl Vec2<i32> {
    /// Reads `x,y`: the text before the first comma and the text after it
    /// must both be whole `i32` numbers.
    pub fn parse(s: &[u8]) -> (r: Result<Vec2<i32>, ()>)
        ensures
            first_comma(s@) is None ==> r is Err,
            first_comma(s@) matches Some(i) ==> {
                let left = s@.subrange(0, i);
                let right = s@.subrange(i + 1, s@.len() as int);
                if i32_text(left) && i32_text(right) {
                    r == Ok::<Vec2<i32>, ()>(
                        Vec2 { x: signed_text(left)->0 as i32, y: signed_text(right)->0 as i32 },
                    )
                } else {
                    r is Err
                }
            },
    {
        let mut ix: usize = 0;
        proof {
            assert(s@.subrange(0, s@.len() as int) =~= s@);
        }
        while ix < s.len() && s[ix] != 44
            invariant
                ix <= s.len(),
                first_comma(s@) == match first_comma(s@.subrange(ix as int, s@.len() as int)) {
                    Some(j) => Some(j + ix),
                    None => None::<int>,
                },
            decreases s.len() - ix,
        {
            proof {
                assert(s@.subrange(ix as int, s@.len() as int).drop_first() =~= s@.subrange(ix + 1, s@.len() as int));
            }
            ix += 1;
        }
        if ix >= s.len() {
            proof {
                assert(s@.subrange(ix as int, s@.len() as int) =~= Seq::<u8>::empty());
            }
            return Err(());
        }
        proof {
            assert(s@.subrange(ix as int, s@.len() as int)[0] == 44u8);
            assert(first_comma(s@) == Some(ix as int));
        }
        let x = match parse_i32_text(&s[0..ix]) {
            Some(v) => v,
            None => {
                return Err(());
            },
        };
        let y = match parse_i32_text(&s[ix + 1..s.len()]) {
            Some(v) => v,
            None => {
                return Err(());
            },
        };
        Ok(Vec2 { x, y })
    }

    /// The sum of two vectors.
    pub fn add(self, rhs: Vec2<i32>) -> (r: Vec2<i32>)
        requires
            i32::MIN <= self.x + rhs.x <= i32::MAX,
            i32::MIN <= self.y + rhs.y <= i32::MAX,
        ensures
            r.x == self.x + rhs.x,
            r.y == self.y + rhs.y,
    {
        Vec2 { x: self.x + rhs.x, y: self.y + rhs.y }
    }
}

} // verus!
