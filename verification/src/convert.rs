//! Turning values of one type into another, item by item for vectors.
use vstd::prelude::*;

verus! {

/// A conversion from values of type `S`.
pub trait Convert<S>: Sized {
    fn convert(value: S) -> Self;
}

impl<I, O: Convert<I>> Convert<Vec<I>> for Vec<O> {
    /// Every item converted, in the same order.
    fn convert(value: Vec<I>) -> (r: Vec<O>)
        ensures
            r.len() == value.len(),
            forall|i: int| 0 <= i < r.len() ==> call_ensures(O::convert, (value@[i],), #[trigger] r@[i]),
    {
        let ghost items = value@;
        let mut value = value;
        let mut reversed: Vec<I> = Vec::new();
        while value.len() > 0
            invariant
                value.len() + reversed.len() == items.len(),
                value@ == items.subrange(0, value.len() as int),
                forall|k: int| 0 <= k < reversed.len() ==> #[trigger] reversed@[k] == items[items.len() - 1 - k],
            decreases value.len(),
        {
            let v = value.pop().unwrap();
            reversed.push(v);
        }
        let mut out: Vec<O> = Vec::new();
        while reversed.len() > 0
            invariant
                out.len() + reversed.len() == items.len(),
                forall|k: int| 0 <= k < reversed.len() ==> #[trigger] reversed@[k] == items[items.len() - 1 - k],
                forall|k: int| 0 <= k < out.len() ==> call_ensures(O::convert, (items[k],), #[trigger] out@[k]),
            decreases reversed.len(),
        {
            let v = reversed.pop().unwrap();
            let o = O::convert(v);
            out.push(o);
        }
        out
    }
}

} // verus!
