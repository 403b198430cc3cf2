//! Building a value by handing it to a function that changes it.
use vstd::prelude::*;

verus! {

/// `t` after `build_function` has changed it: the result is what the
/// function left in the place it was handed.
pub fn with<T, F: FnOnce(&mut T)>(t: T, build_function: F) -> (r: T)
    requires
        forall|x: &mut T| *x == t ==> call_requires(build_function, (x,)),
    ensures
        exists|m: &mut T| *m == t && *final(m) == r && call_ensures(build_function, (m,), ()),
{
    let mut t = t;
    build_function(&mut t);
    t
}

/// A default value after `build_function` has changed it.
pub fn with_default<T: Default, F: FnOnce(&mut T)>(build_function: F) -> (r: T)
    requires
        forall|d: T, x: &mut T| call_ensures(T::default, (), d) && *x == d ==> call_requires(build_function, (x,)),
    ensures
        exists|d: T, m: &mut T|
            call_ensures(T::default, (), d) && *m == d && *final(m) == r && call_ensures(build_function, (m,), ()),
{
    with(T::default(), build_function)
}

} // verus!
