//! Linear equations over up to `D` unknowns, and sets of them.
use vstd::prelude::*;

verus! {

/// An equation `params[0] * x0 + ... = result` over `param_length` of at
/// most `D` unknowns; the unused parameters hold the default value.
pub struct LinearEquation<const D: usize, T> {
    params: Vec<T>,
    result: T,
    param_length: usize,
}

impl<const D: usize, T: Copy> LinearEquation<D, T> {
    /// The equation is well formed: `D` parameters, of which the first
    /// `param_length` are used.
    pub closed spec fn wf(&self) -> bool {
        self.params@.len() == D && self.param_length <= D
    }

    /// The parameters, all `D` of them.
    pub closed spec fn spec_params(&self) -> Seq<T> {
        self.params@
    }

    /// The right-hand side.
    pub closed spec fn spec_result(&self) -> T {
        self.result
    }

    /// The number of parameters in use.
    pub closed spec fn spec_param_length(&self) -> nat {
        self.param_length as nat
    }

    /// An equation with the given parameters, padded with the default value
    /// up to `D` of them; there may be at most `D`.
    pub fn new(parameters: &[T], result: T) -> (r: Self)
        where
            T: Default,
        requires
            parameters.len() <= D,
        ensures
            r.wf(),
            r.spec_param_length() == parameters.len(),
            r.spec_result() == result,
            r.spec_params().subrange(0, parameters.len() as int) == parameters@,
            exists|zero: T|
                call_ensures(T::default, (), zero) && forall|i: int|
                    parameters.len() <= i < D ==> #[trigger] r.spec_params()[i] == zero,
    {
        let zero = T::default();
        let mut params: Vec<T> = Vec::new();
        let mut i: usize = 0;
        while i < D
            invariant
                i <= D,
                parameters.len() <= D,
                params@.len() == i,
                forall|k: int| 0 <= k < i && k < parameters.len() ==> #[trigger] params@[k] == parameters@[k],
                forall|k: int| parameters.len() <= k < i ==> #[trigger] params@[k] == zero,
            decreases D - i,
        {
            if i < parameters.len() {
                params.push(parameters[i]);
            } else {
                params.push(zero);
            }
            i += 1;
        }
        let r = LinearEquation { params, result, param_length: parameters.len() };
        proof {
            assert(r.spec_params().subrange(0, parameters.len() as int) =~= parameters@);
        }
        r
    }

    /// The parameters, all `D` of them.
    pub fn params(&self) -> (r: &[T])
        ensures
            r@ == self.spec_params(),
    {
        self.params.as_slice()
    }

    /// The right-hand side.
    pub fn result(&self) -> (r: T)
        ensures
            r == self.spec_result(),
    {
        self.result
    }

    /// The number of parameters in use.
    pub fn param_length(&self) -> (r: usize)
        ensures
            r == self.spec_param_length(),
    {
        self.param_length
    }
}

/// A non-empty set of equations over the same number of unknowns.
pub struct LinearEquationSet<const D: usize, T> {
    equations: Vec<LinearEquation<D, T>>,
    param_length: usize,
}

impl<const D: usize, T: Copy> LinearEquationSet<D, T> {
    /// The equations of the set.
    pub closed spec fn spec_equations(&self) -> Seq<LinearEquation<D, T>> {
        self.equations@
    }

    /// The number of unknowns of every equation.
    pub closed spec fn spec_param_length(&self) -> nat {
        self.param_length as nat
    }

    /// A set of at least one equation, all over the same number of unknowns.
    pub fn new(equations: Vec<LinearEquation<D, T>>) -> (r: Self)
        requires
            equations.len() > 0,
            forall|i: int|
                0 <= i < equations.len() ==> (#[trigger] equations@[i]).spec_param_length()
                    == equations@[0].spec_param_length(),
        ensures
            r.spec_equations() == equations@,
            r.spec_param_length() == equations@[0].spec_param_length(),
    {
        let param_length = equations[0].param_length;
        LinearEquationSet { equations, param_length }
    }

    /// The equation at `index`, which must exist.
    pub fn index(&self, index: usize) -> (r: &LinearEquation<D, T>)
        requires
            index < self.spec_equations().len(),
        ensures
            *r == self.spec_equations()[index as int],
    {
        &self.equations[index]
    }

    /// The number of equations.
    pub fn len(&self) -> (r: usize)
        ensures
            r == self.spec_equations().len(),
    {
        self.equations.len()
    }

    /// The number of unknowns of every equation.
    pub fn param_length(&self) -> (r: usize)
        ensures
            r == self.spec_param_length(),
    {
        self.param_length
    }
}

} // verus!
