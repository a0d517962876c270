use vstd::prelude::*;

verus! {

/// A container that carries a function as one value, so that it can be kept
/// beside other data and run later.
pub struct Action<F>(pub F);

impl<F> Action<F> {
    /// The action that carries `f`.
    pub fn new(f: F) -> (action: Self)
        ensures
            action.0 == f,
    {
        Action(f)
    }

    /// Runs a function that takes no argument and hands back what it returns.
    pub fn run0<R>(&self) -> (r: R) where F: Fn() -> R
        requires
            self.0.requires(()),
        ensures
            self.0.ensures((), r),
    {
        (self.0)()
    }

    /// Runs the function on `arg` and hands back what it returns.
    pub fn run<A, R>(&self, arg: A) -> (r: R) where F: Fn(A) -> R
        requires
            self.0.requires((arg,)),
        ensures
            self.0.ensures((arg,), r),
    {
        (self.0)(arg)
    }

    /// Runs the function on two arguments and hands back what it returns.
    pub fn run2<A, B, R>(&self, a: A, b: B) -> (r: R) where F: Fn(A, B) -> R
        requires
            self.0.requires((a, b)),
        ensures
            self.0.ensures((a, b), r),
    {
        (self.0)(a, b)
    }

    /// Runs the function on three arguments and hands back what it returns.
    pub fn run3<A, B, C, R>(&self, a: A, b: B, c: C) -> (r: R) where F: Fn(A, B, C) -> R
        requires
            self.0.requires((a, b, c)),
        ensures
            self.0.ensures((a, b, c), r),
    {
        (self.0)(a, b, c)
    }
}

} // verus!
