use vstd::prelude::*;

verus! {

/// The arithmetic that Newton's iteration needs of a scalar: subtraction, division, magnitude and
/// a strict order. Each operation is a function of its operands, named by its `spec_` function;
/// an implementation outside verified code defines each `spec_` function as its operation.
pub trait Real: Sized + Copy {
    spec fn spec_minus(self, rhs: Self) -> Self;

    spec fn spec_over(self, rhs: Self) -> Self;

    spec fn spec_magnitude(self) -> Self;

    spec fn spec_below(self, rhs: Self) -> bool;

    fn minus(self, rhs: Self) -> (r: Self)
        ensures
            r == self.spec_minus(rhs),
    ;

    fn over(self, rhs: Self) -> (r: Self)
        ensures
            r == self.spec_over(rhs),
    ;

    fn magnitude(self) -> (r: Self)
        ensures
            r == self.spec_magnitude(),
    ;

    fn below(self, rhs: Self) -> (r: bool)
        ensures
            r == self.spec_below(rhs),
    ;
}

/// An equation `f(x) = 0` given by `f` and its derivative, each a function of `x` named by its
/// `spec_` function; an implementation outside verified code defines each `spec_` function as
/// its operation.
pub trait RootEquation {
    type Scalar: Real;

    spec fn spec_root(&self, x: Self::Scalar) -> Self::Scalar;

    spec fn spec_diff(&self, x: Self::Scalar) -> Self::Scalar;

    /// The value `f(x)`.
    fn root(&self, x: Self::Scalar) -> (r: Self::Scalar)
        ensures
            r == self.spec_root(x),
    ;

    /// The derivative `f'(x)`.
    fn diff(&self, x: Self::Scalar) -> (r: Self::Scalar)
        ensures
            r == self.spec_diff(x),
    ;
}

/// The Newton step at `x`: `f(x) / f'(x)`.
pub open spec fn newton_step<E: RootEquation>(eq: E, x: E::Scalar) -> E::Scalar {
    eq.spec_root(x).spec_over(eq.spec_diff(x))
}

/// Where Newton's iteration from `x` ends after at most `n` steps: each step subtracts
/// `f(x) / f'(x)`, and the iteration stops after the first step whose magnitude is below
/// `tolerance`.
pub open spec fn newton_from<E: RootEquation>(
    eq: E,
    x: E::Scalar,
    tolerance: E::Scalar,
    n: nat,
) -> E::Scalar
    decreases n,
{
    if n == 0 {
        x
    } else {
        let dx = newton_step(eq, x);
        let next = x.spec_minus(dx);
        if dx.spec_magnitude().spec_below(tolerance) {
            next
        } else {
            newton_from(eq, next, tolerance, (n - 1) as nat)
        }
    }
}

/// Newton-Raphson iteration on an equation, with a tolerance on the step and a cap on the
/// number of steps. The result carries no sign of whether the iteration converged.
pub struct NewtonRaphson<Eq: RootEquation> {
    pub equation: Eq,
    pub tolerance: Eq::Scalar,
    pub max_iterations: usize,
}

impl<Eq: RootEquation> NewtonRaphson<Eq> {
    /// Iterates from `x`, stopping after the first step below the tolerance or after
    /// `max_iterations` steps, and returns where it stands.
    pub fn solve(&self, x: Eq::Scalar) -> (r: Eq::Scalar)
        ensures
            r == newton_from(self.equation, x, self.tolerance, self.max_iterations as nat),
    {
        let ghost target = newton_from(self.equation, x, self.tolerance, self.max_iterations as nat);
        let mut x = x;
        let mut i: usize = 0;
        let mut done = false;
        while !done && i < self.max_iterations
            invariant
                i <= self.max_iterations,
                done ==> x == target,
                !done ==> newton_from(
                    self.equation,
                    x,
                    self.tolerance,
                    (self.max_iterations - i) as nat,
                ) == target,
            decreases self.max_iterations - i,
        {
            let f = self.equation.root(x);
            let df = self.equation.diff(x);
            let dx = f.over(df);
            x = x.minus(dx);
            if dx.magnitude().below(self.tolerance) {
                done = true;
            }
            i = i + 1;
        }
        x
    }
}

/// Where the first Newton step from `x` is below the tolerance and leaves `x` where it is (as
/// a zero value over a nonzero slope does, such as Kepler's equation for a circular orbit at
/// `E = M`), the iteration returns `x` for any cap of at least one step.
pub proof fn lemma_solve_fixed_point<E: RootEquation>(
    eq: E,
    x: E::Scalar,
    tolerance: E::Scalar,
    n: nat,
)
    requires
        n >= 1,
        newton_step(eq, x).spec_magnitude().spec_below(tolerance),
        x.spec_minus(newton_step(eq, x)) == x,
    ensures
        newton_from(eq, x, tolerance, n) == x,
{
}

} // verus!
