use orbital_core::solver::{NewtonRaphson, Real, RootEquation};

#[derive(Clone, Copy, Debug, PartialEq)]
struct F(f64);

impl Real for F {
    fn spec_minus(self, rhs: F) -> F {
        self.minus(rhs)
    }
    fn spec_over(self, rhs: F) -> F {
        self.over(rhs)
    }
    fn spec_magnitude(self) -> F {
        self.magnitude()
    }
    fn spec_below(self, rhs: F) -> bool {
        self.below(rhs)
    }
    fn minus(self, rhs: F) -> F {
        F(self.0 - rhs.0)
    }
    fn over(self, rhs: F) -> F {
        F(self.0 / rhs.0)
    }
    fn magnitude(self) -> F {
        F(self.0.abs())
    }
    fn below(self, rhs: F) -> bool {
        self.0 < rhs.0
    }
}

struct SquareRootOfTwo;

impl RootEquation for SquareRootOfTwo {
    type Scalar = F;
    fn spec_root(&self, x: F) -> F {
        self.root(x)
    }
    fn spec_diff(&self, x: F) -> F {
        self.diff(x)
    }
    fn root(&self, x: F) -> F {
        F(x.0 * x.0 - 2.0)
    }
    fn diff(&self, x: F) -> F {
        F(2.0 * x.0)
    }
}

struct Kepler {
    eccentricity: f64,
    mean_anomaly: f64,
}

impl RootEquation for Kepler {
    type Scalar = F;
    fn spec_root(&self, e: F) -> F {
        self.root(e)
    }
    fn spec_diff(&self, e: F) -> F {
        self.diff(e)
    }
    fn root(&self, e: F) -> F {
        F(self.mean_anomaly - e.0 + self.eccentricity * e.0.sin())
    }
    fn diff(&self, e: F) -> F {
        F(self.eccentricity * e.0.cos() - 1.0)
    }
}

fn kepler(eccentricity: f64, mean_anomaly: f64) -> f64 {
    NewtonRaphson {
        equation: Kepler { eccentricity, mean_anomaly },
        tolerance: F(1e-10),
        max_iterations: 100,
    }
    .solve(F(mean_anomaly))
    .0
}

#[test]
fn newton_finds_square_root_of_two() {
    let solver = NewtonRaphson { equation: SquareRootOfTwo, tolerance: F(1e-10), max_iterations: 100 };
    let x = solver.solve(F(1.0)).0;
    assert!((x - 1.41421356).abs() < 1e-8);
    assert!((x * x - 2.0).abs() < 1e-9);
}

#[test]
fn newton_without_iterations_returns_the_guess() {
    let solver = NewtonRaphson { equation: SquareRootOfTwo, tolerance: F(1e-10), max_iterations: 0 };
    assert_eq!(solver.solve(F(1.0)), F(1.0));
}

#[test]
fn newton_stops_at_the_cap_without_converging() {
    let solver = NewtonRaphson { equation: SquareRootOfTwo, tolerance: F(1e-10), max_iterations: 1 };
    assert_eq!(solver.solve(F(1.0)), F(1.5));
}

#[test]
fn newton_does_not_guard_a_zero_derivative() {
    let solver = NewtonRaphson { equation: SquareRootOfTwo, tolerance: F(1e-10), max_iterations: 3 };
    assert!(!solver.solve(F(0.0)).0.is_finite());
}

#[test]
fn circular_orbit_eccentric_anomaly_is_the_mean_anomaly() {
    for m in [0.0, 0.5, 1.0, 3.0, -2.0, 100.0] {
        assert_eq!(kepler(0.0, m), m);
    }
}

#[test]
fn eccentric_anomaly_solves_kepler() {
    let e = kepler(0.1, 0.5);
    assert!((e - 0.1 * e.sin() - 0.5).abs() < 1e-9);
    assert!((e - 0.55).abs() < 1e-2);
}
