use mercury::builtin::{lookup, Arg, Error};
use mercury::money::Money;
use mercury::ops::{Action, Flow, FnT, Operator, Statement};
use mercury::pump::evaluate;

/// Amounts in double precision.
#[derive(Debug, Clone, Copy, PartialEq)]
struct Real(f64);

impl Money for Real {
    fn nil() -> Real {
        Real::zero()
    }

    fn plus(self, other: Real) -> Real {
        self.sum(other)
    }

    fn minus(self, other: Real) -> Real {
        self.difference(other)
    }

    fn times(self, other: Real) -> Real {
        self.product(other)
    }

    fn over(self, other: Real) -> Real {
        self.quotient(other)
    }

    fn lesser(self, other: Real) -> Real {
        self.smaller(other)
    }

    fn greater(self, other: Real) -> Real {
        self.larger(other)
    }

    fn fraction(numerator: i64, denominator: i64) -> Real {
        Real::ratio(numerator, denominator)
    }

    fn utmost() -> Real {
        Real::most()
    }

    fn same(self, other: Real) -> bool {
        self.is(other)
    }

    fn text(self) -> String {
        self.to_text()
    }

    fn zero() -> Real {
        Real(0.0)
    }

    fn sum(self, other: Real) -> Real {
        Real(self.0 + other.0)
    }

    fn difference(self, other: Real) -> Real {
        Real(self.0 - other.0)
    }

    fn product(self, other: Real) -> Real {
        Real(self.0 * other.0)
    }

    fn quotient(self, other: Real) -> Real {
        Real(self.0 / other.0)
    }

    fn smaller(self, other: Real) -> Real {
        Real(self.0.min(other.0))
    }

    fn larger(self, other: Real) -> Real {
        Real(self.0.max(other.0))
    }

    fn ratio(numerator: i64, denominator: i64) -> Real {
        Real(numerator as f64 / denominator as f64)
    }

    fn most() -> Real {
        Real(f64::MAX)
    }

    fn is(self, other: Real) -> bool {
        self.0 == other.0
    }

    fn to_text(self) -> String {
        self.0.to_string()
    }
}

#[test]
fn rates_are_the_doubles_nearest_to_their_fractions() {
    assert_eq!(Real::ratio(2, 10), Real(0.2));
    assert_eq!(Real::ratio(45, 100), Real(0.45));
    assert_eq!(Real::ratio(585, 10_000), Real(0.0585));
    assert_eq!(Real::ratio(12, 100), Real(0.12));
    assert_eq!(Real::ratio(9, 100), Real(0.09));
    assert_eq!(Real::ratio(-1, 1), Real(-1.0));
}

#[test]
fn income_tax_in_doubles() {
    let none: Vec<Arg<Real>> = Vec::new();
    let (label, charge) = lookup("tax.inc", &none).unwrap();
    assert_eq!(label, "Income Tax");
    let expected = 0.0 * 12_570.0 + 0.20 * (50_270.0 - 12_570.0) + 0.40 * (60_000.0 - 50_270.0);
    let charged = charge.call(Real(60_000.0)).0;
    assert!((charged - 11_432.0).abs() < 1e-6);
    assert!((charged - expected).abs() < 1e-6);
    assert_eq!(charge.bands[4], Real(f64::MAX));
}

#[test]
fn student_finance_in_doubles() {
    let (_, charge) = lookup("tax.sfe", &vec![Arg::Number(Real(2.0))]).unwrap();
    assert_eq!(charge.bands[1], Real(27_295.0));
    match lookup("tax.sfe", &vec![Arg::Number(Real(2.9))]) {
        Err(Error::ArgumentInvalid(plan)) => assert_eq!(plan, "2.9"),
        other => panic!("{:?}", other.map(|found| found.0)),
    }
    match lookup("tax.sfe", &vec![Arg::Number(Real(3.5))]) {
        Err(Error::ArgumentInvalid(plan)) => assert_eq!(plan, "3.5"),
        other => panic!("{:?}", other.map(|found| found.0)),
    }
}

#[test]
fn formula_in_doubles() {
    let formula: Action<Real, mercury::builtin::tax::Banding<Real>> = Action::Sequence(vec![
        Statement(
            Flow::Out,
            Action::Transaction { name: "fee".to_string(), operator: Operator::Value(Real(10.0)) },
        ),
        Statement(
            Flow::In,
            Action::Transaction { name: "bonus".to_string(), operator: Operator::Value(Real(5.0)) },
        ),
    ]);
    let (total, trail) = evaluate(&formula);
    assert_eq!(total, Real(-5.0));
    assert_eq!(trail.len(), 2);
    assert_eq!((trail[0].name.as_str(), trail[0].change), ("fee", Real(10.0)));
    assert_eq!((trail[1].name.as_str(), trail[1].change), ("bonus", Real(5.0)));
}
