use mercury::builtin::tax::{banding, Banding};
use mercury::builtin::{arguments, functions, lookup, Arg, Error};
use mercury::money::{Decimal, Money};
use mercury::ops::{Action, Flow, FnT, Operator, Record, Statement};
use mercury::pump::{evaluate, flow};
use std::rc::Rc;

fn units(whole: i64) -> Decimal {
    Decimal::ratio(whole, 1)
}

type Formula = Action<Decimal, Banding<Decimal>>;

fn value(name: &str, amount: i64) -> Formula {
    Action::Transaction { name: name.to_string(), operator: Operator::Value(units(amount)) }
}

fn record(name: &str, amount: i64) -> Record<Decimal> {
    Record { name: name.to_string(), change: units(amount) }
}

fn income_tax() -> Banding<Decimal> {
    let args: Vec<Arg<Decimal>> = Vec::new();
    lookup("tax.inc", &args).unwrap().1
}

#[test]
fn sequence_threads_its_children() {
    let formula = Action::Sequence(vec![
        Statement(Flow::Out, value("fee", 10)),
        Statement(Flow::In, value("bonus", 5)),
    ]);
    let (total, trail) = evaluate(&formula);
    assert_eq!(total, units(-5));
    assert_eq!(trail, vec![record("fee", 10), record("bonus", 5)]);
}

#[test]
fn sequence_hands_the_running_amount_to_functions() {
    let formula: Formula = Action::Sequence(vec![
        Statement(Flow::In, value("salary", 60_000)),
        Statement(
            Flow::Out,
            Action::Transaction {
                name: "tax".to_string(),
                operator: Operator::Func(income_tax()),
            },
        ),
    ]);
    let (total, trail) = evaluate(&formula);
    assert_eq!(total, units(48_568));
    assert_eq!(trail, vec![record("salary", 60_000), record("tax", 11_432)]);
}

#[test]
fn parallel_gives_every_child_the_same_amount() {
    let shared: Rc<Formula> = Rc::new(Action::Transaction {
        name: "tax".to_string(),
        operator: Operator::Func(income_tax()),
    });
    let inner: Formula = Action::Parallel(vec![
        Statement(Flow::Out, Action::Variable(shared.clone())),
        Statement(Flow::In, Action::Variable(shared)),
        Statement(Flow::Out, value("fee", 7)),
    ]);
    let formula: Formula = Action::Sequence(vec![
        Statement(Flow::In, value("salary", 60_000)),
        Statement(Flow::In, inner),
    ]);
    let (total, trail) = evaluate(&formula);
    assert_eq!(total, units(59_993));
    assert_eq!(
        trail,
        vec![record("salary", 60_000), record("tax", 11_432), record("tax", 11_432), record("fee", 7)]
    );
}

#[test]
fn empty_formulas_come_to_nothing() {
    let sequence: Formula = Action::Sequence(Vec::new());
    let parallel: Formula = Action::Parallel(Vec::new());
    assert_eq!(evaluate(&sequence), (units(0), Vec::new()));
    assert_eq!(evaluate(&parallel), (units(0), Vec::new()));
    assert_eq!(flow::<Decimal>(Flow::In), units(1));
    assert_eq!(flow::<Decimal>(Flow::Out), units(-1));
}

#[test]
fn nested_sequence_starts_from_nothing() {
    let inner: Formula = Action::Sequence(vec![Statement(
        Flow::In,
        Action::Transaction { name: "tax".to_string(), operator: Operator::Func(income_tax()) },
    )]);
    let formula: Formula = Action::Sequence(vec![
        Statement(Flow::In, value("salary", 60_000)),
        Statement(Flow::Out, inner),
    ]);
    let (total, trail) = evaluate(&formula);
    assert_eq!(total, units(60_000));
    assert_eq!(trail, vec![record("salary", 60_000), record("tax", 0)]);
}

#[test]
fn banding_charges_each_part_at_its_rate() {
    let bands = vec![units(0), units(12_570), units(50_270), units(125_140), Decimal::most()];
    let rates = vec![units(0), Decimal::ratio(2, 10), Decimal::ratio(4, 10), Decimal::ratio(45, 100)];
    let tax = banding(bands, rates);
    assert_eq!(tax.call(units(60_000)), units(11_432));
    assert_eq!(tax.call(units(12_570)), units(0));
    assert_eq!(tax.call(units(50_270)), units(7_540));
    assert_eq!(tax.call(units(-5)), units(0));
    assert_eq!(tax.call(units(225_140)), Decimal { raw: 824_880_000 });
}

#[test]
fn banding_grows_with_the_amount_and_is_never_negative() {
    let tax = income_tax();
    assert_eq!(tax.call(Decimal { raw: i64::MIN }), units(0));
    assert_eq!(tax.call(units(-1)), units(0));
    assert_eq!(tax.call(units(0)), units(0));
    let mut previous = units(0);
    for amount in [1, 12_570, 12_571, 30_000, 50_270, 50_271, 125_140, 200_000, 900_000_000_000] {
        let charge = tax.call(units(amount));
        assert!(charge.raw >= previous.raw);
        assert!(charge.raw >= 0);
        previous = charge;
    }
    assert_eq!(tax.call(units(12_571)), Decimal { raw: 2_000 });
    assert!(tax.call(Decimal::most()).raw > 0);
}

#[test]
fn banding_has_as_many_bands_as_bounds_and_rates_allow() {
    let short = banding(vec![units(0), units(10), units(20)], vec![units(1)]);
    assert_eq!(short.call(units(100)), units(10));
    let lone = banding(vec![units(0)], vec![units(1)]);
    assert_eq!(lone.call(units(100)), units(0));
    let none: Banding<Decimal> = banding(Vec::new(), vec![units(1)]);
    assert_eq!(none.call(units(100)), units(0));
}

#[test]
fn catalog_lists_each_function_with_its_parameters() {
    assert_eq!(
        functions(),
        vec![("tax.ni", vec!["class"]), ("tax.inc", vec![]), ("tax.sfe", vec!["plan"])]
    );
    assert_eq!(arguments("tax.ni"), vec!["class"]);
    assert!(arguments("tax.inc").is_empty());
    assert_eq!(arguments("tax.sfe"), vec!["plan"]);
}

#[test]
fn national_insurance_goes_by_class() {
    let (label, charge) = lookup("tax.ni", &vec![Arg::String("A".to_string())]).unwrap();
    assert_eq!(label, "National Insurance");
    assert_eq!(charge.bands, vec![units(0), units(242), units(967), Decimal::most()]);
    assert_eq!(charge.rates, vec![units(0), Decimal::ratio(12, 100), Decimal::ratio(2, 100)]);
    assert_eq!(charge.call(units(1_000)), Decimal { raw: 876_600 });
    let (_, reduced) = lookup::<Decimal>("tax.ni", &vec![Arg::String("I".to_string())]).unwrap();
    assert_eq!(reduced.rates[1], Decimal { raw: 585 });
    let (_, exempt) = lookup::<Decimal>("tax.ni", &vec![Arg::String("S".to_string())]).unwrap();
    assert_eq!(exempt.call(units(1_000)), units(0));
    let (_, deferred) = lookup::<Decimal>("tax.ni", &vec![Arg::String("Z".to_string())]).unwrap();
    assert_eq!(deferred.rates, vec![units(0), Decimal::ratio(2, 100), Decimal::ratio(2, 100)]);
}

#[test]
fn national_insurance_names_what_is_wrong() {
    let none: Vec<Arg<Decimal>> = Vec::new();
    assert!(matches!(lookup("tax.ni", &none), Err(Error::ArgumentMissing("class"))));
    assert!(matches!(
        lookup("tax.ni", &vec![Arg::Number(units(1))]),
        Err(Error::ArgumentInvalidType("class"))
    ));
    match lookup::<Decimal>("tax.ni", &vec![Arg::String("Q".to_string())]) {
        Err(Error::ArgumentInvalid(class)) => assert_eq!(class, "Q"),
        other => panic!("{:?}", other),
    }
}

#[test]
fn income_tax_takes_no_argument() {
    let (label, charge) = lookup("tax.inc", &vec![Arg::Number(units(3))]).unwrap();
    assert_eq!(label, "Income Tax");
    assert_eq!(charge.call(units(60_000)), units(11_432));
    assert_eq!(charge.bands.len(), 5);
    assert_eq!(charge.rates.len(), 4);
}

#[test]
fn student_finance_goes_by_plan() {
    let (label, charge) = lookup("tax.sfe", &vec![Arg::Number(units(2))]).unwrap();
    assert_eq!(label, "Student Finance");
    assert_eq!(charge.bands, vec![units(0), units(27_295), Decimal::most()]);
    assert_eq!(charge.rates, vec![units(0), Decimal::ratio(9, 100)]);
    assert_eq!(charge.call(units(37_295)), units(900));
    for (plan, threshold) in [(1, 22_015), (4, 27_660), (5, 25_000)] {
        let (_, charge) = lookup("tax.sfe", &vec![Arg::Number(units(plan))]).unwrap();
        assert_eq!(charge.bands[1], units(threshold));
    }
}

#[test]
fn student_finance_names_what_is_wrong() {
    let none: Vec<Arg<Decimal>> = Vec::new();
    assert!(matches!(lookup("tax.sfe", &none), Err(Error::ArgumentMissing("plan"))));
    assert!(matches!(
        lookup::<Decimal>("tax.sfe", &vec![Arg::String("2".to_string())]),
        Err(Error::ArgumentInvalidType("plan"))
    ));
    match lookup("tax.sfe", &vec![Arg::Number(units(3))]) {
        Err(Error::ArgumentInvalid(plan)) => assert_eq!(plan, "3"),
        other => panic!("{:?}", other),
    }
    match lookup("tax.sfe", &vec![Arg::Number(units(-12))]) {
        Err(Error::ArgumentInvalid(plan)) => assert_eq!(plan, "-12"),
        other => panic!("{:?}", other),
    }
    match lookup("tax.sfe", &vec![Arg::Number(Decimal { raw: 27_000 })]) {
        Err(Error::ArgumentInvalid(plan)) => assert_eq!(plan, "2.7"),
        other => panic!("{:?}", other),
    }
    match lookup("tax.sfe", &vec![Arg::Number(Decimal { raw: 35_000 })]) {
        Err(Error::ArgumentInvalid(plan)) => assert_eq!(plan, "3.5"),
        other => panic!("{:?}", other),
    }
    assert!(lookup("tax.sfe", &vec![Arg::Number(Decimal { raw: 20_001 })]).is_err());
}

#[test]
fn unknown_functions_are_undefined() {
    let none: Vec<Arg<Decimal>> = Vec::new();
    match lookup("tax.vat", &none) {
        Err(Error::UndefinedVariable(name)) => assert_eq!(name, "tax.vat"),
        other => panic!("{:?}", other),
    }
}

#[test]
fn decimals_round_toward_zero_and_wrap() {
    assert_eq!(Decimal::ratio(1, 3), Decimal { raw: 3_333 });
    assert_eq!(Decimal::ratio(-1, 3), Decimal { raw: -3_333 });
    assert_eq!(Decimal::ratio(1, -3), Decimal { raw: -3_333 });
    assert_eq!(Decimal::ratio(5, 0), units(0));
    assert_eq!(units(7).quotient(units(2)), Decimal { raw: 35_000 });
    assert_eq!(units(7).quotient(units(0)), units(0));
    assert_eq!(units(-7).product(Decimal::ratio(1, 2)), Decimal { raw: -35_000 });
    assert_eq!(units(3).smaller(units(-4)), units(-4));
    assert_eq!(units(3).larger(units(-4)), units(3));
    assert_eq!(Decimal::most().sum(Decimal { raw: 1 }), Decimal { raw: i64::MIN });
    assert_eq!(Decimal { raw: i64::MIN }.difference(Decimal { raw: 1 }), Decimal::most());
    assert!(units(3).is(Decimal { raw: 30_000 }));
    assert!(!units(3).is(Decimal { raw: 30_001 }));
    assert_eq!(Decimal { raw: -29_999 }.to_text(), "-2.9999");
    assert_eq!(units(1_234).to_text(), "1234");
    assert_eq!(units(0).to_text(), "0");
    assert_eq!(Decimal { raw: 35_000 }.to_text(), "3.5");
    assert_eq!(Decimal { raw: 500 }.to_text(), "0.05");
    assert_eq!(Decimal { raw: -5_000 }.to_text(), "-0.5");
    assert_eq!(Decimal { raw: 1_230 }.to_text(), "0.123");
    assert_eq!(Decimal { raw: 100_001 }.to_text(), "10.0001");
    assert_eq!(Decimal { raw: i64::MIN }.to_text(), "-922337203685477.5808");
    assert_eq!(Decimal::most().to_text(), "922337203685477.5807");
}
