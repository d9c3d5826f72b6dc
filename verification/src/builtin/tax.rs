//! Taxes that are charged in bands.

use crate::builtin::{same, Arg, Error};
use crate::money::{Decimal, Money, DECIMAL_ONE};
use crate::ops::FnT;
use vstd::prelude::*;

verus! {

/// A charge in bands: each part of an amount that lies between two
/// neighbouring bounds is charged at the rate of that band.
#[derive(Debug)]
pub struct Banding<M> {
    /// The bounds of the bands, in ascending order.
    pub bands: Vec<M>,
    /// The rate of each band.
    pub rates: Vec<M>,
}

/// How many bands a charge has: one between every two neighbouring bounds,
/// as far as there are rates.
pub open spec fn band_count(bounds: int, rates: int) -> int {
    if bounds - 1 < rates {
        if bounds >= 1 {
            bounds - 1
        } else {
            0
        }
    } else {
        rates
    }
}

/// What the band of the given bounds and rate charges on `account`: the
/// rate times the part of the amount, if any, that lies above the lower
/// bound and not above the upper one. The part is found by bringing the
/// amount between the two bounds and taking the lower bound away.
pub open spec fn band_charge<M: Money>(lower: M, upper: M, rate: M, account: M) -> M {
    upper.lesser(account).greater(lower).minus(lower).times(rate)
}

/// What the first `count` bands charge on `account`, added up from nothing.
pub open spec fn banded<M: Money>(bands: Seq<M>, rates: Seq<M>, count: nat, account: M) -> M
    decreases count,
{
    if 0 < count < bands.len() && count <= rates.len() {
        banded(bands, rates, (count - 1) as nat, account).plus(
            band_charge(bands[count - 1], bands[count as int], rates[count - 1], account),
        )
    } else {
        M::nil()
    }
}

impl<M: Money> FnT<M> for Banding<M> {
    open spec fn applied(&self, input: M) -> M {
        banded(
            self.bands@,
            self.rates@,
            band_count(self.bands@.len() as int, self.rates@.len() as int) as nat,
            input,
        )
    }

    fn call(&self, input: M) -> (output: M) {
        let mut acc = M::zero();
        let mut band: usize = 0;
        while band < self.rates.len() && band + 1 < self.bands.len()
            invariant
                band <= band_count(self.bands@.len() as int, self.rates@.len() as int),
                acc == banded(self.bands@, self.rates@, band as nat, input),
            decreases self.rates@.len() - band,
        {
            let lower = self.bands[band];
            let upper = self.bands[band + 1];
            let rate = self.rates[band];
            acc = acc.sum(upper.smaller(input).larger(lower).difference(lower).product(rate));
            band += 1;
        }
        acc
    }
}

/// Whether the bounds are in ascending order and none lies below nothing.
pub open spec fn ascending(bands: Seq<Decimal>) -> bool {
    &&& forall|i: int, j: int| 0 <= i <= j < bands.len() ==> bands[i].raw <= bands[j].raw
    &&& forall|i: int| 0 <= i < bands.len() ==> 0 <= (#[trigger] bands[i]).raw
}

/// Whether every rate lies between nothing and one.
pub open spec fn moderate(rates: Seq<Decimal>) -> bool {
    forall|i: int| 0 <= i < rates.len() ==> 0 <= (#[trigger] rates[i]).raw <= DECIMAL_ONE
}

/// What one band charges on decimals: never less than nothing, never more
/// than the band is wide, no less on a greater amount, and nothing on an
/// amount that is not above the lower bound.
pub proof fn lemma_band_charge_grows(
    lower: Decimal,
    upper: Decimal,
    rate: Decimal,
    low: Decimal,
    high: Decimal,
)
    requires
        0 <= lower.raw <= upper.raw,
        0 <= rate.raw <= DECIMAL_ONE,
        low.raw <= high.raw,
    ensures
        0 <= band_charge(lower, upper, rate, low).raw <= band_charge(lower, upper, rate, high).raw
            <= upper.raw - lower.raw,
        low.raw <= lower.raw ==> band_charge(lower, upper, rate, low).raw == 0,
{
    let part_low = upper.lesser(low).greater(lower).minus(lower);
    let part_high = upper.lesser(high).greater(lower).minus(lower);
    assert(0 <= part_low.raw <= part_high.raw <= upper.raw - lower.raw);
    let r = rate.raw as int;
    let a = part_low.raw as int;
    let b = part_high.raw as int;
    assert(0 <= a * r <= b * r <= b * 10_000) by (nonlinear_arith)
        requires
            0 <= a <= b,
            0 <= r <= 10_000,
    ;
    assert(0 <= (a * r) / 10_000 <= (b * r) / 10_000 <= b) by (nonlinear_arith)
        requires
            0 <= a * r <= b * r <= b * 10_000,
    ;
    assert(low.raw <= lower.raw ==> a * r == 0) by (nonlinear_arith)
        requires
            low.raw <= lower.raw ==> a == 0,
    ;
}

/// Charges in bands on decimals grow with the amount and are never less
/// than nothing: with bounds in ascending order from nothing on and rates
/// between nothing and one, the charge on an amount is no less than
/// nothing, no more than the charge on a greater amount, and nothing on an
/// amount that is not above the first bound.
pub proof fn lemma_banded_grows(
    bands: Seq<Decimal>,
    rates: Seq<Decimal>,
    count: nat,
    low: Decimal,
    high: Decimal,
)
    requires
        ascending(bands),
        moderate(rates),
        low.raw <= high.raw,
    ensures
        0 <= banded(bands, rates, count, low).raw <= banded(bands, rates, count, high).raw,
        0 < count < bands.len() && count <= rates.len() ==> banded(
            bands,
            rates,
            count,
            high,
        ).raw <= bands[count as int].raw - bands[0].raw,
        !(0 < count < bands.len() && count <= rates.len()) ==> banded(
            bands,
            rates,
            count,
            high,
        ).raw == 0,
        bands.len() > 0 && low.raw <= bands[0].raw ==> banded(bands, rates, count, low).raw == 0,
    decreases count,
{
    if 0 < count < bands.len() && count <= rates.len() {
        lemma_banded_grows(bands, rates, (count - 1) as nat, low, high);
        lemma_band_charge_grows(
            bands[count - 1],
            bands[count as int],
            rates[count - 1],
            low,
            high,
        );
        lemma_band_charge_grows(
            bands[count - 1],
            bands[count as int],
            rates[count - 1],
            low,
            low,
        );
        assert(bands[0].raw <= bands[count - 1].raw);
    }
}

/// The charge with the given bounds and rates.
pub fn banding<M: Money>(bands: Vec<M>, rates: Vec<M>) -> (function: Banding<M>)
    ensures
        function.bands == bands,
        function.rates == rates,
{
    Banding { bands, rates }
}

/// The place of a class of national insurance in the table of its rates.
pub open spec fn class_row(class: Seq<char>) -> Option<int> {
    if class == "A"@ {
        Some(0)
    } else if class == "B"@ {
        Some(1)
    } else if class == "C"@ {
        Some(2)
    } else if class == "F"@ {
        Some(0)
    } else if class == "H"@ {
        Some(0)
    } else if class == "I"@ {
        Some(1)
    } else if class == "J"@ {
        Some(3)
    } else if class == "L"@ {
        Some(3)
    } else if class == "M"@ {
        Some(0)
    } else if class == "S"@ {
        Some(2)
    } else if class == "V"@ {
        Some(0)
    } else if class == "Z"@ {
        Some(3)
    } else {
        None
    }
}

/// The two rates of national insurance in a row of their table: the rate
/// of the main band and the rate above it.
pub open spec fn class_rates<M: Money>(row: int) -> (M, M) {
    if row == 0 {
        (M::fraction(12, 100), M::fraction(2, 100))
    } else if row == 1 {
        (M::fraction(585, 10_000), M::fraction(2, 100))
    } else if row == 2 {
        (M::nil(), M::nil())
    } else {
        (M::fraction(2, 100), M::fraction(2, 100))
    }
}

/// The plan of student finance that a number names: the number is the
/// same as 1, 2, 4 or 5. `None` for any other number.
pub open spec fn plan_of<M: Money>(number: M) -> Option<i64> {
    if number.same(M::fraction(1, 1)) {
        Some(1i64)
    } else if number.same(M::fraction(2, 1)) {
        Some(2i64)
    } else if number.same(M::fraction(4, 1)) {
        Some(4i64)
    } else if number.same(M::fraction(5, 1)) {
        Some(5i64)
    } else {
        None
    }
}

/// The threshold of a plan of student finance.
pub open spec fn plan_threshold(plan: i64) -> i64 {
    if plan == 1 {
        22_015
    } else if plan == 2 {
        27_295
    } else if plan == 4 {
        27_660
    } else {
        25_000
    }
}

/// Whether `found` is what national insurance gives for `args`, where
/// `parameters` starts with the name of its parameter.
///
/// For a known class: the charge with the rates of that class. Without an
/// argument, with a number, or with a class that is not known: the error
/// that says so, with the name of the parameter or the class.
pub open spec fn ni_gives<M: Money>(
    args: Seq<Arg<M>>,
    parameters: Seq<&'static str>,
    found: Result<(String, Banding<M>), Error>,
) -> bool {
    match found {
        Ok((label, function)) => {
            &&& args.len() > 0
            &&& args[0] matches Arg::String(class)
            &&& class_row(class@).is_some()
            &&& label@ == "National Insurance"@
            &&& function.bands@ == seq![
                M::nil(),
                M::fraction(242, 1),
                M::fraction(967, 1),
                M::utmost(),
            ]
            &&& function.rates@ == seq![
                M::nil(),
                class_rates::<M>(class_row(class@).unwrap()).0,
                class_rates::<M>(class_row(class@).unwrap()).1,
            ]
        },
        Err(Error::ArgumentMissing(name)) => args.len() == 0 && name@ == parameters[0]@,
        Err(Error::ArgumentInvalid(text)) => {
            &&& args.len() > 0
            &&& args[0] matches Arg::String(class)
            &&& class_row(class@).is_none()
            &&& text@ == class@
        },
        Err(Error::ArgumentInvalidType(name)) => {
            &&& args.len() > 0
            &&& args[0] is Number
            &&& name@ == parameters[0]@
        },
        Err(Error::UndefinedVariable(_)) => false,
    }
}

/// Whether `found` is what income tax gives: always its charge.
pub open spec fn inc_gives<M: Money>(found: Result<(String, Banding<M>), Error>) -> bool {
    match found {
        Ok((label, function)) => {
            &&& label@ == "Income Tax"@
            &&& function.bands@ == seq![
                M::nil(),
                M::fraction(12_570, 1),
                M::fraction(50_270, 1),
                M::fraction(125_140, 1),
                M::utmost(),
            ]
            &&& function.rates@ == seq![
                M::nil(),
                M::fraction(2, 10),
                M::fraction(4, 10),
                M::fraction(45, 100),
            ]
        },
        Err(_) => false,
    }
}

/// Whether `found` is what student finance gives for `args`, where
/// `parameters` starts with the name of its parameter.
///
/// For the number of a known plan: the charge above the threshold of that
/// plan. Without an argument, with a word, or with a number that is no
/// plan: the error that says so, with the name of the parameter or the
/// number.
pub open spec fn sfe_gives<M: Money>(
    args: Seq<Arg<M>>,
    parameters: Seq<&'static str>,
    found: Result<(String, Banding<M>), Error>,
) -> bool {
    match found {
        Ok((label, function)) => {
            &&& args.len() > 0
            &&& args[0] matches Arg::Number(number)
            &&& plan_of(number).is_some()
            &&& label@ == "Student Finance"@
            &&& function.bands@ == seq![
                M::nil(),
                M::fraction(plan_threshold(plan_of(number).unwrap()), 1),
                M::utmost(),
            ]
            &&& function.rates@ == seq![M::nil(), M::fraction(9, 100)]
        },
        Err(Error::ArgumentMissing(name)) => args.len() == 0 && name@ == parameters[0]@,
        Err(Error::ArgumentInvalid(text)) => {
            &&& args.len() > 0
            &&& args[0] matches Arg::Number(number)
            &&& plan_of(number).is_none()
            &&& text@ == number.text()@
        },
        Err(Error::ArgumentInvalidType(name)) => {
            &&& args.len() > 0
            &&& args[0] is String
            &&& name@ == parameters[0]@
        },
        Err(Error::UndefinedVariable(_)) => false,
    }
}

/// The row of a class of national insurance.
fn row_of_class(class: &str) -> (row: Option<u8>)
    ensures
        match row {
            Some(row) => class_row(class@) == Some(row as int),
            None => class_row(class@).is_none(),
        },
{
    if same(class, "A") {
        Some(0)
    } else if same(class, "B") {
        Some(1)
    } else if same(class, "C") {
        Some(2)
    } else if same(class, "F") {
        Some(0)
    } else if same(class, "H") {
        Some(0)
    } else if same(class, "I") {
        Some(1)
    } else if same(class, "J") {
        Some(3)
    } else if same(class, "L") {
        Some(3)
    } else if same(class, "M") {
        Some(0)
    } else if same(class, "S") {
        Some(2)
    } else if same(class, "V") {
        Some(0)
    } else if same(class, "Z") {
        Some(3)
    } else {
        None
    }
}

/// The rates in a row of the table of national insurance.
fn rates_of_row<M: Money>(row: u8) -> (rates: (M, M))
    ensures
        rates == class_rates::<M>(row as int),
{
    if row == 0 {
        (M::ratio(12, 100), M::ratio(2, 100))
    } else if row == 1 {
        (M::ratio(585, 10_000), M::ratio(2, 100))
    } else if row == 2 {
        (M::zero(), M::zero())
    } else {
        (M::ratio(2, 100), M::ratio(2, 100))
    }
}

/// The plan of student finance that a number names, with its threshold.
fn plan_of_number<M: Money>(number: M) -> (plan: Option<i64>)
    ensures
        match plan {
            Some(threshold) => plan_of(number).is_some() && threshold == plan_threshold(
                plan_of(number).unwrap(),
            ),
            None => plan_of(number).is_none(),
        },
{
    if number.is(M::ratio(1, 1)) {
        Some(22_015)
    } else if number.is(M::ratio(2, 1)) {
        Some(27_295)
    } else if number.is(M::ratio(4, 1)) {
        Some(27_660)
    } else if number.is(M::ratio(5, 1)) {
        Some(25_000)
    } else {
        None
    }
}

/// National insurance: a charge in three bands whose rates go by the class
/// that the first argument names.
pub fn ni<M: Money>(args: &Vec<Arg<M>>, names: &Vec<&'static str>) -> (found: Result<
    (String, Banding<M>),
    Error,
>)
    requires
        args@.len() == 0 || args@[0] is Number ==> names@.len() > 0,
    ensures
        ni_gives(args@, names@, found),
{
    if args.len() == 0 {
        return Err(Error::ArgumentMissing(names[0]));
    }
    let rates: (M, M) = match &args[0] {
        Arg::String(class) => match row_of_class(class.as_str()) {
            Some(row) => rates_of_row(row),
            None => {
                return Err(Error::ArgumentInvalid(class.clone()));
            },
        },
        Arg::Number(_) => {
            return Err(Error::ArgumentInvalidType(names[0]));
        },
    };
    let rates = vec![M::zero(), rates.0, rates.1];
    let bands = vec![M::zero(), M::ratio(242, 1), M::ratio(967, 1), M::most()];
    Ok(("National Insurance".to_owned(), banding(bands, rates)))
}

/// Income tax: a charge in four bands, the same for everybody.
pub fn inc<M: Money>(_args: &Vec<Arg<M>>, _names: &Vec<&'static str>) -> (found: Result<
    (String, Banding<M>),
    Error,
>)
    ensures
        inc_gives(found),
{
    let rates = vec![M::zero(), M::ratio(2, 10), M::ratio(4, 10), M::ratio(45, 100)];
    let bands = vec![
        M::zero(),
        M::ratio(12_570, 1),
        M::ratio(50_270, 1),
        M::ratio(125_140, 1),
        M::most(),
    ];
    Ok(("Income Tax".to_owned(), banding(bands, rates)))
}

/// Student finance: a charge on what lies above the threshold of the plan
/// whose number is the first argument.
pub fn sfe<M: Money>(args: &Vec<Arg<M>>, names: &Vec<&'static str>) -> (found: Result<
    (String, Banding<M>),
    Error,
>)
    requires
        args@.len() == 0 || args@[0] is String ==> names@.len() > 0,
    ensures
        sfe_gives(args@, names@, found),
{
    if args.len() == 0 {
        return Err(Error::ArgumentMissing(names[0]));
    }
    let band: i64 = match &args[0] {
        Arg::Number(number) => match plan_of_number(*number) {
            Some(band) => band,
            None => {
                return Err(Error::ArgumentInvalid(number.to_text()));
            },
        },
        Arg::String(_) => {
            return Err(Error::ArgumentInvalidType(names[0]));
        },
    };
    let rates = vec![M::zero(), M::ratio(9, 100)];
    let bands = vec![M::zero(), M::ratio(band, 1), M::most()];
    Ok(("Student Finance".to_owned(), banding(bands, rates)))
}

} // verus!
