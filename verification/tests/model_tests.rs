use gbm_pricer::binary64::Binary64;
use gbm_pricer::error::PricingError;
use gbm_pricer::model::{check_count, check_strike, GBM};
use gbm_pricer::selector::Mode;

fn num(x: f64) -> Binary64 {
    Binary64::from_bits(x.to_bits())
}

fn model(spot: f64, rate: f64, volatility: f64, maturity: f64, steps: usize) -> GBM {
    GBM {
        spot: num(spot),
        risk_free_rate: num(rate),
        volatility: num(volatility),
        time_to_maturity: num(maturity),
        steps,
    }
}

fn reference() -> GBM {
    model(100.0, 0.0, 0.2, 1.0, 100)
}

const REFUSED: Result<(), PricingError> = Err(PricingError::InvalidParameter);

#[test]
fn reference_parameters_are_accepted() {
    assert_eq!(reference().validate(), Ok(()));
    assert_eq!(reference().admit_batch(1), Ok(()));
    assert_eq!(reference().admit_simulation(100_000, num(120.0)), Ok(()));
    assert_eq!(reference().admit_analytic(num(120.0)), Ok(()));
}

#[test]
fn zero_volatility_is_refused_by_simulator_and_analytic_pricer() {
    let flat = model(100.0, 0.0, 0.0, 1.0, 100);
    assert_eq!(flat.validate(), REFUSED);
    assert_eq!(flat.admit_batch(1000), REFUSED);
    assert_eq!(flat.admit_simulation(1000, num(120.0)), REFUSED);
    assert_eq!(flat.admit_analytic(num(120.0)), REFUSED);
    assert_eq!(flat.admit_request(Mode::Full, 1000, num(120.0)), REFUSED);
    assert_eq!(flat.admit_request(Mode::AnalyticOnly, 1000, num(120.0)), REFUSED);
    assert_eq!(flat.admit_request(Mode::Batch, 1000, num(120.0)), REFUSED);
}

#[test]
fn negative_zero_volatility_is_refused() {
    assert_eq!(model(100.0, 0.0, -0.0, 1.0, 100).validate(), REFUSED);
}

#[test]
fn negative_volatility_is_refused() {
    assert_eq!(model(100.0, 0.0, -0.2, 1.0, 100).validate(), REFUSED);
}

#[test]
fn zero_or_negative_maturity_is_refused() {
    assert_eq!(model(100.0, 0.0, 0.2, 0.0, 100).validate(), REFUSED);
    assert_eq!(model(100.0, 0.0, 0.2, -1.0, 100).validate(), REFUSED);
    assert_eq!(model(100.0, 0.0, 0.2, 0.0, 100).admit_analytic(num(120.0)), REFUSED);
}

#[test]
fn zero_or_negative_spot_is_refused() {
    assert_eq!(model(0.0, 0.0, 0.2, 1.0, 100).validate(), REFUSED);
    assert_eq!(model(-100.0, 0.0, 0.2, 1.0, 100).validate(), REFUSED);
}

#[test]
fn zero_steps_are_refused() {
    assert_eq!(model(100.0, 0.0, 0.2, 1.0, 0).validate(), REFUSED);
    assert_eq!(model(100.0, 0.0, 0.2, 1.0, 1).validate(), Ok(()));
}

#[test]
fn any_finite_rate_is_accepted() {
    assert_eq!(model(100.0, -0.05, 0.2, 1.0, 100).validate(), Ok(()));
    assert_eq!(model(100.0, 0.0, 0.2, 1.0, 100).validate(), Ok(()));
    assert_eq!(model(100.0, -0.0, 0.2, 1.0, 100).validate(), Ok(()));
    assert_eq!(model(100.0, 7.5, 0.2, 1.0, 100).validate(), Ok(()));
}

#[test]
fn values_that_are_not_finite_are_refused() {
    for bad in [f64::NAN, f64::INFINITY, f64::NEG_INFINITY] {
        assert_eq!(model(bad, 0.0, 0.2, 1.0, 100).validate(), REFUSED);
        assert_eq!(model(100.0, bad, 0.2, 1.0, 100).validate(), REFUSED);
        assert_eq!(model(100.0, 0.0, bad, 1.0, 100).validate(), REFUSED);
        assert_eq!(model(100.0, 0.0, 0.2, bad, 100).validate(), REFUSED);
        assert_eq!(check_strike(num(bad)), REFUSED);
    }
}

#[test]
fn smallest_positive_values_are_accepted() {
    assert_eq!(model(5e-324, 0.0, 5e-324, 5e-324, 1).validate(), Ok(()));
}

#[test]
fn zero_trial_count_is_refused() {
    assert_eq!(check_count(0), REFUSED);
    assert_eq!(check_count(1), Ok(()));
    assert_eq!(check_count(usize::MAX), Ok(()));
    assert_eq!(reference().admit_batch(0), REFUSED);
    assert_eq!(reference().admit_simulation(0, num(120.0)), REFUSED);
}

#[test]
fn strike_must_be_finite_and_not_negative() {
    assert_eq!(check_strike(num(120.0)), Ok(()));
    assert_eq!(check_strike(num(0.0)), Ok(()));
    assert_eq!(check_strike(num(-0.0)), Ok(()));
    assert_eq!(check_strike(num(-1.0)), REFUSED);
    assert_eq!(check_strike(num(-5e-324)), REFUSED);
    assert_eq!(reference().admit_simulation(10, num(-120.0)), REFUSED);
    assert_eq!(reference().admit_analytic(num(-120.0)), REFUSED);
}

#[test]
fn trial_count_matters_only_where_the_mode_simulates() {
    let strike = num(120.0);
    assert_eq!(reference().admit_request(Mode::AnalyticOnly, 0, strike), Ok(()));
    assert_eq!(reference().admit_request(Mode::Full, 0, strike), REFUSED);
    assert_eq!(reference().admit_request(Mode::Batch, 0, strike), REFUSED);
    assert_eq!(reference().admit_request(Mode::Full, 1, strike), Ok(()));
    assert_eq!(reference().admit_request(Mode::Batch, 1, strike), Ok(()));
    assert_eq!(reference().admit_request(Mode::AnalyticOnly, 1, num(-1.0)), REFUSED);
}
