use hypertune::distribution::{
    CategoricalDistribution, Distributions, ExternalRepr, IntUniformDistribution,
    LogUniformDistribution, UniformDistribution,
};
use hypertune::error::Error;
use hypertune::scalar::Scalar;
use rand::distributions::Uniform;
use rand::Rng;

fn num(x: f64) -> Scalar {
    Scalar::from_bits(x.to_bits())
}

fn abc() -> Vec<String> {
    vec!["a".to_string(), "b".to_string(), "c".to_string()]
}

#[test]
fn int_uniform_round_trip() {
    let d = IntUniformDistribution::new(0, 10);
    for n in 0..=10 {
        assert_eq!(d.to_external_repr(d.to_internal_repr(n)), n);
    }
    assert_eq!(d.to_external_repr(d.to_internal_repr(7)), 7);
}

#[test]
fn int_uniform_round_trip_on_wide_bounds() {
    let d = IntUniformDistribution::new(-(1 << 53), 1 << 53);
    for n in [-(1i64 << 53), -12345678901234, -1, 0, 1, 987654321, 1 << 53] {
        assert_eq!(d.to_external_repr(d.to_internal_repr(n)), n);
    }
}

#[test]
fn int_uniform_internal_is_the_float() {
    let d = IntUniformDistribution::new(0, 10);
    assert_eq!(f64::from_bits(d.to_internal_repr(7).to_bits()), 7.0);
    assert_eq!(d.to_external_repr(num(7.9)), 7);
    assert_eq!(d.to_external_repr(num(-7.9)), -7);
}

#[test]
fn int_uniform_keeps_its_bounds() {
    let d = IntUniformDistribution::new(-3, 4);
    assert_eq!(d.low, -3);
    assert_eq!(d.high, 4);
}

#[test]
fn uniform_is_the_identity() {
    let d = UniformDistribution::new(num(0.0), num(10.0));
    assert_eq!(d.to_internal_repr(num(3.25)), num(3.25));
    assert_eq!(d.to_external_repr(num(3.25)), num(3.25));
    assert_eq!(d.low, num(0.0));
    assert_eq!(d.high, num(10.0));
}

#[test]
fn log_uniform_is_the_identity() {
    let d = LogUniformDistribution::new(num(1.0), num(100.0));
    assert_eq!(d.to_internal_repr(num(42.5)), num(42.5));
    assert_eq!(d.to_external_repr(num(42.5)), num(42.5));
}

#[test]
fn categorical_label_to_position() {
    let d = CategoricalDistribution::new(abc());
    assert_eq!(f64::from_bits(d.to_internal_repr("a".to_string()).to_bits()), 0.0);
    assert_eq!(f64::from_bits(d.to_internal_repr("b".to_string()).to_bits()), 1.0);
    assert_eq!(f64::from_bits(d.to_internal_repr("c".to_string()).to_bits()), 2.0);
}

#[test]
fn categorical_unknown_label_falls_back_to_zero() {
    let d = CategoricalDistribution::new(abc());
    assert_eq!(f64::from_bits(d.to_internal_repr("zzz".to_string()).to_bits()), 0.0);
}

#[test]
fn categorical_first_occurrence_counts() {
    let d = CategoricalDistribution::new(vec![
        "x".to_string(),
        "y".to_string(),
        "y".to_string(),
    ]);
    assert_eq!(f64::from_bits(d.to_internal_repr("y".to_string()).to_bits()), 1.0);
}

#[test]
fn categorical_position_to_label() {
    let d = CategoricalDistribution::new(abc());
    assert_eq!(d.to_external_repr(num(0.0)), "a");
    assert_eq!(d.to_external_repr(num(1.0)), "b");
    assert_eq!(d.to_external_repr(num(2.0)), "c");
    assert_eq!(d.to_external_repr(num(2.9)), "c");
    assert_eq!(d.choice(1), "b");
}

#[test]
fn categorical_round_trip() {
    let d = CategoricalDistribution::new(abc());
    for label in abc() {
        assert_eq!(d.to_external_repr(d.to_internal_repr(label.clone())), label);
    }
}

#[test]
fn categorical_clone_keeps_the_labels() {
    let d = CategoricalDistribution::new(abc());
    let e = d.clone();
    assert_eq!(e.choices, abc());
    assert_eq!(hypertune::distribution::copy_labels(&abc()), abc());
}

#[test]
fn check_accepts_well_formed_distributions() {
    assert_eq!(Distributions::IntUni(IntUniformDistribution::new(0, 10)).check(), Ok(()));
    assert_eq!(Distributions::IntUni(IntUniformDistribution::new(5, 5)).check(), Ok(()));
    assert_eq!(
        Distributions::Uni(UniformDistribution::new(num(0.0), num(10.0))).check(),
        Ok(())
    );
    assert_eq!(
        Distributions::LogUni(LogUniformDistribution::new(num(1.0), num(100.0))).check(),
        Ok(())
    );
    assert_eq!(Distributions::Categorical(CategoricalDistribution::new(abc())).check(), Ok(()));
}

#[test]
fn check_refuses_malformed_distributions() {
    let bad = Err(Error::Configuration);
    assert_eq!(Distributions::IntUni(IntUniformDistribution::new(10, 0)).check(), bad);
    assert_eq!(Distributions::Uni(UniformDistribution::new(num(1.0), num(0.0))).check(), bad);
    assert_eq!(
        Distributions::Uni(UniformDistribution::new(num(f64::NAN), num(0.0))).check(),
        bad
    );
    assert_eq!(
        Distributions::LogUni(LogUniformDistribution::new(num(0.0), num(1.0))).check(),
        bad
    );
    assert_eq!(
        Distributions::LogUni(LogUniformDistribution::new(num(-1.0), num(1.0))).check(),
        bad
    );
    assert_eq!(
        Distributions::LogUni(LogUniformDistribution::new(num(2.0), num(1.0))).check(),
        bad
    );
    assert_eq!(Distributions::Categorical(CategoricalDistribution::new(vec![])).check(), bad);
}

#[test]
fn any_kind_converts_back() {
    let i = Distributions::IntUni(IntUniformDistribution::new(0, 10));
    assert!(matches!(i.to_external_repr(num(4.0)), ExternalRepr::Int(4)));
    let u = Distributions::Uni(UniformDistribution::new(num(0.0), num(1.0)));
    assert!(matches!(u.to_external_repr(num(0.5)), ExternalRepr::Float(x) if x == num(0.5)));
    let l = Distributions::LogUni(LogUniformDistribution::new(num(1.0), num(2.0)));
    assert!(matches!(l.to_external_repr(num(1.5)), ExternalRepr::Float(x) if x == num(1.5)));
    let c = Distributions::Categorical(CategoricalDistribution::new(abc()));
    assert!(matches!(c.to_external_repr(num(2.0)), ExternalRepr::Str(s) if s == "c"));
    assert!(matches!(c.clone().to_external_repr(num(1.0)), ExternalRepr::Str(s) if s == "b"));
}

#[test]
fn admits_asks_labels_for_a_position_of_the_list() {
    let c = Distributions::Categorical(CategoricalDistribution::new(abc()));
    assert!(c.admits(num(0.0)));
    assert!(c.admits(num(2.0)));
    assert!(c.admits(num(2.5)));
    assert!(c.admits(num(-1.0)));
    assert!(c.admits(num(f64::NAN)));
    assert!(!c.admits(num(3.0)));
    assert!(!c.admits(num(1e300)));
    assert!(!c.admits(num(f64::INFINITY)));
    let empty = Distributions::Categorical(CategoricalDistribution::new(vec![]));
    assert!(!empty.admits(num(0.0)));
    let i = Distributions::IntUni(IntUniformDistribution::new(0, 10));
    assert!(i.admits(num(1e300)));
}

#[test]
fn uniform_contains_its_range() {
    let d = UniformDistribution::new(num(0.0), num(10.0));
    assert!(d.contains(num(0.0)));
    assert!(d.contains(num(-0.0)));
    assert!(d.contains(num(10.0)));
    assert!(d.contains(num(3.3)));
    assert!(!d.contains(num(10.000001)));
    assert!(!d.contains(num(-0.000001)));
    assert!(!d.contains(num(f64::NAN)));
    assert!(!d.contains(num(f64::INFINITY)));
}

#[test]
fn uniform_draws_stay_within_the_bounds() {
    let d = UniformDistribution::new(num(0.0), num(10.0));
    let mut rng = rand::thread_rng();
    let dice = Uniform::from(0.0f64..=10.0f64);
    for _ in 0..10_000 {
        let x: f64 = rng.sample(dice);
        assert!(d.contains(num(x)));
        assert_eq!(d.to_external_repr(d.to_internal_repr(num(x))), num(x));
    }
}

#[test]
fn log_uniform_draws_are_positive_and_within_the_bounds() {
    let d = LogUniformDistribution::new(num(1.0), num(100.0));
    let mut rng = rand::thread_rng();
    let dice = Uniform::from(1.0f64.ln()..=100.0f64.ln());
    for _ in 0..10_000 {
        let u: f64 = rng.sample(dice);
        let x = u.exp().clamp(1.0, 100.0);
        assert!(d.contains(num(x)));
        assert!(Scalar::zero().lt(num(x)));
    }
    assert!(!d.contains(num(0.5)));
    assert!(!d.contains(num(100.5)));
}
