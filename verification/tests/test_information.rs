use ko::discrete_distribution::DiscreteProbabilityDistribution;
use ko::discrete_information::{
    discrete_entropy, discrete_jensen_shannon_divergence, discrete_kullback_leibler_divergence,
    joint_entropy, mutual_information,
};
use ko::fixed::{fx_mul, ONE};
use ko::fixed_log::{LN_2, LOG2_E};
use ko::information_unit::InformationUnit;
use ko::joint_distribution::joint_distribution;

fn fx(x: f64) -> i64 {
    (x * ONE as f64).round() as i64
}

fn fl(x: i64) -> f64 {
    x as f64 / ONE as f64
}

fn fxs(xs: &[f64]) -> Vec<i64> {
    xs.iter().map(|&x| fx(x)).collect()
}

#[test]
fn test_discrete_entropy() {
    let tolerance: f64 = 1e-10;
    let multinomial: DiscreteProbabilityDistribution<i32> =
        DiscreteProbabilityDistribution::multinomial(fxs(&[0.5, 0.5])).unwrap();
    let entropy: f64 = fl(discrete_entropy(&multinomial).to_float());
    assert!(entropy > 0.);
    assert!((entropy - 1.).abs() < tolerance);
}

#[test]
fn test_discrete_kullback_leibler_divergence() {
    let tolerance: f64 = 1e-10;
    let multinomial: DiscreteProbabilityDistribution<i32> =
        DiscreteProbabilityDistribution::multinomial(fxs(&[0.5, 0.5])).unwrap();
    let divergence_value: f64 = fl(discrete_kullback_leibler_divergence(&multinomial, &multinomial)
        .unwrap()
        .to_float());
    assert!(divergence_value >= 0.);
    assert!((divergence_value - 0.).abs() < tolerance);
}

#[test]
fn test_discrete_jensen_shannon_divergence() {
    let tolerance: f64 = 1e-10;
    let multinomial: DiscreteProbabilityDistribution<i32> =
        DiscreteProbabilityDistribution::multinomial(fxs(&[0.5, 0.5])).unwrap();
    let divergence_value: f64 = fl(discrete_jensen_shannon_divergence(&multinomial, &multinomial)
        .unwrap()
        .to_float());
    assert!(divergence_value >= 0.);
    assert!((divergence_value - 0.).abs() < tolerance);
}

#[test]
fn test_information_unit() {
    let bit: InformationUnit = InformationUnit::Bit(fx(1.));
    let nat: InformationUnit = InformationUnit::Nat(fx(1.));
    assert_eq!(bit.to_bits().to_float(), bit.to_float());
    assert_eq!(nat.to_nats().to_float(), nat.to_float());
    assert_eq!(bit.to_float() + bit.to_float(), (bit + bit).to_float());
    assert_eq!(nat.to_float() + nat.to_float(), (nat + nat).to_float());
    assert_eq!(bit.to_nats().to_bits().to_float(), bit.to_float());
    assert_eq!(nat.to_bits().to_nats().to_float(), nat.to_float());
    assert_eq!(nat.to_float(), fx_mul(LN_2, nat.to_bits().to_float()));
}

#[test]
fn units_convert_by_the_logarithm_constants() {
    let nat = InformationUnit::Nat(2 * ONE);
    assert!(matches!(nat.to_bits(), InformationUnit::Bit(x) if x == 2 * LOG2_E));
    let bit = InformationUnit::Bit(2 * ONE);
    assert!(matches!(bit.to_nats(), InformationUnit::Nat(x) if x == 2 * LN_2));
    assert!((fl(LOG2_E) - 1.4427).abs() < 1e-4);
}

#[test]
fn mixed_sums_and_differences_are_in_bits_either_way() {
    let bit = InformationUnit::Bit(ONE);
    let nat = InformationUnit::Nat(ONE);
    assert!(matches!(bit + nat, InformationUnit::Bit(x) if x == ONE + LOG2_E));
    assert!(matches!(nat + bit, InformationUnit::Bit(x) if x == ONE + LOG2_E));
    assert!(matches!(bit - nat, InformationUnit::Bit(x) if x == ONE - LOG2_E));
    assert!(matches!(nat - bit, InformationUnit::Bit(x) if x == LOG2_E - ONE));
    assert!(matches!(nat - nat, InformationUnit::Nat(0)));
    assert!(matches!(nat.plus(nat), InformationUnit::Nat(x) if x == 2 * ONE));
    assert!(matches!(bit.minus(bit), InformationUnit::Bit(0)));
}

#[test]
fn apply_keeps_the_unit() {
    let halved = InformationUnit::Nat(3 * ONE).apply(|x| x / 2);
    assert!(matches!(halved, InformationUnit::Nat(x) if x == 3 * ONE / 2));
    let doubled = InformationUnit::Bit(3 * ONE).apply(|x| x * 2);
    assert!(matches!(doubled, InformationUnit::Bit(x) if x == 6 * ONE));
}

#[test]
fn entropy_of_a_uniform_distribution_over_a_power_of_two_is_exact() {
    for k in 0..=10u32 {
        let n = 1usize << k;
        let dist =
            DiscreteProbabilityDistribution::multinomial(vec![ONE / n as i64; n]).unwrap();
        assert_eq!(discrete_entropy(&dist).to_float(), k as i64 * ONE);
    }
}

#[test]
fn entropy_ignores_outcomes_of_probability_zero() {
    let dist = DiscreteProbabilityDistribution::multinomial(fxs(&[0.5, 0.0, 0.5, 0.0])).unwrap();
    assert_eq!(discrete_entropy(&dist).to_float(), ONE);
    let certain = DiscreteProbabilityDistribution::multinomial(fxs(&[1.0, 0.0])).unwrap();
    assert_eq!(discrete_entropy(&certain).to_float(), 0);
}

#[test]
fn entropy_agrees_with_the_reals() {
    let probabilities = [0.1, 0.2, 0.3, 0.4];
    let dist = DiscreteProbabilityDistribution::multinomial(fxs(&probabilities)).unwrap();
    let want: f64 = -probabilities.iter().map(|p| p * p.log2()).sum::<f64>();
    assert!((fl(discrete_entropy(&dist).to_float()) - want).abs() < 1e-13);
}

#[test]
fn divergence_agrees_with_the_reals() {
    let x = DiscreteProbabilityDistribution::multinomial(fxs(&[0.5, 0.5])).unwrap();
    let y = DiscreteProbabilityDistribution::multinomial(fxs(&[0.75, 0.25])).unwrap();
    let want = 0.5 * (0.5f64 / 0.75).log2() + 0.5 * (0.5f64 / 0.25).log2();
    let got = fl(discrete_kullback_leibler_divergence(&x, &y).unwrap().to_float());
    assert!((got - want).abs() < 1e-13, "{} vs {}", got, want);
    let m = [0.625, 0.375];
    let js = 0.5
        * (0.5 * (0.5f64 / m[0]).log2()
            + 0.5 * (0.5f64 / m[1]).log2()
            + 0.75 * (0.75f64 / m[0]).log2()
            + 0.25 * (0.25f64 / m[1]).log2());
    let got = fl(discrete_jensen_shannon_divergence(&x, &y).unwrap().to_float());
    assert!((got - js).abs() < 1e-13, "{} vs {}", got, js);
}

#[test]
fn divergence_of_far_apart_probabilities() {
    // the ratio 0.5 / 1e-5 lies beyond the number range; its logarithm does not
    let x = DiscreteProbabilityDistribution::new(vec![0, 1], fxs(&[0.5, 0.5])).unwrap();
    let y = DiscreteProbabilityDistribution::new(vec![0, 1], fxs(&[1e-5, 1.0 - 1e-5])).unwrap();
    let want = 0.5 * (0.5f64 / 1e-5).log2() + 0.5 * (0.5f64 / (1.0 - 1e-5)).log2();
    let got = fl(discrete_kullback_leibler_divergence(&x, &y).unwrap().to_float());
    assert!((got - want).abs() < 1e-13, "{} vs {}", got, want);
}

#[test]
fn divergence_is_infinite_where_the_reference_gives_no_mass() {
    let x = DiscreteProbabilityDistribution::new(vec![0, 1], fxs(&[0.5, 0.5])).unwrap();
    let y = DiscreteProbabilityDistribution::new(vec![0], fxs(&[1.0])).unwrap();
    assert!(discrete_kullback_leibler_divergence(&x, &y).is_none());
    // the other way round the divergence is finite: log2(1 / 0.5) = 1
    let back = discrete_kullback_leibler_divergence(&y, &x).unwrap();
    assert_eq!(back.to_float(), ONE);
    // the average gives mass wherever either does
    assert!(discrete_jensen_shannon_divergence(&x, &y).is_some());
}

#[test]
fn jensen_shannon_divergence_of_disjoint_distributions_is_one_bit() {
    let x = DiscreteProbabilityDistribution::new(vec![0], fxs(&[1.0])).unwrap();
    let y = DiscreteProbabilityDistribution::new(vec![1], fxs(&[1.0])).unwrap();
    assert_eq!(
        discrete_jensen_shannon_divergence(&x, &y).unwrap().to_float(),
        ONE
    );
}

#[test]
fn jensen_shannon_divergence_fails_on_repeated_outcomes() {
    let doubled = DiscreteProbabilityDistribution::new(vec![1, 1], fxs(&[0.5, 0.5])).unwrap();
    assert!(discrete_jensen_shannon_divergence(&doubled, &doubled).is_none());
    let kl = discrete_kullback_leibler_divergence(&doubled, &doubled).unwrap();
    assert_eq!(kl.to_float(), 0);
}

#[test]
fn mutual_information_of_independent_variables_vanishes() {
    let a = DiscreteProbabilityDistribution::multinomial(fxs(&[0.1, 0.2, 0.7])).unwrap();
    let b = DiscreteProbabilityDistribution::multinomial(fxs(&[0.3, 0.3, 0.15, 0.25])).unwrap();
    let joint = joint_distribution(&vec![a.clone(), b.clone()]).unwrap();
    let information = mutual_information(&a, &b, &joint);
    assert!(matches!(information, InformationUnit::Bit(_)));
    assert!(fl(information.to_float()).abs() < 1e-12);
    let dyadic = DiscreteProbabilityDistribution::multinomial(fxs(&[0.5, 0.25, 0.25])).unwrap();
    let joint = joint_distribution(&vec![dyadic.clone(), dyadic.clone()]).unwrap();
    assert_eq!(mutual_information(&dyadic, &dyadic, &joint).to_float(), 0);
}

#[test]
fn mutual_information_of_a_variable_with_itself_is_its_entropy() {
    let a = DiscreteProbabilityDistribution::multinomial(fxs(&[0.5, 0.5])).unwrap();
    let diagonal =
        DiscreteProbabilityDistribution::new(vec![vec![0, 0], vec![1, 1]], fxs(&[0.5, 0.5]))
            .unwrap();
    assert_eq!(mutual_information(&a, &a, &diagonal).to_float(), ONE);
}

#[test]
fn joint_entropy_adds_the_entropies_of_independent_variables() {
    let a = DiscreteProbabilityDistribution::multinomial(fxs(&[0.5, 0.5])).unwrap();
    let b = DiscreteProbabilityDistribution::multinomial(fxs(&[0.25, 0.25, 0.25, 0.25])).unwrap();
    assert_eq!(joint_entropy(a, b).unwrap().to_float(), 3 * ONE);
}
