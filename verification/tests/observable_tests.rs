use renormalization_agent::{Observable, Relevance};

/// The ratio rule: relevant when last/first exceeds the threshold,
/// irrelevant below its inverse, marginal otherwise or when first is ~0.
fn ratio_rule(threshold: f64) -> impl Fn(&f64, &f64) -> Relevance {
    move |first: &f64, last: &f64| {
        if first.abs() < 1e-14 {
            return Relevance::Marginal;
        }
        let ratio = last / first;
        if ratio > threshold {
            Relevance::Relevant
        } else if ratio < 1.0 / threshold {
            Relevance::Irrelevant
        } else {
            Relevance::Marginal
        }
    }
}

#[test]
fn observable_classify_relevant() {
    let mut obs = Observable::new("x", vec![1.0, 2.0, 4.0, 8.0], 0.0);
    obs.classify_with(ratio_rule(2.0));
    assert_eq!(obs.relevance, Relevance::Relevant);
}

#[test]
fn observable_classify_irrelevant() {
    let mut obs = Observable::new("x", vec![8.0, 4.0, 2.0, 1.0], 0.0);
    obs.classify_with(ratio_rule(2.0));
    assert_eq!(obs.relevance, Relevance::Irrelevant);
}

#[test]
fn observable_classify_marginal() {
    let mut obs = Observable::new("x", vec![1.0, 1.1, 0.9, 1.05], 0.0);
    obs.classify_with(ratio_rule(2.0));
    assert_eq!(obs.relevance, Relevance::Marginal);
}

#[test]
fn observable_classify_single_value() {
    let mut obs = Observable::new("x", vec![1.0], 0.0);
    obs.classify_with(ratio_rule(2.0));
    assert_eq!(obs.relevance, Relevance::Marginal);
}

#[test]
fn classify_short_series_ignores_rule() {
    let mut obs: Observable<f64> = Observable::new("empty", vec![], 1.0);
    obs.relevance = Relevance::Relevant;
    obs.classify_with(|_: &f64, _: &f64| Relevance::Irrelevant);
    assert_eq!(obs.relevance, Relevance::Marginal);
}

#[test]
fn classify_uses_first_and_last_values_only() {
    let mut obs = Observable::new("x", vec![3u32, 100, 0, 7], 2u32);
    obs.classify_with(|a: &u32, b: &u32| {
        assert_eq!((*a, *b), (3, 7));
        Relevance::Irrelevant
    });
    assert_eq!(obs.relevance, Relevance::Irrelevant);
    assert_eq!(obs.values, vec![3, 100, 0, 7]);
    assert_eq!(obs.scaling_dimension, 2);
    assert_eq!(obs.name, "x");
}

#[test]
fn new_observable_is_marginal() {
    let obs = Observable::new("energy", vec![1.5, 2.5], -2.0);
    assert_eq!(obs.name, "energy");
    assert_eq!(obs.values, vec![1.5, 2.5]);
    assert_eq!(obs.relevance, Relevance::Marginal);
    assert_eq!(obs.scaling_dimension, -2.0);
}
