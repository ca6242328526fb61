use renormalization_agent::{find_violations, ScaleInvariant};

/// Mean and standard deviation of values measured at different scales.
fn from_values(name: &str, values: &[f64]) -> ScaleInvariant<f64> {
    let n = values.len() as f64;
    let mean = if values.is_empty() { 0.0 } else { values.iter().sum::<f64>() / n };
    let deviation = if values.len() < 2 {
        0.0
    } else {
        (values.iter().map(|x| (x - mean).powi(2)).sum::<f64>() / n).sqrt()
    };
    ScaleInvariant { name: name.to_string(), value: mean, deviation_across_scales: deviation }
}

#[test]
fn find_violations_returns_bad() {
    let invariants = vec![
        from_values("good", &[1.0, 1.0, 1.0]),
        from_values("bad", &[1.0, 100.0, 1000.0]),
    ];
    let violations = find_violations(&invariants, |inv: &ScaleInvariant<f64>| {
        inv.deviation_across_scales < 0.5
    });
    assert_eq!(violations.len(), 1);
    assert_eq!(violations[0].name, "bad");
}

#[test]
fn find_violations_keeps_order() {
    let invariants: Vec<ScaleInvariant<u32>> = (0..6)
        .map(|i| ScaleInvariant { name: format!("q{i}"), value: i, deviation_across_scales: i % 3 })
        .collect();
    let violations = find_violations(&invariants, |inv: &ScaleInvariant<u32>| {
        inv.deviation_across_scales == 0
    });
    let names: Vec<&str> = violations.iter().map(|v| v.name.as_str()).collect();
    assert_eq!(names, vec!["q1", "q2", "q4", "q5"]);
    assert!(find_violations(&invariants[..0], |_: &ScaleInvariant<u32>| false).is_empty());
}

