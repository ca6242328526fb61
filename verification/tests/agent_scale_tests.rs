use renormalization_agent::{AgentScaleMap, Relevance};

fn block_mean(block: &[f64]) -> f64 {
    block.iter().sum::<f64>() / block.len() as f64
}

fn mean_of(data: &[f64]) -> f64 {
    if data.is_empty() {
        0.0
    } else {
        data.iter().sum::<f64>() / data.len() as f64
    }
}

fn variance_of(data: &[f64]) -> f64 {
    if data.len() < 2 {
        0.0
    } else {
        let m = data.iter().sum::<f64>() / data.len() as f64;
        data.iter().map(|x| (x - m).powi(2)).sum::<f64>() / data.len() as f64
    }
}

fn total_of(data: &[f64]) -> f64 {
    data.iter().copied().sum()
}

fn scales_as_f64(map: &AgentScaleMap<f64>) -> Vec<f64> {
    map.scales().iter().map(|&s| s as f64).collect()
}

#[test]
fn agent_scale_coarse_grain_basic() {
    let data = vec![1.0; 16];
    let mut map = AgentScaleMap::new(data);
    map.coarse_grain_with(4, block_mean).unwrap();
    assert_eq!(map.current_data_len(), 4);
    assert_eq!(map.scales().len(), 2);
    assert_eq!(scales_as_f64(&map), vec![1.0, 4.0]);
}

#[test]
fn agent_scale_preserves_mean() {
    let data: Vec<f64> = (0..1024).map(|i| (i as f64 * 0.01).sin()).collect();
    let expected_mean = data.iter().sum::<f64>() / data.len() as f64;
    let mut map = AgentScaleMap::new(data);
    map.extract_with("mean", mean_of, 0.0);
    map.coarse_grain_with(4, block_mean).unwrap();
    map.extract_with("mean", mean_of, 0.0);
    let obs = map.observables().iter().find(|o| o.name == "mean").unwrap();
    // Mean should be approximately preserved
    assert!((obs.values[0] - obs.values[1]).abs() < 0.05);
    assert!((obs.values[0] - expected_mean).abs() < 0.01);
}

#[test]
fn agent_scale_total_sum_invariant() {
    let data = vec![2.0; 64];
    let mut map = AgentScaleMap::new(data);
    map.extract_with("total", total_of, 1.0);
    map.coarse_grain_with(4, block_mean).unwrap(); // 64 -> 16, means stay 2.0, total = 32
    map.extract_with("total", total_of, 1.0);
    let obs = map.observables().iter().find(|o| o.name == "total").unwrap();
    // After one coarse-grain: data = [2.0; 16], total = 32
    assert!((obs.values[0] - 128.0).abs() < 1e-12);
    assert!((obs.values[1] - 32.0).abs() < 1e-12);
}

#[test]
fn agent_scale_multiple_levels() {
    let data: Vec<f64> = (0..1024).map(|i| i as f64).collect();
    let mut map = AgentScaleMap::new(data);
    assert_eq!(map.num_scales(), 1);
    map.coarse_grain_with(4, block_mean).unwrap(); // 1024 -> 256
    assert_eq!(map.num_scales(), 2);
    map.coarse_grain_with(4, block_mean).unwrap(); // 256 -> 64
    assert_eq!(map.num_scales(), 3);
    assert_eq!(map.current_data_len(), 64);
}

#[test]
fn agent_scale_decimate() {
    let data: Vec<f64> = (0..100).map(|i| i as f64).collect();
    let mut map = AgentScaleMap::new(data);
    map.decimate(5).unwrap();
    assert_eq!(map.current_data_len(), 20);
    assert_eq!(map.tick_data()[0], 0.0);
    assert_eq!(map.tick_data()[1], 5.0);
}

#[test]
fn full_pipeline() {
    // Create tick data: noisy constant signal
    let tick_data: Vec<f64> = (0..4096).map(|i| 5.0 + 0.1 * ((i as f64 * 0.37).sin())).collect();

    let mut map = AgentScaleMap::new(tick_data);
    map.extract_with("mean", mean_of, 0.0);
    map.extract_with("var", variance_of, -2.0);

    // Coarse-grain through several levels
    for _ in 0..4 {
        map.coarse_grain_with(4, block_mean).unwrap();
        map.extract_with("mean", mean_of, 0.0);
        map.extract_with("var", variance_of, -2.0);
    }

    // Mean should stay near 5.0
    let mean_obs = map.observables().iter().find(|o| o.name == "mean").unwrap();
    assert_eq!(mean_obs.values.len(), 5);
    for &v in &mean_obs.values {
        assert!((v - 5.0).abs() < 0.1, "mean = {v}");
    }

    // Variance should decrease under coarse-graining
    let var_obs = map.observables().iter().find(|o| o.name == "var").unwrap();
    for i in 1..var_obs.values.len() {
        assert!(
            var_obs.values[i] <= var_obs.values[i - 1] + 0.01,
            "variance increased at level {i}"
        );
    }
}

#[test]
fn failed_transform_leaves_map_unchanged() {
    let mut map = AgentScaleMap::new(vec![1.0, 2.0, 3.0]);
    assert!(map.coarse_grain_with(4, block_mean).is_err());
    assert!(map.decimate(5).is_err());
    assert_eq!(map.tick_data(), &vec![1.0, 2.0, 3.0]);
    assert_eq!(map.scales(), &vec![1usize]);
}

#[test]
fn scales_multiply_and_stay_within_initial_length() {
    let mut map = AgentScaleMap::new((0..1000u32).collect::<Vec<u32>>());
    map.decimate(3).unwrap(); // 1000 -> 333
    map.decimate(7).unwrap(); // 333 -> 47
    map.decimate(2).unwrap(); // 47 -> 23
    assert_eq!(map.scales(), &vec![1usize, 3, 21, 42]);
    assert_eq!(map.current_data_len(), 23);
    assert!(42 * 23 <= 1000);
    // decimating by 3, 7, 2 keeps every 42nd tick
    let expected: Vec<u32> = (0..23).map(|i| i * 42).collect();
    assert_eq!(map.tick_data(), &expected);
}

#[test]
fn observables_are_keyed_by_name() {
    let mut map = AgentScaleMap::new(vec![1.0, 3.0]);
    map.extract_with("mean", mean_of, 0.0);
    map.extract_with("total", total_of, 1.0);
    map.extract_with("mean", mean_of, 5.0);
    let obs = map.observables();
    assert_eq!(obs.len(), 2);
    assert_eq!(obs[0].name, "mean");
    assert_eq!(obs[0].values, vec![2.0, 2.0]);
    // the dimension given when the observable was first recorded is kept
    assert_eq!(obs[0].scaling_dimension, 0.0);
    assert_eq!(obs[0].relevance, Relevance::Marginal);
    assert_eq!(obs[1].name, "total");
    assert_eq!(obs[1].values, vec![4.0]);
    assert_eq!(obs[1].scaling_dimension, 1.0);
}

#[test]
fn wavelet_coarse_grain_with_haar_reducer() {
    let haar = |b: &[f64]| {
        let mut v = 0.0;
        for (j, &x) in b.iter().enumerate() {
            v += if j % 2 == 0 { x } else { -x };
        }
        v / b.len() as f64
    };
    let mut map = AgentScaleMap::new(vec![4.0, 2.0, 1.0, 1.0, 9.0]);
    map.coarse_grain_with(2, haar).unwrap();
    assert_eq!(map.tick_data(), &vec![1.0, 0.0]);
    assert_eq!(map.scales(), &vec![1usize, 2]);
}
