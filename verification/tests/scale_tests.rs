use renormalization_agent::{RgError, ScaleTransform};

fn block_mean(block: &[f64]) -> f64 {
    block.iter().sum::<f64>() / block.len() as f64
}

fn haar_mean(block: &[f64]) -> f64 {
    let mut val = 0.0;
    for (j, &x) in block.iter().enumerate() {
        let sign = if j % 2 == 0 { 1.0 } else { -1.0 };
        val += sign * x;
    }
    val / block.len() as f64
}

#[test]
fn block_average_constant_data() {
    let st = ScaleTransform::block_average(4);
    let data = vec![5.0; 16];
    let out = st.apply_blockwise(&data, block_mean).unwrap();
    assert_eq!(out.len(), 4);
    assert!(out.iter().all(|&v| (v - 5.0).abs() < 1e-12));
}

#[test]
fn block_average_linear_data() {
    let st = ScaleTransform::block_average(2);
    let data: Vec<f64> = (0..8).map(|i| i as f64).collect();
    let out = st.apply_blockwise(&data, block_mean).unwrap();
    // blocks: [0,1]->0.5, [2,3]->2.5, [4,5]->4.5, [6,7]->6.5
    assert_eq!(out, vec![0.5, 2.5, 4.5, 6.5]);
}

#[test]
fn block_average_insufficient_data() {
    let st = ScaleTransform::block_average(10);
    let data = vec![1.0, 2.0, 3.0];
    let err = st.apply_blockwise(&data, block_mean);
    assert!(err.is_err());
}

#[test]
fn decimation_keeps_first() {
    let st = ScaleTransform::decimation(3);
    let data: Vec<f64> = (0..9).map(|i| i as f64).collect();
    let out = st.decimation_apply(&data).unwrap();
    assert_eq!(out, vec![0.0, 3.0, 6.0]);
}

#[test]
fn decimation_insufficient() {
    let st = ScaleTransform::decimation(5);
    let data = vec![1.0];
    assert!(st.decimation_apply(&data).is_err());
}

#[test]
fn wavelet_constant_data() {
    let st = ScaleTransform::block_average(2);
    let data = vec![3.0; 8];
    // Haar: (3 - 3)/2 = 0 for every block
    let out = st.apply_blockwise(&data, haar_mean).unwrap();
    assert!(out.iter().all(|&v| v.abs() < 1e-12));
}

#[test]
fn wavelet_alternating() {
    let st = ScaleTransform::block_average(2);
    let data = vec![1.0, -1.0, 1.0, -1.0, 1.0, -1.0];
    // (1 - (-1))/2 = 1.0 for each block
    let out = st.apply_blockwise(&data, haar_mean).unwrap();
    assert_eq!(out, vec![1.0, 1.0, 1.0]);
}

#[test]
fn block_average_constructor_fields() {
    let st = ScaleTransform::block_average(7);
    assert_eq!(st.input_scale, 1);
    assert_eq!(st.output_scale, 7);
    assert_eq!(st.block_size, 7);
    assert!(st.transform_matrix.is_empty());
}

#[test]
fn decimation_constructor_matrix() {
    let st = ScaleTransform::decimation(4);
    assert_eq!(st.input_scale, 1);
    assert_eq!(st.output_scale, 4);
    assert_eq!(st.transform_matrix, vec![vec![1u8, 0, 0, 0]]);
    let one = ScaleTransform::decimation(1);
    assert_eq!(one.transform_matrix, vec![vec![1u8]]);
}

#[test]
fn block_count_reports_needed_and_got() {
    let st = ScaleTransform::block_average(4);
    assert_eq!(st.block_count(10).unwrap(), 2);
    assert_eq!(st.block_count(4).unwrap(), 1);
    match st.block_count(3) {
        Err(RgError::InsufficientData { needed, got }) => {
            assert_eq!(needed, 4);
            assert_eq!(got, 3);
        }
        other => panic!("unexpected {:?}", other),
    }
}

#[test]
fn blockwise_drops_partial_trailing_block() {
    // 10 samples in blocks of 4: two full blocks, the last two samples are dropped
    let st = ScaleTransform::block_average(4);
    let data: Vec<u64> = (0..10).collect();
    let out = st.apply_blockwise(&data, |b: &[u64]| b.iter().sum::<u64>()).unwrap();
    assert_eq!(out, vec![0 + 1 + 2 + 3, 4 + 5 + 6 + 7]);
}

#[test]
fn blocks_tile_the_data_prefix() {
    // the blocks handed to the reducer, concatenated, are the data up to the remainder
    let st = ScaleTransform::block_average(3);
    let data: Vec<u64> = (0..11).collect();
    let blocks = st.apply_blockwise(&data, |b: &[u64]| b.to_vec()[0] * 100 + b.len() as u64);
    assert_eq!(blocks.unwrap(), vec![3, 303, 603]);
    let seen = std::cell::RefCell::new(Vec::new());
    let _ = st.apply_blockwise(&data, |b: &[u64]| {
        seen.borrow_mut().extend_from_slice(b);
        0
    });
    assert_eq!(seen.into_inner(), (0..9).collect::<Vec<u64>>());
}

#[test]
fn decimation_composes() {
    let data: Vec<u32> = (0..100).collect();
    let twice = ScaleTransform::decimation(3)
        .decimation_apply(&ScaleTransform::decimation(2).decimation_apply(&data).unwrap())
        .unwrap();
    let once = ScaleTransform::decimation(6).decimation_apply(&data).unwrap();
    assert_eq!(twice, once);
    assert_eq!(once, vec![0, 6, 12, 18, 24, 30, 36, 42, 48, 54, 60, 66, 72, 78, 84, 90]);
}

#[test]
fn decimation_exact_length_and_error_values() {
    let st = ScaleTransform::decimation(5);
    assert_eq!(st.decimation_apply(&[7u8, 8, 9, 10, 11]).unwrap(), vec![7u8]);
    match st.decimation_apply(&[1u8, 2]) {
        Err(RgError::InsufficientData { needed, got }) => {
            assert_eq!((needed, got), (5, 2));
        }
        other => panic!("unexpected {:?}", other),
    }
}
