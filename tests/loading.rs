use llama2_rs::config::Config;
use llama2_rs::sampler::Rng;
use llama2_rs::tensors::{padded_len, place, shape_matches, widened_offsets, Tensor, TensorError};

fn separate_config() -> Config {
    // dim 4, two heads of size 2, one key/value head, classifier not shared
    Config::new(4, 8, 2, 2, 1, -6, 8).unwrap()
}

const DENSE_LEN: usize = 348 + 24;

#[test]
fn xorshift_sequence_from_seed() {
    let mut rng = Rng::new(42);
    assert_eq!(rng.random_u32(), 1456360119);
    assert_eq!(rng.random_u32(), 3359763283);
    assert_eq!(rng.random_u32(), 3393612768);
    assert_eq!(rng.state, 142435135655313518);
}

#[test]
fn xorshift_24_bit_draws() {
    let mut rng = Rng::new(42);
    assert_eq!(rng.random_u24(), 1456360119 >> 8);
    let mut again = Rng::new(42);
    again.random_u32();
    assert_eq!(rng, again);
}

#[test]
fn shapes_follow_the_configuration() {
    let c = separate_config();
    assert!(shape_matches(Tensor::Embedding, &c, &[6, 4]));
    assert!(shape_matches(Tensor::Key, &c, &[2, 4]));
    assert!(shape_matches(Tensor::Down, &c, &[4, 8]));
    assert!(shape_matches(Tensor::Gate, &c, &[8, 4]));
    assert!(shape_matches(Tensor::FinalNorm, &c, &[4]));
    assert!(!shape_matches(Tensor::FinalNorm, &c, &[4, 1]));
    assert!(!shape_matches(Tensor::Query, &c, &[4, 2]));
}

#[test]
fn plain_tensor_is_copied_into_its_layer() {
    let c = separate_config();
    let mut data = vec![0u32; DENSE_LEN];
    let src: Vec<u32> = (1..=8).collect();
    place(&mut data, &c, Tensor::Value, 1, &src).unwrap();
    assert_eq!(&data[88..96], src.as_slice());
    assert!(data[..88].iter().all(|&x| x == 0));
    assert!(data[96..].iter().all(|&x| x == 0));
}

#[test]
fn query_rows_are_interleaved_per_head() {
    let c = separate_config();
    let mut data = vec![0u32; DENSE_LEN];
    // row r holds 10 * r .. 10 * r + 3
    let src: Vec<u32> = (0..4).flat_map(|r| (0..4).map(move |j| 10 * r + j)).collect();
    place(&mut data, &c, Tensor::Query, 0, &src).unwrap();
    // head size 2: each head's halves are one row each, so rows stay put
    assert_eq!(&data[32..48], src.as_slice());

    let c = Config::new(8, 8, 1, 2, 1, -6, 8).unwrap();
    let len = 48 + 8 + 64 + 32 + 32 + 64 + 8 + 64 + 64 + 64 + 8 + 32 + 48;
    let mut data = vec![0u32; len];
    let src: Vec<u32> = (0..8).flat_map(|r| (0..8).map(move |j| 100 * r + j)).collect();
    place(&mut data, &c, Tensor::Query, 0, &src).unwrap();
    let rows: Vec<u32> = (0..8).map(|r| data[56 + 8 * r] / 100).collect();
    assert_eq!(rows, [0, 2, 1, 3, 4, 6, 5, 7]);
    assert_eq!(data[56 + 8 + 5], 205);
}

#[test]
fn key_rows_are_interleaved_too() {
    let c = Config::new(8, 8, 1, 2, 1, -6, 8).unwrap();
    let len = 48 + 8 + 64 + 32 + 32 + 64 + 8 + 64 + 64 + 64 + 8 + 32 + 48;
    let mut data = vec![0u32; len];
    let src: Vec<u32> = (0..4).flat_map(|r| (0..8).map(move |j| 100 * r + j)).collect();
    place(&mut data, &c, Tensor::Key, 0, &src).unwrap();
    let rows: Vec<u32> = (0..4).map(|r| data[120 + 8 * r] / 100).collect();
    assert_eq!(rows, [0, 2, 1, 3]);
}

#[test]
fn classifier_goes_after_frequency_tables() {
    let c = separate_config();
    let mut data = vec![0u32; DENSE_LEN];
    let src: Vec<u32> = (1..=24).collect();
    place(&mut data, &c, Tensor::Classifier, 0, &src).unwrap();
    assert_eq!(&data[348..], src.as_slice());
}

#[test]
fn wrong_size_or_layer_is_refused() {
    let c = separate_config();
    let mut data = vec![0u32; DENSE_LEN];
    assert_eq!(place(&mut data, &c, Tensor::Up, 0, &[1, 2, 3]), Err(TensorError::Shape));
    assert_eq!(place(&mut data, &c, Tensor::AttnNorm, 2, &[1, 2, 3, 4]), Err(TensorError::Layer));
    assert!(data.iter().all(|&x| x == 0));
}

#[test]
fn widened_tensors_are_laid_end_to_end() {
    let offsets = widened_offsets(&[8, 4, 6], &[true, false, true]).unwrap();
    assert_eq!(offsets, vec![(0, 16), (16, 20), (20, 32)]);
    assert_eq!(widened_offsets(&[], &[]), Some(vec![]));
    assert_eq!(widened_offsets(&[usize::MAX / 2 + 1], &[true]), None);
    assert_eq!(padded_len(0), Some(0));
    assert_eq!(padded_len(13), Some(16));
    assert_eq!(padded_len(16), Some(16));
    assert_eq!(padded_len(usize::MAX - 3), None);
}
