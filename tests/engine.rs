use llama2_rs::config::Config;
use llama2_rs::kernel::{causal_softmax, gemm, rmsnorm, rmsnorm_inplace, swiglu, Real, Strided};
use llama2_rs::state::RotaryEmbedder;
use llama2_rs::transformer::{EngineError, Transformer};
use llama2_rs::weights::Weights;

#[derive(Clone, Copy, Debug, PartialEq)]
struct F(f32);

impl Real for F {
    fn zero_s() -> Self {
        Self::zero()
    }
    fn one_s() -> Self {
        Self::one()
    }
    fn add_s(self, o: Self) -> Self {
        self.plus(o)
    }
    fn sub_s(self, o: Self) -> Self {
        self.minus(o)
    }
    fn mul_s(self, o: Self) -> Self {
        self.times(o)
    }
    fn div_s(self, o: Self) -> Self {
        self.divide(o)
    }
    fn exp_s(self) -> Self {
        self.exp()
    }
    fn gt_s(self, o: Self) -> bool {
        self.greater(o)
    }
    fn sigmoid_s(self) -> Self {
        self.sigmoid()
    }
    fn rms_scale_s(sum_sq: Self, n: usize) -> Self {
        Self::rms_scale(sum_sq, n)
    }
    fn inv_sqrt_s(n: usize) -> Self {
        Self::inv_sqrt(n)
    }
    fn rotation_s(pos: usize, i: usize, head_size: usize) -> (Self, Self) {
        Self::rotation(pos, i, head_size)
    }
    fn zero() -> Self {
        F(0.)
    }
    fn one() -> Self {
        F(1.)
    }
    fn plus(self, o: Self) -> Self {
        F(self.0 + o.0)
    }
    fn minus(self, o: Self) -> Self {
        F(self.0 - o.0)
    }
    fn times(self, o: Self) -> Self {
        F(self.0 * o.0)
    }
    fn divide(self, o: Self) -> Self {
        F(self.0 / o.0)
    }
    fn exp(self) -> Self {
        F(self.0.exp())
    }
    fn greater(self, o: Self) -> bool {
        self.0 > o.0
    }
    fn sigmoid(self) -> Self {
        F(1. / (1. + (-self.0).exp()))
    }
    fn rms_scale(sum_sq: Self, n: usize) -> Self {
        F((sum_sq.0 / n as f32 + 1e-5).powf(-0.5))
    }
    fn inv_sqrt(n: usize) -> Self {
        F(1. / (n as f32).sqrt())
    }
    fn rotation(pos: usize, i: usize, head_size: usize) -> (Self, Self) {
        let freq = 1e4f32.powf(-(i as f32 / head_size as f32));
        let (sin, cos) = (pos as f32 * freq).sin_cos();
        (F(cos), F(sin))
    }
}

fn tiny_config(vocab_size: i32) -> Config {
    Config::new(4, 8, 1, 2, 1, vocab_size, 8).unwrap()
}

fn seeded(len: usize) -> Vec<F> {
    (0..len).map(|i| F(((i % 10) as f32 - 4.5) / 10.0)).collect()
}

fn tiny_model() -> Transformer<F> {
    let config = tiny_config(6);
    let weights = Weights::new(config, seeded(196)).unwrap();
    Transformer::new(weights)
}

fn close(a: &[F], b: &[F], eps: f32) -> bool {
    a.len() == b.len() && a.iter().zip(b).all(|(x, y)| (x.0 - y.0).abs() <= eps)
}

#[test]
fn rotation_preserves_norm() {
    let config = Config::new(8, 8, 1, 2, 1, 6, 16).unwrap();
    let embedder = RotaryEmbedder::<F>::new(&config);
    for pos in 0..16 {
        let mut data = [F(0.3), F(-1.7), F(2.5), F(0.25), F(-0.5), F(4.0), F(1.0), F(-2.0)];
        let before: Vec<f32> = data.chunks(2).map(|p| p[0].0 * p[0].0 + p[1].0 * p[1].0).collect();
        embedder.run(pos, &mut data);
        let after: Vec<f32> = data.chunks(2).map(|p| p[0].0 * p[0].0 + p[1].0 * p[1].0).collect();
        for (b, a) in before.iter().zip(&after) {
            assert!((b - a).abs() <= 1e-4 * b.max(1.0));
        }
    }
}

#[test]
fn rotation_at_position_zero_is_identity() {
    let config = tiny_config(6);
    let embedder = RotaryEmbedder::<F>::new(&config);
    let mut data = [F(0.5), F(-1.5), F(2.0), F(3.0)];
    embedder.run(0, &mut data);
    assert_eq!(data, [F(0.5), F(-1.5), F(2.0), F(3.0)]);
}

#[test]
fn rotation_by_known_angle() {
    // pair index 0 has frequency 1, so position 1 rotates by one radian
    let config = tiny_config(6);
    let embedder = RotaryEmbedder::<F>::new(&config);
    let mut data = [F(1.0), F(0.0)];
    embedder.run(1, &mut data);
    assert!((data[0].0 - 1f32.cos()).abs() < 1e-6);
    assert!((data[1].0 - 1f32.sin()).abs() < 1e-6);
}

#[test]
fn softmax_prefix_sums_to_one_and_tail_is_zero() {
    let mut row = vec![F(9.0), F(1.0), F(2.0), F(3.0), F(-1.0), F(7.0), F(8.0), F(9.0)];
    causal_softmax(&mut row, 1, 4, 6, F(0.0));
    assert_eq!(row[0], F(9.0));
    let sum: f32 = row[1..5].iter().map(|x| x.0).sum();
    assert!((sum - 1.0).abs() < 1e-6);
    assert_eq!(row[5], F(0.0));
    assert_eq!(row[6], F(0.0));
    assert_eq!(row[7], F(9.0));
    assert!(row[3].0 > row[2].0 && row[2].0 > row[1].0 && row[1].0 > row[4].0);
}

#[test]
fn softmax_of_single_column_is_one() {
    let mut row = vec![F(-3.0), F(5.0)];
    causal_softmax(&mut row, 0, 1, 2, F(0.0));
    assert_eq!(row, vec![F(1.0), F(0.0)]);
}

#[test]
fn gemm_with_transposed_view() {
    // a = [[1, 2], [3, 4]] read column-major, b = [5, 6]
    let a = [F(1.), F(3.), F(2.), F(4.)];
    let b = [F(5.), F(6.)];
    let mut c = vec![F(100.), F(100.), F(7.)];
    let va = Strided { offset: 0, row_stride: 1, col_stride: 2 };
    let vb = Strided { offset: 0, row_stride: 1, col_stride: 2 };
    let vc = Strided { offset: 0, row_stride: 1, col_stride: 2 };
    gemm(2, 2, 1, F(1.), &a, va, &b, vb, None, &mut c, vc);
    assert_eq!(c, vec![F(17.), F(39.), F(7.)]);
    gemm(2, 2, 1, F(2.), &a, va, &b, vb, Some(F(1.)), &mut c, vc);
    assert_eq!(c, vec![F(51.), F(117.), F(7.)]);
    // beta other than 0 or 1: c := 1 * a * b + 0.5 * c
    gemm(2, 2, 1, F(1.), &a, va, &b, vb, Some(F(0.5)), &mut c, vc);
    assert_eq!(c, vec![F(42.5), F(97.5), F(7.)]);
    // with no beta a NaN in c is not read
    let mut d = vec![F(f32::NAN), F(f32::NAN)];
    gemm(2, 2, 1, F(1.), &a, va, &b, vb, None, &mut d, Strided { offset: 0, row_stride: 1, col_stride: 2 });
    assert_eq!(d, vec![F(17.), F(39.)]);
}

#[test]
fn golden_logits_of_tiny_model() {
    let mut model = tiny_model();
    let logits = model.forward(0, 0).unwrap().to_vec();
    let expected = [
        0.2924192249774933f32,
        -0.09340368211269379,
        -0.013370022177696228,
        0.09950777143239975,
        -0.2863151431083679,
        0.2924192249774933,
    ];
    assert_eq!(logits.len(), 6);
    for (got, want) in logits.iter().zip(expected) {
        assert!((got.0 - want).abs() < 1e-5, "{} vs {}", got.0, want);
    }
}

#[test]
fn batched_update_matches_incremental() {
    let tokens = [1u32, 4, 2, 5];
    let mut batched = tiny_model();
    let all = batched.update(&tokens, 0).unwrap();
    let mut stepwise = tiny_model();
    let mut last = Vec::new();
    for (i, &t) in tokens.iter().enumerate() {
        last = stepwise.update(&[t], i as u32).unwrap();
    }
    assert_eq!(all.len(), tokens.len() * 4);
    assert!(close(&all[12..16], &last, 1e-5));
    let rows = tokens.len() * 2;
    for (a, b) in batched.layers.iter().zip(&stepwise.layers) {
        assert!(close(&a.k_cache[..rows], &b.k_cache[..rows], 1e-5));
        assert!(close(&a.v_cache[..rows], &b.v_cache[..rows], 1e-5));
        assert!(a.k_cache[rows..].iter().all(|x| x.0 == 0.));
    }
}

#[test]
fn earlier_positions_ignore_later_tokens() {
    let mut abc = tiny_model();
    let x_abc = abc.update(&[3, 1, 4], 0).unwrap();
    let mut abd = tiny_model();
    let x_abd = abd.update(&[3, 1, 0], 0).unwrap();
    let mut ab = tiny_model();
    let x_ab = ab.update(&[3, 1], 0).unwrap();
    let c = ab.update(&[4], 2).unwrap();
    assert!(close(&x_abc[4..8], &x_abd[4..8], 1e-6));
    assert!(close(&x_abc[4..8], &x_ab[4..8], 1e-6));
    assert!(close(&x_abc[8..12], &c, 1e-5));
    assert!(!close(&x_abc[8..12], &x_abd[8..12], 1e-6));
}

#[test]
fn write_past_capacity_is_refused() {
    let mut model = tiny_model();
    model.update(&[1, 2, 3, 4, 5, 1, 2], 0).unwrap();
    let k_before = model.layers[0].k_cache.clone();
    assert_eq!(model.update(&[1], 8), Err(EngineError::Capacity));
    assert_eq!(model.update(&[1, 2], 7), Err(EngineError::Capacity));
    assert_eq!(model.forward(1, 8).err(), Some(EngineError::Capacity));
    assert_eq!(model.layers[0].k_cache, k_before);
    assert!(model.update(&[1], 7).is_ok());
}

#[test]
fn unknown_token_is_refused() {
    let mut model = tiny_model();
    assert_eq!(model.update(&[1, 6], 0), Err(EngineError::UnknownToken));
    assert!(model.layers[0].k_cache.iter().all(|x| x.0 == 0.));
    assert_eq!(model.forward(9, 0).err(), Some(EngineError::UnknownToken));
}

#[test]
fn empty_batch_changes_nothing() {
    let mut model = tiny_model();
    assert_eq!(model.update(&[], 3), Ok(Vec::new()));
    assert!(model.layers[0].v_cache.iter().all(|x| x.0 == 0.));
}

#[test]
fn forward_writes_one_cache_row() {
    let mut model = tiny_model();
    model.forward(2, 3).unwrap();
    let k = &model.layers[0].k_cache;
    assert!(k[..6].iter().all(|x| x.0 == 0.));
    assert!(k[6..8].iter().any(|x| x.0 != 0.));
    assert!(k[8..].iter().all(|x| x.0 == 0.));
    assert_eq!(model.vocab_size(), 6);
}

#[test]
fn rmsnorm_of_zero_row_is_zero() {
    let x = vec![F(0.); 4];
    let mut out = vec![F(7.); 4];
    rmsnorm(&mut out, &x, &[F(1.), F(2.), F(3.), F(4.)], 1);
    assert_eq!(out, vec![F(0.); 4]);
}

#[test]
fn rmsnorm_scales_each_row() {
    // row [3, 4]: mean square 12.5, scale (12.5 + 1e-5)^-0.5
    let x = vec![F(3.), F(4.), F(0.), F(2.)];
    let mut out = vec![F(0.); 4];
    rmsnorm(&mut out, &x, &[F(1.), F(0.5)], 2);
    let s = (12.5f32 + 1e-5).powf(-0.5);
    assert!((out[0].0 - 3. * s).abs() < 1e-6);
    assert!((out[1].0 - 2. * s).abs() < 1e-6);
    let s2 = (2f32 + 1e-5).powf(-0.5);
    assert!((out[3].0 - s2).abs() < 1e-6);
    let mut y = x.clone();
    rmsnorm_inplace(&mut y, &[F(1.), F(0.5)], 2);
    assert!(close(&y, &out, 1e-6));
}

#[test]
fn swiglu_gates_with_silu() {
    let mut h = vec![F(1.), F(-2.), F(3.), F(0.5)];
    swiglu(&mut h, 2, 2);
    let silu = |x: f32| x / (1. + (-x).exp());
    assert!((h[0].0 - silu(1.) * 3.).abs() < 1e-6);
    assert!((h[1].0 - silu(-2.) * 0.5).abs() < 1e-6);
    assert_eq!(&h[2..], &[F(3.), F(0.5)]);
}
