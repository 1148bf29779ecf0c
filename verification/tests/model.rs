use llm::attention::MultiHeadSelfAttention;
use llm::batch::get_batch;
use llm::block::Block;
use llm::dropout::{
    chunk_seed, dropout, dropout_backward, dropout_mask_values, mask_entry, mask_from_seed,
    InvalidRate, DROPOUT_CHUNK_SIZE,
};
use llm::feed_forward::FeedForward;
use llm::generation::GenerateError;
use llm::grid::TokenArray;
use llm::layer_norm::LayerNorm;
use llm::linear::{column_sums, Linear};
use llm::loss::{cross_entropy_loss, token_loss};
use llm::model::{scatter_add, GptConfig, GptLanguageModel};
use llm::optim::{spread, AdamW, Param1D, Param2D};
use llm::params::parameter_count;
use llm::random::rng_from_seed;
use llm::reduce::{matmul, matmul_transposed, mean_of, softmax_slice, sum, transposed_matmul};
use llm::scalar::Real;
use llm::tensor::{Tensor2, Tensor3};
use llm::training::{
    estimate_loss, train_random_batch, training_config, training_optimizer, BATCH_SIZE, BLOCK_SIZE,
    SEED,
};
use rand::rngs::SmallRng;
use rand::{RngExt, SeedableRng};
use rand_distr::weighted::WeightedIndex;
use rand_distr::Distribution;

#[derive(Clone, Copy, Debug, PartialEq)]
struct F32(f32);

impl Real for F32 {
    fn zero() -> F32 {
        F32(0.0)
    }

    fn one() -> F32 {
        F32(1.0)
    }

    fn negative_infinity() -> F32 {
        F32(f32::NEG_INFINITY)
    }

    fn from_count(n: usize) -> F32 {
        F32(n as f32)
    }

    fn decimal(digits: u32, places: u32) -> F32 {
        F32(format!("{digits}e-{places}").parse().unwrap())
    }

    fn plus(self, rhs: F32) -> F32 {
        F32(self.0 + rhs.0)
    }

    fn minus(self, rhs: F32) -> F32 {
        F32(self.0 - rhs.0)
    }

    fn times(self, rhs: F32) -> F32 {
        F32(self.0 * rhs.0)
    }

    fn over(self, rhs: F32) -> F32 {
        F32(self.0 / rhs.0)
    }

    fn negate(self) -> F32 {
        F32(-self.0)
    }

    fn sqrt(self) -> F32 {
        F32(self.0.sqrt())
    }

    fn exp(self) -> F32 {
        F32(self.0.exp())
    }

    fn ln(self) -> F32 {
        F32(self.0.ln())
    }

    fn larger(self, rhs: F32) -> F32 {
        F32(self.0.max(rhs.0))
    }

    fn less(self, rhs: F32) -> bool {
        self.0 < rhs.0
    }

    fn at_most(self, rhs: F32) -> bool {
        self.0 <= rhs.0
    }

    fn equals(self, rhs: F32) -> bool {
        self.0 == rhs.0
    }

    fn uniform(rng: &SmallRng) -> (F32, SmallRng) {
        let mut next = rng.clone();
        let drawn: f32 = next.random();
        (F32(drawn), next)
    }

    fn pick(weights: &Vec<F32>, rng: &SmallRng) -> (Option<usize>, SmallRng) {
        let mut next = rng.clone();
        let picked = match WeightedIndex::new(weights.iter().map(|w| w.0)) {
            Ok(distribution) => Some(distribution.sample(&mut next)),
            Err(_) => None,
        };
        (picked, next)
    }
}

fn values(items: &[F32]) -> Vec<f32> {
    items.iter().map(|x| x.0).collect()
}

fn numbers(items: &[f32]) -> Vec<F32> {
    items.iter().map(|x| F32(*x)).collect()
}

fn cube(outer: usize, inner: usize, width: usize, items: &[f32]) -> Tensor3<F32> {
    assert_eq!(items.len(), outer * inner * width);
    Tensor3 {
        outer,
        inner,
        flat: Tensor2 {
            rows: outer * inner,
            cols: width,
            data: numbers(items),
        },
    }
}

fn table(rows: usize, cols: usize, items: &[usize]) -> TokenArray {
    TokenArray::from_shape_vec(rows, cols, items.to_vec()).unwrap()
}

fn small_config(dropout: f32) -> GptConfig<F32> {
    GptConfig {
        vocab_size: 7,
        block_size: 4,
        n_embd: 8,
        n_head: 2,
        n_layer: 1,
        dropout: F32(dropout),
    }
}

fn small_model(dropout: f32) -> (GptLanguageModel<F32>, SmallRng) {
    let mut rng = rng_from_seed(SEED);
    let model = GptLanguageModel::new(small_config(dropout), &mut rng);
    (model, rng)
}

#[test]
fn softmax_is_stable_and_normalized() {
    let mut probs = numbers(&[1000.0, 1001.0, 999.0]);
    softmax_slice(&mut probs);
    let sum: f32 = probs.iter().map(|p| p.0).sum();

    assert!(probs.iter().all(|p| p.0.is_finite() && p.0 > 0.0));
    assert!((sum - 1.0).abs() < 1e-6);
}

#[test]
fn dropout_is_disabled_during_eval_and_scaled_during_training() {
    let mut rng = rng_from_seed(SEED);
    let input = cube(2, 2, 2, &[1.0; 8]);

    let (eval_output, eval_mask) = dropout(&input, F32(0.5), false, &mut rng).unwrap();
    assert!(eval_mask.is_none());
    assert_eq!(eval_output.flat.data, input.flat.data);
    assert_eq!((eval_output.outer, eval_output.inner), (2, 2));

    let (train_output, train_mask) = dropout(&input, F32(0.5), true, &mut rng).unwrap();
    let train_mask = train_mask.unwrap();
    let product: Vec<F32> = input
        .flat
        .data
        .iter()
        .zip(train_mask.flat.data.iter())
        .map(|(x, m)| F32(x.0 * m.0))
        .collect();
    assert_eq!(train_output.flat.data, product);
    assert!(train_mask
        .flat
        .data
        .iter()
        .all(|value| value.0 == 0.0 || (value.0 - 2.0).abs() < 1e-6));
}

#[test]
fn cross_entropy_gradients_sum_to_zero_per_token() {
    let mut logits = cube(2, 3, 5, &[0.0; 30]);
    let targets = table(2, 3, &[0, 1, 2, 3, 4, 0]);
    let (loss, grad) = cross_entropy_loss(&mut logits, &targets);

    assert!((loss.0 - (5.0f32).ln()).abs() < 1e-6);
    for b in 0..2 {
        for t in 0..3 {
            let row_sum: f32 = (0..5).map(|c| grad.get(b, t, c).0).sum();
            assert!(row_sum.abs() < 1e-6);
        }
    }
}

#[test]
fn gpt_forward_backward_and_generation_work() {
    let mut rng = rng_from_seed(SEED);
    let config = small_config(0.2);
    let mut model = GptLanguageModel::new(config, &mut rng);
    let mut optimizer = AdamW::new(F32(1e-3), F32(0.0));
    let input = table(2, 4, &[0, 1, 2, 3, 1, 2, 3, 4]);
    let targets = table(2, 4, &[1, 2, 3, 4, 2, 3, 4, 5]);

    let loss = model
        .train_batch(&input, &targets, &mut optimizer, &mut rng)
        .unwrap();
    let generated = model.generate(&[0], 5, &mut rng).unwrap();

    assert!(loss.0.is_finite());
    assert_eq!(generated.len(), 6);
    assert!(generated.iter().all(|token| *token < config.vocab_size));
}

#[test]
fn adamw_decays_only_matrix_weights() {
    let mut rng = rng_from_seed(SEED);
    let config = small_config(0.0);
    let mut model = GptLanguageModel::new(config, &mut rng);
    model
        .blocks
        .first_mut()
        .unwrap()
        .attention
        .proj
        .bias
        .as_mut()
        .unwrap()
        .value
        .fill(F32(1.0));

    let token_embedding = model.token_embedding.value.data.clone();
    let position_embedding = model.position_embedding.value.data.clone();
    let ln_gamma = model.blocks[0].ln1.gamma.value.clone();
    let proj_bias = model.blocks[0]
        .attention
        .proj
        .bias
        .as_ref()
        .unwrap()
        .value
        .clone();
    let qkv_weight = model.blocks[0].attention.qkv.weight.value.data.clone();

    model.zero_grad();
    let mut optimizer = AdamW::new(F32(1e-3), F32(0.1));
    model.step(&mut optimizer);

    assert_eq!(model.token_embedding.value.data, token_embedding);
    assert_eq!(model.position_embedding.value.data, position_embedding);
    assert_eq!(model.blocks[0].ln1.gamma.value, ln_gamma);
    assert_eq!(
        model.blocks[0].attention.proj.bias.as_ref().unwrap().value,
        proj_bias
    );
    assert_ne!(
        model.blocks[0].attention.qkv.weight.value.data,
        qkv_weight
    );
}

#[test]
fn idle_matrices_shrink_by_the_decay_factor() {
    let (mut model, _) = small_model(0.0);
    let before = values(&model.lm_head.weight.value.data);
    model.zero_grad();
    let mut optimizer = AdamW::new(F32(0.5), F32(0.5));
    model.step(&mut optimizer);
    let after = values(&model.lm_head.weight.value.data);
    for (x, y) in before.iter().zip(after.iter()) {
        assert_eq!(*y, *x * 0.75);
    }
}

#[test]
fn softmax_of_two_is_exact() {
    let mut probs = numbers(&[0.0, (3.0f32).ln()]);
    softmax_slice(&mut probs);
    assert!((probs[0].0 - 0.25).abs() < 1e-6);
    assert!((probs[1].0 - 0.75).abs() < 1e-6);

    let mut none: Vec<F32> = Vec::new();
    softmax_slice(&mut none);
    assert!(none.is_empty());

    let mut masked = numbers(&[2.0, f32::NEG_INFINITY]);
    softmax_slice(&mut masked);
    assert_eq!(values(&masked), vec![1.0, 0.0]);
}

#[test]
fn cross_entropy_of_known_logits() {
    let mut logits = cube(1, 2, 2, &[0.0, (3.0f32).ln(), 5.0, 5.0]);
    let targets = table(1, 2, &[0, 1]);
    let (loss, grad) = cross_entropy_loss(&mut logits, &targets);
    let expected = ((4.0f32).ln() + (2.0f32).ln()) / 2.0;
    assert!((loss.0 - expected).abs() < 1e-6);
    let wanted = [-0.375, 0.375, 0.25, -0.25];
    for (g, w) in values(&grad.flat.data).iter().zip(wanted.iter()) {
        assert!((*g - *w).abs() < 1e-6);
    }
    let probs = [0.25, 0.75, 0.5, 0.5];
    for (p, w) in values(&logits.flat.data).iter().zip(probs.iter()) {
        assert!((*p - *w).abs() < 1e-6);
    }
}

#[test]
fn impossible_targets_have_a_bounded_loss() {
    assert_eq!(token_loss(F32(0.0)).0, -(1e-12f32).ln());
    assert_eq!(token_loss(F32(1.0)).0, 0.0);
}

#[test]
fn mask_entries_are_zero_or_one_over_the_kept_share() {
    assert_eq!(mask_entry(F32(0.1), F32(0.25)).0, 4.0);
    assert_eq!(mask_entry(F32(0.25), F32(0.25)).0, 0.0);
    assert_eq!(mask_entry(F32(0.9), F32(0.25)).0, 0.0);

    let mask = mask_from_seed(10_000, F32(0.5), 42);
    assert_eq!(mask.len(), 10_000);
    let kept = mask.iter().filter(|m| m.0 == 2.0).count();
    assert!(mask.iter().all(|m| m.0 == 0.0 || m.0 == 2.0));
    assert!((4_500..5_500).contains(&kept));
}

#[test]
fn chunks_of_a_mask_come_from_seeds_of_their_own() {
    assert_eq!(chunk_seed(77, 0), 77);
    assert_eq!(chunk_seed(0, 1), 0x9E37_79B9_7F4A_7C15);
    assert_eq!(chunk_seed(5, 2), 5 ^ 0x3C6E_F372_FE94_F82A);
    assert_eq!(DROPOUT_CHUNK_SIZE, 4096);

    let mask = mask_from_seed(2 * DROPOUT_CHUNK_SIZE + 3, F32(0.5), 7);
    for chunk in 0..3 {
        let mut rng = SmallRng::seed_from_u64(chunk_seed(7, chunk));
        let start = chunk * DROPOUT_CHUNK_SIZE;
        let end = mask.len().min(start + DROPOUT_CHUNK_SIZE);
        for entry in &mask[start..end] {
            let drawn: f32 = rng.random();
            assert_eq!(entry.0, if drawn < 0.5 { 2.0 } else { 0.0 });
        }
    }
    assert_ne!(mask[..4096], mask[4096..8192]);
}

#[test]
fn mask_values_take_their_base_seed_from_the_generator() {
    let mut rng = rng_from_seed(3);
    let mask = dropout_mask_values(100, F32(0.5), &mut rng);
    let mut again = SmallRng::seed_from_u64(3);
    let base: u64 = again.random();
    assert_eq!(mask, mask_from_seed(100, F32(0.5), base));
    assert_eq!(rng, again);
}

#[test]
fn dropout_refuses_rates_outside_the_unit_interval() {
    let mut rng = rng_from_seed(1);
    let input = cube(1, 1, 2, &[1.0, 2.0]);
    for rate in [1.0, 1.5, -0.1, f32::NAN] {
        assert!(matches!(
            dropout(&input, F32(rate), true, &mut rng),
            Err(InvalidRate)
        ));
        let (output, mask) = dropout(&input, F32(rate), false, &mut rng).unwrap();
        assert!(mask.is_none());
        assert_eq!(values(&output.flat.data), vec![1.0, 2.0]);
    }
    let (output, mask) = dropout(&input, F32(0.0), true, &mut rng).unwrap();
    assert!(mask.is_none());
    assert_eq!(values(&output.flat.data), vec![1.0, 2.0]);
}

#[test]
fn dropout_gradients_pass_through_the_mask() {
    let grad = cube(1, 1, 3, &[1.0, 2.0, 3.0]);
    let mask = Some(cube(1, 1, 3, &[2.0, 0.0, 2.0]));
    assert_eq!(
        values(&dropout_backward(&mask, &grad).flat.data),
        vec![2.0, 0.0, 6.0]
    );
    assert_eq!(
        values(&dropout_backward(&None, &grad).flat.data),
        vec![1.0, 2.0, 3.0]
    );
}

#[test]
fn sums_and_products_of_matrices() {
    assert_eq!(sum(&numbers(&[1.0, 2.0, 4.0])).0, 7.0);
    assert_eq!(mean_of(&numbers(&[1.0, 2.0, 6.0])).0, 3.0);
    let a = Tensor2 {
        rows: 2,
        cols: 2,
        data: numbers(&[1.0, 2.0, 3.0, 4.0]),
    };
    let b = Tensor2 {
        rows: 2,
        cols: 2,
        data: numbers(&[5.0, 6.0, 7.0, 8.0]),
    };
    assert_eq!(values(&matmul(&a, &b).data), vec![19.0, 22.0, 43.0, 50.0]);
    assert_eq!(
        values(&matmul_transposed(&a, &b).data),
        vec![17.0, 23.0, 39.0, 53.0]
    );
    assert_eq!(
        values(&transposed_matmul(&a, &b).data),
        vec![26.0, 30.0, 38.0, 44.0]
    );
    assert_eq!(values(&column_sums(&a)), vec![4.0, 6.0]);
}

#[test]
fn products_keep_the_order_of_many_rows() {
    let rows = 500;
    let a = Tensor2 {
        rows,
        cols: 1,
        data: (0..rows).map(|r| F32(r as f32)).collect(),
    };
    let two = Tensor2 {
        rows: 1,
        cols: 1,
        data: numbers(&[2.0]),
    };
    let product = matmul(&a, &two);
    for r in 0..rows {
        assert_eq!(product.get(r, 0).0, 2.0 * r as f32);
    }
}

#[test]
fn linear_layers_multiply_and_shift() {
    let mut layer = Linear {
        weight: Param2D::from_value(Tensor2 {
            rows: 2,
            cols: 3,
            data: numbers(&[1.0, 2.0, 3.0, 4.0, 5.0, 6.0]),
        }),
        bias: Some(Param1D::from_value(numbers(&[0.5, 0.0, -0.5]))),
    };
    let input = cube(1, 2, 2, &[1.0, 1.0, 2.0, 0.0]);
    let output = layer.forward(&input);
    assert_eq!(
        values(&output.flat.data),
        vec![5.5, 7.0, 8.5, 2.5, 4.0, 5.5]
    );

    let grad_output = cube(1, 2, 3, &[1.0, 0.0, 0.0, 0.0, 1.0, 1.0]);
    let grad_input = layer.backward(&input, &grad_output);
    assert_eq!(values(&grad_input.flat.data), vec![1.0, 4.0, 5.0, 11.0]);
    assert_eq!(
        values(&layer.weight.grad.data),
        vec![1.0, 2.0, 2.0, 1.0, 0.0, 0.0]
    );
    assert_eq!(
        values(&layer.bias.as_ref().unwrap().grad),
        vec![1.0, 1.0, 1.0]
    );
    layer.backward(&input, &grad_output);
    assert_eq!(
        values(&layer.weight.grad.data),
        vec![2.0, 4.0, 4.0, 2.0, 0.0, 0.0]
    );
    layer.zero_grad();
    assert_eq!(values(&layer.weight.grad.data), vec![0.0; 6]);
    assert_eq!(values(&layer.bias.unwrap().grad), vec![0.0; 3]);
}

#[test]
fn going_back_through_a_linear_layer_is_the_transpose() {
    let mut rng = rng_from_seed(11);
    let mut layer: Linear<F32> = Linear::new(3, 2, true, &mut rng);
    layer.bias.as_mut().unwrap().value = numbers(&[0.5, -1.5]);
    let input = cube(1, 1, 3, &[1.0, -2.0, 0.5]);
    let grad_output = cube(1, 1, 2, &[3.0, -1.0]);
    let output = layer.forward(&input);
    let grad_input = layer.backward(&input, &grad_output);
    let dot = |a: &[F32], b: &[F32]| -> f32 { a.iter().zip(b).map(|(x, y)| x.0 * y.0).sum() };
    let through = dot(&grad_output.flat.data, &output.flat.data);
    let back = dot(&input.flat.data, &grad_input.flat.data);
    let shift = dot(&grad_output.flat.data, &numbers(&[0.5, -1.5]));
    assert!((through - (back + shift)).abs() < 1e-6);
}

#[test]
fn layer_norm_centres_and_scales_rows() {
    let mut layer: LayerNorm<F32> = LayerNorm::new(2);
    assert_eq!(layer.eps.0, 1e-5);
    layer.beta.value = numbers(&[10.0, 20.0]);
    layer.gamma.value = numbers(&[1.0, 2.0]);
    let input = cube(1, 1, 2, &[1.0, 3.0]);
    let (output, cache) = layer.forward(&input);
    let inv_std = 1.0 / (1.0f32 + 1e-5).sqrt();
    assert_eq!(values(&cache.x_hat.flat.data), vec![-inv_std, inv_std]);
    assert_eq!(values(&cache.inv_std.data), vec![inv_std]);
    assert_eq!(
        values(&output.flat.data),
        vec![10.0 - inv_std, 20.0 + 2.0 * inv_std]
    );
    let row_sum: f32 = cache.x_hat.flat.data.iter().map(|x| x.0).sum();
    assert!(row_sum.abs() < 1e-6);
}

#[test]
fn heads_are_packed_and_unpacked() {
    let mut rng = rng_from_seed(5);
    let layer: MultiHeadSelfAttention<F32> = MultiHeadSelfAttention::new(4, 2, 3, &mut rng);
    let items: Vec<f32> = (0..2 * 3 * 12).map(|x| x as f32).collect();
    let qkv = cube(2, 3, 12, &items);
    let (q, k, v) = layer.pack_qkv(&qkv);
    assert_eq!((q.outer, q.inner, q.flat.cols), (4, 3, 2));
    // Sequence 1, head 1, row 2: columns 2 and 3 of the queries, 6 and 7 of the keys.
    let base = (1.0 * 3.0 + 2.0) * 12.0;
    assert_eq!(q.get(3, 2, 0).0, base + 2.0);
    assert_eq!(q.get(3, 2, 1).0, base + 3.0);
    assert_eq!(k.get(3, 2, 0).0, base + 6.0);
    assert_eq!(v.get(3, 2, 1).0, base + 11.0);
    let joined = layer.unpack_qkv_grads(&q, &k, &v, 2, 3);
    assert_eq!(joined.flat.data, qkv.flat.data);
    let (q2, k2, v2) = layer.pack_qkv(&joined);
    assert_eq!(q2.flat.data, q.flat.data);
    assert_eq!(k2.flat.data, k.flat.data);
    assert_eq!(v2.flat.data, v.flat.data);
}

#[test]
fn attention_gives_no_weight_to_later_positions() {
    let mut rng = rng_from_seed(5);
    let layer: MultiHeadSelfAttention<F32> = MultiHeadSelfAttention::new(4, 2, 3, &mut rng);
    let items: Vec<f32> = (0..12).map(|x| (x as f32) * 0.25 - 1.0).collect();
    let input = cube(1, 3, 4, &items);
    let (_, cache) = layer.forward(&input, false, F32(0.5), &mut rng).unwrap();
    for head in 0..2 {
        for i in 0..3 {
            let mut total = 0.0;
            for j in 0..3 {
                let p = cache.att_probs.get(head, i, j).0;
                if j > i {
                    assert_eq!(p, 0.0);
                } else {
                    assert!(p > 0.0);
                }
                total += p;
            }
            assert!((total - 1.0).abs() < 1e-6);
        }
    }
    assert_eq!(cache.att_probs.get(0, 0, 0).0, 1.0);
}

#[test]
fn later_tokens_do_not_change_earlier_logits() {
    let (model, mut rng) = small_model(0.0);
    let (one, _) = model
        .forward(&table(1, 4, &[0, 1, 2, 3]), false, &mut rng)
        .unwrap();
    let (two, _) = model
        .forward(&table(1, 4, &[0, 1, 6, 5]), false, &mut rng)
        .unwrap();
    for t in 0..2 {
        for c in 0..7 {
            assert_eq!(one.get(0, t, c), two.get(0, t, c));
        }
    }
    assert_ne!(one.flat.row_vec(2), two.flat.row_vec(2));
}

#[test]
fn moments_and_powers_of_the_optimizer() {
    let mut optimizer = AdamW::new(F32(0.5), F32(0.0));
    assert_eq!(
        (optimizer.beta1.0, optimizer.beta2.0, optimizer.eps.0),
        (0.9, 0.999, 1e-8)
    );
    let step = optimizer.next_step();
    assert_eq!(step.beta1_correction.0, 1.0 - 0.9);
    assert_eq!(step.beta2_correction.0, 1.0 - 0.999f32);
    let mut param = Param1D::from_value(numbers(&[1.0]));
    param.grad = numbers(&[2.0]);
    param.step(step);
    assert!((param.m[0].0 - 0.2).abs() < 1e-6);
    assert!((param.v[0].0 - 0.004).abs() < 1e-6);
    assert!((param.value[0].0 - 0.5).abs() < 1e-4);
    assert_eq!(values(&param.grad), vec![2.0]);
    optimizer.next_step();
    assert_eq!(optimizer.beta1_pow.0, 0.9f32 * 0.9);
    assert_eq!(optimizer.beta2_pow.0, 0.999f32 * 0.999);
}

#[test]
fn new_matrices_are_spread_around_zero() {
    assert_eq!(spread(F32(0.0), F32(0.02)).0, -0.02);
    assert_eq!(spread(F32(0.5), F32(0.02)).0, 0.0);
    assert_eq!(spread(F32(0.75), F32(0.5)).0, 0.25);
    let mut rng = rng_from_seed(9);
    let param: Param2D<F32> = Param2D::rand(3, 4, F32(0.02), &mut rng);
    let mut again = SmallRng::seed_from_u64(9);
    for value in &param.value.data {
        let drawn: f32 = again.random();
        assert_eq!(value.0, (drawn * 2.0 - 1.0) * 0.02);
    }
    assert_eq!(rng, again);
    assert_eq!(values(&param.grad.data), vec![0.0; 12]);
    assert_eq!(values(&param.m.data), vec![0.0; 12]);
    assert_eq!(values(&param.v.data), vec![0.0; 12]);
}

#[test]
fn rectified_rows_go_through_the_feed_forward_layer() {
    let mut rng = rng_from_seed(2);
    let mut layer: FeedForward<F32> = FeedForward::new(1, &mut rng);
    layer.fc1.weight.value.data = numbers(&[1.0, -1.0, 2.0, 0.0]);
    layer.fc2.weight.value.data = numbers(&[1.0, 10.0, 100.0, 1000.0]);
    let input = cube(1, 2, 1, &[3.0, -2.0]);
    let (output, cache) = layer.forward(&input, false, F32(0.0), &mut rng).unwrap();
    assert_eq!(
        values(&cache.hidden.flat.data),
        vec![3.0, 0.0, 6.0, 0.0, 0.0, 2.0, 0.0, 0.0]
    );
    assert_eq!(values(&output.flat.data), vec![603.0, 20.0]);
    let grad_input = layer.backward(&cache, &cube(1, 2, 1, &[1.0, 1.0]));
    // The rectifier passes gradients where its input is above zero.
    assert_eq!(values(&grad_input.flat.data), vec![201.0, -10.0]);
}

#[test]
fn embedding_gradients_are_scattered_to_their_rows() {
    let mut grad = Tensor2 {
        rows: 3,
        cols: 2,
        data: numbers(&[1.0, 1.0, 0.0, 0.0, 5.0, 5.0]),
    };
    let rows = Tensor2 {
        rows: 3,
        cols: 2,
        data: numbers(&[1.0, 2.0, 3.0, 4.0, 5.0, 6.0]),
    };
    scatter_add(&mut grad, &vec![2, 0, 2], &rows);
    assert_eq!(
        values(&grad.data),
        vec![4.0, 5.0, 0.0, 0.0, 11.0, 13.0]
    );
}

#[test]
fn training_starts_from_cleared_gradients() {
    let (mut one, mut rng_one) = small_model(0.2);
    let (mut two, mut rng_two) = small_model(0.2);
    two.lm_head.weight.grad.data.fill(F32(7.0));
    two.token_embedding.grad.data.fill(F32(7.0));
    two.blocks[0].ln1.gamma.grad.fill(F32(7.0));
    let mut optimizer_one = AdamW::new(F32(1e-3), F32(0.01));
    let mut optimizer_two = AdamW::new(F32(1e-3), F32(0.01));
    let input = table(2, 4, &[0, 1, 2, 3, 1, 2, 3, 4]);
    let targets = table(2, 4, &[1, 2, 3, 4, 2, 3, 4, 5]);
    let loss_one = one
        .train_batch(&input, &targets, &mut optimizer_one, &mut rng_one)
        .unwrap();
    let loss_two = two
        .train_batch(&input, &targets, &mut optimizer_two, &mut rng_two)
        .unwrap();
    assert_eq!(loss_one, loss_two);
    assert_eq!(one.lm_head.weight.value.data, two.lm_head.weight.value.data);
    assert_eq!(
        one.token_embedding.value.data,
        two.token_embedding.value.data
    );
    assert_eq!(
        one.blocks[0].ln1.gamma.value,
        two.blocks[0].ln1.gamma.value
    );
}

#[test]
fn gradients_do_not_change_the_logits() {
    let (mut model, mut rng) = small_model(0.0);
    let input = table(1, 3, &[0, 1, 2]);
    let (before, cache) = model.forward(&input, false, &mut rng).unwrap();
    let weights = model.lm_head.weight.value.data.clone();
    let grad = cube(1, 3, 7, &[0.5; 21]);
    model.backward(&cache, &grad);
    assert!(model.lm_head.weight.grad.data.iter().any(|g| g.0 != 0.0));
    assert_eq!(model.lm_head.weight.value.data, weights);
    let (after, _) = model.forward(&input, false, &mut rng).unwrap();
    assert_eq!(before.flat.data, after.flat.data);
    model.zero_grad();
    assert!(model.lm_head.weight.grad.data.iter().all(|g| g.0 == 0.0));
}

#[test]
fn without_dropout_training_and_evaluation_agree() {
    let (model, mut rng) = small_model(0.0);
    let before = rng.clone();
    let input = table(1, 3, &[0, 1, 2]);
    let (train, _) = model.forward(&input, true, &mut rng).unwrap();
    let (eval, _) = model.forward(&input, false, &mut rng).unwrap();
    assert_eq!(train.flat.data, eval.flat.data);
    assert_eq!(rng, before);

    let (dropping, mut rng) = small_model(0.5);
    let (train, _) = dropping.forward(&input, true, &mut rng).unwrap();
    assert_ne!(train.flat.data, eval.flat.data);
}

#[test]
fn a_refused_rate_stops_training() {
    let (mut model, mut rng) = small_model(1.0);
    let weights = model.lm_head.weight.value.data.clone();
    let mut optimizer = AdamW::new(F32(1e-3), F32(0.01));
    let input = table(1, 2, &[0, 1]);
    let targets = table(1, 2, &[1, 2]);
    let result = model.train_batch(&input, &targets, &mut optimizer, &mut rng);
    assert_eq!(result, Err(InvalidRate));
    assert_eq!(model.lm_head.weight.value.data, weights);
    assert_eq!(optimizer.beta1_pow.0, 1.0);
    assert!(model.loss(&input, &targets, &mut rng).0.is_finite());
}

#[test]
fn a_model_without_preference_has_the_loss_of_a_uniform_guess() {
    let (mut model, mut rng) = small_model(0.0);
    model.lm_head.weight.value.data.fill(F32(0.0));
    let input = table(1, 4, &[0, 1, 2, 3]);
    let targets = table(1, 4, &[1, 2, 3, 4]);
    let loss = model.loss(&input, &targets, &mut rng);
    assert!((loss.0 - (7.0f32).ln()).abs() < 1e-6);
}

#[test]
fn training_lowers_the_loss() {
    let (mut model, mut rng) = small_model(0.0);
    let mut optimizer = AdamW::new(F32(1e-2), F32(0.01));
    let input = table(2, 4, &[0, 1, 2, 3, 1, 2, 3, 4]);
    let targets = table(2, 4, &[1, 2, 3, 4, 2, 3, 4, 5]);
    let before = model.loss(&input, &targets, &mut rng);
    for _ in 0..50 {
        model
            .train_batch(&input, &targets, &mut optimizer, &mut rng)
            .unwrap();
    }
    let after = model.loss(&input, &targets, &mut rng);
    assert!(after.0 < before.0 * 0.5);
}

#[test]
fn parameters_are_counted() {
    let (model, _) = small_model(0.0);
    // Embeddings, one block, the last normalization, the head.
    assert_eq!(
        parameter_count(&model),
        (7 + 4) * 8 + (12 * 64 + 10 * 8) + 16 + 8 * 7 + 7
    );
    let config: GptConfig<F32> = training_config(65);
    assert_eq!(
        (
            config.vocab_size,
            config.block_size,
            config.n_embd,
            config.n_head,
            config.n_layer,
            config.dropout
        ),
        (65, 256, 128, 4, 2, F32(0.2))
    );
    let large = GptLanguageModel::new(config, &mut rng_from_seed(SEED));
    assert_eq!(
        parameter_count(&large),
        (65 + 256) * 128 + 2 * (12 * 128 * 128 + 10 * 128) + 256 + 128 * 65 + 65
    );
}

#[test]
fn the_training_optimizer_has_its_rates() {
    let optimizer: AdamW<F32> = training_optimizer();
    assert_eq!((optimizer.lr.0, optimizer.weight_decay.0), (3e-4, 0.01));
    assert_eq!(optimizer.beta1_pow.0, 1.0);
}

#[test]
fn losses_are_estimated_over_random_batches() {
    let config = GptConfig {
        vocab_size: 2,
        block_size: BLOCK_SIZE,
        n_embd: 1,
        n_head: 1,
        n_layer: 0,
        dropout: F32(0.0),
    };
    let mut rng = rng_from_seed(SEED);
    let mut model = GptLanguageModel::new(config, &mut rng);
    model.lm_head.weight.value.data.fill(F32(0.0));
    let data: Vec<usize> = (0..300).map(|i| i % 2).collect();
    let (train, val) = estimate_loss(&model, &data, &data[..257], &mut rng);
    assert!((train.0 - (2.0f32).ln()).abs() < 1e-3);
    assert!((val.0 - (2.0f32).ln()).abs() < 1e-3);

    let mut optimizer = AdamW::new(F32(1e-2), F32(0.0));
    let loss = train_random_batch(&mut model, &data, &mut optimizer, &mut rng).unwrap();
    assert!((loss.0 - (2.0f32).ln()).abs() < 1e-3);
    assert_ne!(optimizer.beta1_pow.0, 1.0);
}

#[test]
fn generation_keeps_its_context() {
    let (model, mut rng) = small_model(0.0);
    let tokens = model.generate(&[3, 1, 6], 4, &mut rng).unwrap();
    assert_eq!(tokens.len(), 7);
    assert_eq!(tokens[..3], [3, 1, 6]);
    assert!(tokens.iter().all(|t| *t < 7));
    assert_eq!(model.generate(&[3, 1], 0, &mut rng).unwrap(), vec![3, 1]);
    // A token that no draw depends on may be any number.
    let tokens = model.generate(&[100, 0, 1, 2, 3], 2, &mut rng).unwrap();
    assert_eq!(tokens[..5], [100, 0, 1, 2, 3]);
    assert_eq!(model.generate(&[100], 0, &mut rng).unwrap(), vec![100]);
}

#[test]
fn generation_can_be_continued() {
    let (model, rng) = small_model(0.0);
    let mut whole_rng = rng.clone();
    let whole = model.generate(&[2], 9, &mut whole_rng).unwrap();
    let mut part_rng = rng.clone();
    let part = model.generate(&[2], 4, &mut part_rng).unwrap();
    let rest = model.generate(&part, 5, &mut part_rng).unwrap();
    assert_eq!(whole, rest);
    assert_eq!(whole_rng, part_rng);
}

#[test]
fn only_the_last_block_of_tokens_matters() {
    let (model, rng) = small_model(0.0);
    let mut one_rng = rng.clone();
    let mut two_rng = rng.clone();
    let one = model.draw_token(&vec![0, 0, 0, 1, 2, 3, 4], &mut one_rng);
    let two = model.draw_token(&vec![6, 1, 2, 3, 4], &mut two_rng);
    assert_eq!(one, two);
    assert_eq!(one_rng, two_rng);
}

#[test]
fn generation_follows_a_certain_distribution() {
    let (mut model, mut rng) = small_model(0.0);
    model.lm_head.weight.value.data.fill(F32(0.0));
    model.lm_head.bias.as_mut().unwrap().value[5] = F32(1000.0);
    assert_eq!(
        model.generate(&[0], 3, &mut rng).unwrap(),
        vec![0, 5, 5, 5]
    );
}

#[test]
fn generation_stops_where_there_is_no_distribution() {
    let (mut model, mut rng) = small_model(0.0);
    model.lm_head.bias.as_mut().unwrap().value[0] = F32(f32::NAN);
    assert_eq!(
        model.generate(&[0], 3, &mut rng),
        Err(GenerateError::NoDistribution)
    );
}

#[test]
fn later_places_do_not_change_earlier_attention() {
    let mut rng = rng_from_seed(8);
    let layer: MultiHeadSelfAttention<F32> = MultiHeadSelfAttention::new(4, 2, 3, &mut rng);
    let one: Vec<f32> = (0..24).map(|x| (x as f32) * 0.3 - 2.0).collect();
    let mut two = one.clone();
    // The last place of the first sequence, and all of the second sequence.
    for x in two.iter_mut().skip(8) {
        *x = 5.0 - *x;
    }
    let (u, _) = layer
        .forward(&cube(2, 3, 4, &one), false, F32(0.0), &mut rng)
        .unwrap();
    let (v, _) = layer
        .forward(&cube(2, 3, 4, &two), false, F32(0.0), &mut rng)
        .unwrap();
    for t in 0..2 {
        for c in 0..4 {
            assert_eq!(u.get(0, t, c), v.get(0, t, c));
        }
    }
    assert_ne!(u.flat.row_vec(2), v.flat.row_vec(2));
}

#[test]
fn softmax_keeps_order_and_ignores_shifts() {
    let items = [0.5, -1.0, 2.0, 0.5, f32::NEG_INFINITY];
    let mut probs = numbers(&items);
    softmax_slice(&mut probs);
    for i in 0..items.len() {
        for j in 0..items.len() {
            if items[i] < items[j] {
                assert!(probs[i].0 < probs[j].0);
            }
            if items[i] == items[j] {
                assert_eq!(probs[i], probs[j]);
            }
        }
    }
    let shifted: Vec<f32> = items.iter().map(|x| x + 7.0).collect();
    let mut others = numbers(&shifted);
    softmax_slice(&mut others);
    for (p, q) in probs.iter().zip(others.iter()) {
        assert!((p.0 - q.0).abs() < 1e-6);
    }
}

#[test]
fn equal_logits_share_the_probability() {
    let mut logits = cube(1, 2, 4, &[3.0, 3.0, 3.0, 3.0, -1.0, -1.0, -1.0, -1.0]);
    let (loss, _) = cross_entropy_loss(&mut logits, &table(1, 2, &[2, 0]));
    assert_eq!(values(&logits.flat.data), vec![0.25; 8]);
    assert!((loss.0 - (4.0f32).ln()).abs() < 1e-6);
}

#[test]
fn a_silent_block_passes_input_and_gradient() {
    let mut rng = rng_from_seed(12);
    let mut block: Block<F32> = Block::new(4, 2, 3, &mut rng);
    block.attention.proj.weight.value.data.fill(F32(0.0));
    block.feed_forward.fc2.weight.value.data.fill(F32(0.0));
    let items: Vec<f32> = (0..24).map(|x| (x as f32) * 0.7 - 3.0).collect();
    let input = cube(2, 3, 4, &items);
    let (output, cache) = block.forward(&input, true, F32(0.3), &mut rng).unwrap();
    assert_eq!(output.flat.data, input.flat.data);
    let weights = block.attention.qkv.weight.value.data.clone();
    let slopes: Vec<f32> = (0..24).map(|x| 1.0 - (x as f32) * 0.2).collect();
    let grad = cube(2, 3, 4, &slopes);
    let returned = block.backward(&cache, &grad);
    assert_eq!(returned.flat.data, grad.flat.data);
    assert_eq!(block.attention.qkv.weight.value.data, weights);
}

#[test]
fn a_second_backward_adds_the_same() {
    let mut rng = rng_from_seed(13);
    let mut layer: MultiHeadSelfAttention<F32> = MultiHeadSelfAttention::new(4, 2, 3, &mut rng);
    let items: Vec<f32> = (0..12).map(|x| (x as f32) * 0.5 - 2.0).collect();
    let input = cube(1, 3, 4, &items);
    let (_, cache) = layer.forward(&input, true, F32(0.2), &mut rng).unwrap();
    let grad = cube(1, 3, 4, &[0.5; 12]);
    let first = layer.backward(&cache, &grad);
    let once = values(&layer.qkv.weight.grad.data);
    let once_bias = values(&layer.proj.bias.as_ref().unwrap().grad);
    let second = layer.backward(&cache, &grad);
    assert_eq!(first.flat.data, second.flat.data);
    for (x, y) in once.iter().zip(values(&layer.qkv.weight.grad.data)) {
        assert!((2.0 * x - y).abs() < 1e-6);
    }
    for (x, y) in once_bias
        .iter()
        .zip(values(&layer.proj.bias.as_ref().unwrap().grad))
    {
        assert!((2.0 * x - y).abs() < 1e-6);
    }
    assert!(once.iter().any(|x| *x != 0.0));
}

#[test]
fn corrections_grow_towards_one() {
    let mut optimizer = AdamW::new(F32(0.25), F32(0.5));
    let (mut last1, mut last2) = (0.0f32, 0.0f32);
    for k in 1..=50 {
        let step = optimizer.next_step();
        assert!((step.beta1_correction.0 - (1.0 - 0.9f32.powi(k))).abs() < 1e-5);
        assert!((step.beta2_correction.0 - (1.0 - 0.999f32.powi(k))).abs() < 1e-5);
        assert!(step.beta1_correction.0 > 0.0 && step.beta1_correction.0 <= 1.0);
        assert!(step.beta2_correction.0 > 0.0 && step.beta2_correction.0 <= 1.0);
        assert!(step.beta1_correction.0 >= last1 && step.beta2_correction.0 >= last2);
        assert_eq!((step.lr.0, step.weight_decay.0), (0.25, 0.5));
        last1 = step.beta1_correction.0;
        last2 = step.beta2_correction.0;
    }
}

#[test]
fn weight_decay_does_not_change_a_vector() {
    let mut one = Param1D::from_value(numbers(&[1.0, -2.0, 3.0]));
    one.grad = numbers(&[0.5, 0.0, -1.0]);
    let mut two = Param1D::from_value(one.value.clone());
    two.grad = one.grad.clone();
    one.step(AdamW::new(F32(0.1), F32(0.0)).next_step());
    two.step(AdamW::new(F32(0.1), F32(0.9)).next_step());
    assert_eq!(one.value, two.value);
    assert_eq!((&one.m, &one.v, &one.grad), (&two.m, &two.v, &two.grad));
}

#[test]
fn training_returns_the_loss_before_the_step() {
    let (mut model, mut rng) = small_model(0.0);
    let input = table(2, 4, &[0, 1, 2, 3, 1, 2, 3, 4]);
    let targets = table(2, 4, &[1, 2, 3, 4, 2, 3, 4, 5]);
    let before = model.loss(&input, &targets, &mut rng);
    let mut optimizer = AdamW::new(F32(1e-2), F32(0.01));
    let loss = model
        .train_batch(&input, &targets, &mut optimizer, &mut rng)
        .unwrap();
    assert_eq!(loss, before);
    assert_ne!(model.loss(&input, &targets, &mut rng), before);
}

#[test]
fn one_window_has_one_loss() {
    let config = GptConfig {
        vocab_size: 3,
        block_size: BLOCK_SIZE,
        n_embd: 1,
        n_head: 1,
        n_layer: 0,
        dropout: F32(0.0),
    };
    let mut rng = rng_from_seed(4);
    let mut model = GptLanguageModel::new(config, &mut rng);
    model.lm_head.bias.as_mut().unwrap().value = numbers(&[0.0, 1.0, -0.5]);
    let train: Vec<usize> = (0..=BLOCK_SIZE).map(|i| i % 3).collect();
    let val: Vec<usize> = (0..=BLOCK_SIZE).map(|i| (i / 100) % 3).collect();
    let (input, targets) = get_batch(&train, BATCH_SIZE, BLOCK_SIZE, &mut rng);
    let train_loss = model.loss(&input, &targets, &mut rng);
    let (input, targets) = get_batch(&val, BATCH_SIZE, BLOCK_SIZE, &mut rng);
    let val_loss = model.loss(&input, &targets, &mut rng);
    let losses = estimate_loss(&model, &train, &val, &mut rng);
    assert!((losses.0 .0 - train_loss.0).abs() < 1e-3);
    assert!((losses.1 .0 - val_loss.0).abs() < 1e-3);
    assert!((train_loss.0 - val_loss.0).abs() > 1e-2);
}

#[test]
fn a_shorter_mask_is_the_start_of_a_longer_one() {
    let mut one = rng_from_seed(31);
    let mut two = rng_from_seed(31);
    let short = dropout_mask_values(5_000, F32(0.5), &mut one);
    let long = dropout_mask_values(9_000, F32(0.5), &mut two);
    assert_eq!(short[..], long[..5_000]);
    assert_eq!(one, two);
    let full = dropout_mask_values(5_000, F32(1.0), &mut one);
    assert!(full.iter().all(|m| m.0 == 1.0));
}

#[test]
fn equal_generators_generate_equal_tokens() {
    let (model, rng) = small_model(0.0);
    let (mut one, mut two) = (rng.clone(), rng.clone());
    assert_eq!(
        model.generate(&[2, 5], 12, &mut one),
        model.generate(&[2, 5], 12, &mut two)
    );
    assert_eq!(one, two);

    let (mut one, mut two) = (rng.clone(), rng.clone());
    let first = model.generate(&[0, 6, 1, 2, 3, 4], 8, &mut one).unwrap();
    let second = model.generate(&[5, 1, 2, 3, 4], 8, &mut two).unwrap();
    assert_eq!(first[6..], second[5..]);
    assert_eq!(one, two);
}
