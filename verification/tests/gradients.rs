use llm::attention::MultiHeadSelfAttention;
use llm::block::Block;
use llm::dropout::dropout;
use llm::feed_forward::FeedForward;
use llm::generation::GenerateError;
use llm::grid::TokenArray;
use llm::loss::cross_entropy_loss;
use llm::model::{GptConfig, GptLanguageModel};
use llm::random::rng_from_seed;
use llm::scalar::Real;
use llm::tensor::{Tensor2, Tensor3};
use rand::rngs::SmallRng;
use rand::RngExt;

#[derive(Clone, Copy, Debug, PartialEq)]
struct F64(f64);

impl Real for F64 {
    fn zero() -> F64 {
        F64(0.0)
    }

    fn one() -> F64 {
        F64(1.0)
    }

    fn negative_infinity() -> F64 {
        F64(f64::NEG_INFINITY)
    }

    fn from_count(n: usize) -> F64 {
        F64(n as f64)
    }

    fn decimal(digits: u32, places: u32) -> F64 {
        F64(format!("{digits}e-{places}").parse().unwrap())
    }

    fn plus(self, rhs: F64) -> F64 {
        F64(self.0 + rhs.0)
    }

    fn minus(self, rhs: F64) -> F64 {
        F64(self.0 - rhs.0)
    }

    fn times(self, rhs: F64) -> F64 {
        F64(self.0 * rhs.0)
    }

    fn over(self, rhs: F64) -> F64 {
        F64(self.0 / rhs.0)
    }

    fn negate(self) -> F64 {
        F64(-self.0)
    }

    fn sqrt(self) -> F64 {
        F64(self.0.sqrt())
    }

    fn exp(self) -> F64 {
        F64(self.0.exp())
    }

    fn ln(self) -> F64 {
        F64(self.0.ln())
    }

    fn larger(self, rhs: F64) -> F64 {
        F64(self.0.max(rhs.0))
    }

    fn less(self, rhs: F64) -> bool {
        self.0 < rhs.0
    }

    fn at_most(self, rhs: F64) -> bool {
        self.0 <= rhs.0
    }

    fn equals(self, rhs: F64) -> bool {
        self.0 == rhs.0
    }

    fn uniform(rng: &SmallRng) -> (F64, SmallRng) {
        let mut next = rng.clone();
        let drawn: f64 = next.random();
        (F64(drawn), next)
    }

    // An index behind the last weight, which no distribution over them gives.
    fn pick(weights: &Vec<F64>, rng: &SmallRng) -> (Option<usize>, SmallRng) {
        (Some(weights.len()), rng.clone())
    }
}

const STEP: f64 = 1e-5;

fn small_model() -> GptLanguageModel<F64> {
    let config = GptConfig {
        vocab_size: 5,
        block_size: 4,
        n_embd: 4,
        n_head: 2,
        n_layer: 2,
        dropout: F64(0.0),
    };
    let mut rng = rng_from_seed(21);
    let mut model = GptLanguageModel::new(config, &mut rng);
    // Larger weights than a new model has, so that every path matters.
    for block in &mut model.blocks {
        for layer in [
            &mut block.attention.qkv,
            &mut block.attention.proj,
            &mut block.feed_forward.fc1,
            &mut block.feed_forward.fc2,
        ] {
            for w in &mut layer.weight.value.data {
                *w = F64(w.0 * 20.0);
            }
        }
    }
    model
}

fn batch() -> (TokenArray, TokenArray) {
    (
        TokenArray::from_shape_vec(2, 3, vec![0, 1, 2, 4, 0, 4]).unwrap(),
        TokenArray::from_shape_vec(2, 3, vec![1, 2, 3, 0, 3, 1]).unwrap(),
    )
}

fn loss_of(model: &GptLanguageModel<F64>) -> f64 {
    let (input, targets) = batch();
    model.loss(&input, &targets, &mut rng_from_seed(0)).0
}

fn model_with_gradients() -> GptLanguageModel<F64> {
    let mut model = small_model();
    let (input, targets) = batch();
    model.zero_grad();
    let (mut logits, cache) = model
        .forward(&input, true, &mut rng_from_seed(0))
        .unwrap();
    let (_, grad) = cross_entropy_loss(&mut logits, &targets);
    model.backward(&cache, &grad);
    model
}

fn check_parameters(
    name: &str,
    values: fn(&mut GptLanguageModel<F64>) -> &mut Vec<F64>,
    grads: fn(&GptLanguageModel<F64>) -> &Vec<F64>,
) {
    let mut model = model_with_gradients();
    let count = values(&mut model).len();
    assert_eq!(grads(&model).len(), count);
    assert!(grads(&model).iter().any(|g| g.0 != 0.0), "{name}");
    for i in 0..count {
        let kept = values(&mut model)[i];
        values(&mut model)[i] = F64(kept.0 + STEP);
        let above = loss_of(&model);
        values(&mut model)[i] = F64(kept.0 - STEP);
        let below = loss_of(&model);
        values(&mut model)[i] = kept;
        let slope = (above - below) / (2.0 * STEP);
        let grad = grads(&model)[i].0;
        assert!(
            (slope - grad).abs() < 1e-6 * (1.0 + slope.abs()),
            "{name} {i}: slope {slope}, gradient {grad}"
        );
    }
}

#[test]
fn token_embedding_gradient_is_the_slope_of_the_loss() {
    check_parameters(
        "token_embedding",
        |model| &mut model.token_embedding.value.data,
        |model| &model.token_embedding.grad.data,
    );
}

#[test]
fn position_embedding_gradient_is_the_slope_of_the_loss() {
    check_parameters(
        "position_embedding",
        |model| &mut model.position_embedding.value.data,
        |model| &model.position_embedding.grad.data,
    );
}

#[test]
fn head_weight_gradient_is_the_slope_of_the_loss() {
    check_parameters(
        "head_weight",
        |model| &mut model.lm_head.weight.value.data,
        |model| &model.lm_head.weight.grad.data,
    );
}

#[test]
fn head_bias_gradient_is_the_slope_of_the_loss() {
    check_parameters(
        "head_bias",
        |model| &mut model.lm_head.bias.as_mut().unwrap().value,
        |model| &model.lm_head.bias.as_ref().unwrap().grad,
    );
}

#[test]
fn last_gamma_gradient_is_the_slope_of_the_loss() {
    check_parameters(
        "last_gamma",
        |model| &mut model.ln_f.gamma.value,
        |model| &model.ln_f.gamma.grad,
    );
}

#[test]
fn last_beta_gradient_is_the_slope_of_the_loss() {
    check_parameters(
        "last_beta",
        |model| &mut model.ln_f.beta.value,
        |model| &model.ln_f.beta.grad,
    );
}

#[test]
fn qkv_weight_gradient_is_the_slope_of_the_loss() {
    check_parameters(
        "qkv_weight",
        |model| &mut model.blocks[0].attention.qkv.weight.value.data,
        |model| &model.blocks[0].attention.qkv.weight.grad.data,
    );
}

#[test]
fn proj_weight_gradient_is_the_slope_of_the_loss() {
    check_parameters(
        "proj_weight",
        |model| &mut model.blocks[0].attention.proj.weight.value.data,
        |model| &model.blocks[0].attention.proj.weight.grad.data,
    );
}

#[test]
fn proj_bias_gradient_is_the_slope_of_the_loss() {
    check_parameters(
        "proj_bias",
        |model| &mut model.blocks[1].attention.proj.bias.as_mut().unwrap().value,
        |model| &model.blocks[1].attention.proj.bias.as_ref().unwrap().grad,
    );
}

#[test]
fn first_gamma_gradient_is_the_slope_of_the_loss() {
    check_parameters(
        "first_gamma",
        |model| &mut model.blocks[0].ln1.gamma.value,
        |model| &model.blocks[0].ln1.gamma.grad,
    );
}

#[test]
fn first_beta_gradient_is_the_slope_of_the_loss() {
    check_parameters(
        "first_beta",
        |model| &mut model.blocks[1].ln1.beta.value,
        |model| &model.blocks[1].ln1.beta.grad,
    );
}

#[test]
fn second_gamma_gradient_is_the_slope_of_the_loss() {
    check_parameters(
        "second_gamma",
        |model| &mut model.blocks[1].ln2.gamma.value,
        |model| &model.blocks[1].ln2.gamma.grad,
    );
}

#[test]
fn second_beta_gradient_is_the_slope_of_the_loss() {
    check_parameters(
        "second_beta",
        |model| &mut model.blocks[0].ln2.beta.value,
        |model| &model.blocks[0].ln2.beta.grad,
    );
}

#[test]
fn widening_weight_gradient_is_the_slope_of_the_loss() {
    check_parameters(
        "widening_weight",
        |model| &mut model.blocks[0].feed_forward.fc1.weight.value.data,
        |model| &model.blocks[0].feed_forward.fc1.weight.grad.data,
    );
}

#[test]
fn widening_bias_gradient_is_the_slope_of_the_loss() {
    check_parameters(
        "widening_bias",
        |model| &mut model.blocks[1].feed_forward.fc1.bias.as_mut().unwrap().value,
        |model| &model.blocks[1].feed_forward.fc1.bias.as_ref().unwrap().grad,
    );
}

#[test]
fn narrowing_weight_gradient_is_the_slope_of_the_loss() {
    check_parameters(
        "narrowing_weight",
        |model| &mut model.blocks[1].feed_forward.fc2.weight.value.data,
        |model| &model.blocks[1].feed_forward.fc2.weight.grad.data,
    );
}

#[test]
fn narrowing_bias_gradient_is_the_slope_of_the_loss() {
    check_parameters(
        "narrowing_bias",
        |model| &mut model.blocks[0].feed_forward.fc2.bias.as_mut().unwrap().value,
        |model| &model.blocks[0].feed_forward.fc2.bias.as_ref().unwrap().grad,
    );
}

#[test]
fn gradients_of_two_batches_add_up() {
    let mut model = model_with_gradients();
    let once = model.lm_head.weight.grad.data.clone();
    let (input, targets) = batch();
    let (mut logits, cache) = model
        .forward(&input, true, &mut rng_from_seed(0))
        .unwrap();
    let (_, grad) = cross_entropy_loss(&mut logits, &targets);
    model.backward(&cache, &grad);
    for (one, two) in once.iter().zip(model.lm_head.weight.grad.data.iter()) {
        assert!((2.0 * one.0 - two.0).abs() < 1e-12);
    }
}

#[test]
fn generation_stops_at_a_token_outside_the_vocabulary() {
    let model = small_model();
    assert_eq!(
        model.generate(&[1], 2, &mut rng_from_seed(0)),
        Err(GenerateError::TokenOutOfRange)
    );
}

// Numbers between minus one and one without a pattern that the layers could share.
fn wave(i: usize, phase: f64) -> f64 {
    (1.7 * i as f64 + phase).sin()
}

fn stack(outer: usize, inner: usize, cols: usize, phase: f64) -> Tensor3<F64> {
    let data = (0..outer * inner * cols).map(|i| F64(wave(i, phase))).collect();
    Tensor3 { outer, inner, flat: Tensor2 { rows: outer * inner, cols, data } }
}

fn shift(values: &mut Vec<F64>, phase: f64, step: f64) {
    for (i, x) in values.iter_mut().enumerate() {
        *x = F64(x.0 + step * wave(i, phase));
    }
}

fn along(grads: &[F64], phase: f64) -> f64 {
    grads.iter().enumerate().map(|(i, g)| g.0 * wave(i, phase)).sum()
}

fn inner_product(a: &[F64], b: &[F64]) -> f64 {
    a.iter().zip(b).map(|(x, y)| x.0 * y.0).sum()
}

fn assert_close(slope: f64, gain: f64) {
    assert!(
        (slope - gain).abs() < 1e-6 * (1.0 + slope.abs()),
        "slope {slope}, gradient {gain}"
    );
}

fn enlarge(values: &mut Vec<F64>) {
    for x in values {
        *x = F64(x.0 * 20.0);
    }
}

fn small_attention() -> MultiHeadSelfAttention<F64> {
    let mut layer = MultiHeadSelfAttention::new(4, 2, 4, &mut rng_from_seed(5));
    enlarge(&mut layer.qkv.weight.value.data);
    enlarge(&mut layer.proj.weight.value.data);
    layer
}

fn small_block() -> Block<F64> {
    let mut block = Block::new(4, 2, 4, &mut rng_from_seed(6));
    enlarge(&mut block.attention.qkv.weight.value.data);
    enlarge(&mut block.attention.proj.weight.value.data);
    enlarge(&mut block.feed_forward.fc1.weight.value.data);
    enlarge(&mut block.feed_forward.fc2.weight.value.data);
    block
}

const RATE: F64 = F64(0.25);

#[test]
fn attention_gradients_are_slopes_along_a_direction_of_input_and_parameters() {
    let output_at = |step: f64| {
        let mut layer = small_attention();
        let mut input = stack(2, 3, 4, 0.3);
        shift(&mut input.flat.data, 0.1, step);
        shift(&mut layer.qkv.weight.value.data, 0.2, step);
        shift(&mut layer.proj.weight.value.data, 0.3, step);
        shift(&mut layer.proj.bias.as_mut().unwrap().value, 0.4, step);
        layer.forward(&input, true, RATE, &mut rng_from_seed(9)).unwrap().0.flat.data
    };
    let grad_output = stack(2, 3, 4, 0.9);
    let mut layer = small_attention();
    let input = stack(2, 3, 4, 0.3);
    let (_, cache) = layer.forward(&input, true, RATE, &mut rng_from_seed(9)).unwrap();
    let grad_input = layer.backward(&cache, &grad_output);
    let (above, below) = (output_at(STEP), output_at(-STEP));
    let slope = (inner_product(&grad_output.flat.data, &above)
        - inner_product(&grad_output.flat.data, &below))
        / (2.0 * STEP);
    assert!(slope != 0.0);
    assert_close(
        slope,
        along(&grad_input.flat.data, 0.1)
            + along(&layer.qkv.weight.grad.data, 0.2)
            + along(&layer.proj.weight.grad.data, 0.3)
            + along(&layer.proj.bias.as_ref().unwrap().grad, 0.4),
    );
}

#[test]
fn feed_forward_gradients_are_slopes_along_a_direction_of_input_and_parameters() {
    let fresh = || {
        let mut layer: FeedForward<F64> = FeedForward::new(4, &mut rng_from_seed(7));
        enlarge(&mut layer.fc1.weight.value.data);
        enlarge(&mut layer.fc2.weight.value.data);
        layer
    };
    let output_at = |step: f64| {
        let mut layer = fresh();
        let mut input = stack(1, 4, 4, 0.6);
        shift(&mut input.flat.data, 0.1, step);
        shift(&mut layer.fc1.weight.value.data, 0.2, step);
        shift(&mut layer.fc1.bias.as_mut().unwrap().value, 0.3, step);
        shift(&mut layer.fc2.weight.value.data, 0.4, step);
        shift(&mut layer.fc2.bias.as_mut().unwrap().value, 0.5, step);
        layer.forward(&input, true, RATE, &mut rng_from_seed(3)).unwrap().0.flat.data
    };
    let grad_output = stack(1, 4, 4, 1.1);
    let mut layer = fresh();
    let input = stack(1, 4, 4, 0.6);
    let (_, cache) = layer.forward(&input, true, RATE, &mut rng_from_seed(3)).unwrap();
    let grad_input = layer.backward(&cache, &grad_output);
    let (above, below) = (output_at(STEP), output_at(-STEP));
    let slope = (inner_product(&grad_output.flat.data, &above)
        - inner_product(&grad_output.flat.data, &below))
        / (2.0 * STEP);
    assert!(slope != 0.0);
    assert_close(
        slope,
        along(&grad_input.flat.data, 0.1)
            + along(&layer.fc1.weight.grad.data, 0.2)
            + along(&layer.fc1.bias.as_ref().unwrap().grad, 0.3)
            + along(&layer.fc2.weight.grad.data, 0.4)
            + along(&layer.fc2.bias.as_ref().unwrap().grad, 0.5),
    );
}

#[test]
fn block_gradients_are_slopes_along_a_direction_of_input_and_parameters() {
    let output_at = |step: f64| {
        let mut block = small_block();
        let mut input = stack(2, 3, 4, 0.8);
        shift(&mut input.flat.data, 0.1, step);
        shift(&mut block.ln1.gamma.value, 0.2, step);
        shift(&mut block.ln1.beta.value, 0.3, step);
        shift(&mut block.attention.qkv.weight.value.data, 0.4, step);
        shift(&mut block.attention.proj.weight.value.data, 0.5, step);
        shift(&mut block.ln2.gamma.value, 0.6, step);
        shift(&mut block.ln2.beta.value, 0.7, step);
        shift(&mut block.feed_forward.fc1.weight.value.data, 0.8, step);
        shift(&mut block.feed_forward.fc2.weight.value.data, 0.9, step);
        block.forward(&input, true, RATE, &mut rng_from_seed(4)).unwrap().0.flat.data
    };
    let grad_output = stack(2, 3, 4, 1.3);
    let mut block = small_block();
    let input = stack(2, 3, 4, 0.8);
    let (_, cache) = block.forward(&input, true, RATE, &mut rng_from_seed(4)).unwrap();
    let grad_input = block.backward(&cache, &grad_output);
    let (above, below) = (output_at(STEP), output_at(-STEP));
    let slope = (inner_product(&grad_output.flat.data, &above)
        - inner_product(&grad_output.flat.data, &below))
        / (2.0 * STEP);
    assert!(slope != 0.0);
    assert_close(
        slope,
        along(&grad_input.flat.data, 0.1)
            + along(&block.ln1.gamma.grad, 0.2)
            + along(&block.ln1.beta.grad, 0.3)
            + along(&block.attention.qkv.weight.grad.data, 0.4)
            + along(&block.attention.proj.weight.grad.data, 0.5)
            + along(&block.ln2.gamma.grad, 0.6)
            + along(&block.ln2.beta.grad, 0.7)
            + along(&block.feed_forward.fc1.weight.grad.data, 0.8)
            + along(&block.feed_forward.fc2.weight.grad.data, 0.9),
    );
}

#[test]
fn loss_changes_by_the_gradients_along_a_direction_of_all_tables_and_the_head() {
    let loss_at = |step: f64| {
        let mut model = small_model();
        shift(&mut model.token_embedding.value.data, 0.1, step);
        shift(&mut model.position_embedding.value.data, 0.2, step);
        for block in &mut model.blocks {
            shift(&mut block.attention.qkv.weight.value.data, 0.3, step);
            shift(&mut block.feed_forward.fc1.weight.value.data, 0.4, step);
        }
        shift(&mut model.ln_f.gamma.value, 0.5, step);
        shift(&mut model.lm_head.weight.value.data, 0.6, step);
        loss_of(&model)
    };
    let model = model_with_gradients();
    let mut gain = along(&model.token_embedding.grad.data, 0.1)
        + along(&model.position_embedding.grad.data, 0.2)
        + along(&model.ln_f.gamma.grad, 0.5)
        + along(&model.lm_head.weight.grad.data, 0.6);
    for block in &model.blocks {
        gain += along(&block.attention.qkv.weight.grad.data, 0.3);
        gain += along(&block.feed_forward.fc1.weight.grad.data, 0.4);
    }
    // Along so many parameters at once the loss bends more than along one: a shorter step.
    let step = STEP / 10.0;
    let slope = (loss_at(step) - loss_at(-step)) / (2.0 * step);
    assert!(slope != 0.0);
    assert_close(slope, gain);
}

// Sets all that stands after position `last` of sequence `b` to zero.
fn silence_after(g: &mut Tensor3<F64>, b: usize, last: usize) {
    let cols = g.flat.cols;
    for t in last + 1..g.inner {
        for c in 0..cols {
            g.flat.data[(b * g.inner + t) * cols + c] = F64(0.0);
        }
    }
}

#[test]
fn attention_gradients_keep_to_the_order_of_time() {
    let mut layer = small_attention();
    let input = stack(2, 4, 4, 0.3);
    let (_, cache) = layer.forward(&input, true, RATE, &mut rng_from_seed(9)).unwrap();
    let mut grad_output = stack(2, 4, 4, 0.9);
    silence_after(&mut grad_output, 1, 1);
    let grad_input = layer.backward(&cache, &grad_output);
    for c in 0..4 {
        for t in 2..4 {
            assert_eq!(grad_input.get(1, t, c), F64(0.0));
            assert_ne!(grad_input.get(0, t, c), F64(0.0));
        }
        assert_ne!(grad_input.get(1, 0, c), F64(0.0));
    }
}

#[test]
fn block_gradients_keep_to_the_order_of_time() {
    let mut block = small_block();
    let input = stack(1, 4, 4, 0.3);
    let (_, cache) = block.forward(&input, true, RATE, &mut rng_from_seed(9)).unwrap();
    let mut grad_output = stack(1, 4, 4, 0.9);
    silence_after(&mut grad_output, 0, 2);
    let grad_input = block.backward(&cache, &grad_output);
    for c in 0..4 {
        assert_eq!(grad_input.get(0, 3, c), F64(0.0));
        assert_ne!(grad_input.get(0, 2, c), F64(0.0));
    }
}

#[test]
fn positions_after_the_last_that_counts_gain_no_gradient() {
    let mut model = small_model();
    let (input, _) = batch();
    model.zero_grad();
    let (_, cache) = model.forward(&input, true, &mut rng_from_seed(0)).unwrap();
    let mut grad = stack(2, 3, 5, 0.9);
    silence_after(&mut grad, 0, 0);
    silence_after(&mut grad, 1, 0);
    model.backward(&cache, &grad);
    for c in 0..4 {
        assert_ne!(model.position_embedding.grad.get(0, c), F64(0.0));
        for t in 1..4 {
            assert_eq!(model.position_embedding.grad.get(t, c), F64(0.0));
        }
    }
}

#[test]
fn losses_lie_between_zero_and_their_bound() {
    let bound = -(1e-12_f64).ln();
    let targets = TokenArray::from_shape_vec(1, 1, vec![0]).unwrap();
    for (first, expected) in [(-1000.0, bound), (1000.0, 0.0), (0.0, 2.0_f64.ln())] {
        let data = vec![F64(first), F64(0.0)];
        let mut logits = Tensor3 { outer: 1, inner: 1, flat: Tensor2 { rows: 1, cols: 2, data } };
        let (loss, _) = cross_entropy_loss(&mut logits, &targets);
        assert!((loss.0 - expected).abs() < 1e-12);
        assert!(0.0 <= loss.0 && loss.0 <= bound);
    }
}

#[test]
fn dropout_has_a_mask_exactly_where_its_rate_is_not_zero() {
    let input = stack(1, 2, 3, 0.4);
    for rate in [0.0, -0.0] {
        let (output, mask) = dropout(&input, F64(rate), true, &mut rng_from_seed(1)).unwrap();
        assert!(mask.is_none());
        assert_eq!(output.flat.data, input.flat.data);
    }
    for rate in [1e-300, 0.5, 0.999] {
        let (_, mask) = dropout(&input, F64(rate), true, &mut rng_from_seed(1)).unwrap();
        assert!(mask.is_some());
        let (_, mask) = dropout(&input, F64(rate), false, &mut rng_from_seed(1)).unwrap();
        assert!(mask.is_none());
    }
}

#[test]
fn a_run_from_finite_parameters_holds_finite_numbers() {
    let model = small_model();
    let (input, _) = batch();
    let (logits, cache) = model.forward(&input, true, &mut rng_from_seed(0)).unwrap();
    let finite = |items: &Vec<F64>| items.iter().all(|x| x.0.is_finite());
    assert!(finite(&logits.flat.data));
    assert!(finite(&cache.final_norm_output.flat.data));
    for block in &cache.blocks {
        assert!(finite(&block.ln1.inv_std.data));
        assert!(finite(&block.attention.q.flat.data));
        assert!(finite(&block.attention.att_probs.flat.data));
        assert!(finite(&block.attention.context.flat.data));
        assert!(finite(&block.feed_forward.hidden.flat.data));
    }
}

#[test]
fn new_models_have_small_weights_and_no_gradients() {
    let config = GptConfig {
        vocab_size: 5,
        block_size: 4,
        n_embd: 4,
        n_head: 2,
        n_layer: 1,
        dropout: F64(0.1),
    };
    let model = GptLanguageModel::new(config, &mut rng_from_seed(8));
    for table in [&model.token_embedding, &model.position_embedding, &model.lm_head.weight] {
        assert!(table.value.data.iter().all(|w| -0.02 <= w.0 && w.0 < 0.02));
        assert!(table.value.data.iter().any(|w| w.0 != 0.0));
        assert!(table.grad.data.iter().all(|g| g.0 == 0.0));
    }
    assert_eq!(model.ln_f.eps, F64(1e-5));
}
