//! Training: the loss of a batch, one step of training, and the estimate of the loss.

use crate::batch::{batch_drawn, get_batch, lemma_batch_below};
use crate::dropout::{rate_refused, rate_zero_gives, InvalidRate};
use crate::grid::TokenArray;
use crate::loss::{cross_entropy_gives, cross_entropy_loss};
use crate::model::{
    model_backward_gives, model_gives, model_grads_cleared, model_step_gives, GptCache, GptConfig,
    GptLanguageModel,
};
use crate::optim::{fresh_optimizer, AdamW};
use crate::reduce::{mean_gives, mean_of};
use crate::scalar::{decimal_gives, Real};
use crate::tensor::Tensor3;
use rand::rngs::SmallRng;
use vstd::prelude::*;
use vstd::slice::slice_subrange;

verus! {

/// The number of sequences of a batch.
pub const BATCH_SIZE: usize = 64;

/// The number of tokens of a sequence.
pub const BLOCK_SIZE: usize = 256;

/// The number of training steps.
pub const MAX_ITERS: usize = 2000;

/// The number of training steps between two estimates of the loss.
pub const EVAL_INTERVAL: usize = 500;

/// The number of batches that an estimate of the loss takes.
pub const EVAL_ITERS: usize = 200;

/// The width of an embedding.
pub const N_EMBD: usize = 128;

/// The number of heads of a block.
pub const N_HEAD: usize = 4;

/// The number of blocks.
pub const N_LAYER: usize = 2;

/// The seed of the random number generator.
pub const SEED: u64 = 1337;

/// The targets `targets` can be held against what `model` makes of `idx`.
pub open spec fn targets_fit<T>(
    model: GptLanguageModel<T>,
    idx: TokenArray,
    targets: TokenArray,
) -> bool {
    &&& targets.rows() == idx.rows()
    &&& targets.cols() == idx.cols()
    &&& targets.all_below(model.config.vocab_size as int)
}

/// The steps of [`loss_gives`], with the logits, the probabilities, the gradient and a generator
/// that nothing is drawn from.
pub open spec fn loss_steps_give<T: Real>(
    model: GptLanguageModel<T>,
    idx: TokenArray,
    targets: TokenArray,
    loss: T,
    logits: Tensor3<T>,
    cache: GptCache<T>,
    probs: Tensor3<T>,
    grad: Tensor3<T>,
    rng: SmallRng,
) -> bool {
    model_gives(model, idx, false, logits, cache, rng, rng) && cross_entropy_gives(
        logits,
        targets,
        probs,
        loss,
        grad,
    )
}

/// `loss` is the mean loss of the targets under the model, with nothing dropped.
pub open spec fn loss_gives<T: Real>(
    model: GptLanguageModel<T>,
    idx: TokenArray,
    targets: TokenArray,
    loss: T,
) -> bool {
    exists|
        logits: Tensor3<T>,
        cache: GptCache<T>,
        probs: Tensor3<T>,
        grad: Tensor3<T>,
        rng: SmallRng,
    |
        loss_steps_give(model, idx, targets, loss, logits, cache, probs, grad, rng)
}

/// What a step of training goes through.
pub ghost struct TrainSteps<T> {
    pub cleared: GptLanguageModel<T>,
    pub logits: Tensor3<T>,
    pub cache: GptCache<T>,
    pub probs: Tensor3<T>,
    pub grad: Tensor3<T>,
    pub backed: GptLanguageModel<T>,
}

/// The steps of [`train_gives`].
pub open spec fn train_steps_give<T: Real>(
    before: GptLanguageModel<T>,
    optimizer_before: AdamW<T>,
    idx: TokenArray,
    targets: TokenArray,
    loss: T,
    after: GptLanguageModel<T>,
    optimizer_after: AdamW<T>,
    rng_before: SmallRng,
    rng_after: SmallRng,
    steps: TrainSteps<T>,
) -> bool {
    &&& model_grads_cleared(before, steps.cleared)
    &&& model_gives(
        steps.cleared,
        idx,
        true,
        steps.logits,
        steps.cache,
        rng_before,
        rng_after,
    )
    &&& cross_entropy_gives(steps.logits, targets, steps.probs, loss, steps.grad)
    &&& model_backward_gives(steps.cleared, steps.cache, steps.grad, steps.backed)
    &&& model_step_gives(steps.backed, optimizer_before, after, optimizer_after)
}

/// One step of training: the gradients are cleared, the loss of the batch is computed with
/// dropout, its gradients are collected, and the optimizer takes its next step. The dropout draws
/// from the generator `rng_before` and leaves `rng_after`.
pub open spec fn train_gives<T: Real>(
    before: GptLanguageModel<T>,
    optimizer_before: AdamW<T>,
    idx: TokenArray,
    targets: TokenArray,
    loss: T,
    after: GptLanguageModel<T>,
    optimizer_after: AdamW<T>,
    rng_before: SmallRng,
    rng_after: SmallRng,
) -> bool {
    exists|steps: TrainSteps<T>|
        train_steps_give(
            before,
            optimizer_before,
            idx,
            targets,
            loss,
            after,
            optimizer_after,
            rng_before,
            rng_after,
            steps,
        )
}

impl<T: Real> GptLanguageModel<T> {
    /// The mean loss of the targets, with nothing dropped.
    pub fn loss(&self, idx: &TokenArray, targets: &TokenArray, rng: &mut SmallRng) -> (loss: T)
        requires
            self.wf(),
            self.takes(*idx),
            targets_fit(*self, *idx, *targets),
        ensures
            loss_gives(*self, *idx, *targets, loss),
            *final(rng) == *old(rng),
    {
        let (mut logits, cache) = self.forward(idx, false, rng).unwrap();
        let ghost scores = logits;
        let (loss, grad) = cross_entropy_loss(&mut logits, targets);
        assert(loss_steps_give(
            *self,
            *idx,
            *targets,
            loss,
            scores,
            cache,
            logits,
            grad,
            *rng,
        ));
        loss
    }

    /// One step of training; returns the loss of the batch. Where the dropout rate is refused,
    /// the gradients are cleared and nothing else happens.
    pub fn train_batch(
        &mut self,
        idx: &TokenArray,
        targets: &TokenArray,
        optimizer: &mut AdamW<T>,
        rng: &mut SmallRng,
    ) -> (result: Result<T, InvalidRate>)
        requires
            old(self).wf(),
            old(self).takes(*idx),
            targets_fit(*old(self), *idx, *targets),
        ensures
            final(self).wf(),
            match result {
                Ok(loss) => train_gives(
                    *old(self),
                    *old(optimizer),
                    *idx,
                    *targets,
                    loss,
                    *final(self),
                    *final(optimizer),
                    *old(rng),
                    *final(rng),
                ),
                Err(_) => {
                    &&& old(self).blocks@.len() > 0
                    &&& rate_zero_gives(old(self).config.dropout, false)
                    &&& rate_refused(old(self).config.dropout)
                    &&& model_grads_cleared(*old(self), *final(self))
                    &&& *final(optimizer) == *old(optimizer)
                },
            },
    {
        self.zero_grad();
        let ghost cleared = *self;
        let (mut logits, cache) = match self.forward(idx, true, rng) {
            Ok(pair) => pair,
            Err(e) => {
                return Err(e);
            },
        };
        let ghost scores = logits;
        let (loss, grad) = cross_entropy_loss(&mut logits, targets);
        proof {
            assert(cache.idx.same(*idx));
            assert forall|r: int, c: int|
                0 <= r < cache.idx.rows() && 0 <= c < cache.idx.cols() implies (
            #[trigger] cache.idx.at(r, c)) < self.config.vocab_size by {
                assert(cache.idx.at(r, c) == idx.at(r, c));
            }
        }
        self.backward(&cache, &grad);
        let ghost backed = *self;
        self.step(optimizer);
        proof {
            let steps = TrainSteps { cleared, logits: scores, cache, probs: logits, grad, backed };
            assert(train_steps_give(
                *old(self),
                *old(optimizer),
                *idx,
                *targets,
                loss,
                *self,
                *optimizer,
                *old(rng),
                *rng,
                steps,
            ));
        }
        Ok(loss)
    }
}

/// Batches of `BATCH_SIZE` windows of `BLOCK_SIZE` tokens can be taken from `data` for `model`.
pub open spec fn data_fits<T>(model: GptLanguageModel<T>, data: Seq<usize>) -> bool {
    data.len() > BLOCK_SIZE && forall|i: int|
        0 <= i < data.len() ==> (#[trigger] data[i]) < model.config.vocab_size
}

/// `loss` is the loss of a batch of windows of `data` that was drawn from the generator `before`,
/// which left the generator `after`.
pub open spec fn batch_loss_gives<T: Real>(
    model: GptLanguageModel<T>,
    data: Seq<usize>,
    loss: T,
    before: SmallRng,
    after: SmallRng,
) -> bool {
    exists|input: TokenArray, targets: TokenArray| #[trigger]
        batch_drawn(
            data,
            BATCH_SIZE as int,
            BLOCK_SIZE as int,
            input,
            targets,
            before,
            after,
        ) && loss_gives(model, input, targets, loss)
}

/// `train_losses` and `val_losses` are losses of batches of windows of the training data and of
/// the validation data. The batches were drawn in turn from the generator `before`, which left
/// the generator `after`.
pub open spec fn batch_losses_give<T: Real>(
    model: GptLanguageModel<T>,
    train_data: Seq<usize>,
    val_data: Seq<usize>,
    train_losses: Seq<T>,
    val_losses: Seq<T>,
    before: SmallRng,
    after: SmallRng,
) -> bool
    decreases train_losses.len(),
{
    if train_losses.len() == 0 {
        after == before
    } else {
        exists|first: SmallRng, second: SmallRng|
            batch_losses_give(
                model,
                train_data,
                val_data,
                train_losses.drop_last(),
                val_losses.drop_last(),
                before,
                first,
            ) && #[trigger] batch_loss_gives(model, train_data, train_losses.last(), first, second)
                && #[trigger] batch_loss_gives(model, val_data, val_losses.last(), second, after)
    }
}

/// `losses` are the means of the losses of `EVAL_ITERS` batches of the training data and of as
/// many of the validation data. The batches were drawn in turn from the generator `before`, which
/// left the generator `after`.
pub open spec fn estimate_gives<T: Real>(
    model: GptLanguageModel<T>,
    train_data: Seq<usize>,
    val_data: Seq<usize>,
    losses: (T, T),
    before: SmallRng,
    after: SmallRng,
) -> bool {
    exists|train_losses: Seq<T>, val_losses: Seq<T>|
        train_losses.len() == EVAL_ITERS && val_losses.len() == EVAL_ITERS
            && #[trigger] batch_losses_give(
            model,
            train_data,
            val_data,
            train_losses,
            val_losses,
            before,
            after,
        ) && mean_gives(train_losses, losses.0) && mean_gives(val_losses, losses.1)
}

/// The loss of a random batch of windows of `data`.
fn random_batch_loss<T: Real>(
    model: &GptLanguageModel<T>,
    data: &[usize],
    rng: &mut SmallRng,
) -> (loss: T)
    requires
        model.wf(),
        model.config.n_embd > 0,
        model.config.block_size >= BLOCK_SIZE,
        data_fits(*model, data@),
    ensures
        batch_loss_gives(*model, data@, loss, *old(rng), *final(rng)),
{
    let (input, targets) = get_batch(data, BATCH_SIZE, BLOCK_SIZE, rng);
    proof {
        lemma_batch_below(
            data@,
            BATCH_SIZE as int,
            BLOCK_SIZE as int,
            input,
            targets,
            model.config.vocab_size as int,
        );
    }
    model.loss(&input, &targets, rng)
}

/// Estimates of the loss on the training data and on the validation data: each is the mean of
/// the losses of `EVAL_ITERS` random batches.
pub fn estimate_loss<T: Real>(
    model: &GptLanguageModel<T>,
    train_data: &[usize],
    val_data: &[usize],
    rng: &mut SmallRng,
) -> (losses: (T, T))
    requires
        model.wf(),
        model.config.n_embd > 0,
        model.config.block_size >= BLOCK_SIZE,
        data_fits(*model, train_data@),
        data_fits(*model, val_data@),
    ensures
        estimate_gives(*model, train_data@, val_data@, losses, *old(rng), *final(rng)),
{
    let mut train_losses: Vec<T> = Vec::new();
    let mut val_losses: Vec<T> = Vec::new();
    let mut i: usize = 0;
    while i < EVAL_ITERS
        invariant
            i <= EVAL_ITERS,
            model.wf(),
            model.config.n_embd > 0,
            model.config.block_size >= BLOCK_SIZE,
            data_fits(*model, train_data@),
            data_fits(*model, val_data@),
            train_losses@.len() == i,
            val_losses@.len() == i,
            batch_losses_give(
                *model,
                train_data@,
                val_data@,
                train_losses@,
                val_losses@,
                *old(rng),
                *rng,
            ),
        decreases EVAL_ITERS - i,
    {
        let ghost (train_before, val_before) = (train_losses@, val_losses@);
        let ghost first = *rng;
        let train_loss = random_batch_loss(model, train_data, rng);
        train_losses.push(train_loss);
        let ghost second = *rng;
        let val_loss = random_batch_loss(model, val_data, rng);
        val_losses.push(val_loss);
        proof {
            assert(train_losses@.drop_last() =~= train_before);
            assert(val_losses@.drop_last() =~= val_before);
            assert(batch_loss_gives(*model, train_data@, train_losses@.last(), first, second));
            assert(batch_loss_gives(*model, val_data@, val_losses@.last(), second, *rng));
        }
        i = i + 1;
    }
    (mean_of(&train_losses), mean_of(&val_losses))
}

/// `loss` and `after` are what one step of training on a batch of windows of `data` makes. First
/// the batch was drawn from the generator `rng_before`, then the dropout drew from what that left;
/// `rng_after` is left in the end.
pub open spec fn random_train_gives<T: Real>(
    before: GptLanguageModel<T>,
    optimizer_before: AdamW<T>,
    data: Seq<usize>,
    loss: T,
    after: GptLanguageModel<T>,
    optimizer_after: AdamW<T>,
    rng_before: SmallRng,
    rng_after: SmallRng,
) -> bool {
    exists|input: TokenArray, targets: TokenArray, rng: SmallRng| #[trigger]
        batch_drawn(
            data,
            BATCH_SIZE as int,
            BLOCK_SIZE as int,
            input,
            targets,
            rng_before,
            rng,
        ) && train_gives(
            before,
            optimizer_before,
            input,
            targets,
            loss,
            after,
            optimizer_after,
            rng,
            rng_after,
        )
}

/// One step of training on a random batch of windows of `data`; returns the loss of the batch.
pub fn train_random_batch<T: Real>(
    model: &mut GptLanguageModel<T>,
    data: &[usize],
    optimizer: &mut AdamW<T>,
    rng: &mut SmallRng,
) -> (result: Result<T, InvalidRate>)
    requires
        old(model).wf(),
        old(model).config.n_embd > 0,
        old(model).config.block_size >= BLOCK_SIZE,
        data_fits(*old(model), data@),
    ensures
        final(model).wf(),
        final(model).config == old(model).config,
        match result {
            Ok(loss) => random_train_gives(
                *old(model),
                *old(optimizer),
                data@,
                loss,
                *final(model),
                *final(optimizer),
                *old(rng),
                *final(rng),
            ),
            Err(_) => {
                &&& old(model).blocks@.len() > 0
                &&& rate_zero_gives(old(model).config.dropout, false)
                &&& rate_refused(old(model).config.dropout)
                &&& model_grads_cleared(*old(model), *final(model))
                &&& *final(optimizer) == *old(optimizer)
            },
        },
{
    let (input, targets) = get_batch(data, BATCH_SIZE, BLOCK_SIZE, rng);
    proof {
        lemma_batch_below(
            data@,
            BATCH_SIZE as int,
            BLOCK_SIZE as int,
            input,
            targets,
            model.config.vocab_size as int,
        );
    }
    model.train_batch(&input, &targets, optimizer, rng)
}

/// The loss is estimated before every `EVAL_INTERVAL`-th step and before the last one.
pub open spec fn is_evaluated(iter: int) -> bool {
    iter % (EVAL_INTERVAL as int) == 0 || iter == MAX_ITERS - 1
}

/// Is the loss estimated before step `iter`?
pub fn evaluates_at(iter: usize) -> (evaluates: bool)
    ensures
        evaluates == is_evaluated(iter as int),
{
    iter % EVAL_INTERVAL == 0 || iter == MAX_ITERS - 1
}

/// The training data and the validation data: the first nine tenths of the data, and the rest.
pub fn split_data(data: &[usize]) -> (parts: (&[usize], &[usize]))
    requires
        data@.len() * 9 <= usize::MAX,
    ensures
        parts.0@.len() == data@.len() * 9 / 10,
        parts.0@ + parts.1@ == data@,
{
    let len: usize = data.len();
    let split_at: usize = len * 9 / 10;
    let train_data = slice_subrange(data, 0, split_at);
    let val_data = slice_subrange(data, split_at, len);
    assert(train_data@ + val_data@ =~= data@);
    (train_data, val_data)
}

/// The configuration of the model for a vocabulary of this size; its dropout rate is a fifth.
pub fn training_config<T: Real>(vocab_size: usize) -> (config: GptConfig<T>)
    ensures
        config.vocab_size == vocab_size,
        config.block_size == BLOCK_SIZE,
        config.n_embd == N_EMBD,
        config.n_head == N_HEAD,
        config.n_layer == N_LAYER,
        decimal_gives(2, 1, config.dropout),
        vocab_size * N_EMBD <= usize::MAX ==> config.is_sound(),
{
    let config = GptConfig {
        vocab_size,
        block_size: BLOCK_SIZE,
        n_embd: N_EMBD,
        n_head: N_HEAD,
        n_layer: N_LAYER,
        dropout: T::decimal(2, 1),
    };
    proof {
        assert(BLOCK_SIZE * N_EMBD == 32768) by (nonlinear_arith);
        assert(N_EMBD * (4 * N_EMBD) == 65536) by (nonlinear_arith);
        assert(BLOCK_SIZE * BLOCK_SIZE == 65536) by (nonlinear_arith);
        assert(N_EMBD as int % N_HEAD as int == 0) by (nonlinear_arith);
    }
    config
}

/// The optimizer: its learning rate is three ten-thousandths, its weight decay a hundredth.
pub fn training_optimizer<T: Real>() -> (optimizer: AdamW<T>)
    ensures
        fresh_optimizer(optimizer),
        decimal_gives(3, 4, optimizer.lr),
        decimal_gives(1, 2, optimizer.weight_decay),
{
    AdamW::new(T::decimal(3, 4), T::decimal(1, 2))
}

} // verus!
