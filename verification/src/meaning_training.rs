//! What a step of training does: it goes down the slopes of the loss of its batch.

use crate::attention::{attention_backward_steps_give, AttentionGrads};
use crate::block::{
    block_backward_gives, block_backward_steps_give, block_grads_cleared, Block, BlockCache,
    BlockGrads,
};
use crate::dropping::{block_drops_at, block_drops_nothing, lemma_run_model_masks};
use crate::exact::{is_exact, Reading};
use crate::feed_forward::feed_forward_backward_steps_give;
use crate::finite::model_values_finite;
use crate::grid::TokenArray;
use crate::laws::{
    block_same_but_grads, lemma_backward_changes_grads_only, lemma_clearing_changes_grads_only,
    lemma_forward_ignores_grads, linear_same_but_grads, model_same_but_grads, norm_same_but_grads,
};
use crate::layer_norm::LayerNorm;
use crate::linear::Linear;
use crate::masks::draws_below_one;
use crate::meaning_loss::{is_loss_of, lemma_loss_reads};
use crate::meaning_model::{is_model_of, lemma_model_reads};
use crate::model::{
    blocks_backward_give, model_backward_gives, model_backward_steps_give, model_grads_cleared,
    model_step_gives, GptCache, GptLanguageModel,
};
use crate::optim::{AdamW, Param1D, Param2D};
use crate::pairing::Table;
use crate::scalar::Real;
use crate::stepping::{
    entry_moves, lemma_stepped_model_value, linear_moves, norm_moves, optimizer_ready,
};
use crate::tensor::Tensor3;
use crate::training::{targets_fit, train_steps_give, TrainSteps};
use rand::rngs::SmallRng;
use vstd::prelude::*;

verus! {

/// The step with this decay moved every entry of the matrix by the gradient that `after` holds.
pub open spec fn matrix_trained<T>(
    read: Reading<T>,
    o: AdamW<T>,
    decay: real,
    before: Param2D<T>,
    after: Param2D<T>,
) -> bool {
    &&& after.has_shape(before.value.rows as int, before.value.cols as int)
    &&& forall|i: int|
        0 <= i < before.value.data@.len() ==> entry_moves(
            read,
            o,
            decay,
            before.value.data@[i],
            after.grad.data@[i],
            before.m.data@[i],
            before.v.data@[i],
            #[trigger] after.value.data@[i],
            after.m.data@[i],
            after.v.data@[i],
        )
}

/// The step, with nothing decayed, moved every entry of the vector by the gradient that `after`
/// holds.
pub open spec fn vector_trained<T>(
    read: Reading<T>,
    o: AdamW<T>,
    before: Param1D<T>,
    after: Param1D<T>,
) -> bool {
    &&& after.has_len(before.value@.len() as int)
    &&& forall|i: int|
        0 <= i < before.value@.len() ==> entry_moves(
            read,
            o,
            0 as real,
            before.value@[i],
            after.grad@[i],
            before.m@[i],
            before.v@[i],
            #[trigger] after.value@[i],
            after.m@[i],
            after.v@[i],
        )
}

/// The step moved the weights, with the decay of the optimizer, and the bias, with none.
pub open spec fn linear_trained<T>(
    read: Reading<T>,
    o: AdamW<T>,
    before: Linear<T>,
    after: Linear<T>,
) -> bool {
    &&& matrix_trained(read, o, (read.value)(o.weight_decay), before.weight, after.weight)
    &&& after.bias is Some == before.bias is Some
    &&& before.bias matches Some(b) ==> vector_trained(read, o, b, after.bias->0)
}

/// The step moved the two vectors of the normalization.
pub open spec fn norm_trained<T>(
    read: Reading<T>,
    o: AdamW<T>,
    before: LayerNorm<T>,
    after: LayerNorm<T>,
) -> bool {
    &&& vector_trained(read, o, before.gamma, after.gamma)
    &&& vector_trained(read, o, before.beta, after.beta)
    &&& after.eps == before.eps
}

/// The step moved all parameters of the block.
pub open spec fn block_trained<T>(
    read: Reading<T>,
    o: AdamW<T>,
    before: Block<T>,
    after: Block<T>,
) -> bool {
    &&& norm_trained(read, o, before.ln1, after.ln1)
    &&& linear_trained(read, o, before.attention.qkv, after.attention.qkv)
    &&& linear_trained(read, o, before.attention.proj, after.attention.proj)
    &&& norm_trained(read, o, before.ln2, after.ln2)
    &&& linear_trained(read, o, before.feed_forward.fc1, after.feed_forward.fc1)
    &&& linear_trained(read, o, before.feed_forward.fc2, after.feed_forward.fc2)
}

/// The step moved all parameters of the model, those of the linear layers with the decay of the
/// optimizer.
pub open spec fn model_trained<T>(
    read: Reading<T>,
    o: AdamW<T>,
    before: GptLanguageModel<T>,
    after: GptLanguageModel<T>,
) -> bool {
    &&& after.config == before.config
    &&& matrix_trained(read, o, 0 as real, before.token_embedding, after.token_embedding)
    &&& matrix_trained(read, o, 0 as real, before.position_embedding, after.position_embedding)
    &&& after.blocks@.len() == before.blocks@.len()
    &&& forall|l: int|
        0 <= l < before.blocks@.len() ==> block_trained(
            read,
            o,
            before.blocks@[l],
            #[trigger] after.blocks@[l],
        )
    &&& norm_trained(read, o, before.ln_f, after.ln_f)
    &&& linear_trained(read, o, before.lm_head, after.lm_head)
}

proof fn lemma_linear_trained<T>(
    read: Reading<T>,
    o: AdamW<T>,
    before: Linear<T>,
    backed: Linear<T>,
    after: Linear<T>,
)
    requires
        backed.wf(),
        before.wf(),
        after.has_shape(before.weight.value.rows as int, before.weight.value.cols as int),
        linear_same_but_grads(backed, before),
        linear_moves(read, o, backed, after),
    ensures
        linear_trained(read, o, before, after),
{
}

proof fn lemma_norm_trained<T>(
    read: Reading<T>,
    o: AdamW<T>,
    before: LayerNorm<T>,
    backed: LayerNorm<T>,
    after: LayerNorm<T>,
)
    requires
        before.has_width(before.gamma.value@.len() as int),
        after.has_width(before.gamma.value@.len() as int),
        norm_same_but_grads(backed, before),
        norm_moves(read, o, backed, after),
    ensures
        norm_trained(read, o, before, after),
{
}

/// A step of training: the loss that it returns is that of the batch under the model before the
/// step, with dropout by the rate of the model; all parameters then move by one step of the
/// optimizer, along the gradients that the model holds after it.
pub proof fn lemma_training_value<T: Real>(
    read: Reading<T>,
    model: &mut GptLanguageModel<T>,
    idx: &TokenArray,
    targets: &TokenArray,
    optimizer: &mut AdamW<T>,
    rng: &mut SmallRng,
    loss: T,
)
    requires
        is_exact(read),
        draws_below_one(read),
        old(model).wf(),
        old(model).takes(*idx),
        targets_fit(*old(model), *idx, *targets),
        idx.rows() * idx.cols() > 0,
        model_values_finite(read, *old(model)),
        optimizer_ready(read, *old(optimizer)),
        call_ensures(
            GptLanguageModel::<T>::train_batch,
            (model, idx, targets, optimizer, rng),
            Ok(loss),
        ),
    ensures
        exists|
            logits: Tensor3<T>,
            cache: GptCache<T>,
            stacks: Seq<Table>,
            probs: Tensor3<T>,
            grad: Tensor3<T>,
        |
            {
                &&& #[trigger] is_model_of(read, *old(model), *idx, cache, stacks, logits)
                &&& #[trigger] is_loss_of(read, logits, *targets, probs, loss, grad)
                &&& drops_by_model_rate(
                    read,
                    *old(model),
                    *idx,
                    cache,
                    *old(rng),
                    *final(rng),
                )
            },
        model_trained(read, *old(optimizer), *old(model), *final(model)),
        (read.value)(final(optimizer).beta1_pow) == (read.value)(old(optimizer).beta1_pow) * (
        read.value)(old(optimizer).beta1),
        (read.value)(final(optimizer).beta2_pow) == (read.value)(old(optimizer).beta2_pow) * (
        read.value)(old(optimizer).beta2),
{
    let (before, after) = (*old(model), *final(model));
    let (o, later) = (*old(optimizer), *final(optimizer));
    let steps = choose|steps: TrainSteps<T>|
        train_steps_give(
            before,
            o,
            *idx,
            *targets,
            loss,
            after,
            later,
            *old(rng),
            *final(rng),
            steps,
        );
    lemma_clearing_changes_grads_only(before, steps.cleared);
    lemma_same_but_grads_turned(steps.cleared, before);
    lemma_forward_ignores_grads(
        steps.cleared,
        before,
        *idx,
        true,
        steps.logits,
        steps.cache,
        *old(rng),
        *final(rng),
    );
    let stacks = lemma_model_reads(
        read,
        before,
        *idx,
        true,
        steps.logits,
        steps.cache,
        *old(rng),
        *final(rng),
    );
    lemma_run_model_masks(
        read,
        before,
        *idx,
        true,
        steps.logits,
        steps.cache,
        *old(rng),
        *final(rng),
    );
    lemma_loss_reads(read, steps.logits, *targets, steps.probs, loss, steps.grad);
    lemma_backward_changes_grads_only(steps.cleared, steps.cache, steps.grad, steps.backed);
    lemma_cleared_keeps_shape(before, steps.cleared);
    lemma_backward_keeps_shape(steps.cleared, steps.cache, steps.grad, steps.backed);
    lemma_training_moves(read, before, steps, after, o, later);
}

/// Clearing the gradients keeps the shapes.
pub proof fn lemma_cleared_keeps_shape<T: Real>(
    before: GptLanguageModel<T>,
    after: GptLanguageModel<T>,
)
    requires
        before.wf(),
        model_grads_cleared(before, after),
    ensures
        after.wf(),
{
    let (n_embd, block_size) = (before.config.n_embd as int, before.config.block_size as int);
    assert forall|i: int| 0 <= i < after.blocks@.len() implies (
    #[trigger] after.blocks@[i]).has_shape(n_embd, block_size) by {
        assert(block_grads_cleared(before.blocks@[i], after.blocks@[i]));
        assert(before.blocks@[i].has_shape(n_embd, block_size));
    }
}

/// Going back through a block keeps the shapes.
proof fn lemma_block_keeps_shape<T: Real>(
    before: Block<T>,
    cache: BlockCache<T>,
    grad_output: Tensor3<T>,
    after: Block<T>,
    grad_input: Tensor3<T>,
    n_embd: int,
    block_size: int,
)
    requires
        before.has_shape(n_embd, block_size),
        block_backward_gives(before, cache, grad_output, after, grad_input),
    ensures
        after.has_shape(n_embd, block_size),
{
    let g = choose|g: BlockGrads<T>|
        block_backward_steps_give(before, cache, grad_output, after, grad_input, g);
    let a = choose|a: AttentionGrads<T>| #[trigger]
        attention_backward_steps_give(
            before.attention,
            cache.attention,
            g.residual,
            after.attention,
            g.attention,
            a,
        );
    let (projected, hidden, held) = choose|
        projected: Tensor3<T>,
        hidden: Tensor3<T>,
        held: Tensor3<T>,
    |
        feed_forward_backward_steps_give(
            before.feed_forward,
            cache.feed_forward,
            grad_output,
            after.feed_forward,
            g.feed_forward,
            projected,
            hidden,
            held,
        );
}

proof fn lemma_blocks_keep_shape<T: Real>(
    before: Seq<Block<T>>,
    caches: Seq<BlockCache<T>>,
    grad_output: Tensor3<T>,
    after: Seq<Block<T>>,
    grad: Tensor3<T>,
    n_embd: int,
    block_size: int,
    i: int,
)
    requires
        after.len() == before.len(),
        forall|k: int|
            0 <= k < before.len() ==> (#[trigger] before[k]).has_shape(n_embd, block_size),
        blocks_backward_give(before, caches, grad_output, after, grad),
        0 <= i < before.len(),
    ensures
        after[i].has_shape(n_embd, block_size),
    decreases before.len(),
{
    let mid = choose|mid: Tensor3<T>|
        blocks_backward_give(before.skip(1), caches.skip(1), grad_output, after.skip(1), mid)
            && #[trigger] block_backward_gives(before[0], caches[0], mid, after[0], grad);
    if i == 0 {
        lemma_block_keeps_shape(before[0], caches[0], mid, after[0], grad, n_embd, block_size);
    } else {
        assert forall|k: int| 0 <= k < before.skip(1).len() implies (
        #[trigger] before.skip(1)[k]).has_shape(n_embd, block_size) by {
            assert(before.skip(1)[k] == before[k + 1]);
        }
        lemma_blocks_keep_shape(
            before.skip(1),
            caches.skip(1),
            grad_output,
            after.skip(1),
            mid,
            n_embd,
            block_size,
            i - 1,
        );
        assert(after.skip(1)[i - 1] == after[i]);
    }
}

/// Going back through the model keeps the shapes.
pub proof fn lemma_backward_keeps_shape<T: Real>(
    before: GptLanguageModel<T>,
    cache: GptCache<T>,
    grad_logits: Tensor3<T>,
    after: GptLanguageModel<T>,
)
    requires
        before.wf(),
        model_backward_gives(before, cache, grad_logits, after),
    ensures
        after.wf(),
{
    let (n_embd, block_size) = (before.config.n_embd as int, before.config.block_size as int);
    let (normed, back, front) = choose|normed: Tensor3<T>, back: Tensor3<T>, front: Tensor3<T>|
        model_backward_steps_give(before, cache, grad_logits, after, normed, back, front);
    assert forall|i: int| 0 <= i < after.blocks@.len() implies (
    #[trigger] after.blocks@[i]).has_shape(n_embd, block_size) by {
        lemma_blocks_keep_shape(
            before.blocks@,
            cache.blocks@,
            back,
            after.blocks@,
            front,
            n_embd,
            block_size,
            i,
        );
    }
}

/// The masks of a run in training: none where the rate reads as zero, and else three in every
/// block, each by the rate, drawn one after the other.
pub open spec fn drops_by_model_rate<T: Real>(
    read: Reading<T>,
    model: GptLanguageModel<T>,
    idx: TokenArray,
    cache: GptCache<T>,
    before: SmallRng,
    after: SmallRng,
) -> bool {
    &&& (read.value)(model.config.dropout) == 0 as real ==> after == before && forall|l: int|
        0 <= l < model.blocks@.len() ==> block_drops_nothing(#[trigger] cache.blocks@[l])
    &&& (read.value)(model.config.dropout) != 0 as real ==> exists|gens: Seq<SmallRng>|
        {
            &&& #[trigger] gens.len() == model.blocks@.len() + 1
            &&& gens[0] == before
            &&& gens[model.blocks@.len() as int] == after
            &&& forall|l: int|
                0 <= l < model.blocks@.len() ==> #[trigger] block_drops_at(
                    read,
                    model.config.dropout,
                    model.blocks@[l].attention.n_head as int,
                    idx.rows(),
                    idx.cols(),
                    model.config.n_embd as int,
                    cache.blocks@,
                    gens,
                    l,
                )
        }
}

/// What differs in nothing but gradients does so both ways.
proof fn lemma_same_but_grads_turned<T>(a: GptLanguageModel<T>, b: GptLanguageModel<T>)
    requires
        model_same_but_grads(a, b),
    ensures
        model_same_but_grads(b, a),
{
    assert forall|i: int| 0 <= i < a.blocks@.len() implies block_same_but_grads(
        #[trigger] b.blocks@[i],
        a.blocks@[i],
    ) by {
        assert(block_same_but_grads(a.blocks@[i], b.blocks@[i]));
    }
}

/// The parameters after a step of training.
proof fn lemma_training_moves<T: Real>(
    read: Reading<T>,
    before: GptLanguageModel<T>,
    steps: TrainSteps<T>,
    after: GptLanguageModel<T>,
    o: AdamW<T>,
    later: AdamW<T>,
)
    requires
        is_exact(read),
        before.wf(),
        optimizer_ready(read, o),
        model_grads_cleared(before, steps.cleared),
        model_same_but_grads(steps.cleared, before),
        model_backward_gives(steps.cleared, steps.cache, steps.grad, steps.backed),
        model_same_but_grads(steps.backed, steps.cleared),
        model_step_gives(steps.backed, o, after, later),
        steps.backed.wf(),
        after.wf(),
    ensures
        model_trained(read, o, before, after),
        (read.value)(later.beta1_pow) == (read.value)(o.beta1_pow) * (read.value)(o.beta1),
        (read.value)(later.beta2_pow) == (read.value)(o.beta2_pow) * (read.value)(o.beta2),
{
    let backed = steps.backed;
    lemma_stepped_model_value(read, backed, o, after, later);
    assert forall|l: int| 0 <= l < before.blocks@.len() implies block_trained(
        read,
        o,
        before.blocks@[l],
        #[trigger] after.blocks@[l],
    ) by {
        let (a, m, z) = (before.blocks@[l], backed.blocks@[l], after.blocks@[l]);
        assert(block_same_but_grads(steps.cleared.blocks@[l], a));
        assert(block_same_but_grads(m, steps.cleared.blocks@[l]));
        lemma_norm_trained(read, o, a.ln1, m.ln1, z.ln1);
        lemma_linear_trained(read, o, a.attention.qkv, m.attention.qkv, z.attention.qkv);
        lemma_linear_trained(read, o, a.attention.proj, m.attention.proj, z.attention.proj);
        lemma_norm_trained(read, o, a.ln2, m.ln2, z.ln2);
        lemma_linear_trained(read, o, a.feed_forward.fc1, m.feed_forward.fc1, z.feed_forward.fc1);
        lemma_linear_trained(read, o, a.feed_forward.fc2, m.feed_forward.fc2, z.feed_forward.fc2);
    }
    lemma_norm_trained(read, o, before.ln_f, backed.ln_f, after.ln_f);
    lemma_linear_trained(read, o, before.lm_head, backed.lm_head, after.lm_head);
}

} // verus!
