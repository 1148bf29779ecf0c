//! Laws that span the whole model.

use crate::attention::{
    attention_backward_gives, attention_backward_steps_give, attention_gives, attention_steps_give,
    AttentionGrads,
};
use crate::block::{
    block_backward_gives, block_backward_steps_give, block_gives, block_grads_cleared,
    block_steps_give, Block, BlockCache, BlockGrads, BlockSteps,
};
use crate::dropout::{dropout_gives, surely_zero};
use crate::grid::TokenArray;
use crate::layer_norm::LayerNorm;
use crate::linear::{affine_gives, linear_gives, Linear};
use crate::model::{
    blocks_backward_give, blocks_give, model_backward_gives, model_backward_steps_give, model_gives,
    model_grads_cleared, model_stepped, model_steps_give, GptCache, GptLanguageModel,
};
use crate::optim::{
    lemma_undecayed_step_ignores_decay, lemma_vector_step_ignores_decay, same_but_decay,
    undecayed_matrix_step_gives, vector_step_gives, AdamStep, AdamW, Param1D,
};
use crate::scalar::Real;
use crate::tensor::Tensor3;
use crate::training::{train_gives, train_steps_give, TrainSteps};
use rand::rngs::SmallRng;
use vstd::prelude::*;

verus! {

/// Nothing but the gradients differs between the two layers.
pub open spec fn linear_same_but_grads<T>(a: Linear<T>, b: Linear<T>) -> bool {
    &&& a.weight.same_but_grad(b.weight)
    &&& a.bias is Some == b.bias is Some
    &&& b.bias matches Some(bias) ==> a.bias->0.same_but_grad(bias)
}

/// Nothing but the gradients differs between the two normalizations.
pub open spec fn norm_same_but_grads<T>(a: LayerNorm<T>, b: LayerNorm<T>) -> bool {
    &&& a.gamma.same_but_grad(b.gamma)
    &&& a.beta.same_but_grad(b.beta)
    &&& a.eps == b.eps
}

/// Nothing but the gradients differs between the two blocks.
pub open spec fn block_same_but_grads<T>(a: Block<T>, b: Block<T>) -> bool {
    &&& norm_same_but_grads(a.ln1, b.ln1)
    &&& a.attention.n_head == b.attention.n_head
    &&& a.attention.head_size == b.attention.head_size
    &&& a.attention.causal_mask == b.attention.causal_mask
    &&& linear_same_but_grads(a.attention.qkv, b.attention.qkv)
    &&& linear_same_but_grads(a.attention.proj, b.attention.proj)
    &&& norm_same_but_grads(a.ln2, b.ln2)
    &&& linear_same_but_grads(a.feed_forward.fc1, b.feed_forward.fc1)
    &&& linear_same_but_grads(a.feed_forward.fc2, b.feed_forward.fc2)
}

/// Nothing but the gradients differs between the two models.
pub open spec fn model_same_but_grads<T>(a: GptLanguageModel<T>, b: GptLanguageModel<T>) -> bool {
    &&& a.config == b.config
    &&& a.token_embedding.same_but_grad(b.token_embedding)
    &&& a.position_embedding.same_but_grad(b.position_embedding)
    &&& a.blocks@.len() == b.blocks@.len()
    &&& forall|i: int|
        0 <= i < b.blocks@.len() ==> block_same_but_grads(#[trigger] a.blocks@[i], b.blocks@[i])
    &&& norm_same_but_grads(a.ln_f, b.ln_f)
    &&& linear_same_but_grads(a.lm_head, b.lm_head)
}

/// Going back through a block changes gradients, and nothing else.
pub proof fn lemma_block_backward_keeps<T: Real>(
    before: Block<T>,
    cache: BlockCache<T>,
    grad_output: Tensor3<T>,
    after: Block<T>,
    grad_input: Tensor3<T>,
)
    requires
        block_backward_gives(before, cache, grad_output, after, grad_input),
    ensures
        block_same_but_grads(after, before),
{
    let g = choose|g: BlockGrads<T>|
        block_backward_steps_give(before, cache, grad_output, after, grad_input, g);
    assert(attention_backward_gives(
        before.attention,
        cache.attention,
        g.residual,
        after.attention,
        g.attention,
    ));
    let h = choose|h: AttentionGrads<T>| #[trigger]
        attention_backward_steps_give(
            before.attention,
            cache.attention,
            g.residual,
            after.attention,
            g.attention,
            h,
        );
}

proof fn lemma_blocks_backward_keep<T: Real>(
    before: Seq<Block<T>>,
    caches: Seq<BlockCache<T>>,
    grad_output: Tensor3<T>,
    after: Seq<Block<T>>,
    grad: Tensor3<T>,
    i: int,
)
    requires
        blocks_backward_give(before, caches, grad_output, after, grad),
        after.len() == before.len(),
        0 <= i < before.len(),
    ensures
        block_same_but_grads(after[i], before[i]),
    decreases before.len(),
{
    let mid = choose|mid: Tensor3<T>|
        blocks_backward_give(before.skip(1), caches.skip(1), grad_output, after.skip(1), mid)
            && #[trigger] block_backward_gives(before[0], caches[0], mid, after[0], grad);
    if i == 0 {
        lemma_block_backward_keeps(before[0], caches[0], mid, after[0], grad);
    } else {
        lemma_blocks_backward_keep(
            before.skip(1),
            caches.skip(1),
            grad_output,
            after.skip(1),
            mid,
            i - 1,
        );
    }
}

/// Going back through the model changes gradients, and nothing else.
pub proof fn lemma_backward_changes_grads_only<T: Real>(
    before: GptLanguageModel<T>,
    cache: GptCache<T>,
    grad_logits: Tensor3<T>,
    after: GptLanguageModel<T>,
)
    requires
        model_backward_gives(before, cache, grad_logits, after),
    ensures
        model_same_but_grads(after, before),
{
    let (normed, last, embedded) = choose|
        normed: Tensor3<T>,
        last: Tensor3<T>,
        embedded: Tensor3<T>,
    |
        model_backward_steps_give(before, cache, grad_logits, after, normed, last, embedded);
    assert forall|i: int| 0 <= i < before.blocks@.len() implies block_same_but_grads(
        #[trigger] after.blocks@[i],
        before.blocks@[i],
    ) by {
        lemma_blocks_backward_keep(
            before.blocks@,
            cache.blocks@,
            last,
            after.blocks@,
            embedded,
            i,
        );
    }
}

/// Clearing the gradients changes gradients, and nothing else.
pub proof fn lemma_clearing_changes_grads_only<T: Real>(
    before: GptLanguageModel<T>,
    after: GptLanguageModel<T>,
)
    requires
        model_grads_cleared(before, after),
    ensures
        model_same_but_grads(after, before),
{
    assert forall|i: int| 0 <= i < before.blocks@.len() implies block_same_but_grads(
        #[trigger] after.blocks@[i],
        before.blocks@[i],
    ) by {
        assert(block_grads_cleared(before.blocks@[i], after.blocks@[i]));
    }
}

/// The gradients that a model holds do not matter to a step of training.
pub proof fn lemma_training_ignores_old_grads<T: Real>(
    before: GptLanguageModel<T>,
    other: GptLanguageModel<T>,
    optimizer_before: AdamW<T>,
    idx: TokenArray,
    targets: TokenArray,
    loss: T,
    after: GptLanguageModel<T>,
    optimizer_after: AdamW<T>,
    rng_before: SmallRng,
    rng_after: SmallRng,
)
    requires
        before.wf(),
        other.wf(),
        model_same_but_grads(other, before),
        train_gives(
            before,
            optimizer_before,
            idx,
            targets,
            loss,
            after,
            optimizer_after,
            rng_before,
            rng_after,
        ),
    ensures
        train_gives(
            other,
            optimizer_before,
            idx,
            targets,
            loss,
            after,
            optimizer_after,
            rng_before,
            rng_after,
        ),
{
    let steps = choose|steps: TrainSteps<T>|
        train_steps_give(
            before,
            optimizer_before,
            idx,
            targets,
            loss,
            after,
            optimizer_after,
            rng_before,
            rng_after,
            steps,
        );
    let cleared = steps.cleared;
    assert forall|i: int| 0 <= i < other.blocks@.len() implies block_grads_cleared(
        other.blocks@[i],
        #[trigger] cleared.blocks@[i],
    ) by {
        assert(block_grads_cleared(before.blocks@[i], cleared.blocks@[i]));
        assert(block_same_but_grads(other.blocks@[i], before.blocks@[i]));
        assert(before.blocks@[i].has_shape(
            before.config.n_embd as int,
            before.config.block_size as int,
        ));
        assert(other.blocks@[i].has_shape(
            before.config.n_embd as int,
            before.config.block_size as int,
        ));
    }
    assert(model_grads_cleared(other, cleared));
    assert(train_steps_give(
        other,
        optimizer_before,
        idx,
        targets,
        loss,
        after,
        optimizer_after,
        rng_before,
        rng_after,
        steps,
    ));
}

proof fn lemma_linear_ignores_grads<T: Real>(
    layer: Linear<T>,
    other: Linear<T>,
    input: Tensor3<T>,
    output: Tensor3<T>,
)
    requires
        linear_same_but_grads(other, layer),
        linear_gives(layer, input, output),
    ensures
        linear_gives(other, input, output),
{
    assert forall|r: int, c: int|
        0 <= r < input.flat.rows && 0 <= c < other.weight.value.cols implies affine_gives(
        input.flat.row(r),
        other.weight.value.col(c),
        other.bias_at(c),
        #[trigger] output.flat.at(r, c),
    ) by {
        assert(other.bias_at(c) == layer.bias_at(c));
    }
}

proof fn lemma_block_ignores_grads<T: Real>(
    block: Block<T>,
    other: Block<T>,
    input: Tensor3<T>,
    training: bool,
    dropout: T,
    output: Tensor3<T>,
    cache: BlockCache<T>,
    before: SmallRng,
    after: SmallRng,
)
    requires
        block_same_but_grads(other, block),
        block_gives(block, input, training, dropout, output, cache, before, after),
    ensures
        block_gives(other, input, training, dropout, output, cache, before, after),
{
    let s = choose|s: BlockSteps<T>|
        block_steps_give(block, input, training, dropout, output, cache, before, after, s);
    let (qkv, scale, projected, mid) = choose|
        qkv: Tensor3<T>,
        scale: T,
        projected: Tensor3<T>,
        mid: SmallRng,
    |
        attention_steps_give(
            block.attention,
            s.ln1_output,
            training,
            dropout,
            s.attention_output,
            cache.attention,
            before,
            s.rng,
            qkv,
            scale,
            projected,
            mid,
        );
    lemma_linear_ignores_grads(block.attention.qkv, other.attention.qkv, s.ln1_output, qkv);
    lemma_linear_ignores_grads(
        block.attention.proj,
        other.attention.proj,
        cache.attention.context,
        projected,
    );
    assert(attention_steps_give(
        other.attention,
        s.ln1_output,
        training,
        dropout,
        s.attention_output,
        cache.attention,
        before,
        s.rng,
        qkv,
        scale,
        projected,
        mid,
    ));
    let hidden = cache.feed_forward.hidden;
    let widened = choose|widened: Tensor3<T>| #[trigger]
        linear_gives(block.feed_forward.fc2, hidden, widened) && dropout_gives(
            widened,
            dropout,
            training,
            s.feed_forward_output,
            cache.feed_forward.dropout_mask,
            s.rng,
            after,
        );
    lemma_linear_ignores_grads(
        block.feed_forward.fc1,
        other.feed_forward.fc1,
        s.ln2_output,
        cache.feed_forward.hidden_pre,
    );
    lemma_linear_ignores_grads(block.feed_forward.fc2, other.feed_forward.fc2, hidden, widened);
    assert(block_steps_give(other, input, training, dropout, output, cache, before, after, s));
}

proof fn lemma_blocks_ignore_grads<T: Real>(
    blocks: Seq<Block<T>>,
    others: Seq<Block<T>>,
    training: bool,
    dropout: T,
    input: Tensor3<T>,
    caches: Seq<BlockCache<T>>,
    output: Tensor3<T>,
    before: SmallRng,
    after: SmallRng,
)
    requires
        others.len() == blocks.len(),
        forall|i: int|
            0 <= i < blocks.len() ==> block_same_but_grads(#[trigger] others[i], blocks[i]),
        blocks_give(blocks, training, dropout, input, caches, output, before, after),
    ensures
        blocks_give(others, training, dropout, input, caches, output, before, after),
    decreases blocks.len(),
{
    if blocks.len() > 0 {
        let (mid, rng) = choose|mid: Tensor3<T>, rng: SmallRng|
            blocks_give(
                blocks.drop_last(),
                training,
                dropout,
                input,
                caches.drop_last(),
                mid,
                before,
                rng,
            ) && #[trigger] block_gives(
                blocks.last(),
                mid,
                training,
                dropout,
                output,
                caches.last(),
                rng,
                after,
            );
        assert forall|i: int| 0 <= i < blocks.len() - 1 implies block_same_but_grads(
            #[trigger] others.drop_last()[i],
            blocks.drop_last()[i],
        ) by {
            assert(others.drop_last()[i] == others[i]);
        }
        lemma_blocks_ignore_grads(
            blocks.drop_last(),
            others.drop_last(),
            training,
            dropout,
            input,
            caches.drop_last(),
            mid,
            before,
            rng,
        );
        lemma_block_ignores_grads(
            blocks.last(),
            others.last(),
            mid,
            training,
            dropout,
            output,
            caches.last(),
            rng,
            after,
        );
    }
}

/// The gradients that a model holds do not matter to what it makes of its input.
pub proof fn lemma_forward_ignores_grads<T: Real>(
    model: GptLanguageModel<T>,
    other: GptLanguageModel<T>,
    idx: TokenArray,
    training: bool,
    logits: Tensor3<T>,
    cache: GptCache<T>,
    before: SmallRng,
    after: SmallRng,
)
    requires
        model_same_but_grads(other, model),
        model_gives(model, idx, training, logits, cache, before, after),
    ensures
        model_gives(other, idx, training, logits, cache, before, after),
{
    let (embedded, last) = choose|embedded: Tensor3<T>, last: Tensor3<T>|
        model_steps_give(model, idx, training, logits, cache, before, after, embedded, last);
    lemma_blocks_ignore_grads(
        model.blocks@,
        other.blocks@,
        training,
        model.config.dropout,
        embedded,
        cache.blocks@,
        last,
        before,
        after,
    );
    lemma_linear_ignores_grads(
        model.lm_head,
        other.lm_head,
        cache.final_norm_output,
        logits,
    );
    assert(model_steps_give(other, idx, training, logits, cache, before, after, embedded, last));
}

proof fn lemma_block_zero_rate<T: Real>(
    block: Block<T>,
    input: Tensor3<T>,
    training: bool,
    dropout: T,
    output: Tensor3<T>,
    cache: BlockCache<T>,
    before: SmallRng,
    after: SmallRng,
)
    requires
        surely_zero(dropout),
        block_gives(block, input, training, dropout, output, cache, before, after),
    ensures
        block_gives(block, input, false, dropout, output, cache, before, after),
{
    let s = choose|s: BlockSteps<T>|
        block_steps_give(block, input, training, dropout, output, cache, before, after, s);
    let (qkv, scale, projected, mid) = choose|
        qkv: Tensor3<T>,
        scale: T,
        projected: Tensor3<T>,
        mid: SmallRng,
    |
        attention_steps_give(
            block.attention,
            s.ln1_output,
            training,
            dropout,
            s.attention_output,
            cache.attention,
            before,
            s.rng,
            qkv,
            scale,
            projected,
            mid,
        );
    assert(attention_steps_give(
        block.attention,
        s.ln1_output,
        false,
        dropout,
        s.attention_output,
        cache.attention,
        before,
        s.rng,
        qkv,
        scale,
        projected,
        mid,
    ));
    assert(attention_gives(
        block.attention,
        s.ln1_output,
        false,
        dropout,
        s.attention_output,
        cache.attention,
        before,
        s.rng,
    ));
    assert(block_steps_give(block, input, false, dropout, output, cache, before, after, s));
}

proof fn lemma_blocks_zero_rate<T: Real>(
    blocks: Seq<Block<T>>,
    training: bool,
    dropout: T,
    input: Tensor3<T>,
    caches: Seq<BlockCache<T>>,
    output: Tensor3<T>,
    before: SmallRng,
    after: SmallRng,
)
    requires
        surely_zero(dropout),
        blocks_give(blocks, training, dropout, input, caches, output, before, after),
    ensures
        blocks_give(blocks, false, dropout, input, caches, output, before, after),
    decreases blocks.len(),
{
    if blocks.len() > 0 {
        let (mid, rng) = choose|mid: Tensor3<T>, rng: SmallRng|
            blocks_give(
                blocks.drop_last(),
                training,
                dropout,
                input,
                caches.drop_last(),
                mid,
                before,
                rng,
            ) && #[trigger] block_gives(
                blocks.last(),
                mid,
                training,
                dropout,
                output,
                caches.last(),
                rng,
                after,
            );
        lemma_blocks_zero_rate(
            blocks.drop_last(),
            training,
            dropout,
            input,
            caches.drop_last(),
            mid,
            before,
            rng,
        );
        lemma_block_zero_rate(
            blocks.last(),
            mid,
            training,
            dropout,
            output,
            caches.last(),
            rng,
            after,
        );
    }
}

proof fn lemma_blocks_draw_nothing<T: Real>(
    blocks: Seq<Block<T>>,
    dropout: T,
    input: Tensor3<T>,
    caches: Seq<BlockCache<T>>,
    output: Tensor3<T>,
    before: SmallRng,
    after: SmallRng,
)
    requires
        blocks_give(blocks, false, dropout, input, caches, output, before, after),
    ensures
        after == before,
    decreases blocks.len(),
{
    if blocks.len() > 0 {
        let (mid, rng) = choose|mid: Tensor3<T>, rng: SmallRng|
            blocks_give(
                blocks.drop_last(),
                false,
                dropout,
                input,
                caches.drop_last(),
                mid,
                before,
                rng,
            ) && #[trigger] block_gives(
                blocks.last(),
                mid,
                false,
                dropout,
                output,
                caches.last(),
                rng,
                after,
            );
        lemma_blocks_draw_nothing(
            blocks.drop_last(),
            dropout,
            input,
            caches.drop_last(),
            mid,
            before,
            rng,
        );
        let s = choose|s: BlockSteps<T>|
            block_steps_give(
                blocks.last(),
                mid,
                false,
                dropout,
                output,
                caches.last(),
                rng,
                after,
                s,
            );
        assert(s.rng == rng);
    }
}

/// Outside training, nothing is drawn.
pub proof fn lemma_evaluation_draws_nothing<T: Real>(
    model: GptLanguageModel<T>,
    idx: TokenArray,
    logits: Tensor3<T>,
    cache: GptCache<T>,
    before: SmallRng,
    after: SmallRng,
)
    requires
        model_gives(model, idx, false, logits, cache, before, after),
    ensures
        after == before,
{
    let (embedded, last) = choose|embedded: Tensor3<T>, last: Tensor3<T>|
        model_steps_give(model, idx, false, logits, cache, before, after, embedded, last);
    lemma_blocks_draw_nothing(
        model.blocks@,
        model.config.dropout,
        embedded,
        cache.blocks@,
        last,
        before,
        after,
    );
}

/// With a dropout rate of zero, what the model makes of its input in training is what it makes
/// of it outside training, and nothing is drawn.
pub proof fn lemma_zero_rate_training_is_evaluation<T: Real>(
    model: GptLanguageModel<T>,
    idx: TokenArray,
    training: bool,
    logits: Tensor3<T>,
    cache: GptCache<T>,
    before: SmallRng,
    after: SmallRng,
)
    requires
        surely_zero(model.config.dropout),
        model_gives(model, idx, training, logits, cache, before, after),
    ensures
        model_gives(model, idx, false, logits, cache, before, after),
        after == before,
{
    let (embedded, last) = choose|embedded: Tensor3<T>, last: Tensor3<T>|
        model_steps_give(model, idx, training, logits, cache, before, after, embedded, last);
    lemma_blocks_zero_rate(
        model.blocks@,
        training,
        model.config.dropout,
        embedded,
        cache.blocks@,
        last,
        before,
        after,
    );
    assert(model_steps_give(model, idx, false, logits, cache, before, after, embedded, last));
    lemma_evaluation_draws_nothing(model, idx, logits, cache, before, after);
}

/// `after` is the bias `before`, if there is one, after an optimizer step.
pub open spec fn bias_step_gives<T: Real>(
    step: AdamStep<T>,
    before: Option<Param1D<T>>,
    after: Option<Param1D<T>>,
) -> bool {
    &&& after is Some == before is Some
    &&& before matches Some(bias) ==> vector_step_gives(step, bias, after->0)
}

/// The embeddings, the normalizations and the biases of `after` are those of `before` after an
/// optimizer step.
pub open spec fn all_but_matrices_stepped<T: Real>(
    step: AdamStep<T>,
    before: GptLanguageModel<T>,
    after: GptLanguageModel<T>,
) -> bool {
    &&& undecayed_matrix_step_gives(step, before.token_embedding, after.token_embedding)
    &&& undecayed_matrix_step_gives(step, before.position_embedding, after.position_embedding)
    &&& after.blocks@.len() == before.blocks@.len()
    &&& forall|i: int|
        0 <= i < before.blocks@.len() ==> block_vectors_stepped(
            step,
            before.blocks@[i],
            #[trigger] after.blocks@[i],
        )
    &&& vector_step_gives(step, before.ln_f.gamma, after.ln_f.gamma)
    &&& vector_step_gives(step, before.ln_f.beta, after.ln_f.beta)
    &&& bias_step_gives(step, before.lm_head.bias, after.lm_head.bias)
}

/// The normalizations and the biases of the block `after` are those of `before` after an
/// optimizer step.
pub open spec fn block_vectors_stepped<T: Real>(
    step: AdamStep<T>,
    before: Block<T>,
    after: Block<T>,
) -> bool {
    &&& vector_step_gives(step, before.ln1.gamma, after.ln1.gamma)
    &&& vector_step_gives(step, before.ln1.beta, after.ln1.beta)
    &&& bias_step_gives(step, before.attention.qkv.bias, after.attention.qkv.bias)
    &&& bias_step_gives(step, before.attention.proj.bias, after.attention.proj.bias)
    &&& vector_step_gives(step, before.ln2.gamma, after.ln2.gamma)
    &&& vector_step_gives(step, before.ln2.beta, after.ln2.beta)
    &&& bias_step_gives(step, before.feed_forward.fc1.bias, after.feed_forward.fc1.bias)
    &&& bias_step_gives(step, before.feed_forward.fc2.bias, after.feed_forward.fc2.bias)
}

proof fn lemma_bias_step_ignores_decay<T: Real>(
    step: AdamStep<T>,
    other: AdamStep<T>,
    before: Option<Param1D<T>>,
    after: Option<Param1D<T>>,
)
    requires
        same_but_decay(step, other),
        bias_step_gives(step, before, after),
    ensures
        bias_step_gives(other, before, after),
{
    if let Some(bias) = before {
        lemma_vector_step_ignores_decay(step, other, bias, after->0);
    }
}

/// The weight decay reaches the matrices of the linear layers only: the embeddings, the
/// normalizations and the biases come out of a step as they would with any other weight decay.
pub proof fn lemma_decay_reaches_matrices_only<T: Real>(
    step: AdamStep<T>,
    other: AdamStep<T>,
    before: GptLanguageModel<T>,
    after: GptLanguageModel<T>,
)
    requires
        same_but_decay(step, other),
        model_stepped(step, before, after),
    ensures
        all_but_matrices_stepped(other, before, after),
{
    lemma_undecayed_step_ignores_decay(
        step,
        other,
        before.token_embedding,
        after.token_embedding,
    );
    lemma_undecayed_step_ignores_decay(
        step,
        other,
        before.position_embedding,
        after.position_embedding,
    );
    assert forall|i: int| 0 <= i < before.blocks@.len() implies block_vectors_stepped(
        other,
        before.blocks@[i],
        #[trigger] after.blocks@[i],
    ) by {
        let (b, a) = (before.blocks@[i], after.blocks@[i]);
        lemma_vector_step_ignores_decay(step, other, b.ln1.gamma, a.ln1.gamma);
        lemma_vector_step_ignores_decay(step, other, b.ln1.beta, a.ln1.beta);
        lemma_bias_step_ignores_decay(step, other, b.attention.qkv.bias, a.attention.qkv.bias);
        lemma_bias_step_ignores_decay(step, other, b.attention.proj.bias, a.attention.proj.bias);
        lemma_vector_step_ignores_decay(step, other, b.ln2.gamma, a.ln2.gamma);
        lemma_vector_step_ignores_decay(step, other, b.ln2.beta, a.ln2.beta);
        lemma_bias_step_ignores_decay(
            step,
            other,
            b.feed_forward.fc1.bias,
            a.feed_forward.fc1.bias,
        );
        lemma_bias_step_ignores_decay(
            step,
            other,
            b.feed_forward.fc2.bias,
            a.feed_forward.fc2.bias,
        );
    }
    lemma_vector_step_ignores_decay(step, other, before.ln_f.gamma, after.ln_f.gamma);
    lemma_vector_step_ignores_decay(step, other, before.ln_f.beta, after.ln_f.beta);
    lemma_bias_step_ignores_decay(step, other, before.lm_head.bias, after.lm_head.bias);
}

} // verus!
