//! The gradients that a step of training leaves are the slopes of the loss that it returns.

use crate::block::{block_grads_cleared, block_step_gives, Block};
use crate::exact::{is_exact, Reading};
use crate::finite::{
    block_values_finite, is_run, lemma_blocks_have_run, model_values_finite, BlocksRun,
};
use crate::gradient::{bias_gain, lemma_series_plus, lemma_series_same, series};
use crate::grid::{token_items, TokenArray};
use crate::laws::{
    block_same_but_grads, lemma_backward_changes_grads_only, lemma_clearing_changes_grads_only,
    linear_same_but_grads, model_same_but_grads,
};
use crate::layer_norm::LayerNorm;
use crate::linear::Linear;
use crate::linearity::{block_grads_finite, model_grads_finite, table_gain};
use crate::meaning_loss::{is_loss_of, lemma_loss_reads, token_at};
use crate::meaning_model::{is_model_of, lemma_model_reads};
use crate::meaning_training::{lemma_backward_keeps_shape, lemma_cleared_keeps_shape};
use crate::model::{
    model_grads_cleared, model_step_gives, model_stepped, model_steps_give, GptCache,
    GptLanguageModel,
};
use crate::optim::{all_zero, next_step_gives, AdamStep, AdamW, Param1D, Param2D};
use crate::pairing::{cells, lemma_pair_same, pair, Table};
use crate::scalar::{zero_gives, Real};
use crate::scaling::vector_gain;
use crate::slope::{linear_slope, norm_slope, weight_gains, LinearDirection, NormDirection};
use crate::slope_block::{block_slope, BlockDirection};
use crate::slope_model::{
    lemma_loss_slope, loss_tangent, model_slope, model_tangent, ModelDirection,
};
use crate::starting::all_read;
use crate::tangent::lemma_distribute;
use crate::tensor::{lemma_index_in_range, lemma_split_index, Tensor3};
use crate::training::{targets_fit, train_steps_give, TrainSteps};
use rand::rngs::SmallRng;
use vstd::prelude::*;

verus! {

/// The gradients of a matrix, each times how its entry changes.
pub open spec fn matrix_along<T>(read: Reading<T>, p: Param2D<T>, d: Table) -> real {
    pair(p.value.rows as nat, p.value.cols as nat, cells(read, p.grad), d)
}

/// The gradients of a vector, each times how its entry changes.
pub open spec fn vector_along<T>(
    read: Reading<T>,
    p: Param1D<T>,
    d: spec_fn(int) -> real,
) -> real {
    series(p.value@.len(), |c: int| (read.value)(p.grad@[c]) * d(c))
}

/// The gradients of a linear layer, each times how its parameter changes.
pub open spec fn linear_along<T>(read: Reading<T>, layer: Linear<T>, dir: LinearDirection) -> real {
    matrix_along(read, layer.weight, dir.weight) + (match layer.bias {
        Some(bias) => vector_along(read, bias, dir.bias),
        None => 0 as real,
    })
}

/// The gradients of a normalization, each times how its parameter changes.
pub open spec fn norm_along<T>(read: Reading<T>, layer: LayerNorm<T>, dir: NormDirection) -> real {
    vector_along(read, layer.gamma, dir.gamma) + vector_along(read, layer.beta, dir.beta)
}

/// The gradients of a block, each times how its parameter changes.
pub open spec fn block_along<T>(read: Reading<T>, block: Block<T>, dir: BlockDirection) -> real {
    norm_along(read, block.ln1, dir.ln1) + linear_along(
        read,
        block.attention.qkv,
        dir.attention.qkv,
    ) + linear_along(read, block.attention.proj, dir.attention.proj) + norm_along(
        read,
        block.ln2,
        dir.ln2,
    ) + linear_along(read, block.feed_forward.fc1, dir.feed_forward.fc1) + linear_along(
        read,
        block.feed_forward.fc2,
        dir.feed_forward.fc2,
    )
}

/// The gradients of a model, each times how its parameter changes.
pub open spec fn model_along<T>(
    read: Reading<T>,
    model: GptLanguageModel<T>,
    dir: ModelDirection,
) -> real {
    matrix_along(read, model.token_embedding, dir.token_embedding) + matrix_along(
        read,
        model.position_embedding,
        dir.position_embedding,
    ) + series(
        model.blocks@.len(),
        |l: int| block_along(read, model.blocks@[l], dir.blocks[l]),
    ) + norm_along(read, model.ln_f, dir.ln_f) + linear_along(read, model.lm_head, dir.lm_head)
}

proof fn lemma_matrix_along<T: Real>(
    read: Reading<T>,
    cleared: Param2D<T>,
    backed: Param2D<T>,
    after: Param2D<T>,
    gains: Table,
    d: Table,
)
    requires
        is_exact(read),
        cleared.wf(),
        all_zero(cleared.grad.data@),
        after.grad == backed.grad,
        after.value.rows == cleared.value.rows,
        after.value.cols == cleared.value.cols,
        forall|i: int, c: int| #[trigger]
            gains(i, c) == (read.value)(backed.grad.at(i, c)) - (read.value)(cleared.grad.at(i, c)),
    ensures
        pair(cleared.value.rows as nat, cleared.value.cols as nat, gains, d) == matrix_along(
            read,
            after,
            d,
        ),
{
    let (n, m) = (cleared.value.rows as nat, cleared.value.cols as nat);
    let g = cells(read, after.grad);
    assert forall|i: int, c: int| 0 <= i < n && 0 <= c < m implies (#[trigger] gains(i, c)) * d(
        i,
        c,
    ) == g(i, c) * d(i, c) by {
        lemma_index_in_range(i, n as int, c, m as int);
        assert(zero_gives(cleared.grad.data@[i * m + c]));
    }
    assert forall|i: int, c: int| 0 <= i < n && 0 <= c < m implies (#[trigger] g(i, c)) * d(i, c)
        == gains(i, c) * d(i, c) by {
        assert(gains(i, c) * d(i, c) == g(i, c) * d(i, c));
    }
    lemma_pair_same(n, m, gains, d, g, d);
}

proof fn lemma_linear_along<T: Real>(
    read: Reading<T>,
    cleared: Linear<T>,
    backed: Linear<T>,
    after: Linear<T>,
    dir: LinearDirection,
)
    requires
        is_exact(read),
        cleared.wf(),
        all_zero(cleared.weight.grad.data@),
        cleared.bias matches Some(b) ==> all_zero(b.grad@),
        linear_same_but_grads(backed, cleared),
        after.weight.grad == backed.weight.grad,
        after.weight.value.rows == cleared.weight.value.rows,
        after.weight.value.cols == cleared.weight.value.cols,
        after.bias is Some == backed.bias is Some,
        backed.bias matches Some(b) ==> after.bias->0.grad == b.grad && after.bias->0.value@.len()
            == b.value@.len(),
    ensures
        linear_slope(read, cleared, backed, dir) == linear_along(read, after, dir),
{
    let gains = weight_gains(read, cleared, backed);
    lemma_matrix_along(read, cleared.weight, backed.weight, after.weight, gains, dir.weight);
    if let Some(b) = cleared.bias {
        let n = cleared.weight.value.cols as nat;
        let (f, g) = (
            |c: int| bias_gain(read, cleared, backed, c) * (dir.bias)(c),
            |c: int| (read.value)(after.bias->0.grad@[c]) * (dir.bias)(c),
        );
        assert forall|c: int| 0 <= c < n implies #[trigger] f(c) == g(c) by {
            assert(zero_gives(b.grad@[c]));
        }
        lemma_series_same(n, f, g);
    }
}

proof fn lemma_norm_along<T: Real>(
    read: Reading<T>,
    cleared: LayerNorm<T>,
    backed: LayerNorm<T>,
    after: LayerNorm<T>,
    dir: NormDirection,
)
    requires
        is_exact(read),
        cleared.has_width(cleared.gamma.value@.len() as int),
        all_zero(cleared.gamma.grad@),
        all_zero(cleared.beta.grad@),
        after.gamma.grad == backed.gamma.grad,
        after.beta.grad == backed.beta.grad,
        after.gamma.value@.len() == cleared.gamma.value@.len(),
        after.beta.value@.len() == cleared.gamma.value@.len(),
    ensures
        norm_slope(read, cleared, backed, dir) == norm_along(read, after, dir),
{
    let n = cleared.gamma.value@.len();
    let v = read.value;
    let (a, b, s) = (
        |c: int| v(after.gamma.grad@[c]) * (dir.gamma)(c),
        |c: int| v(after.beta.grad@[c]) * (dir.beta)(c),
        |c: int|
            (dir.gamma)(c) * vector_gain(read, cleared.gamma, backed.gamma, c) + (dir.beta)(c)
                * vector_gain(read, cleared.beta, backed.beta, c),
    );
    assert forall|c: int| 0 <= c < n implies #[trigger] s(c) == a(c) + b(c) by {
        assert(zero_gives(cleared.gamma.grad@[c]));
        assert(zero_gives(cleared.beta.grad@[c]));
        lemma_distribute(v(after.gamma.grad@[c]), (dir.gamma)(c), 0 as real);
        lemma_distribute(v(after.beta.grad@[c]), (dir.beta)(c), 0 as real);
    }
    lemma_series_plus(n, a, b, s);
}

proof fn lemma_block_along<T: Real>(
    read: Reading<T>,
    before: Block<T>,
    cleared: Block<T>,
    backed: Block<T>,
    after: Block<T>,
    dir: BlockDirection,
    n_embd: int,
    block_size: int,
    step: AdamStep<T>,
)
    requires
        is_exact(read),
        before.has_shape(n_embd, block_size),
        cleared.has_shape(n_embd, block_size),
        backed.has_shape(n_embd, block_size),
        after.has_shape(n_embd, block_size),
        block_grads_cleared(before, cleared),
        block_same_but_grads(backed, cleared),
        block_step_gives(step, backed, after),
    ensures
        block_slope(read, cleared, backed, dir) == block_along(read, after, dir),
{
    let (c, m, z) = (cleared, backed, after);
    lemma_norm_along(read, c.ln1, m.ln1, z.ln1, dir.ln1);
    lemma_linear_along(
        read,
        c.attention.qkv,
        m.attention.qkv,
        z.attention.qkv,
        dir.attention.qkv,
    );
    lemma_linear_along(
        read,
        c.attention.proj,
        m.attention.proj,
        z.attention.proj,
        dir.attention.proj,
    );
    lemma_norm_along(read, c.ln2, m.ln2, z.ln2, dir.ln2);
    lemma_linear_along(
        read,
        c.feed_forward.fc1,
        m.feed_forward.fc1,
        z.feed_forward.fc1,
        dir.feed_forward.fc1,
    );
    lemma_linear_along(
        read,
        c.feed_forward.fc2,
        m.feed_forward.fc2,
        z.feed_forward.fc2,
        dir.feed_forward.fc2,
    );
}

/// What was added to cleared gradients is what the model holds after the step.
proof fn lemma_model_along<T: Real>(
    read: Reading<T>,
    before: GptLanguageModel<T>,
    cleared: GptLanguageModel<T>,
    backed: GptLanguageModel<T>,
    after: GptLanguageModel<T>,
    o: AdamW<T>,
    later: AdamW<T>,
    dir: ModelDirection,
)
    requires
        is_exact(read),
        before.wf(),
        cleared.wf(),
        backed.wf(),
        after.wf(),
        model_grads_cleared(before, cleared),
        model_same_but_grads(backed, cleared),
        model_step_gives(backed, o, after, later),
    ensures
        model_slope(read, cleared, backed, dir) == model_along(read, after, dir),
{
    let step = choose|step: AdamStep<T>| #[trigger]
        next_step_gives(o, later, step) && model_stepped(step, backed, after);
    let (ct, cp) = (cleared.token_embedding, cleared.position_embedding);
    lemma_matrix_along(
        read,
        ct,
        backed.token_embedding,
        after.token_embedding,
        |v: int, c: int| table_gain(read, ct, backed.token_embedding, v, c),
        dir.token_embedding,
    );
    lemma_matrix_along(
        read,
        cp,
        backed.position_embedding,
        after.position_embedding,
        |v: int, c: int| table_gain(read, cp, backed.position_embedding, v, c),
        dir.position_embedding,
    );
    let (n_embd, block_size) = (before.config.n_embd as int, before.config.block_size as int);
    let n = before.blocks@.len();
    let (f, g) = (
        |l: int| block_slope(read, cleared.blocks@[l], backed.blocks@[l], dir.blocks[l]),
        |l: int| block_along(read, after.blocks@[l], dir.blocks[l]),
    );
    assert forall|l: int| 0 <= l < n implies #[trigger] f(l) == g(l) by {
        assert(block_grads_cleared(before.blocks@[l], cleared.blocks@[l]));
        assert(block_same_but_grads(backed.blocks@[l], cleared.blocks@[l]));
        assert(block_step_gives(step, backed.blocks@[l], after.blocks@[l]));
        lemma_block_along(
            read,
            before.blocks@[l],
            cleared.blocks@[l],
            backed.blocks@[l],
            after.blocks@[l],
            dir.blocks[l],
            n_embd,
            block_size,
            step,
        );
    }
    lemma_series_same(n, f, g);
    lemma_norm_along(read, cleared.ln_f, backed.ln_f, after.ln_f, dir.ln_f);
    lemma_linear_along(read, cleared.lm_head, backed.lm_head, after.lm_head, dir.lm_head);
}

/// The gradients that a step of training leaves are the slopes of the loss that it returns:
/// wherever the parameters that the model had before the step go, that loss changes by the
/// gradients times how they change. This is said of steps that give every target a probability
/// above the least that the loss tells apart from zero.
pub proof fn lemma_training_gradients_are_slopes<T: Real>(
    read: Reading<T>,
    model: &mut GptLanguageModel<T>,
    idx: &TokenArray,
    targets: &TokenArray,
    optimizer: &mut AdamW<T>,
    rng: &mut SmallRng,
    loss: T,
)
    requires
        is_exact(read),
        old(model).wf(),
        old(model).takes(*idx),
        targets_fit(*old(model), *idx, *targets),
        idx.rows() * idx.cols() > 0,
        model_values_finite(read, *old(model)),
        call_ensures(
            GptLanguageModel::<T>::train_batch,
            (model, idx, targets, optimizer, rng),
            Ok(loss),
        ),
    ensures
        exists|
            held: GptLanguageModel<T>,
            cache: GptCache<T>,
            run: BlocksRun<T>,
            stacks: Seq<Table>,
            logits: Tensor3<T>,
            probs: Tensor3<T>,
            grad: Tensor3<T>,
        |
            {
                &&& model_same_but_grads(held, *old(model))
                &&& #[trigger] is_model_of(read, held, *idx, cache, stacks, logits)
                &&& #[trigger] is_loss_of(read, logits, *targets, probs, loss, grad)
                &&& #[trigger] is_run(
                    held.blocks@,
                    true,
                    held.config.dropout,
                    cache.blocks@,
                    run,
                )
                &&& (forall|r: int|
                    0 <= r < logits.flat.rows ==> (read.value)(
                        probs.flat.at(r, #[trigger] token_at(*targets, r)),
                    ) > 1 as real / 1_000_000_000_000 as real) ==> forall|dir: ModelDirection|
                    #[trigger] model_along(read, *final(model), dir) == loss_tangent(
                        read,
                        probs,
                        *targets,
                        model_tangent(read, held, cache, run, dir),
                    )
            },
{
    let (before, after) = (*old(model), *final(model));
    let (o, later) = (*old(optimizer), *final(optimizer));
    let (r0, r1) = (*old(rng), *final(rng));
    let steps = choose|steps: TrainSteps<T>|
        train_steps_give(before, o, *idx, *targets, loss, after, later, r0, r1, steps);
    let (cleared, backed) = (steps.cleared, steps.backed);
    let (logits, cache, probs, grad) = (steps.logits, steps.cache, steps.probs, steps.grad);
    lemma_clearing_changes_grads_only(before, cleared);
    lemma_cleared_keeps_shape(before, cleared);
    lemma_backward_changes_grads_only(cleared, cache, grad, backed);
    lemma_backward_keeps_shape(cleared, cache, grad, backed);
    lemma_cleared_is_finite(read, before, cleared);
    let stacks = lemma_model_reads(read, cleared, *idx, true, logits, cache, r0, r1);
    lemma_loss_reads(read, logits, *targets, probs, loss, grad);
    let (embedded, last) = choose|embedded: Tensor3<T>, last: Tensor3<T>|
        model_steps_give(cleared, *idx, true, logits, cache, r0, r1, embedded, last);
    let run = lemma_blocks_have_run(
        cleared.blocks@,
        true,
        cleared.config.dropout,
        embedded,
        cache.blocks@,
        last,
        r0,
        r1,
    );
    let bound = 1 as real / 1_000_000_000_000 as real;
    if forall|r: int|
        0 <= r < logits.flat.rows ==> (read.value)(
            probs.flat.at(r, #[trigger] token_at(*targets, r)),
        ) > bound {
        let time = idx.cols();
        assert forall|r: int| 0 <= r < logits.flat.rows implies (#[trigger] token_items(
            *targets,
        )[r]) < cleared.config.vocab_size && (read.value)(
            probs.flat.at(r, token_items(*targets)[r] as int),
        ) > bound by {
            assert(time > 0) by (nonlinear_arith)
                requires
                    0 <= r < idx.rows() * time,
                    time >= 0,
            ;
            lemma_split_index(r, idx.rows(), time);
            assert(targets.at(r / time, r % time) < cleared.config.vocab_size);
            assert(token_at(*targets, r) == token_items(*targets)[r]);
        }
        assert forall|dir: ModelDirection| #[trigger]
            model_along(read, after, dir) == loss_tangent(
                read,
                probs,
                *targets,
                model_tangent(read, cleared, cache, run, dir),
            ) by {
            lemma_loss_slope(
                read,
                cleared,
                *idx,
                true,
                logits,
                cache,
                r0,
                r1,
                embedded,
                last,
                run,
                *targets,
                probs,
                loss,
                grad,
                backed,
                dir,
            );
            lemma_model_along(read, before, cleared, backed, after, o, later, dir);
        }
    }
}

/// A model with cleared gradients is finite where its parameters were.
proof fn lemma_cleared_is_finite<T: Real>(
    read: Reading<T>,
    before: GptLanguageModel<T>,
    cleared: GptLanguageModel<T>,
)
    requires
        is_exact(read),
        before.wf(),
        cleared.wf(),
        model_values_finite(read, before),
        model_grads_cleared(before, cleared),
        model_same_but_grads(cleared, before),
    ensures
        model_values_finite(read, cleared),
        model_grads_finite(read, cleared),
{
    assert forall|i: int| 0 <= i < cleared.blocks@.len() implies block_values_finite(
        read,
        #[trigger] cleared.blocks@[i],
    ) && block_grads_finite(read, cleared.blocks@[i]) by {
        assert(block_values_finite(read, before.blocks@[i]));
        assert(block_same_but_grads(cleared.blocks@[i], before.blocks@[i]));
        assert(block_grads_cleared(before.blocks@[i], cleared.blocks@[i]));
    }
}

/// Clearing the gradients of a model sets them to zero, and changes nothing else.
pub proof fn lemma_clearing_value<T: Real>(read: Reading<T>, model: &mut GptLanguageModel<T>)
    requires
        is_exact(read),
        old(model).wf(),
        call_ensures(GptLanguageModel::<T>::zero_grad, (model,), ()),
    ensures
        model_same_but_grads(*final(model), *old(model)),
        all_read(read, final(model).token_embedding.grad.data@, 0 as real),
        all_read(read, final(model).position_embedding.grad.data@, 0 as real),
        forall|l: int|
            #![trigger final(model).blocks@[l]]
            0 <= l < final(model).blocks@.len() ==> {
                let block = final(model).blocks@[l];
                &&& all_read(read, block.ln1.gamma.grad@, 0 as real)
                &&& all_read(read, block.ln1.beta.grad@, 0 as real)
                &&& linear_grads_nought(read, block.attention.qkv)
                &&& linear_grads_nought(read, block.attention.proj)
                &&& all_read(read, block.ln2.gamma.grad@, 0 as real)
                &&& all_read(read, block.ln2.beta.grad@, 0 as real)
                &&& linear_grads_nought(read, block.feed_forward.fc1)
                &&& linear_grads_nought(read, block.feed_forward.fc2)
            },
        all_read(read, final(model).ln_f.gamma.grad@, 0 as real),
        all_read(read, final(model).ln_f.beta.grad@, 0 as real),
        linear_grads_nought(read, final(model).lm_head),
{
    let (before, after) = (*old(model), *final(model));
    lemma_clearing_changes_grads_only(before, after);
    assert forall|l: int|
        #![trigger after.blocks@[l]]
        0 <= l < after.blocks@.len() implies {
        let block = after.blocks@[l];
        &&& all_read(read, block.ln1.gamma.grad@, 0 as real)
        &&& all_read(read, block.ln1.beta.grad@, 0 as real)
        &&& linear_grads_nought(read, block.attention.qkv)
        &&& linear_grads_nought(read, block.attention.proj)
        &&& all_read(read, block.ln2.gamma.grad@, 0 as real)
        &&& all_read(read, block.ln2.beta.grad@, 0 as real)
        &&& linear_grads_nought(read, block.feed_forward.fc1)
        &&& linear_grads_nought(read, block.feed_forward.fc2)
    } by {
        assert(block_grads_cleared(before.blocks@[l], after.blocks@[l]));
    }
}

/// All gradients of the linear layer read as zero.
pub open spec fn linear_grads_nought<T>(read: Reading<T>, layer: Linear<T>) -> bool {
    &&& all_read(read, layer.weight.grad.data@, 0 as real)
    &&& layer.bias matches Some(b) ==> all_read(read, b.grad@, 0 as real)
}

} // verus!
