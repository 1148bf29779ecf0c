//! The gradients of a feed-forward network and of a whole block are slopes.

use crate::block::{
    block_backward_gives, block_backward_steps_give, block_steps_give, lemma_head_size_positive,
    Block, BlockCache, BlockGrads, BlockSteps,
};
use crate::exact::{is_exact, Reading};
use crate::feed_forward::{
    feed_forward_backward_gives, feed_forward_backward_steps_give, FeedForward, FeedForwardCache,
};
use crate::finite::{block_values_finite, lemma_block_stays_finite};
use crate::linearity::{block_grads_finite, feed_forward_cache_finite};
use crate::pairing::{cells, lemma_pair_plus, stack_pair, table_sum, Table};
use crate::scalar::Real;
use crate::scaling::{linear_finite, stack_finite};
use crate::slope::{
    gated, layer_norm_tangent, lemma_dropout_slope, lemma_gate_slope, lemma_linear_slope,
    lemma_norm_slope, lemma_plus_slope, linear_slope, linear_tangent, masked, norm_slope,
    LinearDirection, NormDirection,
};
use crate::slope_attention::{
    attention_slope, attention_tangent, lemma_attention_slope, AttentionDirection,
};
use crate::tensor::Tensor3;
use rand::rngs::SmallRng;
use vstd::prelude::*;

verus! {

/// How the parameters of a feed-forward network change.
pub ghost struct FeedForwardDirection {
    pub fc1: LinearDirection,
    pub fc2: LinearDirection,
}

/// How the output of a feed-forward network changes where its input changes by `d`, in a run that
/// left this cache.
pub open spec fn feed_forward_tangent<T>(
    read: Reading<T>,
    layer: FeedForward<T>,
    cache: FeedForwardCache<T>,
    dir: FeedForwardDirection,
    d: Table,
) -> Table {
    masked(
        read,
        cache.dropout_mask,
        linear_tangent(
            read,
            layer.fc2,
            cache.hidden,
            dir.fc2,
            gated(
                read,
                cache.hidden_pre,
                linear_tangent(read, layer.fc1, cache.input, dir.fc1, d),
            ),
        ),
    )
}

/// What going back added to the gradients of a feed-forward network, times how its parameters
/// change.
pub open spec fn feed_forward_slope<T>(
    read: Reading<T>,
    before: FeedForward<T>,
    after: FeedForward<T>,
    dir: FeedForwardDirection,
) -> real {
    linear_slope(read, before.fc1, after.fc1, dir.fc1) + linear_slope(
        read,
        before.fc2,
        after.fc2,
        dir.fc2,
    )
}

/// The gradients of a feed-forward network are slopes: wherever the input and the parameters go,
/// the inner product of the gradient of the output with how the output changes is that of the
/// gradient of the input with how the input changes, plus what was added to the gradients of the
/// parameters times how they change.
pub proof fn lemma_feed_forward_slope<T: Real>(
    read: Reading<T>,
    layer: FeedForward<T>,
    cache: FeedForwardCache<T>,
    grad_output: Tensor3<T>,
    after: FeedForward<T>,
    grad_input: Tensor3<T>,
    dir: FeedForwardDirection,
    d: Table,
)
    requires
        is_exact(read),
        layer.has_width(grad_output.flat.cols as int),
        linear_finite(read, layer.fc1),
        linear_finite(read, layer.fc2),
        feed_forward_cache_finite(read, cache),
        cache.has_shape(
            grad_output.outer as int,
            grad_output.inner as int,
            grad_output.flat.cols as int,
        ),
        stack_finite(read, grad_output),
        feed_forward_backward_gives(layer, cache, grad_output, after, grad_input),
    ensures
        stack_pair(
            read,
            grad_output,
            feed_forward_tangent(read, layer, cache, dir, d),
        ) == stack_pair(read, grad_input, d) + feed_forward_slope(read, layer, after, dir),
        stack_finite(read, grad_input),
        grad_input.same_shape(grad_output),
{
    let (projected, hidden, held) = choose|
        projected: Tensor3<T>,
        hidden: Tensor3<T>,
        held: Tensor3<T>,
    |
        feed_forward_backward_steps_give(
            layer,
            cache,
            grad_output,
            after,
            grad_input,
            projected,
            hidden,
            held,
        );
    let pre = linear_tangent(read, layer.fc1, cache.input, dir.fc1, d);
    let post = gated(read, cache.hidden_pre, pre);
    let out = linear_tangent(read, layer.fc2, cache.hidden, dir.fc2, post);
    lemma_dropout_slope(read, cache.dropout_mask, grad_output, projected, out);
    lemma_linear_slope(
        read,
        layer.fc2,
        cache.hidden,
        projected,
        after.fc2,
        hidden,
        dir.fc2,
        post,
    );
    lemma_gate_slope(read, cache.hidden_pre, hidden, held, pre);
    lemma_linear_slope(read, layer.fc1, cache.input, held, after.fc1, grad_input, dir.fc1, d);
}

/// How the parameters of a block change.
pub ghost struct BlockDirection {
    pub ln1: NormDirection,
    pub attention: AttentionDirection,
    pub ln2: NormDirection,
    pub feed_forward: FeedForwardDirection,
}

/// How what stands behind the attention of a block changes where the input changes by `d`.
pub open spec fn residual_tangent<T>(
    read: Reading<T>,
    block: Block<T>,
    input: Tensor3<T>,
    cache: BlockCache<T>,
    dir: BlockDirection,
    d: Table,
) -> Table {
    table_sum(
        d,
        attention_tangent(
            read,
            block.attention,
            cache.attention,
            dir.attention,
            layer_norm_tangent(read, block.ln1, input, cache.ln1, dir.ln1, d),
        ),
    )
}

/// How the output of a block changes where its input changes by `d`, in a run that left this
/// cache and had `residual` behind the attention.
pub open spec fn block_tangent<T>(
    read: Reading<T>,
    block: Block<T>,
    input: Tensor3<T>,
    residual: Tensor3<T>,
    cache: BlockCache<T>,
    dir: BlockDirection,
    d: Table,
) -> Table {
    let e = residual_tangent(read, block, input, cache, dir, d);
    table_sum(
        e,
        feed_forward_tangent(
            read,
            block.feed_forward,
            cache.feed_forward,
            dir.feed_forward,
            layer_norm_tangent(read, block.ln2, residual, cache.ln2, dir.ln2, e),
        ),
    )
}

/// What going back added to the gradients of a block, times how its parameters change.
pub open spec fn block_slope<T>(
    read: Reading<T>,
    before: Block<T>,
    after: Block<T>,
    dir: BlockDirection,
) -> real {
    norm_slope(read, before.ln1, after.ln1, dir.ln1) + attention_slope(
        read,
        before.attention,
        after.attention,
        dir.attention,
    ) + norm_slope(read, before.ln2, after.ln2, dir.ln2) + feed_forward_slope(
        read,
        before.feed_forward,
        after.feed_forward,
        dir.feed_forward,
    )
}

/// The gradients of a block are slopes: wherever the input and the parameters go, the inner
/// product of the gradient of the output with how the output changes is that of the gradient of
/// the input with how the input changes, plus what was added to the gradients of the parameters
/// times how they change.
pub proof fn lemma_block_slope<T: Real>(
    read: Reading<T>,
    block: Block<T>,
    block_size: int,
    input: Tensor3<T>,
    training: bool,
    rate: T,
    output: Tensor3<T>,
    cache: BlockCache<T>,
    rng: SmallRng,
    rng_after: SmallRng,
    s: BlockSteps<T>,
    grad_output: Tensor3<T>,
    after: Block<T>,
    grad_input: Tensor3<T>,
    dir: BlockDirection,
    d: Table,
)
    requires
        is_exact(read),
        input.flat.cols > 0,
        block.has_shape(input.flat.cols as int, block_size),
        block_values_finite(read, block),
        block_grads_finite(read, block),
        (read.finite)(rate),
        stack_finite(read, input),
        block_steps_give(block, input, training, rate, output, cache, rng, rng_after, s),
        stack_finite(read, grad_output),
        grad_output.same_shape(input),
        block_backward_gives(block, cache, grad_output, after, grad_input),
    ensures
        stack_pair(
            read,
            grad_output,
            block_tangent(read, block, input, s.residual, cache, dir, d),
        ) == stack_pair(read, grad_input, d) + block_slope(read, block, after, dir),
        stack_finite(read, grad_input),
        grad_input.same_shape(input),
{
    let (rows, cols) = (input.flat.rows as nat, input.flat.cols as nat);
    lemma_block_stays_finite(
        read,
        block,
        block_size,
        input,
        training,
        rate,
        output,
        cache,
        rng,
        rng_after,
        s,
    );
    lemma_head_size_positive(
        block.attention.n_head as int,
        block.attention.head_size as int,
        input.flat.cols as int,
    );
    let g = choose|g: BlockGrads<T>|
        block_backward_steps_give(block, cache, grad_output, after, grad_input, g);
    let e1 = layer_norm_tangent(read, block.ln1, input, cache.ln1, dir.ln1, d);
    let e2 = attention_tangent(read, block.attention, cache.attention, dir.attention, e1);
    let e3 = table_sum(d, e2);
    let e4 = layer_norm_tangent(read, block.ln2, s.residual, cache.ln2, dir.ln2, e3);
    let e5 = feed_forward_tangent(
        read,
        block.feed_forward,
        cache.feed_forward,
        dir.feed_forward,
        e4,
    );
    lemma_pair_plus(rows, cols, cells(read, grad_output.flat), e3, e5);
    lemma_feed_forward_slope(
        read,
        block.feed_forward,
        cache.feed_forward,
        grad_output,
        after.feed_forward,
        g.feed_forward,
        dir.feed_forward,
        e4,
    );
    lemma_norm_slope(
        read,
        block.ln2,
        s.residual,
        s.ln2_output,
        cache.ln2,
        g.feed_forward,
        after.ln2,
        g.ln2_input,
        dir.ln2,
        e3,
    );
    lemma_plus_slope(read, grad_output, g.ln2_input, g.residual, e3);
    lemma_pair_plus(rows, cols, cells(read, g.residual.flat), d, e2);
    lemma_attention_slope(
        read,
        block.attention,
        cache.attention,
        g.residual,
        after.attention,
        g.attention,
        dir.attention,
        e1,
    );
    lemma_norm_slope(
        read,
        block.ln1,
        input,
        s.ln1_output,
        cache.ln1,
        g.attention,
        after.ln1,
        g.ln1_input,
        dir.ln1,
        d,
    );
    lemma_plus_slope(read, g.residual, g.ln1_input, grad_input, d);
}

} // verus!
