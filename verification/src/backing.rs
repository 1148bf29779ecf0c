//! What going back through the layers hands back and adds to their gradients.

use crate::attention::{AttentionCache, MultiHeadSelfAttention};
use crate::block::{block_steps_give, lemma_head_size_positive, Block, BlockCache, BlockSteps};
use crate::dropout::dropout_backward;
use crate::exact::{is_exact, lemma_dot_exact, Reading};
use crate::feed_forward::{FeedForward, FeedForwardCache};
use crate::finite::{
    block_values_finite, lemma_attention_stays_finite, lemma_block_stays_finite,
    lemma_feed_forward_stays_finite, lemma_norm_stays_finite, norm_values_finite,
};
use crate::gradient::{
    lemma_bias_gain, lemma_dot_is_series, lemma_series_same, lemma_total_is_series,
    lemma_weight_gain, series,
};
use crate::laws::linear_same_but_grads;
use crate::layer_norm::{LayerNorm, LayerNormCache};
use crate::linear::Linear;
use crate::linearity::block_grads_finite;
use crate::meaning::attention_of;
use crate::meaning_attention::lemma_attention_reads;
use crate::meaning_model::lemma_plus_reads;
use crate::pairing::{cells, stack_pair, Table};
use crate::reduce::dot_gives;
use crate::scalar::{times_gives, Real};
use crate::scaling::{
    lemma_parts_finite, linear_finite, mask_finite, norm_grads_finite, stack_finite,
};
use crate::slope::{layer_norm_tangent, lemma_norm_slope, norm_slope, NormDirection};
use crate::slope_attention::{
    attention_slope, attention_tangent, lemma_attention_slope, AttentionDirection,
};
use crate::slope_block::{
    block_slope, block_tangent, feed_forward_slope, feed_forward_tangent, lemma_block_slope,
    lemma_feed_forward_slope, BlockDirection, FeedForwardDirection,
};
use crate::tensor::{lemma_index_in_range, Tensor3};
use rand::rngs::SmallRng;
use vstd::prelude::*;

verus! {

/// Going back through a linear layer: the gradient of an input is the sum of the gradients of the
/// outputs times the weights from it to them; the gradient of a weight grows by the sum, over all
/// rows, of its input times the gradient of its output; that of a bias grows by the sum of the
/// gradients of its output. Nothing else changes.
pub proof fn lemma_linear_backward_value<T: Real>(
    read: Reading<T>,
    layer: &mut Linear<T>,
    input: &Tensor3<T>,
    g: &Tensor3<T>,
    grad_input: Tensor3<T>,
    r: int,
    i: int,
    c: int,
)
    requires
        is_exact(read),
        old(layer).wf(),
        linear_finite(read, *old(layer)),
        stack_finite(read, *input),
        stack_finite(read, *g),
        input.flat.cols == old(layer).weight.value.rows,
        input.outer == g.outer,
        input.inner == g.inner,
        g.flat.cols == old(layer).weight.value.cols,
        call_ensures(Linear::<T>::backward, (layer, input, g), grad_input),
        0 <= r < input.flat.rows,
        0 <= i < old(layer).weight.value.rows,
        0 <= c < old(layer).weight.value.cols,
    ensures
        grad_input.wf() && grad_input.same_shape(*input),
        (read.value)(grad_input.flat.at(r, i)) == series(
            old(layer).weight.value.cols as nat,
            |k: int|
                (read.value)(g.flat.at(r, k)) * (read.value)(old(layer).weight.value.at(i, k)),
        ),
        (read.value)(final(layer).weight.grad.at(i, c)) == (read.value)(
            old(layer).weight.grad.at(i, c),
        ) + series(
            input.flat.rows as nat,
            |k: int| (read.value)(input.flat.at(k, i)) * (read.value)(g.flat.at(k, c)),
        ),
        old(layer).bias matches Some(b) ==> final(layer).bias is Some && (read.value)(
            final(layer).bias->0.grad@[c],
        ) == (read.value)(b.grad@[c]) + series(
            input.flat.rows as nat,
            |k: int| (read.value)(g.flat.at(k, c)),
        ),
        linear_same_but_grads(*final(layer), *old(layer)),
{
    let (before, after) = (*old(layer), *final(layer));
    let v = read.value;
    let w = before.weight.value;
    let (n, m) = (input.flat.rows as nat, w.cols as nat);
    lemma_parts_finite(read, *input);
    lemma_parts_finite(read, *g);
    let (g_row, line) = (g.flat.row(r), w.row(i));
    assert(dot_gives(g_row, line, grad_input.flat.at(r, i)));
    assert forall|k: int| 0 <= k < line.len() implies (read.finite)(#[trigger] line[k]) by {
        lemma_index_in_range(i, w.rows as int, k, w.cols as int);
        assert(line[k] == w.at(i, k));
    }
    lemma_dot_exact(read, g_row, line, grad_input.flat.at(r, i));
    lemma_dot_is_series(read, g_row, line);
    lemma_series_same(
        m,
        |k: int| v(g_row[k]) * v(line[k]),
        |k: int| v(g.flat.at(r, k)) * v(w.at(i, k)),
    );
    let (x_col, g_col) = (input.flat.col(i), g.flat.col(c));
    lemma_weight_gain(read, before, *input, *g, after, grad_input, i, c);
    lemma_dot_is_series(read, x_col, g_col);
    lemma_series_same(
        n,
        |k: int| v(x_col[k]) * v(g_col[k]),
        |k: int| v(input.flat.at(k, i)) * v(g.flat.at(k, c)),
    );
    if let Some(b) = before.bias {
        lemma_bias_gain(read, before, *input, *g, after, grad_input, c);
        lemma_total_is_series(read, g_col);
        lemma_series_same(n, |k: int| v(g_col[k]), |k: int| v(g.flat.at(k, c)));
    }
}

/// Going back through a dropout multiplies by the mask, or hands back what it got where there is
/// none.
pub proof fn lemma_dropout_backward_value<T: Real>(
    read: Reading<T>,
    mask: &Option<Tensor3<T>>,
    g: &Tensor3<T>,
    grad: Tensor3<T>,
    i: int,
)
    requires
        is_exact(read),
        mask_finite(read, *mask, *g),
        stack_finite(read, *g),
        call_ensures(dropout_backward::<T>, (mask, g), grad),
        0 <= i < g.flat.data@.len(),
    ensures
        grad.wf() && grad.same_shape(*g),
        (read.value)(grad.flat.data@[i]) == (match *mask {
            Some(m) => (read.value)(g.flat.data@[i]) * (read.value)(m.flat.data@[i]),
            None => (read.value)(g.flat.data@[i]),
        }),
{
    assert((read.finite)(g.flat.data@[i]));
    if let Some(m) = *mask {
        assert((read.finite)(m.flat.data@[i]));
        assert(times_gives(g.flat.data@[i], m.flat.data@[i], grad.flat.data@[i]));
    }
}

/// Going back through a normalization, after a run forward: its gradients are slopes.
pub proof fn lemma_norm_backward_value<T: Real>(
    read: Reading<T>,
    input: &Tensor3<T>,
    made: (Tensor3<T>, LayerNormCache<T>),
    layer: &mut LayerNorm<T>,
    cache: &LayerNormCache<T>,
    g: &Tensor3<T>,
    grad_input: Tensor3<T>,
    ran: &LayerNorm<T>,
    dir: NormDirection,
    d: Table,
)
    requires
        is_exact(read),
        *ran == *old(layer),
        *cache == made.1,
        old(layer).has_width(g.flat.cols as int),
        g.flat.cols > 0,
        norm_values_finite(read, *old(layer)),
        norm_grads_finite(read, *old(layer)),
        stack_finite(read, *input),
        stack_finite(read, *g),
        input.same_shape(*g),
        call_ensures(LayerNorm::<T>::forward, (ran, input), made),
        call_ensures(LayerNorm::<T>::backward, (layer, cache, g), grad_input),
    ensures
        grad_input.same_shape(*g),
        stack_pair(
            read,
            *g,
            layer_norm_tangent(read, *old(layer), *input, *cache, dir, d),
        ) == stack_pair(read, grad_input, d) + norm_slope(
            read,
            *old(layer),
            *final(layer),
            dir,
        ),
{
    lemma_norm_stays_finite(read, *old(layer), *input, made.0, *cache);
    lemma_norm_slope(
        read,
        *old(layer),
        *input,
        made.0,
        *cache,
        *g,
        *final(layer),
        grad_input,
        dir,
        d,
    );
}

/// Going back through attention, after a run forward: its gradients are slopes.
pub proof fn lemma_attention_backward_value<T: Real>(
    read: Reading<T>,
    ran: &MultiHeadSelfAttention<T>,
    input: &Tensor3<T>,
    training: bool,
    rate: T,
    rng: &mut SmallRng,
    output: Tensor3<T>,
    cache: &AttentionCache<T>,
    layer: &mut MultiHeadSelfAttention<T>,
    g: &Tensor3<T>,
    grad_input: Tensor3<T>,
    dir: AttentionDirection,
    d: Table,
)
    requires
        is_exact(read),
        *ran == *old(layer),
        (read.finite)(rate),
        input.flat.cols > 0,
        old(layer).has_shape(input.flat.cols as int, old(layer).block_size()),
        linear_finite(read, old(layer).qkv),
        linear_finite(read, old(layer).proj),
        stack_finite(read, *input),
        stack_finite(read, *g),
        g.same_shape(*input),
        call_ensures(
            MultiHeadSelfAttention::<T>::forward,
            (ran, input, training, rate, rng),
            Ok((output, *cache)),
        ),
        call_ensures(MultiHeadSelfAttention::<T>::backward, (layer, cache, g), grad_input),
    ensures
        grad_input.same_shape(*g),
        stack_pair(
            read,
            *g,
            attention_tangent(read, *old(layer), *cache, dir, d),
        ) == stack_pair(read, grad_input, d) + attention_slope(
            read,
            *old(layer),
            *final(layer),
            dir,
        ),
{
    let before = *old(layer);
    lemma_head_size_positive(
        before.n_head as int,
        before.head_size as int,
        input.flat.cols as int,
    );
    lemma_attention_stays_finite(
        read,
        before,
        before.block_size(),
        *input,
        training,
        rate,
        output,
        *cache,
        *old(rng),
        *final(rng),
    );
    lemma_attention_slope(read, before, *cache, *g, *final(layer), grad_input, dir, d);
}

/// Going back through a feed-forward network, after a run forward: its gradients are slopes.
pub proof fn lemma_feed_forward_backward_value<T: Real>(
    read: Reading<T>,
    ran: &FeedForward<T>,
    input: &Tensor3<T>,
    training: bool,
    rate: T,
    rng: &mut SmallRng,
    output: Tensor3<T>,
    cache: &FeedForwardCache<T>,
    layer: &mut FeedForward<T>,
    g: &Tensor3<T>,
    grad_input: Tensor3<T>,
    dir: FeedForwardDirection,
    d: Table,
)
    requires
        is_exact(read),
        *ran == *old(layer),
        (read.finite)(rate),
        old(layer).has_width(input.flat.cols as int),
        linear_finite(read, old(layer).fc1),
        linear_finite(read, old(layer).fc2),
        stack_finite(read, *input),
        stack_finite(read, *g),
        g.same_shape(*input),
        call_ensures(
            FeedForward::<T>::forward,
            (ran, input, training, rate, rng),
            Ok((output, *cache)),
        ),
        call_ensures(FeedForward::<T>::backward, (layer, cache, g), grad_input),
    ensures
        grad_input.same_shape(*g),
        stack_pair(
            read,
            *g,
            feed_forward_tangent(read, *old(layer), *cache, dir, d),
        ) == stack_pair(read, grad_input, d) + feed_forward_slope(
            read,
            *old(layer),
            *final(layer),
            dir,
        ),
{
    lemma_feed_forward_stays_finite(
        read,
        *old(layer),
        *input,
        training,
        rate,
        output,
        *cache,
        *old(rng),
        *final(rng),
    );
    lemma_feed_forward_slope(read, *old(layer), *cache, *g, *final(layer), grad_input, dir, d);
}

/// Going back through a block, after a run forward: its gradients are slopes. The tangent is taken
/// with the sum of the input and what attention made of it, which the run had.
pub proof fn lemma_block_backward_value<T: Real>(
    read: Reading<T>,
    ran: &Block<T>,
    input: &Tensor3<T>,
    training: bool,
    rate: T,
    rng: &mut SmallRng,
    output: Tensor3<T>,
    cache: &BlockCache<T>,
    block: &mut Block<T>,
    g: &Tensor3<T>,
    grad_input: Tensor3<T>,
    dir: BlockDirection,
    d: Table,
)
    requires
        is_exact(read),
        *ran == *old(block),
        (read.finite)(rate),
        input.flat.cols > 0,
        old(block).has_shape(input.flat.cols as int, old(block).attention.block_size()),
        block_values_finite(read, *old(block)),
        block_grads_finite(read, *old(block)),
        stack_finite(read, *input),
        stack_finite(read, *g),
        g.same_shape(*input),
        call_ensures(
            Block::<T>::forward,
            (ran, input, training, rate, rng),
            Ok((output, *cache)),
        ),
        call_ensures(Block::<T>::backward, (block, cache, g), grad_input),
    ensures
        grad_input.same_shape(*input),
        exists|residual: Tensor3<T>|
            {
                &&& residual.same_shape(*input)
                &&& forall|r: int, c: int|
                    0 <= r < input.flat.rows && 0 <= c < input.flat.cols ==> #[trigger] cells(
                        read,
                        residual.flat,
                    )(r, c) == cells(read, input.flat)(r, c) + attention_of(
                        read,
                        old(block).attention,
                        input.inner as int,
                        cache.attention,
                        cells(read, cache.attention.input.flat),
                    )(r, c)
                &&& stack_pair(
                    read,
                    *g,
                    #[trigger] block_tangent(
                        read,
                        *old(block),
                        *input,
                        residual,
                        *cache,
                        dir,
                        d,
                    ),
                ) == stack_pair(read, grad_input, d) + block_slope(
                    read,
                    *old(block),
                    *final(block),
                    dir,
                )
            },
{
    let before = *old(block);
    let s = choose|s: BlockSteps<T>|
        block_steps_give(
            before,
            *input,
            training,
            rate,
            output,
            *cache,
            *old(rng),
            *final(rng),
            s,
        );
    let size = before.attention.block_size();
    lemma_block_slope(
        read,
        before,
        size,
        *input,
        training,
        rate,
        output,
        *cache,
        *old(rng),
        *final(rng),
        s,
        *g,
        *final(block),
        grad_input,
        dir,
        d,
    );
    lemma_block_stays_finite(
        read,
        before,
        size,
        *input,
        training,
        rate,
        output,
        *cache,
        *old(rng),
        *final(rng),
        s,
    );
    lemma_norm_stays_finite(read, before.ln1, *input, s.ln1_output, cache.ln1);
    lemma_attention_stays_finite(
        read,
        before.attention,
        size,
        s.ln1_output,
        training,
        rate,
        s.attention_output,
        cache.attention,
        *old(rng),
        s.rng,
    );
    lemma_attention_reads(
        read,
        before.attention,
        size,
        s.ln1_output,
        training,
        rate,
        s.attention_output,
        cache.attention,
        *old(rng),
        s.rng,
    );
    let attended = attention_of(
        read,
        before.attention,
        input.inner as int,
        cache.attention,
        cells(read, cache.attention.input.flat),
    );
    let residual = s.residual;
    assert forall|r: int, c: int| 0 <= r < input.flat.rows && 0 <= c < input.flat.cols implies (
    #[trigger] cells(read, residual.flat)(r, c)) == cells(read, input.flat)(r, c) + attended(
        r,
        c,
    ) by {
        lemma_plus_reads(read, *input, s.attention_output, residual, r, c);
        assert(cells(read, s.attention_output.flat)(r, c) == attended(r, c));
    }
    assert(block_tangent(read, before, *input, residual, *cache, dir, d) == block_tangent(
        read,
        before,
        *input,
        s.residual,
        *cache,
        dir,
        d,
    ));
}

} // verus!
