//! Going back keeps to the order of time: what comes after a position and does not count leaves
//! what went in after that position uncounted.

use crate::attention::{
    all_score_grads_give, att_grads_give, attention_backward_gives, attention_backward_steps_give,
    attention_gives, key_grads_give, query_grads_give, score_grads_give, unpacked_entry,
    value_grads_give, AttentionCache, AttentionGrads, MultiHeadSelfAttention,
};
use crate::block::{
    block_backward_gives, block_backward_steps_give, block_gives, block_steps_give,
    lemma_head_size_positive, Block, BlockCache, BlockGrads, BlockSteps,
};
use crate::dropout::dropout_backward_gives;
use crate::elementwise::plus_tensor_gives;
use crate::exact::{all_finite, is_exact, lemma_dot_exact, lemma_times_nought, Reading};
use crate::feed_forward::{
    feed_forward_backward_gives, feed_forward_backward_steps_give, gate_gives, FeedForward,
    FeedForwardCache,
};
use crate::finite::{
    block_values_finite, is_run, lemma_attention_stays_finite, lemma_block_stays_finite,
    lemma_blocks_have_run, lemma_model_stays_finite, lemma_norm_stays_finite,
    lemma_plus_stays_finite, lemma_run_stays_finite, lemma_scale_value, model_values_finite,
    BlocksRun,
};
use crate::gradient::{layer_is_finite, lemma_dot_is_series};
use crate::grid::TokenArray;
use crate::layer_norm::{
    layer_norm_backward_gives, norm_row_backward_gives, LayerNorm, LayerNormCache,
};
use crate::linear::{linear_backward_gives, Linear};
use crate::linearity::{
    attention_cache_finite, block_grads_finite, feed_forward_cache_finite, lemma_attention_scales,
    lemma_feed_forward_scales, lemma_heads_scale, lemma_scatter_exact, lemma_score_row_scales,
    lemma_scores_scale, lemma_unpack_scales, model_grads_finite, scatter_sum, table_gain,
};
use crate::model::{
    blocks_backward_give, model_backward_gives, model_backward_steps_give, model_gives,
    model_steps_give, places, scatter_gives, GptCache, GptLanguageModel,
};
use crate::pairing::lemma_series_nought;
use crate::reduce::dot_gives;
use crate::scalar::{plus_gives, times_gives, Real};
use crate::scaling::{
    lemma_dropout_scales, lemma_gate_scales, lemma_linear_scales, lemma_norm_row_scales,
    lemma_norm_scales, lemma_parts_finite, lemma_stack_like_itself, linear_finite, mask_finite,
    norm_cache_finite, scaled, stack_finite,
};
use crate::slope_block::BlockDirection;
use crate::slope_model::lemma_blocks_slope;
use crate::tangent::lemma_distribute;
use crate::tensor::{lemma_index_in_range, lemma_index_split, lemma_split_index, Tensor2, Tensor3};
use rand::rngs::SmallRng;
use vstd::prelude::*;

verus! {

/// All entries of sequence `b` after position `t0` read as zero.
pub open spec fn nought_after<T>(read: Reading<T>, g: Tensor3<T>, b: int, t0: int) -> bool {
    forall|t: int, c: int|
        t0 < t < g.inner && 0 <= c < g.flat.cols ==> (read.value)(#[trigger] g.cell(b, t, c))
            == 0 as real
}

/// An inner product of two lists of which one reads as zero at every place.
proof fn lemma_dot_nought<T: Real>(read: Reading<T>, a: Seq<T>, b: Seq<T>, r: T)
    requires
        is_exact(read),
        a.len() == b.len(),
        all_finite(read, a),
        all_finite(read, b),
        forall|i: int|
            #![trigger a[i]]
            #![trigger b[i]]
            0 <= i < a.len() ==> (read.value)(a[i]) == 0 as real || (read.value)(b[i]) == 0 as real,
        dot_gives(a, b, r),
    ensures
        (read.value)(r) == 0 as real,
{
    let v = read.value;
    lemma_dot_exact(read, a, b, r);
    lemma_dot_is_series(read, a, b);
    let f = |i: int| v(a[i]) * v(b[i]);
    assert forall|i: int| 0 <= i < a.len() implies #[trigger] f(i) == 0 as real by {
        let (x, y) = (v(a[i]), v(b[i]));
        lemma_times_nought(x);
        lemma_times_nought(y);
        lemma_distribute(x, y, 0 as real);
    }
    lemma_series_nought(a.len(), f);
}

/// A list of zeros is any multiple of itself, zero times itself too.
proof fn lemma_nought_row<T>(read: Reading<T>, a: Seq<T>)
    requires
        all_finite(read, a),
        forall|i: int| 0 <= i < a.len() ==> (read.value)(#[trigger] a[i]) == 0 as real,
    ensures
        scaled(read, a, a, 0 as real),
{
    lemma_times_nought(0 as real);
}

/// Whatever is zero times itself is zero.
proof fn lemma_nought_from_row<T>(read: Reading<T>, a: Seq<T>, i: int)
    requires
        scaled(read, a, a, 0 as real),
        0 <= i < a.len(),
    ensures
        (read.value)(a[i]) == 0 as real,
{
    let x = (read.value)(a[i]);
    assert((0 as real) * x == 0 as real) by (nonlinear_arith);
}

/// Dropout hands back nothing for what does not count.
proof fn lemma_dropout_back_nought<T: Real>(
    read: Reading<T>,
    mask: Option<Tensor3<T>>,
    g: Tensor3<T>,
    grad: Tensor3<T>,
    b: int,
    t0: int,
)
    requires
        is_exact(read),
        mask_finite(read, mask, g),
        stack_finite(read, g),
        dropout_backward_gives(mask, g, grad),
        nought_after(read, g, b, t0),
        0 <= b < g.outer,
        -1 <= t0,
    ensures
        nought_after(read, grad, b, t0),
{
    assert forall|t: int, c: int| t0 < t < grad.inner && 0 <= c < grad.flat.cols implies (
    read.value)(#[trigger] grad.cell(b, t, c)) == 0 as real by {
        assert((read.value)(g.cell(b, t, c)) == 0 as real);
        lemma_index_in_range(b, g.outer as int, t, g.inner as int);
        let r = b * g.inner + t;
        lemma_index_in_range(r, g.flat.rows as int, c, g.flat.cols as int);
        let i = r * g.flat.cols + c;
        assert((read.finite)(g.flat.data@[i]));
        if let Some(m) = mask {
            assert((read.finite)(m.flat.data@[i]));
            assert(times_gives(g.flat.data@[i], m.flat.data@[i], grad.flat.data@[i]));
            let y = (read.value)(m.flat.data@[i]);
            lemma_times_nought(y);
            lemma_distribute(0 as real, y, 0 as real);
        }
    }
}

/// A linear layer hands back nothing for what does not count.
proof fn lemma_linear_back_nought<T: Real>(
    read: Reading<T>,
    before: Linear<T>,
    input: Tensor3<T>,
    g: Tensor3<T>,
    after: Linear<T>,
    grad: Tensor3<T>,
    b: int,
    t0: int,
)
    requires
        is_exact(read),
        before.wf(),
        layer_is_finite(read, before),
        stack_finite(read, g),
        input.outer == g.outer,
        input.inner == g.inner,
        g.flat.cols == before.weight.value.cols,
        linear_backward_gives(before, input, g, after, grad),
        nought_after(read, g, b, t0),
        0 <= b < g.outer,
        -1 <= t0,
    ensures
        nought_after(read, grad, b, t0),
{
    let w = before.weight.value;
    lemma_parts_finite(read, g);
    assert forall|t: int, c: int| t0 < t < grad.inner && 0 <= c < grad.flat.cols implies (
    read.value)(#[trigger] grad.cell(b, t, c)) == 0 as real by {
        lemma_index_in_range(b, g.outer as int, t, g.inner as int);
        let r = b * g.inner + t;
        let (row, line) = (g.flat.row(r), w.row(c));
        assert(dot_gives(row, line, grad.flat.at(r, c)));
        assert forall|k: int| 0 <= k < line.len() implies (read.finite)(#[trigger] line[k]) by {
            lemma_index_in_range(c, w.rows as int, k, w.cols as int);
            assert(line[k] == w.at(c, k));
        }
        assert forall|k: int| 0 <= k < row.len() implies (read.value)(#[trigger] row[k])
            == 0 as real by {
            assert(row[k] == g.cell(b, t, k));
        }
        lemma_dot_nought(read, row, line, grad.flat.at(r, c));
    }
}

/// The steps of going back through the heads of a sequence.
proof fn lemma_heads_back_nought<T: Real>(
    read: Reading<T>,
    layer: MultiHeadSelfAttention<T>,
    cache: AttentionCache<T>,
    g: AttentionGrads<T>,
    b: int,
    t0: int,
    h: int,
)
    requires
        is_exact(read),
        layer.n_head > 0,
        layer.head_size > 0,
        attention_cache_finite(read, cache),
        cache.has_shape(
            cache.input.outer as int,
            cache.input.inner as int,
            layer.n_head as int,
            layer.head_size as int,
        ),
        forall|head: int, i: int, j: int|
            0 <= head < cache.att_dropped.outer && 0 <= i < j < cache.att_dropped.inner ==> (
            read.value)(#[trigger] cache.att_dropped.cell(head, i, j)) == 0 as real,
        stack_finite(read, g.context),
        g.context.same_shape(cache.context),
        stack_finite(read, g.att_dropped),
        stack_finite(read, g.att),
        stack_finite(read, g.scores),
        att_grads_give(
            g.context,
            cache.v,
            layer.n_head as int,
            layer.head_size as int,
            g.att_dropped,
        ),
        value_grads_give(
            g.context,
            cache.att_dropped,
            layer.n_head as int,
            layer.head_size as int,
            g.v,
        ),
        dropout_backward_gives(cache.att_dropout_mask, g.att_dropped, g.att),
        (read.finite)(g.scale),
        all_score_grads_give(cache.att_probs, g.att, g.scale, g.scores),
        query_grads_give(g.scores, cache.k, g.q),
        key_grads_give(g.scores, cache.q, g.k),
        nought_after(read, g.context, b, t0),
        0 <= b < cache.input.outer,
        -1 <= t0,
        0 <= h < layer.n_head,
    ensures
        nought_after(read, g.q, b * layer.n_head + h, t0),
        nought_after(read, g.k, b * layer.n_head + h, t0),
        nought_after(read, g.v, b * layer.n_head + h, t0),
{
    let v = read.value;
    let (n_head, size) = (layer.n_head as int, layer.head_size as int);
    let (batch, time) = (cache.input.outer as int, cache.input.inner as int);
    let head = b * n_head + h;
    lemma_index_in_range(b, batch, h, n_head);
    lemma_index_split(b, h, n_head);
    lemma_parts_finite(read, g.context);
    lemma_parts_finite(read, cache.v);
    lemma_parts_finite(read, cache.q);
    lemma_parts_finite(read, cache.k);
    lemma_parts_finite(read, cache.att_probs);
    lemma_parts_finite(read, cache.att_dropped);
    lemma_parts_finite(read, g.att);
    lemma_parts_finite(read, g.scores);
    // The weights.
    assert forall|t: int, u: int| t0 < t < g.att_dropped.inner && 0 <= u
        < g.att_dropped.flat.cols implies v(#[trigger] g.att_dropped.cell(head, t, u))
        == 0 as real by {
        lemma_index_in_range(h, n_head, 0, size);
        let (row, start) = (g.context.row(b, t), h * size);
        let (x, y) = (row.subrange(start, start + size), cache.v.row(head, u));
        assert(dot_gives(x, y, g.att_dropped.cell(head, t, u)));
        assert(all_finite(read, row));
        assert forall|c: int| 0 <= c < x.len() implies (read.finite)(#[trigger] x[c]) && v(x[c])
            == 0 as real by {
            assert(x[c] == row[start + c]);
            assert(row[start + c] == g.context.cell(b, t, start + c));
        }
        lemma_dot_nought(read, x, y, g.att_dropped.cell(head, t, u));
    }
    lemma_dropout_back_nought(read, cache.att_dropout_mask, g.att_dropped, g.att, head, t0);
    // The scores.
    assert forall|i: int, j: int| 0 <= i < time && 0 <= j < time && (t0 < i || i < j) implies v(
        #[trigger] g.scores.cell(head, i, j),
    ) == 0 as real by {
        let (p, row, out) = (
            cache.att_probs.row(head, i),
            g.att.row(head, i),
            g.scores.row(head, i),
        );
        assert(score_grads_give(p, row, i, g.scale, out));
        assert(out[j] == g.scores.cell(head, i, j));
        if t0 < i {
            assert forall|k: int| 0 <= k < row.len() implies v(#[trigger] row[k]) == 0 as real by {
                assert(row[k] == g.att.cell(head, i, k));
            }
            lemma_nought_row(read, row);
            lemma_score_row_scales(
                read,
                0 as real,
                p,
                row,
                row,
                i,
                g.scale,
                g.scale,
                out,
                out,
            );
            lemma_nought_from_row(read, out, j);
        }
    }
    // Queries, keys and values.
    assert forall|t: int, c: int| t0 < t < g.q.inner && 0 <= c < g.q.flat.cols implies v(
        #[trigger] g.q.cell(head, t, c),
    ) == 0 as real by {
        let (x, y) = (g.scores.row(head, t), cache.k.col(head, c));
        assert(dot_gives(x, y, g.q.cell(head, t, c)));
        assert forall|j: int| 0 <= j < x.len() implies v(#[trigger] x[j]) == 0 as real by {
            assert(x[j] == g.scores.cell(head, t, j));
        }
        lemma_dot_nought(read, x, y, g.q.cell(head, t, c));
    }
    assert forall|t: int, c: int| t0 < t < g.k.inner && 0 <= c < g.k.flat.cols implies v(
        #[trigger] g.k.cell(head, t, c),
    ) == 0 as real by {
        let (x, y) = (g.scores.col(head, t), cache.q.col(head, c));
        assert(dot_gives(x, y, g.k.cell(head, t, c)));
        assert forall|i: int| 0 <= i < x.len() implies v(#[trigger] x[i]) == 0 as real by {
            assert(x[i] == g.scores.cell(head, i, t));
        }
        lemma_dot_nought(read, x, y, g.k.cell(head, t, c));
    }
    assert forall|u: int, c: int| t0 < u < g.v.inner && 0 <= c < g.v.flat.cols implies v(
        #[trigger] g.v.cell(head, u, c),
    ) == 0 as real by {
        lemma_index_in_range(h, n_head, c, size);
        let col = h * size + c;
        let (x, y) = (cache.att_dropped.col(head, u), g.context.col(b, col));
        assert(dot_gives(x, y, g.v.cell(head, u, c)));
        assert forall|t: int|
            #![trigger x[t]]
            #![trigger y[t]]
            0 <= t < x.len() implies v(x[t]) == 0 as real || v(y[t]) == 0 as real by {
            assert(x[t] == cache.att_dropped.cell(head, t, u));
            assert(y[t] == g.context.cell(b, t, col));
        }
        lemma_dot_nought(read, x, y, g.v.cell(head, u, c));
    }
}

/// The gradients of self-attention keep to the order of time: where the gradient of the output
/// reads as zero at every position of a sequence after `t0`, so does the gradient of the input.
pub proof fn lemma_attention_gradient_is_causal<T: Real>(
    read: Reading<T>,
    layer: MultiHeadSelfAttention<T>,
    block_size: int,
    input: Tensor3<T>,
    training: bool,
    rate: T,
    output: Tensor3<T>,
    cache: AttentionCache<T>,
    rng: SmallRng,
    rng_after: SmallRng,
    grad_output: Tensor3<T>,
    after: MultiHeadSelfAttention<T>,
    grad_input: Tensor3<T>,
    b: int,
    t0: int,
)
    requires
        is_exact(read),
        input.flat.cols > 0,
        layer.has_shape(input.flat.cols as int, block_size),
        linear_finite(read, layer.qkv),
        linear_finite(read, layer.proj),
        (read.finite)(rate),
        stack_finite(read, input),
        attention_gives(layer, input, training, rate, output, cache, rng, rng_after),
        stack_finite(read, grad_output),
        grad_output.same_shape(input),
        attention_backward_gives(layer, cache, grad_output, after, grad_input),
        0 <= b < input.outer,
        -1 <= t0,
        nought_after(read, grad_output, b, t0),
    ensures
        nought_after(read, grad_input, b, t0),
{
    let v = read.value;
    let (n_head, size) = (layer.n_head as int, layer.head_size as int);
    let (batch, time) = (input.outer as int, input.inner as int);
    lemma_head_size_positive(n_head, size, input.flat.cols as int);
    lemma_attention_stays_finite(
        read,
        layer,
        block_size,
        input,
        training,
        rate,
        output,
        cache,
        rng,
        rng_after,
    );
    lemma_dropped_weights_causal(
        read,
        layer,
        input,
        training,
        rate,
        output,
        cache,
        rng,
        rng_after,
    );
    let g = choose|g: AttentionGrads<T>| #[trigger]
        attention_backward_steps_give(layer, cache, grad_output, after, grad_input, g);
    lemma_stack_like_itself(read, grad_output);
    lemma_dropout_scales(
        read,
        1 as real,
        cache.proj_dropout_mask,
        grad_output,
        grad_output,
        g.projected,
        g.projected,
    );
    lemma_linear_scales(
        read,
        1 as real,
        layer.proj,
        layer.proj,
        cache.context,
        g.projected,
        g.projected,
        after.proj,
        after.proj,
        g.context,
        g.context,
    );
    lemma_heads_scale(read, 1 as real, cache, n_head, size, batch, g, g);
    lemma_dropout_scales(
        read,
        1 as real,
        cache.att_dropout_mask,
        g.att_dropped,
        g.att_dropped,
        g.att,
        g.att,
    );
    lemma_scale_value(read, layer.head_size, g.scale);
    lemma_scores_scale(read, 1 as real, cache, g, g);
    lemma_unpack_scales(read, 1 as real, n_head, size, batch, time, g, g);
    lemma_dropout_back_nought(
        read,
        cache.proj_dropout_mask,
        grad_output,
        g.projected,
        b,
        t0,
    );
    lemma_linear_back_nought(
        read,
        layer.proj,
        cache.context,
        g.projected,
        after.proj,
        g.context,
        b,
        t0,
    );
    assert forall|t: int, y: int| t0 < t < g.qkv.inner && 0 <= y < g.qkv.flat.cols implies v(
        #[trigger] g.qkv.cell(b, t, y),
    ) == 0 as real by {
        assert(3 * (n_head * size) == (3 * n_head) * size) by (nonlinear_arith);
        lemma_split_index(y, 3 * n_head, size);
        lemma_split_index(y / size, 3, n_head);
        let h = (y / size) % n_head;
        lemma_index_in_range(b, batch, h, n_head);
        lemma_heads_back_nought(read, layer, cache, g, b, t0, h);
        assert(g.qkv.cell(b, t, y) == unpacked_entry(g.q, g.k, g.v, n_head, size, b, t, y));
    }
    lemma_linear_back_nought(
        read,
        layer.qkv,
        cache.input,
        g.qkv,
        after.qkv,
        grad_input,
        b,
        t0,
    );
}

/// Dropout leaves the weights of later keys at zero.
proof fn lemma_dropped_weights_causal<T: Real>(
    read: Reading<T>,
    layer: MultiHeadSelfAttention<T>,
    input: Tensor3<T>,
    training: bool,
    rate: T,
    output: Tensor3<T>,
    cache: AttentionCache<T>,
    rng: SmallRng,
    rng_after: SmallRng,
)
    requires
        is_exact(read),
        attention_gives(layer, input, training, rate, output, cache, rng, rng_after),
        attention_cache_finite(read, cache),
        cache.has_shape(
            input.outer as int,
            input.inner as int,
            layer.n_head as int,
            layer.head_size as int,
        ),
        forall|head: int, i: int, j: int|
            0 <= head < cache.att_probs.outer && 0 <= i < j < cache.att_probs.inner ==> (
            read.value)(#[trigger] cache.att_probs.cell(head, i, j)) == 0 as real,
    ensures
        forall|head: int, i: int, j: int|
            0 <= head < cache.att_dropped.outer && 0 <= i < j < cache.att_dropped.inner ==> (
            read.value)(#[trigger] cache.att_dropped.cell(head, i, j)) == 0 as real,
{
    let (probs, dropped) = (cache.att_probs, cache.att_dropped);
    assert forall|head: int, i: int, j: int|
        0 <= head < dropped.outer && 0 <= i < j < dropped.inner implies (read.value)(
        #[trigger] dropped.cell(head, i, j),
    ) == 0 as real by {
        assert((read.value)(probs.cell(head, i, j)) == 0 as real);
        lemma_index_in_range(head, probs.outer as int, i, probs.inner as int);
        let r = head * probs.inner + i;
        lemma_index_in_range(r, probs.flat.rows as int, j, probs.flat.cols as int);
        let k = r * probs.flat.cols + j;
        assert((read.finite)(probs.flat.data@[k]));
        if let Some(m) = cache.att_dropout_mask {
            assert((read.finite)(m.flat.data@[k]));
            assert(times_gives(probs.flat.data@[k], m.flat.data@[k], dropped.flat.data@[k]));
            let y = (read.value)(m.flat.data@[k]);
            lemma_times_nought(y);
            lemma_distribute(0 as real, y, 0 as real);
        }
    }
}

/// A normalization hands back nothing for what does not count.
proof fn lemma_norm_back_nought<T: Real>(
    read: Reading<T>,
    before: LayerNorm<T>,
    cache: LayerNormCache<T>,
    g: Tensor3<T>,
    after: LayerNorm<T>,
    grad: Tensor3<T>,
    b: int,
    t0: int,
)
    requires
        is_exact(read),
        g.flat.cols > 0,
        before.has_width(g.flat.cols as int),
        all_finite(read, before.gamma.value@),
        norm_cache_finite(read, cache),
        cache.has_shape(g.outer as int, g.inner as int, g.flat.cols as int),
        stack_finite(read, g),
        layer_norm_backward_gives(before, cache, g, after, grad),
        nought_after(read, g, b, t0),
        0 <= b < g.outer,
        -1 <= t0,
    ensures
        nought_after(read, grad, b, t0),
{
    lemma_parts_finite(read, g);
    lemma_parts_finite(read, cache.x_hat);
    assert forall|t: int, c: int| t0 < t < grad.inner && 0 <= c < grad.flat.cols implies (
    read.value)(#[trigger] grad.cell(b, t, c)) == 0 as real by {
        lemma_index_in_range(b, g.outer as int, t, g.inner as int);
        let r = b * g.inner + t;
        let (row, out) = (g.flat.row(r), grad.flat.row(r));
        let (gamma, x_hat, inv) = (
            before.gamma.value@,
            cache.x_hat.flat.row(r),
            cache.inv_std.data@[r],
        );
        assert(norm_row_backward_gives(row, gamma, x_hat, inv, out));
        assert(all_finite(read, row) && all_finite(read, x_hat) && (read.finite)(inv));
        assert forall|k: int| 0 <= k < row.len() implies (read.value)(#[trigger] row[k])
            == 0 as real by {
            assert(row[k] == g.cell(b, t, k));
        }
        lemma_nought_row(read, row);
        lemma_norm_row_scales(read, 0 as real, row, row, gamma, x_hat, inv, out, out);
        lemma_nought_from_row(read, out, c);
        assert(out[c] == grad.cell(b, t, c));
    }
}

/// Sums of what does not count do not count.
proof fn lemma_plus_nought<T: Real>(
    read: Reading<T>,
    x: Tensor3<T>,
    y: Tensor3<T>,
    total: Tensor3<T>,
    b: int,
    t0: int,
)
    requires
        is_exact(read),
        stack_finite(read, x),
        stack_finite(read, y),
        x.same_shape(y),
        plus_tensor_gives(x, y, total),
        nought_after(read, x, b, t0),
        nought_after(read, y, b, t0),
        0 <= b < x.outer,
        -1 <= t0,
    ensures
        nought_after(read, total, b, t0),
{
    assert forall|t: int, c: int| t0 < t < total.inner && 0 <= c < total.flat.cols implies (
    read.value)(#[trigger] total.cell(b, t, c)) == 0 as real by {
        assert((read.value)(x.cell(b, t, c)) == 0 as real);
        assert((read.value)(y.cell(b, t, c)) == 0 as real);
        lemma_index_in_range(b, x.outer as int, t, x.inner as int);
        let r = b * x.inner + t;
        lemma_index_in_range(r, x.flat.rows as int, c, x.flat.cols as int);
        let i = r * x.flat.cols + c;
        assert((read.finite)(x.flat.data@[i]) && (read.finite)(y.flat.data@[i]));
        assert(plus_gives(x.flat.data@[i], y.flat.data@[i], total.flat.data@[i]));
    }
}

/// A feed-forward network hands back nothing for what does not count.
proof fn lemma_feed_forward_back_nought<T: Real>(
    read: Reading<T>,
    before: FeedForward<T>,
    cache: FeedForwardCache<T>,
    g: Tensor3<T>,
    after: FeedForward<T>,
    grad: Tensor3<T>,
    b: int,
    t0: int,
)
    requires
        is_exact(read),
        before.has_width(g.flat.cols as int),
        linear_finite(read, before.fc1),
        linear_finite(read, before.fc2),
        feed_forward_cache_finite(read, cache),
        cache.has_shape(g.outer as int, g.inner as int, g.flat.cols as int),
        stack_finite(read, g),
        feed_forward_backward_gives(before, cache, g, after, grad),
        nought_after(read, g, b, t0),
        0 <= b < g.outer,
        -1 <= t0,
    ensures
        nought_after(read, grad, b, t0),
{
    let (projected, hidden, held) = choose|
        projected: Tensor3<T>,
        hidden: Tensor3<T>,
        held: Tensor3<T>,
    |
        feed_forward_backward_steps_give(
            before,
            cache,
            g,
            after,
            grad,
            projected,
            hidden,
            held,
        );
    let one = 1 as real;
    lemma_stack_like_itself(read, g);
    lemma_dropout_scales(read, one, cache.dropout_mask, g, g, projected, projected);
    lemma_linear_scales(
        read,
        one,
        before.fc2,
        before.fc2,
        cache.hidden,
        projected,
        projected,
        after.fc2,
        after.fc2,
        hidden,
        hidden,
    );
    lemma_gate_scales(read, one, cache.hidden_pre, hidden, hidden, held, held);
    lemma_dropout_back_nought(read, cache.dropout_mask, g, projected, b, t0);
    lemma_linear_back_nought(
        read,
        before.fc2,
        cache.hidden,
        projected,
        after.fc2,
        hidden,
        b,
        t0,
    );
    assert forall|t: int, c: int| t0 < t < held.inner && 0 <= c < held.flat.cols implies (
    read.value)(#[trigger] held.cell(b, t, c)) == 0 as real by {
        assert((read.value)(hidden.cell(b, t, c)) == 0 as real);
        lemma_index_in_range(b, hidden.outer as int, t, hidden.inner as int);
        let r = b * hidden.inner + t;
        lemma_index_in_range(r, hidden.flat.rows as int, c, hidden.flat.cols as int);
        let i = r * hidden.flat.cols + c;
        let pre = cache.hidden_pre.flat.data@[i];
        assert(gate_gives(pre, hidden.flat.data@[i], held.flat.data@[i]));
    }
    lemma_linear_back_nought(read, before.fc1, cache.input, held, after.fc1, grad, b, t0);
}

/// The gradients of a block keep to the order of time: where the gradient of the output reads as
/// zero at every position of a sequence after `t0`, so does the gradient of the input.
pub proof fn lemma_block_gradient_is_causal<T: Real>(
    read: Reading<T>,
    block: Block<T>,
    block_size: int,
    input: Tensor3<T>,
    training: bool,
    rate: T,
    output: Tensor3<T>,
    cache: BlockCache<T>,
    rng: SmallRng,
    rng_after: SmallRng,
    grad_output: Tensor3<T>,
    after: Block<T>,
    grad_input: Tensor3<T>,
    b: int,
    t0: int,
)
    requires
        is_exact(read),
        input.flat.cols > 0,
        block.has_shape(input.flat.cols as int, block_size),
        block_values_finite(read, block),
        block_grads_finite(read, block),
        (read.finite)(rate),
        stack_finite(read, input),
        block_gives(block, input, training, rate, output, cache, rng, rng_after),
        stack_finite(read, grad_output),
        grad_output.same_shape(input),
        block_backward_gives(block, cache, grad_output, after, grad_input),
        0 <= b < input.outer,
        -1 <= t0,
        nought_after(read, grad_output, b, t0),
    ensures
        nought_after(read, grad_input, b, t0),
        stack_finite(read, grad_input),
        grad_input.same_shape(input),
{
    let s = choose|s: BlockSteps<T>|
        block_steps_give(block, input, training, rate, output, cache, rng, rng_after, s);
    lemma_block_stays_finite(
        read,
        block,
        block_size,
        input,
        training,
        rate,
        output,
        cache,
        rng,
        rng_after,
        s,
    );
    lemma_norm_stays_finite(read, block.ln1, input, s.ln1_output, cache.ln1);
    lemma_head_size_positive(
        block.attention.n_head as int,
        block.attention.head_size as int,
        input.flat.cols as int,
    );
    let g = choose|g: BlockGrads<T>|
        block_backward_steps_give(block, cache, grad_output, after, grad_input, g);
    let one = 1 as real;
    let (feed, ff_cache) = (block.feed_forward, cache.feed_forward);
    lemma_stack_like_itself(read, grad_output);
    lemma_feed_forward_scales(
        read,
        one,
        feed,
        feed,
        ff_cache,
        grad_output,
        grad_output,
        after.feed_forward,
        after.feed_forward,
        g.feed_forward,
        g.feed_forward,
    );
    lemma_norm_scales(
        read,
        one,
        block.ln2,
        block.ln2,
        cache.ln2,
        g.feed_forward,
        g.feed_forward,
        after.ln2,
        after.ln2,
        g.ln2_input,
        g.ln2_input,
    );
    lemma_plus_stays_finite(read, grad_output, g.ln2_input, g.residual);
    lemma_stack_like_itself(read, g.residual);
    lemma_attention_scales(
        read,
        one,
        block.attention,
        block.attention,
        cache.attention,
        g.residual,
        g.residual,
        after.attention,
        after.attention,
        g.attention,
        g.attention,
    );
    lemma_norm_scales(
        read,
        one,
        block.ln1,
        block.ln1,
        cache.ln1,
        g.attention,
        g.attention,
        after.ln1,
        after.ln1,
        g.ln1_input,
        g.ln1_input,
    );
    lemma_plus_stays_finite(read, g.residual, g.ln1_input, grad_input);
    lemma_feed_forward_back_nought(
        read,
        feed,
        ff_cache,
        grad_output,
        after.feed_forward,
        g.feed_forward,
        b,
        t0,
    );
    lemma_norm_back_nought(
        read,
        block.ln2,
        cache.ln2,
        g.feed_forward,
        after.ln2,
        g.ln2_input,
        b,
        t0,
    );
    lemma_plus_nought(read, grad_output, g.ln2_input, g.residual, b, t0);
    lemma_attention_gradient_is_causal(
        read,
        block.attention,
        block_size,
        s.ln1_output,
        training,
        rate,
        s.attention_output,
        cache.attention,
        rng,
        s.rng,
        g.residual,
        after.attention,
        g.attention,
        b,
        t0,
    );
    lemma_norm_back_nought(
        read,
        block.ln1,
        cache.ln1,
        g.attention,
        after.ln1,
        g.ln1_input,
        b,
        t0,
    );
    lemma_plus_nought(read, g.residual, g.ln1_input, grad_input, b, t0);
}

/// The gradients of the blocks from block `n` on keep to the order of time.
proof fn lemma_blocks_back_nought<T: Real>(
    read: Reading<T>,
    blocks: Seq<Block<T>>,
    block_size: int,
    training: bool,
    rate: T,
    caches: Seq<BlockCache<T>>,
    run: BlocksRun<T>,
    grad_output: Tensor3<T>,
    after: Seq<Block<T>>,
    grad_input: Tensor3<T>,
    b: int,
    t0: int,
    n: nat,
)
    requires
        is_exact(read),
        (read.finite)(rate),
        is_run(blocks, training, rate, caches, run),
        n <= blocks.len(),
        after.len() == blocks.len(),
        stack_finite(read, run.stacks[0]),
        run.stacks[0].flat.cols > 0,
        forall|i: int|
            0 <= i < blocks.len() ==> block_values_finite(read, #[trigger] blocks[i])
                && block_grads_finite(read, blocks[i]) && blocks[i].has_shape(
                run.stacks[0].flat.cols as int,
                block_size,
            ),
        stack_finite(read, grad_output),
        grad_output.same_shape(run.stacks[0]),
        blocks_backward_give(
            blocks.skip(n as int),
            caches.skip(n as int),
            grad_output,
            after.skip(n as int),
            grad_input,
        ),
        0 <= b < grad_output.outer,
        -1 <= t0,
        nought_after(read, grad_output, b, t0),
    ensures
        nought_after(read, grad_input, b, t0),
        stack_finite(read, grad_input),
        grad_input.same_shape(grad_output),
    decreases blocks.len() - n,
{
    if n < blocks.len() {
        let i: int = n as int;
        let (bs, cs, al) = (blocks.skip(i), caches.skip(i), after.skip(i));
        let mid = choose|mid: Tensor3<T>|
            blocks_backward_give(bs.skip(1), cs.skip(1), grad_output, al.skip(1), mid)
                && #[trigger] block_backward_gives(bs[0], cs[0], mid, al[0], grad_input);
        assert(bs.skip(1) =~= blocks.skip(i + 1));
        assert(cs.skip(1) =~= caches.skip(i + 1));
        assert(al.skip(1) =~= after.skip(i + 1));
        lemma_blocks_back_nought(
            read,
            blocks,
            block_size,
            training,
            rate,
            caches,
            run,
            grad_output,
            after,
            mid,
            b,
            t0,
            n + 1,
        );
        lemma_run_stays_finite(read, blocks, block_size, training, rate, caches, run, n);
        let s = run.steps[i];
        assert(block_values_finite(read, blocks[i]));
        lemma_block_gradient_is_causal(
            read,
            blocks[i],
            block_size,
            run.stacks[i],
            training,
            rate,
            run.stacks[i + 1],
            caches[i],
            run.rngs[i],
            run.rngs[i + 1],
            mid,
            after[i],
            grad_input,
            b,
            t0,
        );
    }
}

/// What the blocks hand back is finite.
proof fn lemma_blocks_back_finite<T: Real>(
    read: Reading<T>,
    blocks: Seq<Block<T>>,
    block_size: int,
    training: bool,
    rate: T,
    caches: Seq<BlockCache<T>>,
    run: BlocksRun<T>,
    grad_output: Tensor3<T>,
    after: Seq<Block<T>>,
    grad_input: Tensor3<T>,
)
    requires
        is_exact(read),
        (read.finite)(rate),
        is_run(blocks, training, rate, caches, run),
        after.len() == blocks.len(),
        stack_finite(read, run.stacks[0]),
        run.stacks[0].flat.cols > 0,
        forall|i: int|
            0 <= i < blocks.len() ==> block_values_finite(read, #[trigger] blocks[i])
                && block_grads_finite(read, blocks[i]) && blocks[i].has_shape(
                run.stacks[0].flat.cols as int,
                block_size,
            ),
        stack_finite(read, grad_output),
        grad_output.same_shape(run.stacks[0]),
        blocks_backward_give(blocks, caches, grad_output, after, grad_input),
    ensures
        stack_finite(read, grad_input),
        grad_input.same_shape(grad_output),
{
    assert(blocks.skip(0) =~= blocks && caches.skip(0) =~= caches && after.skip(0) =~= after);
    let still = |r: int, c: int| 0 as real;
    let dirs = Seq::<BlockDirection>::empty();
    lemma_blocks_slope(
        read,
        blocks,
        block_size,
        training,
        rate,
        caches,
        run,
        grad_output,
        after,
        grad_input,
        dirs,
        still,
        0,
    );
}

/// What is added up for a row of a table is zero where all that belongs to it is.
proof fn lemma_scatter_nought<T>(
    read: Reading<T>,
    keys: Seq<usize>,
    grads: Tensor2<T>,
    n: int,
    v: int,
    c: int,
)
    requires
        forall|r: int|
            0 <= r < n && keys[r] == v ==> (read.value)(#[trigger] grads.at(r, c)) == 0 as real,
    ensures
        scatter_sum(read, keys, grads, n, v, c) == 0 as real,
    decreases n,
{
    if n > 0 {
        lemma_scatter_nought(read, keys, grads, n - 1, v, c);
        if keys[n - 1] == v {
            assert((read.value)(grads.at(n - 1, c)) == 0 as real);
        }
    }
}

/// The gradients of a model keep to the order of time: where the gradient of the logits reads as
/// zero at every position of every sequence after `t0`, nothing is added to the gradients of the
/// embeddings of those positions.
pub proof fn lemma_model_gradient_is_causal<T: Real>(
    read: Reading<T>,
    model: GptLanguageModel<T>,
    idx: TokenArray,
    training: bool,
    logits: Tensor3<T>,
    cache: GptCache<T>,
    rng: SmallRng,
    rng_after: SmallRng,
    grad_logits: Tensor3<T>,
    after: GptLanguageModel<T>,
    t0: int,
    t: int,
    c: int,
)
    requires
        is_exact(read),
        model.wf(),
        model.takes(idx),
        model_values_finite(read, model),
        model_grads_finite(read, model),
        model_gives(model, idx, training, logits, cache, rng, rng_after),
        stack_finite(read, grad_logits),
        grad_logits.same_shape(logits),
        model_backward_gives(model, cache, grad_logits, after),
        -1 <= t0,
        forall|b: int| 0 <= b < idx.rows() ==> #[trigger] nought_after(read, grad_logits, b, t0),
        t0 < t < model.config.block_size,
        0 <= c < model.config.n_embd,
    ensures
        table_gain(read, model.position_embedding, after.position_embedding, t, c) == 0 as real,
{
    let (embedded, last) = choose|embedded: Tensor3<T>, last: Tensor3<T>|
        model_steps_give(
            model,
            idx,
            training,
            logits,
            cache,
            rng,
            rng_after,
            embedded,
            last,
        );
    lemma_model_stays_finite(
        read,
        model,
        idx,
        training,
        logits,
        cache,
        rng,
        rng_after,
        embedded,
        last,
    );
    let (blocks, caches) = (model.blocks@, cache.blocks@);
    let run = lemma_blocks_have_run(
        blocks,
        training,
        model.config.dropout,
        embedded,
        caches,
        last,
        rng,
        rng_after,
    );
    let (normed, back, front) = choose|normed: Tensor3<T>, back: Tensor3<T>, front: Tensor3<T>|
        model_backward_steps_give(model, cache, grad_logits, after, normed, back, front);
    let one = 1 as real;
    lemma_stack_like_itself(read, grad_logits);
    lemma_linear_scales(
        read,
        one,
        model.lm_head,
        model.lm_head,
        cache.final_norm_output,
        grad_logits,
        grad_logits,
        after.lm_head,
        after.lm_head,
        normed,
        normed,
    );
    lemma_norm_scales(
        read,
        one,
        model.ln_f,
        model.ln_f,
        cache.final_norm,
        normed,
        normed,
        after.ln_f,
        after.ln_f,
        back,
        back,
    );
    assert(blocks.skip(0) =~= blocks && caches.skip(0) =~= caches);
    assert(after.blocks@.skip(0) =~= after.blocks@);
    lemma_blocks_back_finite(
        read,
        blocks,
        model.config.block_size as int,
        training,
        model.config.dropout,
        caches,
        run,
        back,
        after.blocks@,
        front,
    );
    let time = idx.cols();
    let width = model.config.n_embd as int;
    let (rows, keys) = (front.flat.rows as int, places(front.flat.rows as int, time));
    assert forall|r: int| 0 <= r < rows && keys[r] == t implies (read.value)(
        #[trigger] front.flat.at(r, c),
    ) == 0 as real by {
        assert(time > 0) by (nonlinear_arith)
            requires
                0 <= r < idx.rows() * time,
                time >= 0,
        ;
        lemma_split_index(r, idx.rows(), time);
        let b = r / time;
        assert(r % time == t);
        assert(nought_after(read, grad_logits, b, t0));
        lemma_linear_back_nought(
            read,
            model.lm_head,
            cache.final_norm_output,
            grad_logits,
            after.lm_head,
            normed,
            b,
            t0,
        );
        lemma_norm_back_nought(
            read,
            model.ln_f,
            cache.final_norm,
            normed,
            after.ln_f,
            back,
            b,
            t0,
        );
        lemma_blocks_back_nought(
            read,
            blocks,
            model.config.block_size as int,
            training,
            model.config.dropout,
            caches,
            run,
            back,
            after.blocks@,
            front,
            b,
            t0,
            0,
        );
        assert(front.cell(b, t, c) == front.flat.at(r, c));
    }
    lemma_scatter_nought(read, keys, front.flat, rows, t, c);
    let (x, y) = (model.position_embedding.grad.at(t, c), after.position_embedding.grad.at(t, c));
    lemma_index_in_range(t, model.position_embedding.value.rows as int, c, width);
    assert((read.finite)(x));
    assert forall|r: int| 0 <= r < front.flat.rows implies (read.finite)(
        #[trigger] front.flat.at(r, c),
    ) by {
        lemma_index_in_range(r, rows, c, width);
    }
    assert(scatter_gives(keys, front.flat, rows, t, c, x, y));
    lemma_scatter_exact(read, keys, front.flat, rows, t, c, x, y);
}

} // verus!
