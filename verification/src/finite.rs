//! Where a run starts from finite numbers, and the number type computes exactly, all its numbers
//! are finite.

use crate::attention::{
    att_probs_give, attention_gives, attention_steps_give, fresh_attention, packed, probs_give,
    scale_gives, AttentionCache, MultiHeadSelfAttention,
};
use crate::block::{
    block_gives, block_steps_give, fresh_block, lemma_head_size_positive, Block, BlockCache,
    BlockSteps,
};
use crate::dropout::{dropout_gives, mask_gives};
use crate::elementwise::plus_tensor_gives;
use crate::exact::{
    all_finite, is_exact, lemma_dot_exact, lemma_later_keys_get_no_weight,
    lemma_softmax_is_distribution, ten_to, Reading,
};
use crate::feed_forward::{
    feed_forward_gives, fresh_feed_forward, relu_gives, FeedForward, FeedForwardCache,
};
use crate::gradient::layer_is_finite;
use crate::grid::{token_items, TokenArray};
use crate::layer_norm::{
    fresh_layer_norm, layer_norm_gives, normalized_row_gives, rescaled_gives, LayerNorm,
    LayerNormCache,
};
use crate::linear::{affine_gives, fresh_linear, linear_gives, Linear};
use crate::linearity::{
    attention_cache_finite, block_cache_finite, block_grads_finite, feed_forward_cache_finite,
    model_cache_finite, model_grads_finite,
};
use crate::loss::{cross_entropy_gives, loss_grad_gives, loss_grad_row_gives, mean_loss_gives};
use crate::masks::{draws_below_one, lemma_mask_readings, lemma_rate_readings};
use crate::model::{
    blocks_give, fresh_blocks, fresh_embedding, fresh_model, model_gives, model_steps_give,
    GptCache, GptConfig, GptLanguageModel,
};
use crate::norm_tangent::{lemma_normalized_values, lemma_row_root};
use crate::optim::{complement_gives, spread_draws_give, spread_gives, Param2D};
use crate::random::random_u64_gives;
use crate::reduce::{dot_gives, softmax_gives};
use crate::scalar::{
    count_gives, decimal_gives, minus_gives, one_gives, over_gives, plus_gives, sqrt_gives,
    times_gives, uniform_gives, Real,
};
use crate::scaling::{
    lemma_parts_finite, lemma_stack_from_cells, linear_finite, mask_finite, norm_cache_finite,
    norm_grads_finite, one_scaled, stack_finite,
};
use crate::softmax::{largest_loss, lemma_loss_bounded, ln_rises};
use crate::tangent::lemma_regroup;
use crate::tensor::{lemma_index_in_range, lemma_split_index, Tensor3};
use rand::rngs::SmallRng;
use vstd::prelude::*;

verus! {

/// `s` is one over the square root of `n`.
pub open spec fn is_inverse_root(n: int, s: real) -> bool {
    s > 0 as real && (s * s) * n as real == 1 as real
}

/// One over the square root of `n`.
pub open spec fn inverse_root(n: int) -> real {
    choose|s: real| is_inverse_root(n, s)
}

/// What the scores are multiplied by reads as one over the root of the size of a head.
pub proof fn lemma_scale_value<T: Real>(read: Reading<T>, head_size: usize, scale: T)
    requires
        is_exact(read),
        head_size > 0,
        scale_gives(head_size, scale),
    ensures
        (read.finite)(scale),
        (read.value)(scale) == inverse_root(head_size as int),
{
    let v = read.value;
    let (count, root, one) = choose|count: T, root: T, one: T|
        count_gives(head_size, count) && #[trigger] sqrt_gives(count, root) && one_gives(one)
            && #[trigger] over_gives(one, root, scale);
    let (n, y, s) = (head_size as int as real, v(root), v(scale));
    assert(v(count) == n);
    assert(y != 0 as real) by (nonlinear_arith)
        requires
            y * y == n,
            n > 0 as real,
    ;
    assert(s == 1 as real / y);
    assert(s > 0 as real && s * y == 1 as real) by (nonlinear_arith)
        requires
            y > 0 as real,
            s == 1 as real / y,
    ;
    assert((s * s) * n == 1 as real) by {
        lemma_regroup(s, y, y);
        lemma_regroup(s, s, y * y);
        assert(s * (y * y) == y);
    }
    assert(is_inverse_root(head_size as int, s));
    let t = inverse_root(head_size as int);
    assert(is_inverse_root(head_size as int, t));
    assert(s * s == t * t) by (nonlinear_arith)
        requires
            (s * s) * n == (t * t) * n,
            n > 0 as real,
    ;
    assert(s == t) by (nonlinear_arith)
        requires
            s * s == t * t,
            s > 0 as real,
            t > 0 as real,
    ;
}

/// The parameters of the normalization stand for real numbers, and what it moves variances away
/// from zero by is above zero.
pub open spec fn norm_values_finite<T>(read: Reading<T>, layer: LayerNorm<T>) -> bool {
    &&& all_finite(read, layer.gamma.value@)
    &&& all_finite(read, layer.beta.value@)
    &&& (read.finite)(layer.eps)
    &&& (read.value)(layer.eps) > 0 as real
}

/// The parameters of the block stand for real numbers.
pub open spec fn block_values_finite<T>(read: Reading<T>, block: Block<T>) -> bool {
    &&& norm_values_finite(read, block.ln1)
    &&& layer_is_finite(read, block.attention.qkv)
    &&& layer_is_finite(read, block.attention.proj)
    &&& norm_values_finite(read, block.ln2)
    &&& layer_is_finite(read, block.feed_forward.fc1)
    &&& layer_is_finite(read, block.feed_forward.fc2)
}

/// A stack whose cells stand for real numbers.
pub proof fn lemma_finite_cells<T>(read: Reading<T>, x: Tensor3<T>)
    requires
        x.wf(),
        forall|i: int, j: int, c: int|
            0 <= i < x.outer && 0 <= j < x.inner && 0 <= c < x.flat.cols ==> (read.finite)(
                #[trigger] x.cell(i, j, c),
            ),
    ensures
        stack_finite(read, x),
{
    assert forall|i: int, j: int, c: int|
        #![trigger x.cell(i, j, c)]
        0 <= i < x.outer && 0 <= j < x.inner && 0 <= c < x.flat.cols implies one_scaled(
        read,
        x.cell(i, j, c),
        x.cell(i, j, c),
        1 as real,
    ) by {
        let y = (read.value)(x.cell(i, j, c));
        assert(y == 1 as real * y) by (nonlinear_arith);
    }
    lemma_stack_from_cells(read, x, x, 1 as real);
}

/// A linear layer makes finite numbers of finite ones.
pub proof fn lemma_linear_stays_finite<T: Real>(
    read: Reading<T>,
    layer: Linear<T>,
    input: Tensor3<T>,
    output: Tensor3<T>,
)
    requires
        is_exact(read),
        layer.wf(),
        layer_is_finite(read, layer),
        stack_finite(read, input),
        input.flat.cols == layer.weight.value.rows,
        linear_gives(layer, input, output),
    ensures
        stack_finite(read, output),
{
    let w = layer.weight.value;
    lemma_parts_finite(read, input);
    assert forall|i: int| 0 <= i < output.flat.data@.len() implies (read.finite)(
        #[trigger] output.flat.data@[i],
    ) by {
        let (n, m) = (output.flat.rows as int, output.flat.cols as int);
        assert(m > 0) by (nonlinear_arith)
            requires
                0 <= i < n * m,
                m >= 0,
        ;
        lemma_split_index(i, n, m);
        let (r, c) = (i / m, i % m);
        let (x, col, y) = (input.flat.row(r), w.col(c), output.flat.at(r, c));
        assert(affine_gives(x, col, layer.bias_at(c), y));
        assert forall|k: int| 0 <= k < col.len() implies (read.finite)(#[trigger] col[k]) by {
            lemma_index_in_range(k, w.rows as int, c, m);
            assert(col[k] == w.at(k, c));
        }
        match layer.bias {
            Some(b) => {
                let product = choose|product: T| #[trigger]
                    dot_gives(x, col, product) && plus_gives(product, b.value@[c], y);
                lemma_dot_exact(read, x, col, product);
                assert((read.finite)(b.value@[c]));
            },
            None => {
                lemma_dot_exact(read, x, col, y);
            },
        }
    }
}

/// Sums of finite numbers are finite.
pub proof fn lemma_plus_stays_finite<T: Real>(
    read: Reading<T>,
    a: Tensor3<T>,
    b: Tensor3<T>,
    sum: Tensor3<T>,
)
    requires
        is_exact(read),
        stack_finite(read, a),
        stack_finite(read, b),
        plus_tensor_gives(a, b, sum),
    ensures
        stack_finite(read, sum),
{
    assert forall|i: int| 0 <= i < sum.flat.data@.len() implies (read.finite)(
        #[trigger] sum.flat.data@[i],
    ) by {
        assert(plus_gives(a.flat.data@[i], b.flat.data@[i], sum.flat.data@[i]));
        assert((read.finite)(a.flat.data@[i]) && (read.finite)(b.flat.data@[i]));
    }
}

/// A normalization makes finite numbers of finite ones.
pub proof fn lemma_norm_stays_finite<T: Real>(
    read: Reading<T>,
    layer: LayerNorm<T>,
    input: Tensor3<T>,
    output: Tensor3<T>,
    cache: LayerNormCache<T>,
)
    requires
        is_exact(read),
        input.flat.cols > 0,
        layer.has_width(input.flat.cols as int),
        norm_values_finite(read, layer),
        stack_finite(read, input),
        layer_norm_gives(layer, input, output, cache),
    ensures
        norm_cache_finite(read, cache),
        stack_finite(read, output),
{
    let (n, m) = (input.flat.rows as int, input.flat.cols as int);
    lemma_parts_finite(read, input);
    assert forall|r: int| 0 <= r < n implies (read.finite)(#[trigger] cache.inv_std.data@[r])
        && all_finite(read, cache.x_hat.flat.row(r)) by {
        let items = input.flat.row(r);
        let (x_hat, inv) = (cache.x_hat.flat.row(r), cache.inv_std.data@[r]);
        assert(normalized_row_gives(items, layer.eps, x_hat, inv));
        assert(all_finite(read, items));
        lemma_row_root(read, items, layer.eps, x_hat, inv);
        let root = 1 as real / (read.value)(inv);
        lemma_normalized_values(read, items, layer.eps, x_hat, inv, root);
    }
    assert forall|i: int| 0 <= i < n * m implies (read.finite)(
        #[trigger] cache.x_hat.flat.data@[i],
    ) && (read.finite)(output.flat.data@[i]) by {
        lemma_split_index(i, n, m);
        let (r, c) = (i / m, i % m);
        assert((read.finite)(cache.inv_std.data@[r]));
        assert((read.finite)(cache.x_hat.flat.row(r)[c]));
        let (gamma, beta) = (layer.gamma.value@[c], layer.beta.value@[c]);
        assert((read.finite)(gamma) && (read.finite)(beta));
        let (x, y) = (cache.x_hat.flat.at(r, c), output.flat.at(r, c));
        assert(rescaled_gives(gamma, x, beta, y));
        let scaled = choose|scaled: T| #[trigger]
            times_gives(gamma, x, scaled) && plus_gives(scaled, beta, y);
    }
    assert forall|i: int| 0 <= i < n * m implies (read.finite)(#[trigger] output.flat.data@[i]) by {
        assert((read.finite)(cache.x_hat.flat.data@[i]));
    }
}

/// Dropout makes finite numbers of finite ones, with a mask of finite numbers.
pub proof fn lemma_dropout_stays_finite<T: Real>(
    read: Reading<T>,
    input: Tensor3<T>,
    rate: T,
    training: bool,
    output: Tensor3<T>,
    mask: Option<Tensor3<T>>,
    before: SmallRng,
    after: SmallRng,
)
    requires
        is_exact(read),
        (read.finite)(rate),
        stack_finite(read, input),
        dropout_gives(input, rate, training, output, mask, before, after),
    ensures
        mask_finite(read, mask, input),
        stack_finite(read, output),
{
    if let Some(m) = mask {
        lemma_rate_readings(read, rate);
        let entries = m.flat.data@;
        let (base, keep) = choose|base: u64, keep: T| #[trigger]
            complement_gives(rate, keep) && #[trigger] random_u64_gives(before, base, after)
                && mask_gives(base, keep, entries);
        assert((read.finite)(keep) && (read.value)(keep) > 0 as real);
        assert forall|i: int| 0 <= i < entries.len() implies (read.finite)(
            #[trigger] entries[i],
        ) by {
            lemma_mask_readings(read, base, keep, entries, i);
        }
        assert forall|i: int| 0 <= i < output.flat.data@.len() implies (read.finite)(
            #[trigger] output.flat.data@[i],
        ) by {
            assert(times_gives(input.flat.data@[i], entries[i], output.flat.data@[i]));
            assert((read.finite)(input.flat.data@[i]) && (read.finite)(entries[i]));
        }
    }
}

/// One of the three parts of finite rows is finite.
proof fn lemma_packed_finite<T>(
    read: Reading<T>,
    qkv: Tensor3<T>,
    part: int,
    n_head: int,
    size: int,
    out: Tensor3<T>,
)
    requires
        n_head > 0,
        size > 0,
        0 <= part < 3,
        qkv.flat.cols == 3 * (n_head * size),
        stack_finite(read, qkv),
        packed(qkv, part * (n_head * size), n_head, size, out),
    ensures
        stack_finite(read, out),
{
    lemma_parts_finite(read, qkv);
    assert forall|head: int, t: int, c: int|
        0 <= head < out.outer && 0 <= t < out.inner && 0 <= c < out.flat.cols implies (read.finite)(
        #[trigger] out.cell(head, t, c),
    ) by {
        lemma_split_index(head, qkv.outer as int, n_head);
        lemma_index_in_range(head % n_head, n_head, c, size);
        let w = n_head * size;
        let y = part * w + (head % n_head) * size + c;
        assert(0 <= y < 3 * w) by (nonlinear_arith)
            requires
                0 <= part < 3,
                0 <= (head % n_head) * size + c < w,
                y == part * w + (head % n_head) * size + c,
        ;
        assert((read.finite)(qkv.cell(head / n_head, t, y)));
    }
    lemma_finite_cells(read, out);
}

/// The weights of attention are finite, and those of later keys are zero.
pub proof fn lemma_weights_stay_finite<T: Real>(
    read: Reading<T>,
    q: Tensor3<T>,
    k: Tensor3<T>,
    scale: T,
    probs: Tensor3<T>,
)
    requires
        is_exact(read),
        stack_finite(read, q),
        stack_finite(read, k),
        q.same_shape(k),
        (read.finite)(scale),
        att_probs_give(q, k, scale, probs),
    ensures
        stack_finite(read, probs),
        forall|head: int, i: int, j: int|
            0 <= head < q.outer && 0 <= i < j < q.inner ==> (read.value)(
                #[trigger] probs.cell(head, i, j),
            ) == 0 as real,
{
    lemma_parts_finite(read, q);
    lemma_parts_finite(read, k);
    assert forall|head: int, i: int, j: int|
        0 <= head < q.outer && 0 <= i < q.inner && 0 <= j < q.inner implies (read.finite)(
        #[trigger] probs.cell(head, i, j),
    ) && (i < j ==> (read.value)(probs.cell(head, i, j)) == 0 as real) by {
        let (row, keys, out) = (q.row(head, i), k.slab_rows(head), probs.row(head, i));
        assert(probs_give(row, keys, i, scale, out));
        assert forall|u: int| 0 <= u < keys.len() implies all_finite(read, #[trigger] keys[u])
            && keys[u].len() == row.len() by {
            assert(keys[u] == k.row(head, u));
        }
        lemma_later_keys_get_no_weight(read, row, keys, i, scale, out);
        assert(out[j] == probs.cell(head, i, j));
    }
    lemma_finite_cells(read, probs);
}

/// Attention makes finite numbers of finite ones.
pub proof fn lemma_attention_stays_finite<T: Real>(
    read: Reading<T>,
    layer: MultiHeadSelfAttention<T>,
    block_size: int,
    input: Tensor3<T>,
    training: bool,
    rate: T,
    output: Tensor3<T>,
    cache: AttentionCache<T>,
    before: SmallRng,
    after: SmallRng,
)
    requires
        is_exact(read),
        input.flat.cols > 0,
        layer.has_shape(input.flat.cols as int, block_size),
        layer_is_finite(read, layer.qkv),
        layer_is_finite(read, layer.proj),
        (read.finite)(rate),
        stack_finite(read, input),
        attention_gives(layer, input, training, rate, output, cache, before, after),
    ensures
        attention_cache_finite(read, cache),
        cache.has_shape(
            input.outer as int,
            input.inner as int,
            layer.n_head as int,
            layer.head_size as int,
        ),
        forall|head: int, i: int, j: int|
            0 <= head < cache.att_probs.outer && 0 <= i < j < cache.att_probs.inner ==> (
            read.value)(#[trigger] cache.att_probs.cell(head, i, j)) == 0 as real,
        stack_finite(read, output),
        output.same_shape(input),
{
    let (n_head, size) = (layer.n_head as int, layer.head_size as int);
    let w = n_head * size;
    lemma_head_size_positive(n_head, size, input.flat.cols as int);
    let (qkv, scale, projected, mid) = choose|
        qkv: Tensor3<T>,
        scale: T,
        projected: Tensor3<T>,
        mid: SmallRng,
    |
        attention_steps_give(
            layer,
            input,
            training,
            rate,
            output,
            cache,
            before,
            after,
            qkv,
            scale,
            projected,
            mid,
        );
    lemma_linear_stays_finite(read, layer.qkv, input, qkv);
    lemma_packed_finite(read, qkv, 0, n_head, size, cache.q);
    lemma_packed_finite(read, qkv, 1, n_head, size, cache.k);
    lemma_packed_finite(read, qkv, 2, n_head, size, cache.v);
    lemma_scale_value(read, layer.head_size, scale);
    lemma_weights_stay_finite(read, cache.q, cache.k, scale, cache.att_probs);
    lemma_dropout_stays_finite(
        read,
        cache.att_probs,
        rate,
        training,
        cache.att_dropped,
        cache.att_dropout_mask,
        before,
        mid,
    );
    lemma_parts_finite(read, cache.att_dropped);
    lemma_parts_finite(read, cache.v);
    let context = cache.context;
    assert forall|b: int, t: int, x: int|
        0 <= b < context.outer && 0 <= t < context.inner && 0 <= x < context.flat.cols implies (
    read.finite)(#[trigger] context.cell(b, t, x)) by {
        lemma_split_index(x, n_head, size);
        lemma_index_in_range(b, input.outer as int, x / size, n_head);
        let head = b * n_head + x / size;
        let (row, col) = (cache.att_dropped.row(head, t), cache.v.col(head, x % size));
        assert(dot_gives(row, col, context.cell(b, t, x)));
        lemma_dot_exact(read, row, col, context.cell(b, t, x));
    }
    lemma_finite_cells(read, context);
    lemma_linear_stays_finite(read, layer.proj, context, projected);
    lemma_dropout_stays_finite(
        read,
        projected,
        rate,
        training,
        output,
        cache.proj_dropout_mask,
        mid,
        after,
    );
}

/// A feed-forward network makes finite numbers of finite ones.
pub proof fn lemma_feed_forward_stays_finite<T: Real>(
    read: Reading<T>,
    layer: FeedForward<T>,
    input: Tensor3<T>,
    training: bool,
    rate: T,
    output: Tensor3<T>,
    cache: FeedForwardCache<T>,
    before: SmallRng,
    after: SmallRng,
)
    requires
        is_exact(read),
        layer.has_width(input.flat.cols as int),
        layer_is_finite(read, layer.fc1),
        layer_is_finite(read, layer.fc2),
        (read.finite)(rate),
        stack_finite(read, input),
        feed_forward_gives(layer, input, training, rate, output, cache, before, after),
    ensures
        feed_forward_cache_finite(read, cache),
        cache.has_shape(input.outer as int, input.inner as int, input.flat.cols as int),
        stack_finite(read, output),
        output.same_shape(input),
{
    lemma_linear_stays_finite(read, layer.fc1, input, cache.hidden_pre);
    let (pre, hidden) = (cache.hidden_pre.flat.data@, cache.hidden.flat.data@);
    assert forall|i: int| 0 <= i < hidden.len() implies (read.finite)(#[trigger] hidden[i]) by {
        assert((read.finite)(pre[i]));
        assert(relu_gives(pre[i], hidden[i]));
    }
    let projected = choose|projected: Tensor3<T>| #[trigger]
        linear_gives(layer.fc2, cache.hidden, projected) && dropout_gives(
            projected,
            rate,
            training,
            output,
            cache.dropout_mask,
            before,
            after,
        );
    lemma_linear_stays_finite(read, layer.fc2, cache.hidden, projected);
    lemma_dropout_stays_finite(
        read,
        projected,
        rate,
        training,
        output,
        cache.dropout_mask,
        before,
        after,
    );
}

/// A block makes finite numbers of finite ones.
pub proof fn lemma_block_stays_finite<T: Real>(
    read: Reading<T>,
    block: Block<T>,
    block_size: int,
    input: Tensor3<T>,
    training: bool,
    rate: T,
    output: Tensor3<T>,
    cache: BlockCache<T>,
    before: SmallRng,
    after: SmallRng,
    s: BlockSteps<T>,
)
    requires
        is_exact(read),
        input.flat.cols > 0,
        block.has_shape(input.flat.cols as int, block_size),
        block_values_finite(read, block),
        (read.finite)(rate),
        stack_finite(read, input),
        block_steps_give(block, input, training, rate, output, cache, before, after, s),
    ensures
        block_cache_finite(read, cache),
        cache.fits(block, input.outer as int, input.inner as int, input.flat.cols as int),
        stack_finite(read, s.residual),
        s.residual.same_shape(input),
        stack_finite(read, output),
        output.same_shape(input),
{
    lemma_norm_stays_finite(read, block.ln1, input, s.ln1_output, cache.ln1);
    lemma_attention_stays_finite(
        read,
        block.attention,
        block_size,
        s.ln1_output,
        training,
        rate,
        s.attention_output,
        cache.attention,
        before,
        s.rng,
    );
    lemma_plus_stays_finite(read, input, s.attention_output, s.residual);
    lemma_norm_stays_finite(read, block.ln2, s.residual, s.ln2_output, cache.ln2);
    lemma_feed_forward_stays_finite(
        read,
        block.feed_forward,
        s.ln2_output,
        training,
        rate,
        s.feed_forward_output,
        cache.feed_forward,
        s.rng,
        after,
    );
    lemma_plus_stays_finite(read, s.residual, s.feed_forward_output, output);
}

/// What stands before, between and behind the blocks of a model in a run.
pub ghost struct BlocksRun<T> {
    pub stacks: Seq<Tensor3<T>>,
    pub steps: Seq<BlockSteps<T>>,
    pub rngs: Seq<SmallRng>,
}

/// The blocks made each of these stacks from the one before it.
pub open spec fn is_run<T: Real>(
    blocks: Seq<Block<T>>,
    training: bool,
    rate: T,
    caches: Seq<BlockCache<T>>,
    run: BlocksRun<T>,
) -> bool {
    &&& caches.len() == blocks.len()
    &&& run.stacks.len() == blocks.len() + 1
    &&& run.steps.len() == blocks.len()
    &&& run.rngs.len() == blocks.len() + 1
    &&& forall|i: int|
        0 <= i < blocks.len() ==> block_steps_give(
            blocks[i],
            run.stacks[i],
            training,
            rate,
            run.stacks[i + 1],
            caches[i],
            run.rngs[i],
            run.rngs[i + 1],
            #[trigger] run.steps[i],
        )
}

/// Whatever the blocks made, they made in a run.
pub proof fn lemma_blocks_have_run<T: Real>(
    blocks: Seq<Block<T>>,
    training: bool,
    rate: T,
    input: Tensor3<T>,
    caches: Seq<BlockCache<T>>,
    output: Tensor3<T>,
    before: SmallRng,
    after: SmallRng,
) -> (run: BlocksRun<T>)
    requires
        caches.len() == blocks.len(),
        blocks_give(blocks, training, rate, input, caches, output, before, after),
    ensures
        is_run(blocks, training, rate, caches, run),
        run.stacks.first() == input,
        run.stacks.last() == output,
        run.rngs.first() == before,
        run.rngs.last() == after,
    decreases blocks.len(),
{
    if blocks.len() == 0 {
        BlocksRun { stacks: seq![input], steps: Seq::empty(), rngs: seq![before] }
    } else {
        let (mid, rng) = choose|mid: Tensor3<T>, rng: SmallRng|
            blocks_give(
                blocks.drop_last(),
                training,
                rate,
                input,
                caches.drop_last(),
                mid,
                before,
                rng,
            ) && #[trigger] block_gives(
                blocks.last(),
                mid,
                training,
                rate,
                output,
                caches.last(),
                rng,
                after,
            );
        let short = lemma_blocks_have_run(
            blocks.drop_last(),
            training,
            rate,
            input,
            caches.drop_last(),
            mid,
            before,
            rng,
        );
        let s = choose|s: BlockSteps<T>|
            block_steps_give(
                blocks.last(),
                mid,
                training,
                rate,
                output,
                caches.last(),
                rng,
                after,
                s,
            );
        let run = BlocksRun {
            stacks: short.stacks.push(output),
            steps: short.steps.push(s),
            rngs: short.rngs.push(after),
        };
        assert forall|i: int| 0 <= i < blocks.len() implies block_steps_give(
            blocks[i],
            run.stacks[i],
            training,
            rate,
            run.stacks[i + 1],
            caches[i],
            run.rngs[i],
            run.rngs[i + 1],
            #[trigger] run.steps[i],
        ) by {
            if i < blocks.len() - 1 {
                assert(run.steps[i] == short.steps[i]);
                assert(run.stacks[i] == short.stacks[i]);
                assert(run.stacks[i + 1] == short.stacks[i + 1]);
                assert(run.rngs[i] == short.rngs[i]);
                assert(run.rngs[i + 1] == short.rngs[i + 1]);
            }
        }
        run
    }
}

/// The stacks of a run that starts from finite numbers are finite, and so is what it leaves.
pub proof fn lemma_run_stays_finite<T: Real>(
    read: Reading<T>,
    blocks: Seq<Block<T>>,
    block_size: int,
    training: bool,
    rate: T,
    caches: Seq<BlockCache<T>>,
    run: BlocksRun<T>,
    n: nat,
)
    requires
        is_exact(read),
        (read.finite)(rate),
        is_run(blocks, training, rate, caches, run),
        n <= blocks.len(),
        stack_finite(read, run.stacks[0]),
        run.stacks[0].flat.cols > 0,
        forall|i: int|
            0 <= i < blocks.len() ==> block_values_finite(read, #[trigger] blocks[i])
                && blocks[i].has_shape(run.stacks[0].flat.cols as int, block_size),
    ensures
        stack_finite(read, run.stacks[n as int]),
        run.stacks[n as int].same_shape(run.stacks[0]),
        n > 0 ==> block_cache_finite(read, caches[n - 1]) && caches[n - 1].fits(
            blocks[n - 1],
            run.stacks[0].outer as int,
            run.stacks[0].inner as int,
            run.stacks[0].flat.cols as int,
        ),
    decreases n,
{
    if n > 0 {
        let i: int = n - 1;
        lemma_run_stays_finite(
            read,
            blocks,
            block_size,
            training,
            rate,
            caches,
            run,
            (n - 1) as nat,
        );
        let s = run.steps[i];
        assert(block_values_finite(read, blocks[i]));
        lemma_block_stays_finite(
            read,
            blocks[i],
            block_size,
            run.stacks[i],
            training,
            rate,
            run.stacks[i + 1],
            caches[i],
            run.rngs[i],
            run.rngs[i + 1],
            s,
        );
    }
}

/// The parameters of the model stand for real numbers.
pub open spec fn model_values_finite<T>(read: Reading<T>, model: GptLanguageModel<T>) -> bool {
    &&& all_finite(read, model.token_embedding.value.data@)
    &&& all_finite(read, model.position_embedding.value.data@)
    &&& forall|i: int|
        0 <= i < model.blocks@.len() ==> block_values_finite(read, #[trigger] model.blocks@[i])
    &&& norm_values_finite(read, model.ln_f)
    &&& layer_is_finite(read, model.lm_head)
    &&& (read.finite)(model.config.dropout)
}

/// All numbers of a run of a model are finite where its parameters are.
pub proof fn lemma_model_stays_finite<T: Real>(
    read: Reading<T>,
    model: GptLanguageModel<T>,
    idx: TokenArray,
    training: bool,
    logits: Tensor3<T>,
    cache: GptCache<T>,
    before: SmallRng,
    after: SmallRng,
    embedded: Tensor3<T>,
    last: Tensor3<T>,
)
    requires
        is_exact(read),
        model.wf(),
        model.takes(idx),
        model_values_finite(read, model),
        model_steps_give(model, idx, training, logits, cache, before, after, embedded, last),
    ensures
        model_cache_finite(read, cache),
        cache.fits(model, idx.rows(), idx.cols()),
        stack_finite(read, embedded),
        stack_finite(read, last),
        last.same_shape(embedded),
        stack_finite(read, logits),
{
    let width = model.config.n_embd as int;
    let (token, position) = (model.token_embedding.value, model.position_embedding.value);
    assert forall|b: int, t: int, c: int|
        0 <= b < embedded.outer && 0 <= t < embedded.inner && 0 <= c < embedded.flat.cols implies (
    read.finite)(#[trigger] embedded.cell(b, t, c)) by {
        let key = idx.at(b, t) as int;
        assert(idx.at(b, t) < model.config.vocab_size);
        lemma_index_in_range(key, token.rows as int, c, width);
        lemma_index_in_range(t, position.rows as int, c, width);
        assert((read.finite)(token.data@[key * width + c]));
        assert((read.finite)(position.data@[t * width + c]));
        assert(plus_gives(token.at(key, c), position.at(t, c), embedded.cell(b, t, c)));
    }
    lemma_finite_cells(read, embedded);
    let run = lemma_blocks_have_run(
        model.blocks@,
        training,
        model.config.dropout,
        embedded,
        cache.blocks@,
        last,
        before,
        after,
    );
    let n = model.blocks@.len();
    assert forall|i: int| 0 <= i < n implies block_cache_finite(read, #[trigger] cache.blocks@[i])
        && cache.blocks@[i].fits(model.blocks@[i], idx.rows(), idx.cols(), width) by {
        lemma_run_stays_finite(
            read,
            model.blocks@,
            model.config.block_size as int,
            training,
            model.config.dropout,
            cache.blocks@,
            run,
            (i + 1) as nat,
        );
    }
    lemma_run_stays_finite(
        read,
        model.blocks@,
        model.config.block_size as int,
        training,
        model.config.dropout,
        cache.blocks@,
        run,
        n,
    );
    lemma_norm_stays_finite(read, model.ln_f, last, cache.final_norm_output, cache.final_norm);
    lemma_linear_stays_finite(read, model.lm_head, cache.final_norm_output, logits);
}

/// The probabilities that the loss is taken from, and its gradient, are finite where the logits
/// are.
pub proof fn lemma_loss_stays_finite<T: Real>(
    read: Reading<T>,
    logits: Tensor3<T>,
    targets: TokenArray,
    probs: Tensor3<T>,
    loss: T,
    grad: Tensor3<T>,
)
    requires
        is_exact(read),
        stack_finite(read, logits),
        logits.flat.rows > 0,
        cross_entropy_gives(logits, targets, probs, loss, grad),
    ensures
        stack_finite(read, probs),
        stack_finite(read, grad),
{
    let (n, m) = (logits.flat.rows as int, logits.flat.cols as int);
    let normalizer = choose|normalizer: T| #[trigger]
        count_gives(logits.flat.rows, normalizer) && mean_loss_gives(
            probs,
            targets,
            normalizer,
            loss,
        ) && forall|r: int|
            0 <= r < logits.flat.rows ==> loss_grad_row_gives(
                probs.flat.row(r),
                token_items(targets)[r],
                normalizer,
                #[trigger] grad.flat.row(r),
            );
    lemma_parts_finite(read, logits);
    assert forall|i: int| 0 <= i < n * m implies (read.finite)(#[trigger] probs.flat.data@[i])
        && (read.finite)(grad.flat.data@[i]) by {
        assert(m > 0) by (nonlinear_arith)
            requires
                0 <= i < n * m,
                m >= 0,
        ;
        lemma_split_index(i, n, m);
        let (r, c) = (i / m, i % m);
        let (items, p, g) = (logits.flat.row(r), probs.flat.row(r), grad.flat.row(r));
        assert(all_finite(read, items));
        assert((read.finite)(items[0]));
        assert(softmax_gives(items, p));
        lemma_softmax_is_distribution(read, items, p);
        assert((read.finite)(p[c]));
        let target = token_items(targets)[r];
        assert(loss_grad_row_gives(p, target, normalizer, g));
        assert(loss_grad_gives(p[c], c == target, normalizer, g[c]));
        if c == target {
            let (share, one, part) = choose|share: T, one: T, part: T| #[trigger]
                over_gives(p[c], normalizer, share) && one_gives(one) && #[trigger] over_gives(
                    one,
                    normalizer,
                    part,
                ) && minus_gives(share, part, g[c]);
        }
    }
    assert forall|i: int| 0 <= i < n * m implies (read.finite)(#[trigger] grad.flat.data@[i]) by {
        assert((read.finite)(probs.flat.data@[i]));
    }
}

/// The loss of a run is finite and lies between zero and minus the logarithm of the bound that it
/// clips at, where the parameters are finite, the logarithm rises and that of one is zero.
pub proof fn lemma_model_loss_bounded<T: Real>(
    read: Reading<T>,
    model: GptLanguageModel<T>,
    idx: TokenArray,
    training: bool,
    logits: Tensor3<T>,
    cache: GptCache<T>,
    before: SmallRng,
    after: SmallRng,
    targets: TokenArray,
    probs: Tensor3<T>,
    loss: T,
    grad: Tensor3<T>,
)
    requires
        is_exact(read),
        ln_rises(read),
        model.wf(),
        model.takes(idx),
        model_values_finite(read, model),
        model_gives(model, idx, training, logits, cache, before, after),
        cross_entropy_gives(logits, targets, probs, loss, grad),
        logits.flat.rows > 0,
        forall|r: int|
            0 <= r < logits.flat.rows ==> (#[trigger] token_items(targets)[r])
                < model.config.vocab_size,
    ensures
        (read.finite)(loss),
        0 as real <= (read.value)(loss),
        (read.value)(loss) <= largest_loss(read),
{
    let (embedded, last) = choose|embedded: Tensor3<T>, last: Tensor3<T>|
        model_steps_give(
            model,
            idx,
            training,
            logits,
            cache,
            before,
            after,
            embedded,
            last,
        );
    lemma_model_stays_finite(
        read,
        model,
        idx,
        training,
        logits,
        cache,
        before,
        after,
        embedded,
        last,
    );
    lemma_parts_finite(read, logits);
    lemma_loss_bounded(read, logits, targets, probs, loss, grad);
}

/// Numbers that are drawn and spread by `scale` are finite, and lie from minus `scale` to below
/// `scale`.
pub proof fn lemma_drawn_weights<T: Real>(
    read: Reading<T>,
    before: SmallRng,
    scale: T,
    items: Seq<T>,
    after: SmallRng,
    i: int,
)
    requires
        is_exact(read),
        draws_below_one(read),
        (read.finite)(scale),
        (read.value)(scale) > 0 as real,
        spread_draws_give(before, scale, items, after),
        0 <= i < items.len(),
    ensures
        (read.finite)(items[i]),
        -(read.value)(scale) <= (read.value)(items[i]),
        (read.value)(items[i]) < (read.value)(scale),
    decreases items.len(),
{
    let (mid, u) = choose|mid: SmallRng, u: T|
        spread_draws_give(before, scale, items.drop_last(), mid) && #[trigger] uniform_gives(
            mid,
            u,
            after,
        ) && spread_gives(u, scale, items.last());
    if i < items.len() - 1 {
        lemma_drawn_weights(read, before, scale, items.drop_last(), mid, i);
    } else {
        let (two, doubled, one, centred) = choose|two: T, doubled: T, one: T, centred: T|
            decimal_gives(2, 0, two) && #[trigger] times_gives(u, two, doubled) && one_gives(one)
                && #[trigger] minus_gives(doubled, one, centred) && times_gives(
                centred,
                scale,
                items.last(),
            );
        assert(ten_to(0) == 1 as real);
        let (x, s) = ((read.value)(u), (read.value)(scale));
        let t = (read.value)(two);
        assert(t * ten_to(0) == 2 as real);
        assert(t == 2 as real) by (nonlinear_arith)
            requires
                t * (1 as real) == 2 as real,
        ;
        let y = (read.value)(centred);
        assert(x * (2 as real) == x + x) by (nonlinear_arith);
        assert(-(1 as real) <= y && y < 1 as real);
        assert(-s <= y * s && y * s < s) by (nonlinear_arith)
            requires
                s > 0 as real,
                -(1 as real) <= y,
                y < 1 as real,
        ;
    }
}

/// What weights are spread by reads as two hundredths.
proof fn lemma_spread_value<T: Real>(read: Reading<T>, scale: T)
    requires
        is_exact(read),
        decimal_gives(2, 2, scale),
    ensures
        (read.finite)(scale),
        (read.value)(scale) > 0 as real,
{
    reveal_with_fuel(ten_to, 3);
    let s = (read.value)(scale);
    assert(ten_to(2) == 100 as real);
    assert(s > 0 as real) by (nonlinear_arith)
        requires
            s * (100 as real) == 2 as real,
    ;
}

/// A new linear layer has finite parameters and gradients.
proof fn lemma_new_linear_is_finite<T: Real>(
    read: Reading<T>,
    layer: Linear<T>,
    inputs: int,
    outputs: int,
    bias: bool,
    before: SmallRng,
    after: SmallRng,
)
    requires
        is_exact(read),
        draws_below_one(read),
        fresh_linear(layer, inputs, outputs, bias, before, after),
    ensures
        linear_finite(read, layer),
{
    let items = layer.weight.value.data@;
    let scale = choose|scale: T| #[trigger]
        decimal_gives(2, 2, scale) && spread_draws_give(before, scale, items, after);
    lemma_spread_value(read, scale);
    assert forall|i: int| 0 <= i < items.len() implies (read.finite)(#[trigger] items[i]) by {
        lemma_drawn_weights(read, before, scale, items, after, i);
    }
}

/// A new normalization has finite parameters and gradients.
proof fn lemma_new_norm_is_finite<T: Real>(read: Reading<T>, layer: LayerNorm<T>, channels: int)
    requires
        is_exact(read),
        fresh_layer_norm(layer, channels),
    ensures
        norm_values_finite(read, layer),
        norm_grads_finite(read, layer),
{
    reveal_with_fuel(ten_to, 6);
    let e = (read.value)(layer.eps);
    assert(ten_to(5) == 100_000 as real);
    assert(e > 0 as real) by (nonlinear_arith)
        requires
            e * (100_000 as real) == 1 as real,
    ;
}

/// New blocks have finite parameters and gradients.
proof fn lemma_new_blocks_are_finite<T: Real>(
    read: Reading<T>,
    blocks: Seq<Block<T>>,
    config: GptConfig<T>,
    before: SmallRng,
    after: SmallRng,
    i: int,
)
    requires
        is_exact(read),
        draws_below_one(read),
        fresh_blocks(blocks, config, before, after),
        0 <= i < blocks.len(),
    ensures
        block_values_finite(read, blocks[i]),
        block_grads_finite(read, blocks[i]),
    decreases blocks.len(),
{
    let (n_embd, n_head) = (config.n_embd as int, config.n_head as int);
    let block_size = config.block_size as int;
    let mid = choose|mid: SmallRng|
        fresh_blocks(blocks.drop_last(), config, before, mid) && #[trigger] fresh_block(
            blocks.last(),
            n_embd,
            n_head,
            block_size,
            mid,
            after,
        );
    if i < blocks.len() - 1 {
        lemma_new_blocks_are_finite(read, blocks.drop_last(), config, before, mid, i);
    } else {
        let block = blocks.last();
        lemma_new_norm_is_finite(read, block.ln1, n_embd);
        lemma_new_norm_is_finite(read, block.ln2, n_embd);
        let rng = choose|rng: SmallRng| #[trigger]
            fresh_attention(block.attention, n_embd, n_head, block_size, mid, rng)
                && fresh_feed_forward(block.feed_forward, n_embd, rng, after);
        let (a, f) = (block.attention, block.feed_forward);
        let r1 = choose|r1: SmallRng| #[trigger]
            fresh_linear(a.qkv, n_embd, 3 * n_embd, false, mid, r1) && fresh_linear(
                a.proj,
                n_embd,
                n_embd,
                true,
                r1,
                rng,
            );
        lemma_new_linear_is_finite(read, a.qkv, n_embd, 3 * n_embd, false, mid, r1);
        lemma_new_linear_is_finite(read, a.proj, n_embd, n_embd, true, r1, rng);
        let r2 = choose|r2: SmallRng| #[trigger]
            fresh_linear(f.fc1, n_embd, 4 * n_embd, true, rng, r2) && fresh_linear(
                f.fc2,
                4 * n_embd,
                n_embd,
                true,
                r2,
                after,
            );
        lemma_new_linear_is_finite(read, f.fc1, n_embd, 4 * n_embd, true, rng, r2);
        lemma_new_linear_is_finite(read, f.fc2, 4 * n_embd, n_embd, true, r2, after);
    }
}

/// A new table has finite entries and gradients.
proof fn lemma_new_table_is_finite<T: Real>(
    read: Reading<T>,
    param: Param2D<T>,
    rows: int,
    cols: int,
    before: SmallRng,
    after: SmallRng,
)
    requires
        is_exact(read),
        draws_below_one(read),
        fresh_embedding(param, rows, cols, before, after),
    ensures
        all_finite(read, param.value.data@),
        all_finite(read, param.grad.data@),
{
    let items = param.value.data@;
    let scale = choose|scale: T| #[trigger]
        decimal_gives(2, 2, scale) && spread_draws_give(before, scale, items, after);
    lemma_spread_value(read, scale);
    assert forall|i: int| 0 <= i < items.len() implies (read.finite)(#[trigger] items[i]) by {
        lemma_drawn_weights(read, before, scale, items, after, i);
    }
}

/// A new model has finite parameters and gradients, where draws lie from zero to below one and its
/// rate of dropout is finite.
pub proof fn lemma_new_model_is_finite<T: Real>(
    read: Reading<T>,
    model: GptLanguageModel<T>,
    config: GptConfig<T>,
    before: SmallRng,
    after: SmallRng,
)
    requires
        is_exact(read),
        draws_below_one(read),
        (read.finite)(config.dropout),
        fresh_model(model, config, before, after),
    ensures
        model_values_finite(read, model),
        model_grads_finite(read, model),
{
    let n_embd = config.n_embd as int;
    let (vocab_size, block_size) = (config.vocab_size as int, config.block_size as int);
    let (token, position) = (model.token_embedding, model.position_embedding);
    let (r1, r2, r3) = choose|r1: SmallRng, r2: SmallRng, r3: SmallRng| #[trigger]
        fresh_blocks(model.blocks@, config, before, r1) && #[trigger] fresh_embedding(
            token,
            vocab_size,
            n_embd,
            r1,
            r2,
        ) && #[trigger] fresh_embedding(position, block_size, n_embd, r2, r3) && fresh_linear(
            model.lm_head,
            n_embd,
            vocab_size,
            true,
            r3,
            after,
        );
    lemma_new_table_is_finite(read, token, vocab_size, n_embd, r1, r2);
    lemma_new_table_is_finite(read, position, block_size, n_embd, r2, r3);
    lemma_new_linear_is_finite(read, model.lm_head, n_embd, vocab_size, true, r3, after);
    lemma_new_norm_is_finite(read, model.ln_f, n_embd);
    assert forall|i: int| 0 <= i < model.blocks@.len() implies block_values_finite(
        read,
        #[trigger] model.blocks@[i],
    ) && block_grads_finite(read, model.blocks@[i]) by {
        lemma_new_blocks_are_finite(read, model.blocks@, config, before, r1, i);
    }
}

} // verus!
