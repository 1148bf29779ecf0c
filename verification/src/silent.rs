//! A block whose two branches are silent, where the number type computes exactly: the residual
//! path carries input and gradient through.

use crate::agreement::lemma_scale_alike;
use crate::attention::{
    attention_backward_gives, attention_backward_steps_give, attention_steps_give, AttentionCache,
    AttentionGrads, MultiHeadSelfAttention,
};
use crate::block::{
    block_backward_gives, block_backward_steps_give, block_gives, block_steps_give,
    lemma_head_size_positive, Block, BlockCache, BlockGrads, BlockSteps,
};
use crate::causal::{exact_like, lemma_exact_respects};
use crate::dropout::dropout_gives;
use crate::elementwise::plus_tensor_gives;
use crate::exact::{dot_of, is_exact, lemma_dot_exact, lemma_times_nought, Reading};
use crate::feed_forward::{
    feed_forward_backward_gives, feed_forward_backward_steps_give, FeedForward, FeedForwardCache,
};
use crate::laws::{block_same_but_grads, lemma_block_backward_keeps};
use crate::linear::{affine_gives, linear_backward_gives, linear_gives, Linear};
use crate::linearity::{
    attention_cache_finite, block_cache_finite, block_finite, feed_forward_cache_finite,
    lemma_heads_scale, lemma_scores_scale, lemma_unpack_scales,
};
use crate::reduce::dot_gives;
use crate::scalar::{plus_gives, times_gives, Real};
use crate::scaling::{
    lemma_dropout_scales, lemma_gate_scales, lemma_linear_scales, lemma_norm_scales,
    lemma_parts_finite, lemma_stack_like_itself, linear_finite, mask_finite, one_scaled,
    stack_finite, stack_scaled,
};
use crate::tensor::{lemma_index_in_range, lemma_split_index, Tensor3};
use rand::rngs::SmallRng;
use vstd::prelude::*;

verus! {

/// All items stand for zero.
pub open spec fn all_nought<T>(read: Reading<T>, items: Seq<T>) -> bool {
    forall|i: int|
        0 <= i < items.len() ==> (read.finite)(#[trigger] items[i]) && (read.value)(items[i])
            == 0 as real
}

/// The weights of the layer, and its bias if it has one, are zero.
pub open spec fn is_silent<T>(read: Reading<T>, layer: Linear<T>) -> bool {
    all_nought(read, layer.weight.value.data@) && (layer.bias matches Some(bias) ==> all_nought(
        read,
        bias.value@,
    ))
}

/// All entries stand for zero.
pub open spec fn stack_nought<T>(read: Reading<T>, x: Tensor3<T>) -> bool {
    x.wf() && all_nought(read, x.flat.data@)
}

/// The two stacks have the same shape and read the same.
pub open spec fn stacks_read_same<T>(read: Reading<T>, x: Tensor3<T>, y: Tensor3<T>) -> bool {
    &&& y.wf()
    &&& y.same_shape(x)
    &&& forall|i: int|
        0 <= i < x.flat.data@.len() ==> (read.finite)(#[trigger] y.flat.data@[i]) && (read.value)(
            y.flat.data@[i],
        ) == (read.value)(x.flat.data@[i])
}

/// An inner product with zeros is zero.
proof fn lemma_dot_with_nought<T>(read: Reading<T>, a: Seq<T>, b: Seq<T>)
    requires
        a.len() == b.len(),
        all_nought(read, b),
    ensures
        dot_of(read, a, b) == 0 as real,
    decreases a.len(),
{
    if a.len() > 0 {
        let (f, g) = (a.drop_last(), b.drop_last());
        assert forall|i: int| 0 <= i < g.len() implies (read.finite)(#[trigger] g[i]) && (
        read.value)(g[i]) == 0 as real by {
            assert(g[i] == b[i]);
        }
        lemma_dot_with_nought(read, f, g);
        assert((read.value)(b[b.len() - 1]) == 0 as real);
        lemma_times_nought((read.value)(a.last()));
    }
}

/// What is zero is zero times itself, and the other way round.
proof fn lemma_nought_scaled<T>(read: Reading<T>, x: Tensor3<T>)
    ensures
        stack_nought(read, x) <==> stack_scaled(read, x, x, 0 as real),
{
    if stack_nought(read, x) {
        assert forall|i: int|
            #![trigger x.flat.data@[i]]
            0 <= i < x.flat.data@.len() implies one_scaled(
            read,
            x.flat.data@[i],
            x.flat.data@[i],
            0 as real,
        ) by {
            lemma_times_nought(0 as real);
        }
    }
    if stack_scaled(read, x, x, 0 as real) {
        assert forall|i: int| 0 <= i < x.flat.data@.len() implies (read.finite)(
            #[trigger] x.flat.data@[i],
        ) && (read.value)(x.flat.data@[i]) == 0 as real by {
            let v = (read.value)(x.flat.data@[i]);
            assert((0 as real) * v == 0 as real) by (nonlinear_arith);
        }
    }
}

/// A silent layer puts out zeros.
proof fn lemma_silent_output<T: Real>(
    read: Reading<T>,
    layer: Linear<T>,
    input: Tensor3<T>,
    output: Tensor3<T>,
)
    requires
        is_exact(read),
        layer.wf(),
        is_silent(read, layer),
        stack_finite(read, input),
        input.flat.cols == layer.weight.value.rows,
        linear_gives(layer, input, output),
    ensures
        stack_nought(read, output),
{
    lemma_parts_finite(read, input);
    let w = layer.weight.value;
    let (rows, cols) = (output.flat.rows as int, output.flat.cols as int);
    assert forall|i: int| 0 <= i < output.flat.data@.len() implies (read.finite)(
        #[trigger] output.flat.data@[i],
    ) && (read.value)(output.flat.data@[i]) == 0 as real by {
        assert(cols > 0) by (nonlinear_arith)
            requires
                0 < rows * cols,
                rows >= 0,
                cols >= 0,
        ;
        lemma_split_index(i, rows, cols);
        let (r, c) = (i / cols, i % cols);
        let (x, col) = (input.flat.row(r), w.col(c));
        assert forall|j: int| 0 <= j < col.len() implies (read.finite)(#[trigger] col[j]) && (
        read.value)(col[j]) == 0 as real by {
            lemma_index_in_range(j, w.rows as int, c, w.cols as int);
            assert(col[j] == w.data@[j * w.cols + c]);
        }
        assert(affine_gives(x, col, layer.bias_at(c), output.flat.at(r, c)));
        lemma_dot_with_nought(read, x, col);
        match layer.bias {
            Some(bias) => {
                let p = choose|p: T| #[trigger]
                    dot_gives(x, col, p) && plus_gives(p, bias.value@[c], output.flat.at(r, c));
                lemma_dot_exact(read, x, col, p);
                assert((read.finite)(bias.value@[c]));
            },
            None => {
                lemma_dot_exact(read, x, col, output.flat.at(r, c));
            },
        }
    }
}

/// A silent layer hands back zeros.
proof fn lemma_silent_gradient<T: Real>(
    read: Reading<T>,
    layer: Linear<T>,
    input: Tensor3<T>,
    g: Tensor3<T>,
    after: Linear<T>,
    r: Tensor3<T>,
)
    requires
        is_exact(read),
        layer.wf(),
        is_silent(read, layer),
        stack_finite(read, g),
        g.flat.cols == layer.weight.value.cols,
        linear_backward_gives(layer, input, g, after, r),
    ensures
        stack_nought(read, r),
{
    lemma_parts_finite(read, g);
    let w = layer.weight.value;
    let (rows, cols) = (r.flat.rows as int, r.flat.cols as int);
    assert forall|i: int| 0 <= i < r.flat.data@.len() implies (read.finite)(
        #[trigger] r.flat.data@[i],
    ) && (read.value)(r.flat.data@[i]) == 0 as real by {
        assert(cols > 0) by (nonlinear_arith)
            requires
                0 < rows * cols,
                rows >= 0,
                cols >= 0,
        ;
        lemma_split_index(i, rows, cols);
        let (p, c) = (i / cols, i % cols);
        let (x, line) = (g.flat.row(p), w.row(c));
        assert forall|j: int| 0 <= j < line.len() implies (read.finite)(#[trigger] line[j]) && (
        read.value)(line[j]) == 0 as real by {
            lemma_index_in_range(c, w.rows as int, j, w.cols as int);
            assert(line[j] == w.data@[c * w.cols + j]);
        }
        assert(dot_gives(x, line, r.flat.at(p, c)));
        lemma_dot_with_nought(read, x, line);
        lemma_dot_exact(read, x, line, r.flat.at(p, c));
    }
}

/// A dropout of zeros is zeros.
proof fn lemma_nought_dropped<T: Real>(
    read: Reading<T>,
    x: Tensor3<T>,
    p: T,
    training: bool,
    u: Tensor3<T>,
    mask: Option<Tensor3<T>>,
    before: SmallRng,
    after: SmallRng,
)
    requires
        is_exact(read),
        stack_nought(read, x),
        mask_finite(read, mask, x),
        dropout_gives(x, p, training, u, mask, before, after),
    ensures
        stack_nought(read, u),
{
    if let Some(m) = mask {
        assert forall|i: int| 0 <= i < u.flat.data@.len() implies (read.finite)(
            #[trigger] u.flat.data@[i],
        ) && (read.value)(u.flat.data@[i]) == 0 as real by {
            let (a, b) = (x.flat.data@[i], m.flat.data@[i]);
            assert(times_gives(a, b, u.flat.data@[i]));
            assert((read.finite)(a) && (read.finite)(b));
            let v = (read.value)(b);
            assert((0 as real) * v == 0 as real) by (nonlinear_arith);
        }
    }
}

/// Adding zeros changes no reading.
proof fn lemma_plus_nought<T: Real>(
    read: Reading<T>,
    x: Tensor3<T>,
    y: Tensor3<T>,
    zeros: Tensor3<T>,
    u: Tensor3<T>,
)
    requires
        is_exact(read),
        stack_finite(read, x),
        stacks_read_same(read, x, y),
        stack_nought(read, zeros),
        plus_tensor_gives(y, zeros, u),
    ensures
        stacks_read_same(read, x, u),
{
    assert forall|i: int| 0 <= i < x.flat.data@.len() implies (read.finite)(
        #[trigger] u.flat.data@[i],
    ) && (read.value)(u.flat.data@[i]) == (read.value)(x.flat.data@[i]) by {
        let (a, b) = (y.flat.data@[i], zeros.flat.data@[i]);
        assert(plus_gives(a, b, u.flat.data@[i]));
        assert((read.finite)(a) && (read.finite)(b));
    }
}

/// A block whose two branches are silent puts out what was put in.
pub proof fn lemma_silent_block_passes_input<T: Real>(
    read: Reading<T>,
    block: Block<T>,
    block_size: int,
    x: Tensor3<T>,
    training: bool,
    dropout: T,
    u: Tensor3<T>,
    cache: BlockCache<T>,
    before: SmallRng,
    after: SmallRng,
)
    requires
        is_exact(read),
        block.has_shape(x.flat.cols as int, block_size),
        is_silent(read, block.attention.proj),
        is_silent(read, block.feed_forward.fc2),
        stack_finite(read, x),
        block_cache_finite(read, cache),
        block_gives(block, x, training, dropout, u, cache, before, after),
    ensures
        stacks_read_same(read, x, u),
{
    let s = choose|s: BlockSteps<T>|
        block_steps_give(block, x, training, dropout, u, cache, before, after, s);
    let (qkv, scale, projected, mid) = choose|
        qkv: Tensor3<T>,
        scale: T,
        projected: Tensor3<T>,
        mid: SmallRng,
    |
        attention_steps_give(
            block.attention,
            s.ln1_output,
            training,
            dropout,
            s.attention_output,
            cache.attention,
            before,
            s.rng,
            qkv,
            scale,
            projected,
            mid,
        );
    lemma_silent_output(read, block.attention.proj, cache.attention.context, projected);
    lemma_nought_dropped(
        read,
        projected,
        dropout,
        training,
        s.attention_output,
        cache.attention.proj_dropout_mask,
        mid,
        s.rng,
    );
    assert(stacks_read_same(read, x, x));
    lemma_plus_nought(read, x, x, s.attention_output, s.residual);
    let narrowed = choose|narrowed: Tensor3<T>| #[trigger]
        linear_gives(block.feed_forward.fc2, cache.feed_forward.hidden, narrowed) && dropout_gives(
            narrowed,
            dropout,
            training,
            s.feed_forward_output,
            cache.feed_forward.dropout_mask,
            s.rng,
            after,
        );
    lemma_silent_output(read, block.feed_forward.fc2, cache.feed_forward.hidden, narrowed);
    lemma_nought_dropped(
        read,
        narrowed,
        dropout,
        training,
        s.feed_forward_output,
        cache.feed_forward.dropout_mask,
        s.rng,
        after,
    );
    lemma_plus_nought(read, x, s.residual, s.feed_forward_output, u);
}

/// A silent feed-forward layer hands back zeros.
proof fn lemma_silent_feed_forward<T: Real>(
    read: Reading<T>,
    layer: FeedForward<T>,
    cache: FeedForwardCache<T>,
    g: Tensor3<T>,
    after: FeedForward<T>,
    r: Tensor3<T>,
)
    requires
        is_exact(read),
        layer.has_width(g.flat.cols as int),
        is_silent(read, layer.fc2),
        linear_finite(read, layer.fc1),
        feed_forward_cache_finite(read, cache),
        cache.has_shape(g.outer as int, g.inner as int, g.flat.cols as int),
        stack_finite(read, g),
        feed_forward_backward_gives(layer, cache, g, after, r),
    ensures
        stack_nought(read, r),
        r.same_shape(g),
{
    let (p, h, t) = choose|p: Tensor3<T>, h: Tensor3<T>, t: Tensor3<T>|
        feed_forward_backward_steps_give(layer, cache, g, after, r, p, h, t);
    lemma_stack_like_itself(read, g);
    lemma_dropout_scales(read, 1 as real, cache.dropout_mask, g, g, p, p);
    lemma_silent_gradient(read, layer.fc2, cache.hidden, p, after.fc2, h);
    lemma_nought_scaled(read, h);
    lemma_gate_scales(read, 0 as real, cache.hidden_pre, h, h, t, t);
    lemma_linear_scales(
        read,
        0 as real,
        layer.fc1,
        layer.fc1,
        cache.input,
        t,
        t,
        after.fc1,
        after.fc1,
        r,
        r,
    );
    lemma_nought_scaled(read, r);
}

/// A silent attention layer hands back zeros.
proof fn lemma_silent_attention<T: Real>(
    read: Reading<T>,
    layer: MultiHeadSelfAttention<T>,
    cache: AttentionCache<T>,
    g: Tensor3<T>,
    after: MultiHeadSelfAttention<T>,
    r: Tensor3<T>,
)
    requires
        is_exact(read),
        layer.n_head > 0,
        layer.head_size > 0,
        layer.n_head * layer.head_size == g.flat.cols,
        layer.qkv.has_shape(g.flat.cols as int, 3 * g.flat.cols),
        layer.proj.has_shape(g.flat.cols as int, g.flat.cols as int),
        is_silent(read, layer.proj),
        linear_finite(read, layer.qkv),
        attention_cache_finite(read, cache),
        cache.has_shape(
            g.outer as int,
            g.inner as int,
            layer.n_head as int,
            layer.head_size as int,
        ),
        stack_finite(read, g),
        attention_backward_gives(layer, cache, g, after, r),
    ensures
        stack_nought(read, r),
        r.same_shape(g),
{
    let k = 0 as real;
    let (n_head, head_size) = (layer.n_head as int, layer.head_size as int);
    let (batch, time) = (cache.input.outer as int, cache.input.inner as int);
    let x = choose|x: AttentionGrads<T>| #[trigger]
        attention_backward_steps_give(layer, cache, g, after, r, x);
    lemma_stack_like_itself(read, g);
    lemma_dropout_scales(
        read,
        1 as real,
        cache.proj_dropout_mask,
        g,
        g,
        x.projected,
        x.projected,
    );
    lemma_silent_gradient(
        read,
        layer.proj,
        cache.context,
        x.projected,
        after.proj,
        x.context,
    );
    lemma_nought_scaled(read, x.context);
    lemma_heads_scale(read, k, cache, n_head, head_size, batch, x, x);
    lemma_dropout_scales(
        read,
        k,
        cache.att_dropout_mask,
        x.att_dropped,
        x.att_dropped,
        x.att,
        x.att,
    );
    lemma_exact_respects(read);
    lemma_scale_alike(exact_like(read), layer.head_size, x.scale, x.scale);
    lemma_scores_scale(read, k, cache, x, x);
    lemma_unpack_scales(read, k, n_head, head_size, batch, time, x, x);
    lemma_linear_scales(
        read,
        k,
        layer.qkv,
        layer.qkv,
        cache.input,
        x.qkv,
        x.qkv,
        after.qkv,
        after.qkv,
        r,
        r,
    );
    lemma_nought_scaled(read, r);
}

/// A block whose two branches are silent hands back the gradient that was handed in, and changes
/// no more than gradients.
pub proof fn lemma_silent_block_passes_gradient<T: Real>(
    read: Reading<T>,
    block: Block<T>,
    block_size: int,
    cache: BlockCache<T>,
    g: Tensor3<T>,
    after: Block<T>,
    r: Tensor3<T>,
)
    requires
        is_exact(read),
        g.flat.cols > 0,
        block.has_shape(g.flat.cols as int, block_size),
        is_silent(read, block.attention.proj),
        is_silent(read, block.feed_forward.fc2),
        block_finite(read, block),
        block_cache_finite(read, cache),
        cache.fits(block, g.outer as int, g.inner as int, g.flat.cols as int),
        stack_finite(read, g),
        block_backward_gives(block, cache, g, after, r),
    ensures
        stacks_read_same(read, g, r),
        block_same_but_grads(after, block),
{
    let k = 0 as real;
    let x = choose|x: BlockGrads<T>| block_backward_steps_give(block, cache, g, after, r, x);
    lemma_block_backward_keeps(block, cache, g, after, r);
    lemma_head_size_positive(
        block.attention.n_head as int,
        block.attention.head_size as int,
        g.flat.cols as int,
    );
    lemma_silent_feed_forward(
        read,
        block.feed_forward,
        cache.feed_forward,
        g,
        after.feed_forward,
        x.feed_forward,
    );
    lemma_nought_scaled(read, x.feed_forward);
    lemma_norm_scales(
        read,
        k,
        block.ln2,
        block.ln2,
        cache.ln2,
        x.feed_forward,
        x.feed_forward,
        after.ln2,
        after.ln2,
        x.ln2_input,
        x.ln2_input,
    );
    lemma_nought_scaled(read, x.ln2_input);
    assert(stacks_read_same(read, g, g));
    lemma_plus_nought(read, g, g, x.ln2_input, x.residual);
    lemma_silent_attention(
        read,
        block.attention,
        cache.attention,
        x.residual,
        after.attention,
        x.attention,
    );
    lemma_nought_scaled(read, x.attention);
    lemma_norm_scales(
        read,
        k,
        block.ln1,
        block.ln1,
        cache.ln1,
        x.attention,
        x.attention,
        after.ln1,
        after.ln1,
        x.ln1_input,
        x.ln1_input,
    );
    lemma_nought_scaled(read, x.ln1_input);
    lemma_plus_nought(read, g, x.residual, x.ln1_input, r);
}

} // verus!
