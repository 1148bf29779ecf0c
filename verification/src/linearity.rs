//! Going back through whole layers is linear, where the number type computes exactly.
//!
//! Gradients that are `k` times as large make the attention, the feed-forward layer, a block and
//! the model add `k` times as much to their gradients. With `k` one this says what a second call
//! adds; with `k` zero, that no gradient gives none.

use crate::agreement::lemma_scale_alike;
use crate::attention::{
    all_score_grads_give, att_grads_give, attention_backward_gives, attention_backward_steps_give,
    key_grads_give, query_grads_give, score_grad_gives, score_grads_give, unpacked, unpacked_entry,
    value_grads_give, AttentionCache, AttentionGrads, MultiHeadSelfAttention,
};
use crate::block::{
    block_backward_gives, block_backward_steps_give, lemma_head_size_positive, Block, BlockCache,
    BlockGrads,
};
use crate::causal::{exact_like, lemma_exact_respects};
use crate::exact::{all_finite, is_exact, lemma_times_nought, Reading};
use crate::feed_forward::{
    feed_forward_backward_gives, feed_forward_backward_steps_give, FeedForward, FeedForwardCache,
};
use crate::grid::token_items;
use crate::laws::{
    block_same_but_grads, lemma_backward_changes_grads_only, lemma_block_backward_keeps,
    linear_same_but_grads, model_same_but_grads,
};
use crate::model::{
    blocks_backward_give, model_backward_gives, model_backward_steps_give, places,
    plus_scaled_gives, scatter_gives, scattered, GptCache, GptLanguageModel,
};
use crate::optim::Param2D;
use crate::reduce::dot_gives;
use crate::scalar::{minus_gives, one_gives, plus_gives, times_gives, Real};
use crate::scaling::{
    lemma_dot_scales, lemma_dropout_scales, lemma_gate_scales, lemma_linear_scales,
    lemma_norm_scales, lemma_parts_finite, lemma_parts_scaled, lemma_plus_scaled,
    lemma_plus_tensor_scales, lemma_product_scaled, lemma_stack_from_cells, lemma_stack_like_itself,
    linear_finite, linear_gains_scaled, linear_grads_finite, mask_finite, norm_cache_finite,
    norm_finite, norm_gains_scaled, norm_grads_finite, one_scaled, scaled, stack_finite,
    stack_scaled,
};
use crate::tensor::{lemma_index_in_range, lemma_split_index, Tensor2, Tensor3};
use vstd::prelude::*;

verus! {

/// What the layer kept stands for real numbers.
pub open spec fn attention_cache_finite<T>(read: Reading<T>, cache: AttentionCache<T>) -> bool {
    &&& stack_finite(read, cache.input)
    &&& stack_finite(read, cache.q)
    &&& stack_finite(read, cache.k)
    &&& stack_finite(read, cache.v)
    &&& stack_finite(read, cache.att_probs)
    &&& stack_finite(read, cache.att_dropped)
    &&& mask_finite(read, cache.att_dropout_mask, cache.att_probs)
    &&& stack_finite(read, cache.context)
    &&& mask_finite(read, cache.proj_dropout_mask, cache.input)
}

/// A score gradient of probabilities whose gradients are `k` times as large.
pub proof fn lemma_score_row_scales<T: Real>(
    read: Reading<T>,
    k: real,
    p: Seq<T>,
    g1: Seq<T>,
    g2: Seq<T>,
    i: int,
    s1: T,
    s2: T,
    o1: Seq<T>,
    o2: Seq<T>,
)
    requires
        is_exact(read),
        all_finite(read, p),
        scaled(read, g1, g2, k),
        p.len() == g1.len(),
        (read.finite)(s1),
        (read.finite)(s2),
        (read.value)(s1) == (read.value)(s2),
        score_grads_give(p, g1, i, s1, o1),
        score_grads_give(p, g2, i, s2, o2),
    ensures
        scaled(read, o1, o2, k),
{
    let w1 = choose|w1: T| #[trigger]
        dot_gives(g1, p, w1) && o1.len() == p.len() && forall|j: int|
            0 <= j < p.len() ==> score_grad_gives(p[j], g1[j], w1, i, j, s1, #[trigger] o1[j]);
    let w2 = choose|w2: T| #[trigger]
        dot_gives(g2, p, w2) && o2.len() == p.len() && forall|j: int|
            0 <= j < p.len() ==> score_grad_gives(p[j], g2[j], w2, i, j, s2, #[trigger] o2[j]);
    lemma_dot_scales(read, p, g1, g2, k, w1, w2);
    let v = read.value;
    assert forall|j: int|
        #![trigger o1[j]]
        #![trigger o2[j]]
        0 <= j < o1.len() implies one_scaled(read, o1[j], o2[j], k) by {
        assert(score_grad_gives(p[j], g1[j], w1, i, j, s1, o1[j]));
        assert(score_grad_gives(p[j], g2[j], w2, i, j, s2, o2[j]));
        assert((read.finite)(p[j]) && (read.finite)(g1[j]) && (read.finite)(g2[j]));
        if j > i {
            lemma_times_nought(k);
        } else {
            let (c1, m1) = choose|c1: T, m1: T| #[trigger]
                minus_gives(g1[j], w1, c1) && #[trigger] times_gives(p[j], c1, m1) && times_gives(
                    m1,
                    s1,
                    o1[j],
                );
            let (c2, m2) = choose|c2: T, m2: T| #[trigger]
                minus_gives(g2[j], w2, c2) && #[trigger] times_gives(p[j], c2, m2) && times_gives(
                    m2,
                    s2,
                    o2[j],
                );
            let (a, b, x, z) = (v(g1[j]), v(w1), v(p[j]), v(s1));
            lemma_plus_scaled(k, a, b);
            assert(v(c2) == k * v(c1));
            lemma_product_scaled(k, x, a - b);
            assert(v(m2) == k * v(m1));
            lemma_product_scaled(k, z, v(m1));
        }
    }
}

/// The attention layer.
pub proof fn lemma_attention_scales<T: Real>(
    read: Reading<T>,
    k: real,
    b1: MultiHeadSelfAttention<T>,
    b2: MultiHeadSelfAttention<T>,
    cache: AttentionCache<T>,
    g1: Tensor3<T>,
    g2: Tensor3<T>,
    a1: MultiHeadSelfAttention<T>,
    a2: MultiHeadSelfAttention<T>,
    r1: Tensor3<T>,
    r2: Tensor3<T>,
)
    requires
        is_exact(read),
        b1.n_head > 0,
        b1.head_size > 0,
        b1.n_head * b1.head_size == g1.flat.cols,
        b2.n_head == b1.n_head,
        b2.head_size == b1.head_size,
        b1.qkv.has_shape(g1.flat.cols as int, 3 * g1.flat.cols),
        b1.proj.has_shape(g1.flat.cols as int, g1.flat.cols as int),
        b2.qkv.has_shape(g1.flat.cols as int, 3 * g1.flat.cols),
        b2.proj.has_shape(g1.flat.cols as int, g1.flat.cols as int),
        linear_same_but_grads(b2.qkv, b1.qkv),
        linear_same_but_grads(b2.proj, b1.proj),
        linear_finite(read, b1.qkv),
        linear_finite(read, b1.proj),
        linear_grads_finite(read, b2.qkv),
        linear_grads_finite(read, b2.proj),
        attention_cache_finite(read, cache),
        cache.has_shape(
            g1.outer as int,
            g1.inner as int,
            b1.n_head as int,
            b1.head_size as int,
        ),
        stack_scaled(read, g1, g2, k),
        attention_backward_gives(b1, cache, g1, a1, r1),
        attention_backward_gives(b2, cache, g2, a2, r2),
    ensures
        stack_scaled(read, r1, r2, k),
        linear_gains_scaled(read, b1.qkv, a1.qkv, b2.qkv, a2.qkv, k),
        linear_gains_scaled(read, b1.proj, a1.proj, b2.proj, a2.proj, k),
        linear_grads_finite(read, a1.qkv),
        linear_grads_finite(read, a1.proj),
        linear_grads_finite(read, a2.qkv),
        linear_grads_finite(read, a2.proj),
{
    let (n_head, head_size) = (b1.n_head as int, b1.head_size as int);
    let n_embd = n_head * head_size;
    let (batch, time) = (cache.input.outer as int, cache.input.inner as int);
    let x = choose|x: AttentionGrads<T>| #[trigger]
        attention_backward_steps_give(b1, cache, g1, a1, r1, x);
    let y = choose|y: AttentionGrads<T>| #[trigger]
        attention_backward_steps_give(b2, cache, g2, a2, r2, y);
    lemma_dropout_scales(
        read,
        k,
        cache.proj_dropout_mask,
        g1,
        g2,
        x.projected,
        y.projected,
    );
    lemma_linear_scales(
        read,
        k,
        b1.proj,
        b2.proj,
        cache.context,
        x.projected,
        y.projected,
        a1.proj,
        a2.proj,
        x.context,
        y.context,
    );
    lemma_parts_scaled(read, x.context, y.context, k);
    lemma_parts_finite(read, cache.v);
    lemma_parts_finite(read, cache.att_dropped);
    lemma_heads_scale(read, k, cache, n_head, head_size, batch, x, y);
    lemma_dropout_scales(
        read,
        k,
        cache.att_dropout_mask,
        x.att_dropped,
        y.att_dropped,
        x.att,
        y.att,
    );
    lemma_exact_respects(read);
    lemma_scale_alike(exact_like(read), b1.head_size, x.scale, y.scale);
    lemma_scores_scale(read, k, cache, x, y);
    lemma_unpack_scales(read, k, n_head, head_size, batch, time, x, y);
    lemma_linear_scales(
        read,
        k,
        b1.qkv,
        b2.qkv,
        cache.input,
        x.qkv,
        y.qkv,
        a1.qkv,
        a2.qkv,
        r1,
        r2,
    );
}

/// The gradients of the dropped-out probabilities and of the values.
pub proof fn lemma_heads_scale<T: Real>(
    read: Reading<T>,
    k: real,
    cache: AttentionCache<T>,
    n_head: int,
    head_size: int,
    batch: int,
    x: AttentionGrads<T>,
    y: AttentionGrads<T>,
)
    requires
        is_exact(read),
        n_head > 0,
        head_size > 0,
        stack_finite(read, cache.v),
        stack_finite(read, cache.att_dropped),
        cache.v.has_shape(batch * n_head, cache.v.inner as int, head_size),
        cache.att_dropped.has_shape(
            batch * n_head,
            cache.v.inner as int,
            cache.v.inner as int,
        ),
        x.context.has_shape(batch, cache.v.inner as int, n_head * head_size),
        stack_scaled(read, x.context, y.context, k),
        att_grads_give(x.context, cache.v, n_head, head_size, x.att_dropped),
        att_grads_give(y.context, cache.v, n_head, head_size, y.att_dropped),
        value_grads_give(x.context, cache.att_dropped, n_head, head_size, x.v),
        value_grads_give(y.context, cache.att_dropped, n_head, head_size, y.v),
    ensures
        stack_scaled(read, x.att_dropped, y.att_dropped, k),
        stack_scaled(read, x.v, y.v, k),
{
    lemma_parts_scaled(read, x.context, y.context, k);
    lemma_parts_finite(read, cache.v);
    lemma_parts_finite(read, cache.att_dropped);
    assert forall|head: int, t: int, u: int|
        #![trigger x.att_dropped.cell(head, t, u)]
        0 <= head < x.att_dropped.outer && 0 <= t < x.att_dropped.inner && 0 <= u
            < x.att_dropped.flat.cols implies one_scaled(
        read,
        x.att_dropped.cell(head, t, u),
        y.att_dropped.cell(head, t, u),
        k,
    ) by {
        lemma_split_index(head, batch, n_head);
        let (b, h) = (head / n_head, head % n_head);
        let from = h * head_size;
        lemma_index_in_range(h, n_head, 0, head_size);
        let (p, q) = (x.context.row(b, t), y.context.row(b, t));
        let (c, d) = (p.subrange(from, from + head_size), q.subrange(from, from + head_size));
        assert(scaled(read, p, q, k));
        assert forall|j: int|
            #![trigger c[j]]
            #![trigger d[j]]
            0 <= j < head_size implies one_scaled(read, c[j], d[j], k) by {
            assert(c[j] == p[from + j] && d[j] == q[from + j]);
            assert((read.finite)(p[from + j]) && (read.finite)(q[from + j]));
        }
        assert(scaled(read, c, d, k));
        assert(dot_gives(c, cache.v.row(head, u), x.att_dropped.cell(head, t, u)));
        assert(dot_gives(d, cache.v.row(head, u), y.att_dropped.cell(head, t, u)));
        lemma_dot_scales(
            read,
            cache.v.row(head, u),
            c,
            d,
            k,
            x.att_dropped.cell(head, t, u),
            y.att_dropped.cell(head, t, u),
        );
    }
    lemma_stack_from_cells(read, x.att_dropped, y.att_dropped, k);
    assert forall|head: int, u: int, c: int|
        #![trigger x.v.cell(head, u, c)]
        0 <= head < x.v.outer && 0 <= u < x.v.inner && 0 <= c < x.v.flat.cols implies one_scaled(
        read,
        x.v.cell(head, u, c),
        y.v.cell(head, u, c),
        k,
    ) by {
        lemma_split_index(head, batch, n_head);
        let (b, h) = (head / n_head, head % n_head);
        lemma_index_in_range(h, n_head, c, head_size);
        let place = h * head_size + c;
        let (p, q) = (x.context.col(b, place), y.context.col(b, place));
        let col = cache.att_dropped.col(head, u);
        assert(scaled(read, p, q, k));
        assert(dot_gives(col, p, x.v.cell(head, u, c)));
        assert(dot_gives(col, q, y.v.cell(head, u, c)));
        lemma_dot_scales(read, col, p, q, k, x.v.cell(head, u, c), y.v.cell(head, u, c));
    }
    lemma_stack_from_cells(read, x.v, y.v, k);
}

/// The gradients of the scores, the queries and the keys.
pub proof fn lemma_scores_scale<T: Real>(
    read: Reading<T>,
    k: real,
    cache: AttentionCache<T>,
    x: AttentionGrads<T>,
    y: AttentionGrads<T>,
)
    requires
        is_exact(read),
        stack_finite(read, cache.q),
        stack_finite(read, cache.k),
        stack_finite(read, cache.att_probs),
        cache.q.same_shape(cache.k),
        cache.att_probs.has_shape(
            cache.k.outer as int,
            cache.k.inner as int,
            cache.k.inner as int,
        ),
        stack_scaled(read, x.att, y.att, k),
        x.att.same_shape(cache.att_probs),
        (read.finite)(x.scale),
        (read.finite)(y.scale),
        (read.value)(x.scale) == (read.value)(y.scale),
        all_score_grads_give(cache.att_probs, x.att, x.scale, x.scores),
        all_score_grads_give(cache.att_probs, y.att, y.scale, y.scores),
        query_grads_give(x.scores, cache.k, x.q),
        query_grads_give(y.scores, cache.k, y.q),
        key_grads_give(x.scores, cache.q, x.k),
        key_grads_give(y.scores, cache.q, y.k),
    ensures
        stack_scaled(read, x.scores, y.scores, k),
        stack_scaled(read, x.q, y.q, k),
        stack_scaled(read, x.k, y.k, k),
{
    lemma_parts_finite(read, cache.q);
    lemma_parts_finite(read, cache.k);
    lemma_parts_finite(read, cache.att_probs);
    lemma_parts_scaled(read, x.att, y.att, k);
    assert forall|head: int, i: int, j: int|
        #![trigger x.scores.cell(head, i, j)]
        0 <= head < x.scores.outer && 0 <= i < x.scores.inner && 0 <= j
            < x.scores.flat.cols implies one_scaled(
        read,
        x.scores.cell(head, i, j),
        y.scores.cell(head, i, j),
        k,
    ) by {
        let p = cache.att_probs.row(head, i);
        let (o1, o2) = (x.scores.row(head, i), y.scores.row(head, i));
        assert(score_grads_give(p, x.att.row(head, i), i, x.scale, o1));
        assert(score_grads_give(p, y.att.row(head, i), i, y.scale, o2));
        lemma_score_row_scales(
            read,
            k,
            p,
            x.att.row(head, i),
            y.att.row(head, i),
            i,
            x.scale,
            y.scale,
            o1,
            o2,
        );
        assert(o1[j] == x.scores.cell(head, i, j) && o2[j] == y.scores.cell(head, i, j));
        assert((read.finite)(o1[j]) && (read.finite)(o2[j]));
    }
    lemma_stack_from_cells(read, x.scores, y.scores, k);
    lemma_parts_scaled(read, x.scores, y.scores, k);
    assert forall|head: int, i: int, c: int|
        #![trigger x.q.cell(head, i, c)]
        0 <= head < x.q.outer && 0 <= i < x.q.inner && 0 <= c < x.q.flat.cols implies one_scaled(
        read,
        x.q.cell(head, i, c),
        y.q.cell(head, i, c),
        k,
    ) by {
        let col = cache.k.col(head, c);
        let (p, q) = (x.scores.row(head, i), y.scores.row(head, i));
        assert(dot_gives(p, col, x.q.cell(head, i, c)));
        assert(dot_gives(q, col, y.q.cell(head, i, c)));
        lemma_dot_scales(read, col, p, q, k, x.q.cell(head, i, c), y.q.cell(head, i, c));
    }
    lemma_stack_from_cells(read, x.q, y.q, k);
    assert forall|head: int, j: int, c: int|
        #![trigger x.k.cell(head, j, c)]
        0 <= head < x.k.outer && 0 <= j < x.k.inner && 0 <= c < x.k.flat.cols implies one_scaled(
        read,
        x.k.cell(head, j, c),
        y.k.cell(head, j, c),
        k,
    ) by {
        let col = cache.q.col(head, c);
        let (p, q) = (x.scores.col(head, j), y.scores.col(head, j));
        assert(dot_gives(p, col, x.k.cell(head, j, c)));
        assert(dot_gives(q, col, y.k.cell(head, j, c)));
        lemma_dot_scales(read, col, p, q, k, x.k.cell(head, j, c), y.k.cell(head, j, c));
    }
    lemma_stack_from_cells(read, x.k, y.k, k);
}

/// The gradients of the queries, keys and values side by side.
pub proof fn lemma_unpack_scales<T: Real>(
    read: Reading<T>,
    k: real,
    n_head: int,
    head_size: int,
    batch: int,
    time: int,
    x: AttentionGrads<T>,
    y: AttentionGrads<T>,
)
    requires
        n_head > 0,
        head_size > 0,
        x.q.has_shape(batch * n_head, time, head_size),
        x.k.has_shape(batch * n_head, time, head_size),
        x.v.has_shape(batch * n_head, time, head_size),
        stack_scaled(read, x.q, y.q, k),
        stack_scaled(read, x.k, y.k, k),
        stack_scaled(read, x.v, y.v, k),
        unpacked(x.q, x.k, x.v, n_head, head_size, batch, time, x.qkv),
        unpacked(y.q, y.k, y.v, n_head, head_size, batch, time, y.qkv),
    ensures
        stack_scaled(read, x.qkv, y.qkv, k),
{
    lemma_parts_scaled(read, x.q, y.q, k);
    lemma_parts_scaled(read, x.k, y.k, k);
    lemma_parts_scaled(read, x.v, y.v, k);
    let width = 3 * (n_head * head_size);
    assert forall|b: int, t: int, c: int|
        #![trigger x.qkv.cell(b, t, c)]
        0 <= b < x.qkv.outer && 0 <= t < x.qkv.inner && 0 <= c
            < x.qkv.flat.cols implies one_scaled(
        read,
        x.qkv.cell(b, t, c),
        y.qkv.cell(b, t, c),
        k,
    ) by {
        assert(x.qkv.cell(b, t, c) == unpacked_entry(
            x.q,
            x.k,
            x.v,
            n_head,
            head_size,
            b,
            t,
            c,
        ));
        assert(y.qkv.cell(b, t, c) == unpacked_entry(
            y.q,
            y.k,
            y.v,
            n_head,
            head_size,
            b,
            t,
            c,
        ));
        assert(3 * (n_head * head_size) == (3 * n_head) * head_size) by (nonlinear_arith);
        lemma_split_index(c, 3 * n_head, head_size);
        lemma_split_index(c / head_size, 3, n_head);
        let h = (c / head_size) % n_head;
        lemma_index_in_range(b, batch, h, n_head);
        let (head, e) = (b * n_head + h, c % head_size);
        assert(one_scaled(read, x.q.cell(head, t, e), y.q.cell(head, t, e), k));
        assert(one_scaled(read, x.k.cell(head, t, e), y.k.cell(head, t, e), k));
        assert(one_scaled(read, x.v.cell(head, t, e), y.v.cell(head, t, e), k));
    }
    lemma_stack_from_cells(read, x.qkv, y.qkv, k);
}

/// What the layer kept stands for real numbers.
pub open spec fn feed_forward_cache_finite<T>(read: Reading<T>, cache: FeedForwardCache<T>) -> bool {
    &&& stack_finite(read, cache.input)
    &&& stack_finite(read, cache.hidden_pre)
    &&& stack_finite(read, cache.hidden)
    &&& mask_finite(read, cache.dropout_mask, cache.input)
}

/// The feed-forward layer.
pub proof fn lemma_feed_forward_scales<T: Real>(
    read: Reading<T>,
    k: real,
    b1: FeedForward<T>,
    b2: FeedForward<T>,
    cache: FeedForwardCache<T>,
    g1: Tensor3<T>,
    g2: Tensor3<T>,
    a1: FeedForward<T>,
    a2: FeedForward<T>,
    r1: Tensor3<T>,
    r2: Tensor3<T>,
)
    requires
        is_exact(read),
        b1.has_width(g1.flat.cols as int),
        b2.has_width(g1.flat.cols as int),
        linear_same_but_grads(b2.fc1, b1.fc1),
        linear_same_but_grads(b2.fc2, b1.fc2),
        linear_finite(read, b1.fc1),
        linear_finite(read, b1.fc2),
        linear_grads_finite(read, b2.fc1),
        linear_grads_finite(read, b2.fc2),
        feed_forward_cache_finite(read, cache),
        cache.has_shape(g1.outer as int, g1.inner as int, g1.flat.cols as int),
        stack_scaled(read, g1, g2, k),
        feed_forward_backward_gives(b1, cache, g1, a1, r1),
        feed_forward_backward_gives(b2, cache, g2, a2, r2),
    ensures
        stack_scaled(read, r1, r2, k),
        linear_gains_scaled(read, b1.fc1, a1.fc1, b2.fc1, a2.fc1, k),
        linear_gains_scaled(read, b1.fc2, a1.fc2, b2.fc2, a2.fc2, k),
        linear_grads_finite(read, a1.fc1),
        linear_grads_finite(read, a1.fc2),
        linear_grads_finite(read, a2.fc1),
        linear_grads_finite(read, a2.fc2),
{
    let (p1, h1, t1) = choose|p1: Tensor3<T>, h1: Tensor3<T>, t1: Tensor3<T>|
        feed_forward_backward_steps_give(b1, cache, g1, a1, r1, p1, h1, t1);
    let (p2, h2, t2) = choose|p2: Tensor3<T>, h2: Tensor3<T>, t2: Tensor3<T>|
        feed_forward_backward_steps_give(b2, cache, g2, a2, r2, p2, h2, t2);
    lemma_dropout_scales(read, k, cache.dropout_mask, g1, g2, p1, p2);
    lemma_linear_scales(
        read,
        k,
        b1.fc2,
        b2.fc2,
        cache.hidden,
        p1,
        p2,
        a1.fc2,
        a2.fc2,
        h1,
        h2,
    );
    lemma_gate_scales(read, k, cache.hidden_pre, h1, h2, t1, t2);
    lemma_linear_scales(
        read,
        k,
        b1.fc1,
        b2.fc1,
        cache.input,
        t1,
        t2,
        a1.fc1,
        a2.fc1,
        r1,
        r2,
    );
}

/// What the block kept stands for real numbers.
pub open spec fn block_cache_finite<T>(read: Reading<T>, cache: BlockCache<T>) -> bool {
    &&& norm_cache_finite(read, cache.ln1)
    &&& attention_cache_finite(read, cache.attention)
    &&& norm_cache_finite(read, cache.ln2)
    &&& feed_forward_cache_finite(read, cache.feed_forward)
}

/// The gradients of the block stand for real numbers.
pub open spec fn block_grads_finite<T>(read: Reading<T>, block: Block<T>) -> bool {
    &&& norm_grads_finite(read, block.ln1)
    &&& linear_grads_finite(read, block.attention.qkv)
    &&& linear_grads_finite(read, block.attention.proj)
    &&& norm_grads_finite(read, block.ln2)
    &&& linear_grads_finite(read, block.feed_forward.fc1)
    &&& linear_grads_finite(read, block.feed_forward.fc2)
}

/// The parameters that going back needs, and the gradients, stand for real numbers.
pub open spec fn block_finite<T>(read: Reading<T>, block: Block<T>) -> bool {
    &&& norm_finite(read, block.ln1)
    &&& linear_finite(read, block.attention.qkv)
    &&& linear_finite(read, block.attention.proj)
    &&& norm_finite(read, block.ln2)
    &&& linear_finite(read, block.feed_forward.fc1)
    &&& linear_finite(read, block.feed_forward.fc2)
}

/// What was added to the gradients of the second block is `k` times what was added to those of
/// the first.
pub open spec fn block_gains_scaled<T>(
    read: Reading<T>,
    b1: Block<T>,
    a1: Block<T>,
    b2: Block<T>,
    a2: Block<T>,
    k: real,
) -> bool {
    &&& norm_gains_scaled(read, b1.ln1, a1.ln1, b2.ln1, a2.ln1, k)
    &&& linear_gains_scaled(
        read,
        b1.attention.qkv,
        a1.attention.qkv,
        b2.attention.qkv,
        a2.attention.qkv,
        k,
    )
    &&& linear_gains_scaled(
        read,
        b1.attention.proj,
        a1.attention.proj,
        b2.attention.proj,
        a2.attention.proj,
        k,
    )
    &&& norm_gains_scaled(read, b1.ln2, a1.ln2, b2.ln2, a2.ln2, k)
    &&& linear_gains_scaled(
        read,
        b1.feed_forward.fc1,
        a1.feed_forward.fc1,
        b2.feed_forward.fc1,
        a2.feed_forward.fc1,
        k,
    )
    &&& linear_gains_scaled(
        read,
        b1.feed_forward.fc2,
        a1.feed_forward.fc2,
        b2.feed_forward.fc2,
        a2.feed_forward.fc2,
        k,
    )
}

/// A block.
pub proof fn lemma_block_scales<T: Real>(
    read: Reading<T>,
    k: real,
    b1: Block<T>,
    b2: Block<T>,
    block_size: int,
    cache: BlockCache<T>,
    g1: Tensor3<T>,
    g2: Tensor3<T>,
    a1: Block<T>,
    a2: Block<T>,
    r1: Tensor3<T>,
    r2: Tensor3<T>,
)
    requires
        is_exact(read),
        g1.flat.cols > 0,
        b1.has_shape(g1.flat.cols as int, block_size),
        b2.has_shape(g1.flat.cols as int, block_size),
        block_same_but_grads(b2, b1),
        block_finite(read, b1),
        block_grads_finite(read, b2),
        block_cache_finite(read, cache),
        cache.fits(b1, g1.outer as int, g1.inner as int, g1.flat.cols as int),
        stack_scaled(read, g1, g2, k),
        block_backward_gives(b1, cache, g1, a1, r1),
        block_backward_gives(b2, cache, g2, a2, r2),
    ensures
        stack_scaled(read, r1, r2, k),
        r1.same_shape(g1),
        block_gains_scaled(read, b1, a1, b2, a2, k),
        block_grads_finite(read, a1),
        block_grads_finite(read, a2),
{
    let x = choose|x: BlockGrads<T>| block_backward_steps_give(b1, cache, g1, a1, r1, x);
    let y = choose|y: BlockGrads<T>| block_backward_steps_give(b2, cache, g2, a2, r2, y);
    lemma_head_size_positive(
        b1.attention.n_head as int,
        b1.attention.head_size as int,
        g1.flat.cols as int,
    );
    lemma_feed_forward_scales(
        read,
        k,
        b1.feed_forward,
        b2.feed_forward,
        cache.feed_forward,
        g1,
        g2,
        a1.feed_forward,
        a2.feed_forward,
        x.feed_forward,
        y.feed_forward,
    );
    assert(x.feed_forward.same_shape(g1));
    lemma_norm_scales(
        read,
        k,
        b1.ln2,
        b2.ln2,
        cache.ln2,
        x.feed_forward,
        y.feed_forward,
        a1.ln2,
        a2.ln2,
        x.ln2_input,
        y.ln2_input,
    );
    lemma_plus_tensor_scales(
        read,
        k,
        g1,
        g2,
        x.ln2_input,
        y.ln2_input,
        x.residual,
        y.residual,
    );
    lemma_attention_scales(
        read,
        k,
        b1.attention,
        b2.attention,
        cache.attention,
        x.residual,
        y.residual,
        a1.attention,
        a2.attention,
        x.attention,
        y.attention,
    );
    assert(x.attention.same_shape(g1));
    lemma_norm_scales(
        read,
        k,
        b1.ln1,
        b2.ln1,
        cache.ln1,
        x.attention,
        y.attention,
        a1.ln1,
        a2.ln1,
        x.ln1_input,
        y.ln1_input,
    );
    lemma_plus_tensor_scales(
        read,
        k,
        x.residual,
        y.residual,
        x.ln1_input,
        y.ln1_input,
        r1,
        r2,
    );
}

/// The second of two calls of the attention's `backward` with the same cache and gradient hands
/// back what the first did, and adds to the gradients what the first did.
pub proof fn lemma_attention_backward_twice<T: Real>(
    read: Reading<T>,
    block_size: int,
    before: MultiHeadSelfAttention<T>,
    cache: AttentionCache<T>,
    g: Tensor3<T>,
    after: MultiHeadSelfAttention<T>,
    later: MultiHeadSelfAttention<T>,
    r1: Tensor3<T>,
    r2: Tensor3<T>,
)
    requires
        is_exact(read),
        before.has_shape(g.flat.cols as int, block_size),
        after.has_shape(g.flat.cols as int, block_size),
        before.head_size > 0,
        linear_finite(read, before.qkv),
        linear_finite(read, before.proj),
        attention_cache_finite(read, cache),
        cache.has_shape(
            g.outer as int,
            g.inner as int,
            before.n_head as int,
            before.head_size as int,
        ),
        stack_finite(read, g),
        attention_backward_gives(before, cache, g, after, r1),
        attention_backward_gives(after, cache, g, later, r2),
    ensures
        stack_scaled(read, r1, r2, 1 as real),
        linear_gains_scaled(read, before.qkv, after.qkv, after.qkv, later.qkv, 1 as real),
        linear_gains_scaled(read, before.proj, after.proj, after.proj, later.proj, 1 as real),
        linear_same_but_grads(later.qkv, before.qkv),
        linear_same_but_grads(later.proj, before.proj),
        later.n_head == before.n_head,
        later.head_size == before.head_size,
        later.causal_mask == before.causal_mask,
{
    lemma_stack_like_itself(read, g);
    lemma_attention_scales(
        read,
        1 as real,
        before,
        before,
        cache,
        g,
        g,
        after,
        after,
        r1,
        r1,
    );
    lemma_attention_scales(
        read,
        1 as real,
        before,
        after,
        cache,
        g,
        g,
        after,
        later,
        r1,
        r2,
    );
}

/// The second of two calls of a block's `backward` with the same cache and gradient hands back what
/// the first did, and adds to every gradient what the first did.
pub proof fn lemma_block_backward_twice<T: Real>(
    read: Reading<T>,
    block_size: int,
    before: Block<T>,
    cache: BlockCache<T>,
    g: Tensor3<T>,
    after: Block<T>,
    later: Block<T>,
    r1: Tensor3<T>,
    r2: Tensor3<T>,
)
    requires
        is_exact(read),
        g.flat.cols > 0,
        before.has_shape(g.flat.cols as int, block_size),
        after.has_shape(g.flat.cols as int, block_size),
        block_finite(read, before),
        block_cache_finite(read, cache),
        cache.fits(before, g.outer as int, g.inner as int, g.flat.cols as int),
        stack_finite(read, g),
        block_backward_gives(before, cache, g, after, r1),
        block_backward_gives(after, cache, g, later, r2),
    ensures
        stack_scaled(read, r1, r2, 1 as real),
        block_gains_scaled(read, before, after, after, later, 1 as real),
        block_same_but_grads(after, before),
        block_same_but_grads(later, after),
{
    let k = 1 as real;
    lemma_stack_like_itself(read, g);
    lemma_block_backward_keeps(before, cache, g, after, r1);
    lemma_block_backward_keeps(after, cache, g, later, r2);
    assert(block_same_but_grads(before, before));
    lemma_block_scales(
        read,
        k,
        before,
        before,
        block_size,
        cache,
        g,
        g,
        after,
        after,
        r1,
        r1,
    );
    lemma_block_scales(
        read,
        k,
        before,
        after,
        block_size,
        cache,
        g,
        g,
        after,
        later,
        r1,
        r2,
    );
}

/// The blocks, from the last to the first.
proof fn lemma_blocks_scale<T: Real>(
    read: Reading<T>,
    k: real,
    b1: Seq<Block<T>>,
    b2: Seq<Block<T>>,
    block_size: int,
    caches: Seq<BlockCache<T>>,
    g1: Tensor3<T>,
    g2: Tensor3<T>,
    a1: Seq<Block<T>>,
    a2: Seq<Block<T>>,
    r1: Tensor3<T>,
    r2: Tensor3<T>,
)
    requires
        is_exact(read),
        g1.flat.cols > 0,
        b2.len() == b1.len(),
        caches.len() == b1.len(),
        a1.len() == b1.len(),
        a2.len() == b1.len(),
        forall|i: int|
            #![trigger b1[i]]
            #![trigger b2[i]]
            0 <= i < b1.len() ==> b1[i].has_shape(g1.flat.cols as int, block_size)
                && b2[i].has_shape(g1.flat.cols as int, block_size) && block_same_but_grads(
                b2[i],
                b1[i],
            ) && block_finite(read, b1[i]) && block_grads_finite(read, b2[i])
                && block_cache_finite(read, caches[i]) && caches[i].fits(
                b1[i],
                g1.outer as int,
                g1.inner as int,
                g1.flat.cols as int,
            ),
        stack_scaled(read, g1, g2, k),
        blocks_backward_give(b1, caches, g1, a1, r1),
        blocks_backward_give(b2, caches, g2, a2, r2),
    ensures
        stack_scaled(read, r1, r2, k),
        r1.same_shape(g1),
        forall|i: int|
            #![trigger a1[i]]
            #![trigger a2[i]]
            0 <= i < b1.len() ==> block_gains_scaled(read, b1[i], a1[i], b2[i], a2[i], k)
                && block_grads_finite(read, a1[i]) && block_grads_finite(read, a2[i]),
    decreases b1.len(),
{
    if b1.len() > 0 {
        let m1 = choose|m1: Tensor3<T>|
            blocks_backward_give(b1.skip(1), caches.skip(1), g1, a1.skip(1), m1)
                && #[trigger] block_backward_gives(b1[0], caches[0], m1, a1[0], r1);
        let m2 = choose|m2: Tensor3<T>|
            blocks_backward_give(b2.skip(1), caches.skip(1), g2, a2.skip(1), m2)
                && #[trigger] block_backward_gives(b2[0], caches[0], m2, a2[0], r2);
        let (c1, c2, d) = (b1.skip(1), b2.skip(1), caches.skip(1));
        assert forall|i: int|
            #![trigger c1[i]]
            #![trigger c2[i]]
            0 <= i < c1.len() implies c1[i].has_shape(g1.flat.cols as int, block_size)
            && c2[i].has_shape(g1.flat.cols as int, block_size) && block_same_but_grads(
            c2[i],
            c1[i],
        ) && block_finite(read, c1[i]) && block_grads_finite(read, c2[i]) && block_cache_finite(
            read,
            d[i],
        ) && d[i].fits(c1[i], g1.outer as int, g1.inner as int, g1.flat.cols as int) by {
            assert(c1[i] == b1[i + 1] && c2[i] == b2[i + 1] && d[i] == caches[i + 1]);
        }
        lemma_blocks_scale(
            read,
            k,
            c1,
            c2,
            block_size,
            d,
            g1,
            g2,
            a1.skip(1),
            a2.skip(1),
            m1,
            m2,
        );
        assert(b1[0].has_shape(g1.flat.cols as int, block_size));
        lemma_block_scales(
            read,
            k,
            b1[0],
            b2[0],
            block_size,
            caches[0],
            m1,
            m2,
            a1[0],
            a2[0],
            r1,
            r2,
        );
        assert forall|i: int|
            #![trigger a1[i]]
            #![trigger a2[i]]
            0 <= i < b1.len() implies block_gains_scaled(read, b1[i], a1[i], b2[i], a2[i], k)
            && block_grads_finite(read, a1[i]) && block_grads_finite(read, a2[i]) by {
            if i > 0 {
                assert(a1.skip(1)[i - 1] == a1[i] && a2.skip(1)[i - 1] == a2[i]);
                assert(c1[i - 1] == b1[i] && c2[i - 1] == b2[i]);
            }
        }
    }
}

/// What rows whose key is `v` add to entry `c` of that row of a table.
pub open spec fn scatter_sum<T>(
    read: Reading<T>,
    keys: Seq<usize>,
    grads: Tensor2<T>,
    n: int,
    v: int,
    c: int,
) -> real
    decreases n,
{
    if n <= 0 {
        0 as real
    } else if keys[n - 1] == v {
        scatter_sum(read, keys, grads, n - 1, v, c) + (read.value)(grads.at(n - 1, c))
    } else {
        scatter_sum(read, keys, grads, n - 1, v, c)
    }
}

/// Rows that are added to the rows of a table which their keys name.
pub proof fn lemma_scatter_exact<T: Real>(
    read: Reading<T>,
    keys: Seq<usize>,
    grads: Tensor2<T>,
    n: int,
    v: int,
    c: int,
    before: T,
    after: T,
)
    requires
        is_exact(read),
        (read.finite)(before),
        n <= grads.rows,
        forall|r: int| 0 <= r < grads.rows ==> (read.finite)(#[trigger] grads.at(r, c)),
        scatter_gives(keys, grads, n, v, c, before, after),
    ensures
        (read.finite)(after),
        (read.value)(after) == (read.value)(before) + scatter_sum(read, keys, grads, n, v, c),
    decreases n,
{
    if n > 0 {
        if keys[n - 1] == v {
            let mid = choose|mid: T|
                scatter_gives(keys, grads, n - 1, v, c, before, mid) && #[trigger] plus_scaled_gives(
                    mid,
                    grads.at(n - 1, c),
                    after,
                );
            lemma_scatter_exact(read, keys, grads, n - 1, v, c, before, mid);
            let g = grads.at(n - 1, c);
            let (one, part) = choose|one: T, part: T|
                one_gives(one) && #[trigger] times_gives(one, g, part) && #[trigger] plus_gives(
                    mid,
                    part,
                    after,
                );
            let x = (read.value)(g);
            assert((read.finite)(g));
            assert((1 as real) * x == x) by (nonlinear_arith);
        } else {
            lemma_scatter_exact(read, keys, grads, n - 1, v, c, before, after);
        }
    }
}

/// Rows that are `k` times as large add `k` times as much.
proof fn lemma_scatter_sum_scales<T>(
    read: Reading<T>,
    k: real,
    keys: Seq<usize>,
    g1: Tensor2<T>,
    g2: Tensor2<T>,
    n: int,
    v: int,
    c: int,
)
    requires
        n <= g1.rows,
        forall|r: int|
            0 <= r < g1.rows ==> (read.value)(#[trigger] g2.at(r, c)) == k * (read.value)(
                g1.at(r, c),
            ),
    ensures
        scatter_sum(read, keys, g2, n, v, c) == k * scatter_sum(read, keys, g1, n, v, c),
    decreases n,
{
    if n <= 0 {
        lemma_times_nought(k);
    } else {
        lemma_scatter_sum_scales(read, k, keys, g1, g2, n - 1, v, c);
        if keys[n - 1] == v {
            assert((read.value)(g2.at(n - 1, c)) == k * (read.value)(g1.at(n - 1, c)));
            lemma_plus_scaled(
                k,
                scatter_sum(read, keys, g1, n - 1, v, c),
                (read.value)(g1.at(n - 1, c)),
            );
        }
    }
}

/// What was added to entry `(i, c)` of the gradient of a table.
pub open spec fn table_gain<T>(
    read: Reading<T>,
    before: Param2D<T>,
    after: Param2D<T>,
    i: int,
    c: int,
) -> real {
    (read.value)(after.grad.at(i, c)) - (read.value)(before.grad.at(i, c))
}

/// What was added to the gradient of the second table is `k` times what was added to that of the
/// first.
pub open spec fn table_gains_scaled<T>(
    read: Reading<T>,
    b1: Param2D<T>,
    a1: Param2D<T>,
    b2: Param2D<T>,
    a2: Param2D<T>,
    k: real,
) -> bool {
    forall|i: int, c: int|
        0 <= i < b1.value.rows && 0 <= c < b1.value.cols ==> #[trigger] table_gain(
            read,
            b2,
            a2,
            i,
            c,
        ) == k * table_gain(read, b1, a1, i, c)
}

proof fn lemma_table_scales<T: Real>(
    read: Reading<T>,
    k: real,
    keys: Seq<usize>,
    b1: Param2D<T>,
    b2: Param2D<T>,
    g1: Tensor3<T>,
    g2: Tensor3<T>,
    a1: Param2D<T>,
    a2: Param2D<T>,
)
    requires
        is_exact(read),
        b1.wf(),
        b2.has_shape(b1.value.rows as int, b1.value.cols as int),
        all_finite(read, b1.grad.data@),
        all_finite(read, b2.grad.data@),
        stack_scaled(read, g1, g2, k),
        g1.flat.cols == b1.value.cols,
        scattered(b1.grad, keys, g1.flat, a1.grad),
        scattered(b2.grad, keys, g2.flat, a2.grad),
    ensures
        table_gains_scaled(read, b1, a1, b2, a2, k),
        all_finite(read, a1.grad.data@),
{
    lemma_parts_scaled(read, g1, g2, k);
    let (rows, cols) = (b1.value.rows as int, b1.value.cols as int);
    let n = g1.flat.rows as int;
    assert forall|i: int, c: int| 0 <= i < rows && 0 <= c < cols implies #[trigger] table_gain(
        read,
        b2,
        a2,
        i,
        c,
    ) == k * table_gain(read, b1, a1, i, c) && (read.finite)(a1.grad.at(i, c)) by {
        let (p, q) = (g1.flat.col(c), g2.flat.col(c));
        assert(scaled(read, p, q, k));
        assert forall|r: int| 0 <= r < n implies (read.finite)(#[trigger] g1.flat.at(r, c)) && (
        read.finite)(g2.flat.at(r, c)) && (read.value)(g2.flat.at(r, c)) == k * (read.value)(
            g1.flat.at(r, c),
        ) by {
            assert(p[r] == g1.flat.at(r, c) && q[r] == g2.flat.at(r, c));
        }
        assert forall|r: int| 0 <= r < n implies (read.finite)(#[trigger] g2.flat.at(r, c)) && (
        read.value)(g2.flat.at(r, c)) == k * (read.value)(g1.flat.at(r, c)) by {
            assert((read.finite)(g1.flat.at(r, c)));
        }
        lemma_index_in_range(i, rows, c, cols);
        assert((read.finite)(b1.grad.data@[i * cols + c]));
        assert((read.finite)(b2.grad.data@[i * cols + c]));
        assert(scatter_gives(keys, g1.flat, n, i, c, b1.grad.at(i, c), a1.grad.at(i, c)));
        assert(scatter_gives(keys, g2.flat, n, i, c, b2.grad.at(i, c), a2.grad.at(i, c)));
        lemma_scatter_exact(
            read,
            keys,
            g1.flat,
            n,
            i,
            c,
            b1.grad.at(i, c),
            a1.grad.at(i, c),
        );
        lemma_scatter_exact(
            read,
            keys,
            g2.flat,
            n,
            i,
            c,
            b2.grad.at(i, c),
            a2.grad.at(i, c),
        );
        lemma_scatter_sum_scales(read, k, keys, g1.flat, g2.flat, n, i, c);
    }
    assert forall|j: int| 0 <= j < a1.grad.data@.len() implies (read.finite)(
        #[trigger] a1.grad.data@[j],
    ) by {
        assert(cols > 0) by (nonlinear_arith)
            requires
                0 < rows * cols,
                rows >= 0,
                cols >= 0,
        ;
        lemma_split_index(j, rows, cols);
        let (i, c) = (j / cols, j % cols);
        assert(table_gain(read, b2, a2, i, c) == k * table_gain(read, b1, a1, i, c));
        assert((read.finite)(a1.grad.at(i, c)));
    }
}

/// What was added to the gradients of the second model is `k` times what was added to those of
/// the first.
pub open spec fn model_gains_scaled<T>(
    read: Reading<T>,
    b1: GptLanguageModel<T>,
    a1: GptLanguageModel<T>,
    b2: GptLanguageModel<T>,
    a2: GptLanguageModel<T>,
    k: real,
) -> bool {
    &&& table_gains_scaled(
        read,
        b1.token_embedding,
        a1.token_embedding,
        b2.token_embedding,
        a2.token_embedding,
        k,
    )
    &&& table_gains_scaled(
        read,
        b1.position_embedding,
        a1.position_embedding,
        b2.position_embedding,
        a2.position_embedding,
        k,
    )
    &&& forall|i: int|
        0 <= i < b1.blocks@.len() ==> block_gains_scaled(
            read,
            b1.blocks@[i],
            #[trigger] a1.blocks@[i],
            b2.blocks@[i],
            a2.blocks@[i],
            k,
        )
    &&& norm_gains_scaled(read, b1.ln_f, a1.ln_f, b2.ln_f, a2.ln_f, k)
    &&& linear_gains_scaled(read, b1.lm_head, a1.lm_head, b2.lm_head, a2.lm_head, k)
}

/// The gradients of the model stand for real numbers.
pub open spec fn model_grads_finite<T>(read: Reading<T>, model: GptLanguageModel<T>) -> bool {
    &&& all_finite(read, model.token_embedding.grad.data@)
    &&& all_finite(read, model.position_embedding.grad.data@)
    &&& forall|i: int|
        0 <= i < model.blocks@.len() ==> block_grads_finite(read, #[trigger] model.blocks@[i])
    &&& norm_grads_finite(read, model.ln_f)
    &&& linear_grads_finite(read, model.lm_head)
}

/// The parameters that going back needs, and the gradients, stand for real numbers.
pub open spec fn model_finite<T>(read: Reading<T>, model: GptLanguageModel<T>) -> bool {
    &&& model_grads_finite(read, model)
    &&& forall|i: int|
        0 <= i < model.blocks@.len() ==> block_finite(read, #[trigger] model.blocks@[i])
    &&& norm_finite(read, model.ln_f)
    &&& linear_finite(read, model.lm_head)
}

/// What the model kept stands for real numbers.
pub open spec fn model_cache_finite<T>(read: Reading<T>, cache: GptCache<T>) -> bool {
    &&& norm_cache_finite(read, cache.final_norm)
    &&& stack_finite(read, cache.final_norm_output)
    &&& forall|i: int|
        0 <= i < cache.blocks@.len() ==> block_cache_finite(read, #[trigger] cache.blocks@[i])
}

/// The model.
pub proof fn lemma_model_scales<T: Real>(
    read: Reading<T>,
    k: real,
    b1: GptLanguageModel<T>,
    b2: GptLanguageModel<T>,
    cache: GptCache<T>,
    g1: Tensor3<T>,
    g2: Tensor3<T>,
    a1: GptLanguageModel<T>,
    a2: GptLanguageModel<T>,
)
    requires
        is_exact(read),
        b1.wf(),
        b2.wf(),
        b1.config.n_embd > 0,
        model_same_but_grads(b2, b1),
        model_finite(read, b1),
        model_grads_finite(read, b2),
        model_cache_finite(read, cache),
        cache.fits(b1, cache.idx.rows(), cache.idx.cols()),
        g1.has_shape(cache.idx.rows(), cache.idx.cols(), b1.config.vocab_size as int),
        stack_scaled(read, g1, g2, k),
        model_backward_gives(b1, cache, g1, a1),
        model_backward_gives(b2, cache, g2, a2),
    ensures
        model_gains_scaled(read, b1, a1, b2, a2, k),
        model_grads_finite(read, a1),
{
    let (n1, l1, e1) = choose|n1: Tensor3<T>, l1: Tensor3<T>, e1: Tensor3<T>|
        model_backward_steps_give(b1, cache, g1, a1, n1, l1, e1);
    let (n2, l2, e2) = choose|n2: Tensor3<T>, l2: Tensor3<T>, e2: Tensor3<T>|
        model_backward_steps_give(b2, cache, g2, a2, n2, l2, e2);
    lemma_linear_scales(
        read,
        k,
        b1.lm_head,
        b2.lm_head,
        cache.final_norm_output,
        g1,
        g2,
        a1.lm_head,
        a2.lm_head,
        n1,
        n2,
    );
    lemma_norm_scales(
        read,
        k,
        b1.ln_f,
        b2.ln_f,
        cache.final_norm,
        n1,
        n2,
        a1.ln_f,
        a2.ln_f,
        l1,
        l2,
    );
    let (p, q, d) = (b1.blocks@, b2.blocks@, cache.blocks@);
    let size = b1.config.block_size as int;
    assert forall|i: int|
        #![trigger p[i]]
        #![trigger q[i]]
        0 <= i < p.len() implies p[i].has_shape(l1.flat.cols as int, size) && q[i].has_shape(
        l1.flat.cols as int,
        size,
    ) && block_same_but_grads(q[i], p[i]) && block_finite(read, p[i]) && block_grads_finite(
        read,
        q[i],
    ) && block_cache_finite(read, d[i]) && d[i].fits(
        p[i],
        l1.outer as int,
        l1.inner as int,
        l1.flat.cols as int,
    ) by {}
    lemma_blocks_scale(
        read,
        k,
        p,
        q,
        size,
        d,
        l1,
        l2,
        a1.blocks@,
        a2.blocks@,
        e1,
        e2,
    );
    lemma_table_scales(
        read,
        k,
        token_items(cache.idx),
        b1.token_embedding,
        b2.token_embedding,
        e1,
        e2,
        a1.token_embedding,
        a2.token_embedding,
    );
    lemma_table_scales(
        read,
        k,
        places(e1.flat.rows as int, cache.idx.cols()),
        b1.position_embedding,
        b2.position_embedding,
        e1,
        e2,
        a1.position_embedding,
        a2.position_embedding,
    );
    assert forall|i: int| 0 <= i < p.len() implies block_gains_scaled(
        read,
        p[i],
        #[trigger] a1.blocks@[i],
        q[i],
        a2.blocks@[i],
        k,
    ) by {}
}

/// Nothing differs between a model and itself.
proof fn lemma_same_model<T>(model: GptLanguageModel<T>)
    ensures
        model_same_but_grads(model, model),
{
}

/// The second of two calls of the model's `backward` with the same cache and gradient adds to
/// every gradient what the first did, and changes nothing else.
pub proof fn lemma_backward_twice<T: Real>(
    read: Reading<T>,
    before: GptLanguageModel<T>,
    cache: GptCache<T>,
    g: Tensor3<T>,
    after: GptLanguageModel<T>,
    later: GptLanguageModel<T>,
)
    requires
        is_exact(read),
        before.wf(),
        after.wf(),
        before.config.n_embd > 0,
        model_finite(read, before),
        model_cache_finite(read, cache),
        cache.fits(before, cache.idx.rows(), cache.idx.cols()),
        g.has_shape(cache.idx.rows(), cache.idx.cols(), before.config.vocab_size as int),
        stack_finite(read, g),
        model_backward_gives(before, cache, g, after),
        model_backward_gives(after, cache, g, later),
    ensures
        model_gains_scaled(read, before, after, after, later, 1 as real),
        model_same_but_grads(after, before),
        model_same_but_grads(later, after),
{
    lemma_backward_changes_grads_only(before, cache, g, after);
    lemma_backward_changes_grads_only(after, cache, g, later);
    lemma_stack_like_itself(read, g);
    lemma_same_model(before);
    lemma_model_scales(read, 1 as real, before, before, cache, g, g, after, after);
    lemma_model_scales(read, 1 as real, before, after, cache, g, g, after, later);
}

} // verus!
