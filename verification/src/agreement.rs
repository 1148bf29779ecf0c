//! What two runs of the model outside training have in common.
//!
//! Where the inputs of two runs are alike up to some place of a sequence, so are the outputs: no
//! layer lets a later place, or another sequence, reach an earlier one.

use crate::attention::{
    att_probs_give, attention_gives, attention_steps_give, packed, probs_give, scale_gives,
    score_gives, scores_give, AttentionCache, MultiHeadSelfAttention,
};
use crate::block::{
    block_gives, block_steps_give, lemma_head_size_positive, Block, BlockCache, BlockSteps,
};
use crate::dropout::dropout_gives;
use crate::elementwise::plus_tensor_gives;
use crate::feed_forward::{
    feed_forward_gives, relu_gives, relu_tensor_gives, FeedForward, FeedForwardCache,
};
use crate::grid::TokenArray;
use crate::layer_norm::{
    layer_norm_gives, normalized_row_gives, rescaled_gives, LayerNorm, LayerNormCache,
};
use crate::likeness::{
    has_bottom, lemma_dot_alike, lemma_normalized_alike, lemma_row_like_itself, lemma_softmax_alike,
    respects, Like,
};
use crate::linear::{affine_gives, linear_gives, Linear};
use crate::model::{
    blocks_give, embedding_gives, model_gives, model_steps_give, GptCache, GptLanguageModel,
};
use crate::reduce::{dot_gives, softmax_gives};
use crate::scalar::{
    count_gives, larger_gives, negative_infinity_gives, one_gives, over_gives, plus_gives,
    sqrt_gives, times_gives, zero_gives, Real,
};
use crate::tensor::{lemma_index_in_range, lemma_index_split, lemma_split_index, Tensor2, Tensor3};
use rand::rngs::SmallRng;
use vstd::prelude::*;

verus! {

/// The two stacks agree in sequence `b` up to place `t`.
pub open spec fn agree<T>(like: Like<T>, x: Tensor3<T>, y: Tensor3<T>, b: int, t: int) -> bool {
    &&& x.wf()
    &&& y.wf()
    &&& x.same_shape(y)
    &&& 0 <= b < x.outer
    &&& 0 <= t < x.inner
    &&& forall|s: int, c: int|
        #![trigger x.cell(b, s, c)]
        #![trigger y.cell(b, s, c)]
        0 <= s <= t && 0 <= c < x.flat.cols ==> like.both(x.cell(b, s, c), y.cell(b, s, c))
}

/// All entries can be computed with.
pub open spec fn matrix_fin<T>(like: Like<T>, m: Tensor2<T>) -> bool {
    forall|i: int, j: int|
        0 <= i < m.rows && 0 <= j < m.cols ==> (like.fin)(#[trigger] m.at(i, j))
}

/// All items can be computed with.
pub open spec fn items_fin<T>(like: Like<T>, items: Seq<T>) -> bool {
    forall|i: int| 0 <= i < items.len() ==> (like.fin)(#[trigger] items[i])
}

/// The parameters of the layer can be computed with.
pub open spec fn linear_fin<T>(like: Like<T>, layer: Linear<T>) -> bool {
    matrix_fin(like, layer.weight.value) && (layer.bias matches Some(bias) ==> items_fin(
        like,
        bias.value@,
    ))
}

/// The parameters of the normalization can be computed with.
pub open spec fn norm_fin<T>(like: Like<T>, layer: LayerNorm<T>) -> bool {
    items_fin(like, layer.gamma.value@) && items_fin(like, layer.beta.value@) && (like.pos)(
        layer.eps,
    )
}

/// The parameters of the block can be computed with.
pub open spec fn block_fin<T>(like: Like<T>, block: Block<T>) -> bool {
    &&& norm_fin(like, block.ln1)
    &&& linear_fin(like, block.attention.qkv)
    &&& linear_fin(like, block.attention.proj)
    &&& norm_fin(like, block.ln2)
    &&& linear_fin(like, block.feed_forward.fc1)
    &&& linear_fin(like, block.feed_forward.fc2)
}

/// The parameters of the model can be computed with.
pub open spec fn model_fin<T>(like: Like<T>, model: GptLanguageModel<T>) -> bool {
    &&& matrix_fin(like, model.token_embedding.value)
    &&& matrix_fin(like, model.position_embedding.value)
    &&& forall|i: int|
        0 <= i < model.blocks@.len() ==> block_fin(like, #[trigger] model.blocks@[i])
    &&& norm_fin(like, model.ln_f)
    &&& linear_fin(like, model.lm_head)
}

/// Rows of stacks that agree are alike.
proof fn lemma_agreeing_rows<T>(
    like: Like<T>,
    x: Tensor3<T>,
    y: Tensor3<T>,
    b: int,
    t: int,
    s: int,
)
    requires
        agree(like, x, y, b, t),
        0 <= s <= t,
    ensures
        like.rows(x.row(b, s), y.row(b, s)),
        0 <= b * x.inner + s < x.flat.rows,
{
    lemma_index_in_range(b, x.outer as int, s, x.inner as int);
    let (p, q) = (x.row(b, s), y.row(b, s));
    assert forall|c: int|
        #![trigger p[c]]
        #![trigger q[c]]
        0 <= c < p.len() implies like.both(p[c], q[c]) by {
        assert(p[c] == x.cell(b, s, c));
        assert(q[c] == y.cell(b, s, c));
    }
}

proof fn lemma_linear_agrees<T: Real>(
    like: Like<T>,
    layer: Linear<T>,
    x: Tensor3<T>,
    y: Tensor3<T>,
    u: Tensor3<T>,
    v: Tensor3<T>,
    b: int,
    t: int,
)
    requires
        respects(like),
        layer.wf(),
        linear_fin(like, layer),
        agree(like, x, y, b, t),
        x.flat.cols == layer.weight.value.rows,
        linear_gives(layer, x, u),
        linear_gives(layer, y, v),
    ensures
        agree(like, u, v, b, t),
{
    let w = layer.weight.value;
    assert forall|s: int, c: int|
        #![trigger u.cell(b, s, c)]
        #![trigger v.cell(b, s, c)]
        0 <= s <= t && 0 <= c < u.flat.cols implies like.both(u.cell(b, s, c), v.cell(b, s, c)) by {
        lemma_agreeing_rows(like, x, y, b, t, s);
        let r = b * x.inner + s;
        let (p, q, col) = (x.row(b, s), y.row(b, s), w.col(c));
        assert(affine_gives(x.flat.row(r), col, layer.bias_at(c), u.flat.at(r, c)));
        assert(affine_gives(y.flat.row(r), col, layer.bias_at(c), v.flat.at(r, c)));
        assert forall|i: int| 0 <= i < col.len() implies (like.fin)(#[trigger] col[i]) by {
            assert(col[i] == w.at(i, c));
        }
        lemma_row_like_itself(like, col);
        let (k, l) = (u.flat.at(r, c), v.flat.at(r, c));
        match layer.bias {
            Some(bias) => {
                let e = choose|e: T| #[trigger]
                    dot_gives(p, col, e) && plus_gives(e, bias.value@[c], k);
                let f = choose|f: T| #[trigger]
                    dot_gives(q, col, f) && plus_gives(f, bias.value@[c], l);
                lemma_dot_alike(like, p, col, q, col, e, f);
                assert((like.fin)(bias.value@[c]));
                reveal(respects);
            },
            None => {
                lemma_dot_alike(like, p, col, q, col, k, l);
            },
        }
    }
}

proof fn lemma_norm_agrees<T: Real>(
    like: Like<T>,
    layer: LayerNorm<T>,
    x: Tensor3<T>,
    y: Tensor3<T>,
    u: Tensor3<T>,
    v: Tensor3<T>,
    cx: LayerNormCache<T>,
    cy: LayerNormCache<T>,
    b: int,
    t: int,
)
    requires
        respects(like),
        norm_fin(like, layer),
        layer.has_width(x.flat.cols as int),
        x.flat.cols > 0,
        agree(like, x, y, b, t),
        layer_norm_gives(layer, x, u, cx),
        layer_norm_gives(layer, y, v, cy),
    ensures
        agree(like, u, v, b, t),
{
    assert forall|s: int, c: int|
        #![trigger u.cell(b, s, c)]
        #![trigger v.cell(b, s, c)]
        0 <= s <= t && 0 <= c < u.flat.cols implies like.both(u.cell(b, s, c), v.cell(b, s, c)) by {
        lemma_agreeing_rows(like, x, y, b, t, s);
        let r = b * x.inner + s;
        let (p, q) = (cx.x_hat.flat.row(r), cy.x_hat.flat.row(r));
        assert(normalized_row_gives(x.flat.row(r), layer.eps, p, cx.inv_std.data@[r]));
        assert(normalized_row_gives(y.flat.row(r), layer.eps, q, cy.inv_std.data@[r]));
        lemma_normalized_alike(
            like,
            x.flat.row(r),
            y.flat.row(r),
            layer.eps,
            p,
            q,
            cx.inv_std.data@[r],
            cy.inv_std.data@[r],
        );
        let (gamma, beta) = (layer.gamma.value@[c], layer.beta.value@[c]);
        let (e, f) = (cx.x_hat.flat.at(r, c), cy.x_hat.flat.at(r, c));
        assert(p[c] == e && q[c] == f);
        assert(like.both(p[c], q[c]));
        assert(rescaled_gives(gamma, e, beta, u.flat.at(r, c)));
        assert(rescaled_gives(gamma, f, beta, v.flat.at(r, c)));
        assert((like.fin)(gamma) && (like.fin)(beta));
        reveal(respects);
        let g = choose|g: T| #[trigger] times_gives(gamma, e, g) && plus_gives(
            g,
            beta,
            u.flat.at(r, c),
        );
        let h = choose|h: T| #[trigger] times_gives(gamma, f, h) && plus_gives(
            h,
            beta,
            v.flat.at(r, c),
        );
        assert(like.both(gamma, gamma) && like.both(beta, beta));
        assert(like.both(g, h));
    }
}

proof fn lemma_plus_agrees<T: Real>(
    like: Like<T>,
    x: Tensor3<T>,
    x2: Tensor3<T>,
    y: Tensor3<T>,
    y2: Tensor3<T>,
    u: Tensor3<T>,
    v: Tensor3<T>,
    b: int,
    t: int,
)
    requires
        respects(like),
        agree(like, x, y, b, t),
        agree(like, x2, y2, b, t),
        x.same_shape(x2),
        plus_tensor_gives(x, x2, u),
        plus_tensor_gives(y, y2, v),
    ensures
        agree(like, u, v, b, t),
{
    assert forall|s: int, c: int|
        #![trigger u.cell(b, s, c)]
        #![trigger v.cell(b, s, c)]
        0 <= s <= t && 0 <= c < u.flat.cols implies like.both(u.cell(b, s, c), v.cell(b, s, c)) by {
        lemma_index_in_range(b, x.outer as int, s, x.inner as int);
        let r = b * x.inner + s;
        lemma_index_in_range(r, x.flat.rows as int, c, x.flat.cols as int);
        let i = r * x.flat.cols + c;
        assert(plus_gives(x.flat.data@[i], x2.flat.data@[i], u.flat.data@[i]));
        assert(plus_gives(y.flat.data@[i], y2.flat.data@[i], v.flat.data@[i]));
        assert(like.both(x.cell(b, s, c), y.cell(b, s, c)));
        assert(like.both(x2.cell(b, s, c), y2.cell(b, s, c)));
        reveal(respects);
    }
}

proof fn lemma_relu_agrees<T: Real>(
    like: Like<T>,
    x: Tensor3<T>,
    y: Tensor3<T>,
    u: Tensor3<T>,
    v: Tensor3<T>,
    b: int,
    t: int,
)
    requires
        respects(like),
        agree(like, x, y, b, t),
        relu_tensor_gives(x, u),
        relu_tensor_gives(y, v),
    ensures
        agree(like, u, v, b, t),
{
    assert forall|s: int, c: int|
        #![trigger u.cell(b, s, c)]
        #![trigger v.cell(b, s, c)]
        0 <= s <= t && 0 <= c < u.flat.cols implies like.both(u.cell(b, s, c), v.cell(b, s, c)) by {
        lemma_index_in_range(b, x.outer as int, s, x.inner as int);
        let r = b * x.inner + s;
        lemma_index_in_range(r, x.flat.rows as int, c, x.flat.cols as int);
        let i = r * x.flat.cols + c;
        assert(relu_gives(x.flat.data@[i], u.flat.data@[i]));
        assert(relu_gives(y.flat.data@[i], v.flat.data@[i]));
        assert(like.both(x.cell(b, s, c), y.cell(b, s, c)));
        let p = choose|p: T| zero_gives(p) && #[trigger] larger_gives(
            x.flat.data@[i],
            p,
            u.flat.data@[i],
        );
        let q = choose|q: T| zero_gives(q) && #[trigger] larger_gives(
            y.flat.data@[i],
            q,
            v.flat.data@[i],
        );
        reveal(respects);
        assert(like.both(p, q));
    }
}

/// Outside training a dropout hands on its input.
proof fn lemma_no_dropout<T: Real>(
    like: Like<T>,
    p: T,
    x: Tensor3<T>,
    y: Tensor3<T>,
    u: Tensor3<T>,
    v: Tensor3<T>,
    mx: Option<Tensor3<T>>,
    my: Option<Tensor3<T>>,
    r: (SmallRng, SmallRng, SmallRng, SmallRng),
    b: int,
    t: int,
)
    requires
        agree(like, x, y, b, t),
        dropout_gives(x, p, false, u, mx, r.0, r.1),
        dropout_gives(y, p, false, v, my, r.2, r.3),
    ensures
        agree(like, u, v, b, t),
{
    assert forall|s: int, c: int|
        #![trigger u.cell(b, s, c)]
        #![trigger v.cell(b, s, c)]
        0 <= s <= t && 0 <= c < u.flat.cols implies like.both(u.cell(b, s, c), v.cell(b, s, c)) by {
        assert(u.cell(b, s, c) == x.cell(b, s, c));
        assert(v.cell(b, s, c) == y.cell(b, s, c));
    }
}

/// One of the three parts of stacks that agree.
proof fn lemma_pack_agrees<T>(
    like: Like<T>,
    x: Tensor3<T>,
    y: Tensor3<T>,
    offset: int,
    n_head: int,
    head_size: int,
    u: Tensor3<T>,
    v: Tensor3<T>,
    b: int,
    t: int,
    h: int,
)
    requires
        agree(like, x, y, b, t),
        n_head > 0,
        head_size >= 0,
        0 <= offset,
        offset + n_head * head_size <= x.flat.cols,
        packed(x, offset, n_head, head_size, u),
        packed(y, offset, n_head, head_size, v),
        0 <= h < n_head,
    ensures
        agree(like, u, v, b * n_head + h, t),
{
    let head = b * n_head + h;
    lemma_index_in_range(b, x.outer as int, h, n_head);
    lemma_index_split(b, h, n_head);
    assert forall|s: int, c: int|
        #![trigger u.cell(head, s, c)]
        #![trigger v.cell(head, s, c)]
        0 <= s <= t && 0 <= c < u.flat.cols implies like.both(
        u.cell(head, s, c),
        v.cell(head, s, c),
    ) by {
        lemma_index_in_range(h, n_head, c, head_size);
        let y2 = offset + h * head_size + c;
        assert(u.cell(head, s, c) == x.cell(b, s, y2));
        assert(v.cell(head, s, c) == y.cell(b, s, y2));
    }
}

/// The scores and the probabilities of the query at place `s`.
proof fn lemma_probs_agree<T: Real>(
    like: Like<T>,
    scale1: T,
    scale2: T,
    q1: Tensor3<T>,
    q2: Tensor3<T>,
    k1: Tensor3<T>,
    k2: Tensor3<T>,
    p1: Tensor3<T>,
    p2: Tensor3<T>,
    head: int,
    t: int,
    s: int,
)
    requires
        respects(like),
        like.both(scale1, scale2),
        agree(like, q1, q2, head, t),
        agree(like, k1, k2, head, t),
        q1.same_shape(k1),
        att_probs_give(q1, k1, scale1, p1),
        att_probs_give(q2, k2, scale2, p2),
        0 <= s <= t,
    ensures
        like.rows(p1.row(head, s), p2.row(head, s)),
        has_bottom(like) ==> forall|j: int|
            #![trigger p1.row(head, s)[j]]
            #![trigger p2.row(head, s)[j]]
            s < j < q1.inner ==> (like.nought)(p1.row(head, s)[j]) && (like.nought)(
                p2.row(head, s)[j],
            ),
{
    let (a, b) = (q1.row(head, s), q2.row(head, s));
    let (c, d) = (k1.slab_rows(head), k2.slab_rows(head));
    assert(probs_give(a, c, s, scale1, p1.row(head, s)));
    assert(probs_give(b, d, s, scale2, p2.row(head, s)));
    let u = choose|u: Seq<T>| #[trigger]
        scores_give(a, c, s, scale1, u) && softmax_gives(u, p1.row(head, s));
    let v = choose|v: Seq<T>| #[trigger]
        scores_give(b, d, s, scale2, v) && softmax_gives(v, p2.row(head, s));
    lemma_agreeing_rows(like, q1, q2, head, t, s);
    assert forall|j: int|
        #![trigger u[j]]
        #![trigger v[j]]
        0 <= j < u.len() implies like.same(u[j], v[j]) && (j <= s ==> like.both(u[j], v[j])) && (j
        > s && has_bottom(like) ==> (like.low)(u[j])) by {
        assert(score_gives(a, c[j], s, j, scale1, u[j]));
        assert(score_gives(b, d[j], s, j, scale2, v[j]));
        if j <= s {
            lemma_agreeing_rows(like, k1, k2, head, t, j);
            assert(c[j] == k1.row(head, j) && d[j] == k2.row(head, j));
            let e = choose|e: T| #[trigger] dot_gives(a, c[j], e) && times_gives(e, scale1, u[j]);
            let f = choose|f: T| #[trigger] dot_gives(b, d[j], f) && times_gives(f, scale2, v[j]);
            lemma_dot_alike(like, a, c[j], b, d[j], e, f);
            reveal(respects);
        } else {
            assert(negative_infinity_gives(u[j]) && negative_infinity_gives(v[j]));
            reveal(respects);
        }
    }
    assert((like.fin)(u[0]));
    lemma_softmax_alike(like, u, v, p1.row(head, s), p2.row(head, s));
}

/// The scale of the scores is like itself.
pub proof fn lemma_scale_alike<T: Real>(like: Like<T>, head_size: usize, r: T, s: T)
    requires
        respects(like),
        head_size > 0,
        scale_gives(head_size, r),
        scale_gives(head_size, s),
    ensures
        like.both(r, s),
{
    reveal(respects);
    let (a, b, c) = choose|a: T, b: T, c: T|
        count_gives(head_size, a) && #[trigger] sqrt_gives(a, b) && one_gives(c)
            && #[trigger] over_gives(c, b, r);
    let (d, e, f) = choose|d: T, e: T, f: T|
        count_gives(head_size, d) && #[trigger] sqrt_gives(d, e) && one_gives(f)
            && #[trigger] over_gives(f, e, s);
    assert(like.both(a, d));
    assert(like.both(b, e));
    assert(like.both(c, f));
}

/// The layer's outputs agree as far as its inputs do.
pub proof fn lemma_attention_agrees<T: Real>(
    like: Like<T>,
    layer: MultiHeadSelfAttention<T>,
    dropout: T,
    x: Tensor3<T>,
    y: Tensor3<T>,
    u: Tensor3<T>,
    v: Tensor3<T>,
    cx: AttentionCache<T>,
    cy: AttentionCache<T>,
    rx: (SmallRng, SmallRng),
    ry: (SmallRng, SmallRng),
    b: int,
    t: int,
)
    requires
        respects(like),
        layer.n_head > 0,
        layer.head_size > 0,
        layer.qkv.has_shape(x.flat.cols as int, 3 * x.flat.cols),
        layer.proj.has_shape(x.flat.cols as int, x.flat.cols as int),
        layer.n_head * layer.head_size == x.flat.cols,
        linear_fin(like, layer.qkv),
        linear_fin(like, layer.proj),
        agree(like, x, y, b, t),
        agree(like, x, x, b, x.inner - 1),
        agree(like, y, y, b, x.inner - 1),
        t == x.inner - 1 || has_bottom(like),
        attention_gives(layer, x, false, dropout, u, cx, rx.0, rx.1),
        attention_gives(layer, y, false, dropout, v, cy, ry.0, ry.1),
    ensures
        agree(like, u, v, b, t),
{
    let (n_head, head_size) = (layer.n_head as int, layer.head_size as int);
    let n_embd = n_head * head_size;
    let last = x.inner - 1;
    let (qx, sx, px, mx) = choose|qx: Tensor3<T>, sx: T, px: Tensor3<T>, mx: SmallRng|
        attention_steps_give(layer, x, false, dropout, u, cx, rx.0, rx.1, qx, sx, px, mx);
    let (qy, sy, py, my) = choose|qy: Tensor3<T>, sy: T, py: Tensor3<T>, my: SmallRng|
        attention_steps_give(layer, y, false, dropout, v, cy, ry.0, ry.1, qy, sy, py, my);
    lemma_linear_agrees(like, layer.qkv, x, y, qx, qy, b, t);
    lemma_linear_agrees(like, layer.qkv, x, x, qx, qx, b, last);
    lemma_linear_agrees(like, layer.qkv, y, y, qy, qy, b, last);
    lemma_scale_alike(like, layer.head_size, sx, sy);
    assert forall|s: int, c: int|
        #![trigger cx.context.cell(b, s, c)]
        #![trigger cy.context.cell(b, s, c)]
        0 <= s <= t && 0 <= c < n_embd implies like.both(
        cx.context.cell(b, s, c),
        cy.context.cell(b, s, c),
    ) by {
        lemma_split_index(c, n_head, head_size);
        let h = c / head_size;
        let e = c % head_size;
        let head = b * n_head + h;
        lemma_pack_agrees(like, qx, qy, 0, n_head, head_size, cx.q, cy.q, b, t, h);
        lemma_pack_agrees(like, qx, qy, n_embd, n_head, head_size, cx.k, cy.k, b, t, h);
        lemma_pack_agrees(like, qx, qy, 2 * n_embd, n_head, head_size, cx.v, cy.v, b, t, h);
        lemma_pack_agrees(like, qx, qx, 2 * n_embd, n_head, head_size, cx.v, cx.v, b, last, h);
        lemma_pack_agrees(like, qy, qy, 2 * n_embd, n_head, head_size, cy.v, cy.v, b, last, h);
        lemma_probs_agree(
            like,
            sx,
            sy,
            cx.q,
            cy.q,
            cx.k,
            cy.k,
            cx.att_probs,
            cy.att_probs,
            head,
            t,
            s,
        );
        let (p, q) = (cx.att_probs.row(head, s), cy.att_probs.row(head, s));
        assert(cx.att_dropped.row(head, s) =~= p);
        assert(cy.att_dropped.row(head, s) =~= q);
        let (f, g) = (cx.v.col(head, e), cy.v.col(head, e));
        assert forall|j: int|
            #![trigger f[j]]
            #![trigger g[j]]
            0 <= j < p.len() implies like.both(f[j], g[j]) || (like.nought)(p[j]) && (like.nought)(
            q[j],
        ) && (like.fin)(f[j]) && (like.fin)(g[j]) by {
            assert(f[j] == cx.v.cell(head, j, e));
            assert(g[j] == cy.v.cell(head, j, e));
            if j > t {
                assert((like.nought)(p[j]));
                assert(like.both(cx.v.cell(head, j, e), cx.v.cell(head, j, e)));
                assert(like.both(cy.v.cell(head, j, e), cy.v.cell(head, j, e)));
            }
        }
        assert(dot_gives(p, f, cx.context.cell(b, s, c)));
        assert(dot_gives(q, g, cy.context.cell(b, s, c)));
        lemma_dot_alike(
            like,
            p,
            f,
            q,
            g,
            cx.context.cell(b, s, c),
            cy.context.cell(b, s, c),
        );
    }
    assert(agree(like, cx.context, cy.context, b, t));
    lemma_linear_agrees(like, layer.proj, cx.context, cy.context, px, py, b, t);
    lemma_no_dropout(
        like,
        dropout,
        px,
        py,
        u,
        v,
        cx.proj_dropout_mask,
        cy.proj_dropout_mask,
        (mx, rx.1, my, ry.1),
        b,
        t,
    );
}

proof fn lemma_feed_forward_agrees<T: Real>(
    like: Like<T>,
    layer: FeedForward<T>,
    dropout: T,
    x: Tensor3<T>,
    y: Tensor3<T>,
    u: Tensor3<T>,
    v: Tensor3<T>,
    cx: FeedForwardCache<T>,
    cy: FeedForwardCache<T>,
    rx: (SmallRng, SmallRng),
    ry: (SmallRng, SmallRng),
    b: int,
    t: int,
)
    requires
        respects(like),
        layer.has_width(x.flat.cols as int),
        linear_fin(like, layer.fc1),
        linear_fin(like, layer.fc2),
        agree(like, x, y, b, t),
        feed_forward_gives(layer, x, false, dropout, u, cx, rx.0, rx.1),
        feed_forward_gives(layer, y, false, dropout, v, cy, ry.0, ry.1),
    ensures
        agree(like, u, v, b, t),
{
    let px = choose|px: Tensor3<T>| #[trigger]
        linear_gives(layer.fc2, cx.hidden, px) && dropout_gives(
            px,
            dropout,
            false,
            u,
            cx.dropout_mask,
            rx.0,
            rx.1,
        );
    let py = choose|py: Tensor3<T>| #[trigger]
        linear_gives(layer.fc2, cy.hidden, py) && dropout_gives(
            py,
            dropout,
            false,
            v,
            cy.dropout_mask,
            ry.0,
            ry.1,
        );
    lemma_linear_agrees(like, layer.fc1, x, y, cx.hidden_pre, cy.hidden_pre, b, t);
    lemma_relu_agrees(like, cx.hidden_pre, cy.hidden_pre, cx.hidden, cy.hidden, b, t);
    lemma_linear_agrees(like, layer.fc2, cx.hidden, cy.hidden, px, py, b, t);
    lemma_no_dropout(
        like,
        dropout,
        px,
        py,
        u,
        v,
        cx.dropout_mask,
        cy.dropout_mask,
        (rx.0, rx.1, ry.0, ry.1),
        b,
        t,
    );
}

proof fn lemma_block_agrees<T: Real>(
    like: Like<T>,
    block: Block<T>,
    block_size: int,
    dropout: T,
    x: Tensor3<T>,
    y: Tensor3<T>,
    u: Tensor3<T>,
    v: Tensor3<T>,
    cx: BlockCache<T>,
    cy: BlockCache<T>,
    rx: (SmallRng, SmallRng),
    ry: (SmallRng, SmallRng),
    b: int,
    t: int,
)
    requires
        respects(like),
        block.has_shape(x.flat.cols as int, block_size),
        x.flat.cols > 0,
        block_fin(like, block),
        agree(like, x, y, b, t),
        agree(like, x, x, b, x.inner - 1),
        agree(like, y, y, b, x.inner - 1),
        t == x.inner - 1 || has_bottom(like),
        block_gives(block, x, false, dropout, u, cx, rx.0, rx.1),
        block_gives(block, y, false, dropout, v, cy, ry.0, ry.1),
    ensures
        agree(like, u, v, b, t),
{
    let last = x.inner - 1;
    let s = choose|s: BlockSteps<T>|
        block_steps_give(block, x, false, dropout, u, cx, rx.0, rx.1, s);
    let z = choose|z: BlockSteps<T>|
        block_steps_give(block, y, false, dropout, v, cy, ry.0, ry.1, z);
    let (a, c) = (s.ln1_output, z.ln1_output);
    lemma_norm_agrees(like, block.ln1, x, y, a, c, cx.ln1, cy.ln1, b, t);
    lemma_norm_agrees(like, block.ln1, x, x, a, a, cx.ln1, cx.ln1, b, last);
    lemma_norm_agrees(like, block.ln1, y, y, c, c, cy.ln1, cy.ln1, b, last);
    lemma_head_size_positive(
        block.attention.n_head as int,
        block.attention.head_size as int,
        x.flat.cols as int,
    );
    lemma_attention_agrees(
        like,
        block.attention,
        dropout,
        a,
        c,
        s.attention_output,
        z.attention_output,
        cx.attention,
        cy.attention,
        (rx.0, s.rng),
        (ry.0, z.rng),
        b,
        t,
    );
    lemma_plus_agrees(
        like,
        x,
        s.attention_output,
        y,
        z.attention_output,
        s.residual,
        z.residual,
        b,
        t,
    );
    lemma_norm_agrees(
        like,
        block.ln2,
        s.residual,
        z.residual,
        s.ln2_output,
        z.ln2_output,
        cx.ln2,
        cy.ln2,
        b,
        t,
    );
    lemma_feed_forward_agrees(
        like,
        block.feed_forward,
        dropout,
        s.ln2_output,
        z.ln2_output,
        s.feed_forward_output,
        z.feed_forward_output,
        cx.feed_forward,
        cy.feed_forward,
        (s.rng, rx.1),
        (z.rng, ry.1),
        b,
        t,
    );
    lemma_plus_agrees(
        like,
        s.residual,
        s.feed_forward_output,
        z.residual,
        z.feed_forward_output,
        u,
        v,
        b,
        t,
    );
}

proof fn lemma_blocks_agree<T: Real>(
    like: Like<T>,
    blocks: Seq<Block<T>>,
    block_size: int,
    dropout: T,
    x: Tensor3<T>,
    y: Tensor3<T>,
    u: Tensor3<T>,
    v: Tensor3<T>,
    cx: Seq<BlockCache<T>>,
    cy: Seq<BlockCache<T>>,
    rx: (SmallRng, SmallRng),
    ry: (SmallRng, SmallRng),
    b: int,
    t: int,
)
    requires
        respects(like),
        forall|i: int|
            0 <= i < blocks.len() ==> (#[trigger] blocks[i]).has_shape(
                x.flat.cols as int,
                block_size,
            ) && block_fin(like, blocks[i]),
        x.flat.cols > 0,
        agree(like, x, y, b, t),
        agree(like, x, x, b, x.inner - 1),
        agree(like, y, y, b, x.inner - 1),
        t == x.inner - 1 || has_bottom(like),
        blocks_give(blocks, false, dropout, x, cx, u, rx.0, rx.1),
        blocks_give(blocks, false, dropout, y, cy, v, ry.0, ry.1),
    ensures
        agree(like, u, v, b, t),
        agree(like, u, u, b, x.inner - 1),
        agree(like, v, v, b, x.inner - 1),
        u.same_shape(x),
    decreases blocks.len(),
{
    if blocks.len() > 0 {
        let last = x.inner - 1;
        let front = blocks.drop_last();
        let (mx, gx) = choose|mx: Tensor3<T>, gx: SmallRng|
            blocks_give(front, false, dropout, x, cx.drop_last(), mx, rx.0, gx)
                && #[trigger] block_gives(
                blocks.last(),
                mx,
                false,
                dropout,
                u,
                cx.last(),
                gx,
                rx.1,
            );
        let (my, gy) = choose|my: Tensor3<T>, gy: SmallRng|
            blocks_give(front, false, dropout, y, cy.drop_last(), my, ry.0, gy)
                && #[trigger] block_gives(
                blocks.last(),
                my,
                false,
                dropout,
                v,
                cy.last(),
                gy,
                ry.1,
            );
        assert forall|i: int| 0 <= i < front.len() implies (#[trigger] front[i]).has_shape(
            x.flat.cols as int,
            block_size,
        ) && block_fin(like, front[i]) by {
            assert(front[i] == blocks[i]);
        }
        lemma_blocks_agree(
            like,
            front,
            block_size,
            dropout,
            x,
            y,
            mx,
            my,
            cx.drop_last(),
            cy.drop_last(),
            (rx.0, gx),
            (ry.0, gy),
            b,
            t,
        );
        let block = blocks.last();
        assert(block == blocks[blocks.len() - 1]);
        let (kx, ky) = (cx.last(), cy.last());
        lemma_block_agrees(
            like,
            block,
            block_size,
            dropout,
            mx,
            my,
            u,
            v,
            kx,
            ky,
            (gx, rx.1),
            (gy, ry.1),
            b,
            t,
        );
        lemma_block_agrees(
            like,
            block,
            block_size,
            dropout,
            mx,
            mx,
            u,
            u,
            kx,
            kx,
            (gx, rx.1),
            (gx, rx.1),
            b,
            last,
        );
        lemma_block_agrees(
            like,
            block,
            block_size,
            dropout,
            my,
            my,
            v,
            v,
            ky,
            ky,
            (gy, ry.1),
            (gy, ry.1),
            b,
            last,
        );
        let s = choose|s: BlockSteps<T>|
            block_steps_give(block, mx, false, dropout, u, kx, gx, rx.1, s);
    }
}

/// The embeddings of tokens that agree.
proof fn lemma_embedding_agrees<T: Real>(
    like: Like<T>,
    model: GptLanguageModel<T>,
    idx: TokenArray,
    idy: TokenArray,
    x: Tensor3<T>,
    y: Tensor3<T>,
    b: int,
    t: int,
)
    requires
        respects(like),
        model.wf(),
        model_fin(like, model),
        model.takes(idx),
        idy.rows() == idx.rows(),
        idy.cols() == idx.cols(),
        0 <= b < idx.rows(),
        0 <= t < idx.cols(),
        forall|s: int| 0 <= s <= t ==> #[trigger] idx.at(b, s) == idy.at(b, s),
        embedding_gives(model, idx, x),
        embedding_gives(model, idy, y),
    ensures
        agree(like, x, y, b, t),
{
    assert forall|s: int, c: int|
        #![trigger x.cell(b, s, c)]
        #![trigger y.cell(b, s, c)]
        0 <= s <= t && 0 <= c < x.flat.cols implies like.both(x.cell(b, s, c), y.cell(b, s, c)) by {
        let token = idx.at(b, s) as int;
        assert(idy.at(b, s) == idx.at(b, s));
        let (e, p) = (
            model.token_embedding.value.at(token, c),
            model.position_embedding.value.at(s, c),
        );
        assert(plus_gives(e, p, x.cell(b, s, c)));
        assert(plus_gives(e, p, y.cell(b, s, c)));
        assert((like.fin)(e) && (like.fin)(p));
        reveal(respects);
        assert(like.both(e, e) && like.both(p, p));
    }
}

/// The logits of two runs agree as far as their tokens do.
pub proof fn lemma_model_agrees<T: Real>(
    like: Like<T>,
    model: GptLanguageModel<T>,
    idx: TokenArray,
    idy: TokenArray,
    u: Tensor3<T>,
    v: Tensor3<T>,
    cx: GptCache<T>,
    cy: GptCache<T>,
    rx: (SmallRng, SmallRng),
    ry: (SmallRng, SmallRng),
    b: int,
    t: int,
)
    requires
        respects(like),
        model.wf(),
        model_fin(like, model),
        model.takes(idx),
        model.takes(idy),
        idy.rows() == idx.rows(),
        idy.cols() == idx.cols(),
        0 <= b < idx.rows(),
        0 <= t < idx.cols(),
        forall|s: int| 0 <= s <= t ==> #[trigger] idx.at(b, s) == idy.at(b, s),
        t == idx.cols() - 1 || has_bottom(like),
        model_gives(model, idx, false, u, cx, rx.0, rx.1),
        model_gives(model, idy, false, v, cy, ry.0, ry.1),
    ensures
        agree(like, u, v, b, t),
{
    let (ex, lx) = choose|ex: Tensor3<T>, lx: Tensor3<T>|
        model_steps_give(model, idx, false, u, cx, rx.0, rx.1, ex, lx);
    let (ey, ly) = choose|ey: Tensor3<T>, ly: Tensor3<T>|
        model_steps_give(model, idy, false, v, cy, ry.0, ry.1, ey, ly);
    let last = idx.cols() - 1;
    lemma_embedding_agrees(like, model, idx, idy, ex, ey, b, t);
    lemma_embedding_agrees(like, model, idx, idx, ex, ex, b, last);
    lemma_embedding_agrees(like, model, idy, idy, ey, ey, b, last);
    lemma_blocks_agree(
        like,
        model.blocks@,
        model.config.block_size as int,
        model.config.dropout,
        ex,
        ey,
        lx,
        ly,
        cx.blocks@,
        cy.blocks@,
        rx,
        ry,
        b,
        t,
    );
    lemma_norm_agrees(
        like,
        model.ln_f,
        lx,
        ly,
        cx.final_norm_output,
        cy.final_norm_output,
        cx.final_norm,
        cy.final_norm,
        b,
        t,
    );
    lemma_linear_agrees(
        like,
        model.lm_head,
        cx.final_norm_output,
        cy.final_norm_output,
        u,
        v,
        b,
        t,
    );
}

proof fn lemma_blocks_shape<T: Real>(
    blocks: Seq<Block<T>>,
    training: bool,
    dropout: T,
    x: Tensor3<T>,
    caches: Seq<BlockCache<T>>,
    u: Tensor3<T>,
    before: SmallRng,
    after: SmallRng,
)
    requires
        x.wf(),
        blocks_give(blocks, training, dropout, x, caches, u, before, after),
    ensures
        u.wf(),
        u.same_shape(x),
    decreases blocks.len(),
{
    if blocks.len() > 0 {
        let (mid, rng) = choose|mid: Tensor3<T>, rng: SmallRng|
            blocks_give(
                blocks.drop_last(),
                training,
                dropout,
                x,
                caches.drop_last(),
                mid,
                before,
                rng,
            ) && #[trigger] block_gives(
                blocks.last(),
                mid,
                training,
                dropout,
                u,
                caches.last(),
                rng,
                after,
            );
        lemma_blocks_shape(
            blocks.drop_last(),
            training,
            dropout,
            x,
            caches.drop_last(),
            mid,
            before,
            rng,
        );
        let s = choose|s: BlockSteps<T>|
            block_steps_give(
                blocks.last(),
                mid,
                training,
                dropout,
                u,
                caches.last(),
                rng,
                after,
                s,
            );
        assert(s.residual.same_shape(mid));
    }
}

/// There is a row of logits for every token.
pub proof fn lemma_logits_shape<T: Real>(
    model: GptLanguageModel<T>,
    idx: TokenArray,
    training: bool,
    logits: Tensor3<T>,
    cache: GptCache<T>,
    before: SmallRng,
    after: SmallRng,
)
    requires
        model.wf(),
        model_gives(model, idx, training, logits, cache, before, after),
    ensures
        logits.has_shape(idx.rows(), idx.cols(), model.config.vocab_size as int),
{
    let (embedded, last) = choose|embedded: Tensor3<T>, last: Tensor3<T>|
        model_steps_give(model, idx, training, logits, cache, before, after, embedded, last);
    lemma_blocks_shape(
        model.blocks@,
        training,
        model.config.dropout,
        embedded,
        cache.blocks@,
        last,
        before,
        after,
    );
}

} // verus!
