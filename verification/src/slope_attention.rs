//! The gradients of self-attention are slopes.

use crate::attention::{
    all_score_grads_give, att_grads_give, attention_backward_gives, attention_backward_steps_give,
    key_grads_give, lemma_unpacked_part, query_grads_give, scale_gives, score_grads_give, unpacked,
    value_grads_give, AttentionCache, AttentionGrads, MultiHeadSelfAttention,
};
use crate::dropout::dropout_backward_gives;
use crate::exact::{all_finite, is_exact, lemma_dot_exact, Reading};
use crate::finite::{inverse_root, lemma_scale_value};
use crate::gradient::{lemma_dot_is_series, lemma_series_same, series};
use crate::heads::{
    columns_from, context_tangent, dealt, gathered, lemma_context_slope, lemma_dealt_gathered,
    lemma_pair_dealt, lemma_pair_split, lemma_scores_slope, score_tangent,
};
use crate::linearity::{
    attention_cache_finite, lemma_heads_scale, lemma_scores_scale, lemma_unpack_scales,
};
use crate::pairing::{
    cells, lemma_pair_rows, lemma_pair_same, page_of, pair, row_pair, stack_pair, Table,
};
use crate::reduce::dot_gives;
use crate::scalar::Real;
use crate::scaling::{lemma_parts_finite, lemma_stack_like_itself, linear_finite, stack_finite};
use crate::slope::{
    lemma_dropout_slope, lemma_linear_slope, linear_slope, linear_tangent, masked, LinearDirection,
};
use crate::tangent::{lemma_distribute, lemma_score_gradient, softmax_tangent};
use crate::tensor::{lemma_index_in_range, lemma_index_split, lemma_split_index, Tensor3};
use vstd::prelude::*;

verus! {

/// How the parameters of self-attention change.
pub ghost struct AttentionDirection {
    pub qkv: LinearDirection,
    pub proj: LinearDirection,
}

/// What is handed back for the queries and the keys is the slope of the scores along them.
pub proof fn lemma_score_product_slope<T: Real>(
    read: Reading<T>,
    q: Tensor3<T>,
    k: Tensor3<T>,
    g: Tensor3<T>,
    gq: Tensor3<T>,
    gk: Tensor3<T>,
    dq: Table,
    dk: Table,
)
    requires
        is_exact(read),
        stack_finite(read, q),
        stack_finite(read, k),
        q.same_shape(k),
        stack_finite(read, g),
        g.has_shape(k.outer as int, k.inner as int, k.inner as int),
        query_grads_give(g, k, gq),
        key_grads_give(g, q, gk),
    ensures
        stack_pair(
            read,
            g,
            score_tangent(
                k.inner as nat,
                k.flat.cols as nat,
                cells(read, q.flat),
                cells(read, k.flat),
                dq,
                dk,
            ),
        ) == stack_pair(read, gq, dq) + stack_pair(read, gk, dk),
{
    let v = read.value;
    let (n, time, size) = (k.outer as nat, k.inner as nat, k.flat.cols as nat);
    let (qt, kt, gt) = (cells(read, q.flat), cells(read, k.flat), cells(read, g.flat));
    let (gqt, gkt) = (cells(read, gq.flat), cells(read, gk.flat));
    lemma_parts_finite(read, q);
    lemma_parts_finite(read, k);
    lemma_parts_finite(read, g);
    assert forall|h: int, i: int, c: int| 0 <= h < n && 0 <= i < time && 0 <= c < size implies (
    #[trigger] page_of(gqt, time, h)(i, c)) == series(
        time,
        |j: int| gt(h * time + i, j) * kt(h * time + j, c),
    ) by {
        let (a, b) = (g.row(h, i), k.col(h, c));
        assert(dot_gives(a, b, gq.cell(h, i, c)));
        lemma_dot_exact(read, a, b, gq.cell(h, i, c));
        lemma_dot_is_series(read, a, b);
        lemma_series_same(
            time,
            |j: int| v(a[j]) * v(b[j]),
            |j: int| gt(h * time + i, j) * kt(h * time + j, c),
        );
    }
    assert forall|h: int, j: int, c: int| 0 <= h < n && 0 <= j < time && 0 <= c < size implies (
    #[trigger] page_of(gkt, time, h)(j, c)) == series(
        time,
        |i: int| qt(h * time + i, c) * gt(h * time + i, j),
    ) by {
        let (a, b) = (g.col(h, j), q.col(h, c));
        assert(dot_gives(a, b, gk.cell(h, j, c)));
        lemma_dot_exact(read, a, b, gk.cell(h, j, c));
        lemma_dot_is_series(read, a, b);
        let (x, y) = (
            |i: int| v(a[i]) * v(b[i]),
            |i: int| qt(h * time + i, c) * gt(h * time + i, j),
        );
        assert forall|i: int| 0 <= i < time implies #[trigger] x(i) == y(i) by {
            lemma_distribute(v(a[i]), v(b[i]), 0 as real);
        }
        lemma_series_same(time, x, y);
    }
    lemma_scores_slope(n, time, size, qt, kt, dq, dk, gt, gqt, gkt);
}

/// What is handed back for the weights and the values is the slope of the context along them.
pub proof fn lemma_context_product_slope<T: Real>(
    read: Reading<T>,
    n_head: int,
    size: int,
    att: Tensor3<T>,
    values: Tensor3<T>,
    g: Tensor3<T>,
    gatt: Tensor3<T>,
    gv: Tensor3<T>,
    datt: Table,
    dv: Table,
)
    requires
        is_exact(read),
        n_head > 0,
        size > 0,
        stack_finite(read, att),
        stack_finite(read, values),
        stack_finite(read, g),
        values.has_shape(g.outer * n_head, g.inner as int, size),
        att.has_shape(g.outer * n_head, g.inner as int, g.inner as int),
        g.flat.cols == n_head * size,
        att_grads_give(g, values, n_head, size, gatt),
        value_grads_give(g, att, n_head, size, gv),
    ensures
        stack_pair(
            read,
            g,
            gathered(
                context_tangent(
                    g.inner as nat,
                    cells(read, att.flat),
                    cells(read, values.flat),
                    datt,
                    dv,
                ),
                n_head,
                size,
                g.inner as int,
            ),
        ) == stack_pair(read, gatt, datt) + stack_pair(read, gv, dv),
{
    let v = read.value;
    let (batch, heads) = (g.outer as nat, n_head as nat);
    let (n, time, m) = (values.outer as nat, g.inner as nat, size as nat);
    let (at, vt, gt) = (cells(read, att.flat), cells(read, values.flat), cells(read, g.flat));
    let (gat, gvt) = (cells(read, gatt.flat), cells(read, gv.flat));
    let d = context_tangent(time, at, vt, datt, dv);
    let (gd, e) = (
        dealt(gt, n_head, size, time as int),
        dealt(gathered(d, n_head, size, time as int), n_head, size, time as int),
    );
    lemma_parts_finite(read, att);
    lemma_parts_finite(read, values);
    lemma_parts_finite(read, g);
    lemma_pair_dealt(batch, heads, time, m, gt, gathered(d, n_head, size, time as int));
    assert forall|r: int, c: int| 0 <= r < n * time && 0 <= c < m implies (#[trigger] gd(r, c)) * e(
        r,
        c,
    ) == gd(r, c) * d(r, c) by {
        assert(time > 0) by (nonlinear_arith)
            requires
                0 <= r < n * time,
                time >= 0,
        ;
        lemma_dealt_gathered(d, n_head, size, time as int, n as int, r, c);
    }
    lemma_pair_same(n * time, m, gd, e, gd, d);
    assert forall|h: int, t: int, u: int| 0 <= h < n && 0 <= t < time && 0 <= u < time implies (
    #[trigger] page_of(gat, time, h)(t, u)) == series(
        m,
        |c: int| gd(h * time + t, c) * vt(h * time + u, c),
    ) by {
        lemma_split_index(h, batch as int, n_head);
        lemma_index_split(h, t, time as int);
        lemma_index_in_range(h % n_head, n_head, 0, size);
        let (b, start) = (h / n_head, (h % n_head) * size);
        let whole = g.row(b, t);
        let (x, y) = (whole.subrange(start, start + size), values.row(h, u));
        assert(dot_gives(x, y, gatt.cell(h, t, u)));
        assert(all_finite(read, whole));
        assert forall|c: int| 0 <= c < x.len() implies (read.finite)(#[trigger] x[c]) by {
            assert(x[c] == whole[start + c]);
        }
        lemma_dot_exact(read, x, y, gatt.cell(h, t, u));
        lemma_dot_is_series(read, x, y);
        lemma_series_same(
            m,
            |c: int| v(x[c]) * v(y[c]),
            |c: int| gd(h * time + t, c) * vt(h * time + u, c),
        );
    }
    assert forall|h: int, u: int, c: int| 0 <= h < n && 0 <= u < time && 0 <= c < m implies (
    #[trigger] page_of(gvt, time, h)(u, c)) == series(
        time,
        |t: int| at(h * time + t, u) * gd(h * time + t, c),
    ) by {
        lemma_split_index(h, batch as int, n_head);
        lemma_index_in_range(h % n_head, n_head, c, size);
        let (b, col) = (h / n_head, (h % n_head) * size + c);
        let (x, y) = (att.col(h, u), g.col(b, col));
        assert(dot_gives(x, y, gv.cell(h, u, c)));
        lemma_dot_exact(read, x, y, gv.cell(h, u, c));
        lemma_dot_is_series(read, x, y);
        let (p, q) = (
            |t: int| v(x[t]) * v(y[t]),
            |t: int| at(h * time + t, u) * gd(h * time + t, c),
        );
        assert forall|t: int| 0 <= t < time implies #[trigger] p(t) == q(t) by {
            lemma_index_split(h, t, time as int);
        }
        lemma_series_same(time, p, q);
    }
    lemma_context_slope(n, time, m, at, vt, datt, dv, gd, gat, gvt);
}

/// How the weights of attention change where the scores change by `d` before they are scaled.
pub open spec fn probs_tangent<T>(
    read: Reading<T>,
    probs: Tensor3<T>,
    scale: real,
    d: Table,
) -> Table {
    |r: int, j: int|
        softmax_tangent(
            read,
            probs.flat.row(r),
            |u: int|
                if u <= r % probs.inner as int {
                    scale * d(r, u)
                } else {
                    0 as real
                },
            j,
        )
}

/// What is handed back for the scores is the slope of the weights along them.
pub proof fn lemma_probs_slope<T: Real>(
    read: Reading<T>,
    probs: Tensor3<T>,
    g: Tensor3<T>,
    scale: T,
    scores: Tensor3<T>,
    d: Table,
)
    requires
        is_exact(read),
        stack_finite(read, probs),
        stack_finite(read, g),
        probs.flat.cols == probs.inner,
        g.same_shape(probs),
        (read.finite)(scale),
        all_score_grads_give(probs, g, scale, scores),
    ensures
        stack_pair(read, g, probs_tangent(read, probs, (read.value)(scale), d)) == stack_pair(
            read,
            scores,
            d,
        ),
{
    let v = read.value;
    let (n, time) = (probs.flat.rows as nat, probs.inner as nat);
    let (gt, st) = (cells(read, g.flat), cells(read, scores.flat));
    let e = probs_tangent(read, probs, v(scale), d);
    lemma_parts_finite(read, probs);
    lemma_parts_finite(read, g);
    assert forall|r: int| 0 <= r < n implies #[trigger] row_pair(time, gt, e, r) == row_pair(
        time,
        st,
        d,
        r,
    ) by {
        assert(time > 0) by (nonlinear_arith)
            requires
                0 <= r < n,
                n == probs.outer * time,
                time >= 0,
        ;
        lemma_split_index(r, probs.outer as int, time as int);
        let (head, i) = (r / time as int, r % time as int);
        let (p, g_row, out) = (probs.flat.row(r), g.flat.row(r), scores.flat.row(r));
        assert(p == probs.row(head, i) && g_row == g.row(head, i) && out == scores.row(head, i));
        assert(score_grads_give(p, g_row, i, scale, out));
        let line = |j: int| d(r, j);
        lemma_score_gradient(read, p, g_row, i, scale, out, line);
        let (a, b) = (
            |u: int|
                if u <= i {
                    v(scale) * line(u)
                } else {
                    0 as real
                },
            |u: int|
                if u <= r % probs.inner as int {
                    v(scale) * d(r, u)
                } else {
                    0 as real
                },
        );
        let (x, y) = (
            |j: int| v(g_row[j]) * softmax_tangent(read, p, a, j),
            |j: int| gt(r, j) * e(r, j),
        );
        assert forall|j: int| 0 <= j < time implies #[trigger] x(j) == y(j) by {
            lemma_series_same(time, |k: int| v(p[k]) * a(k), |k: int| v(p[k]) * b(k));
        }
        lemma_series_same(time, x, y);
        lemma_series_same(time, |j: int| v(out[j]) * line(j), |j: int| st(r, j) * d(r, j));
    }
    lemma_pair_rows(n, time, time, gt, e, st, d);
}

/// How the queries, the keys or the values of all heads change where what they are taken from
/// changes by `d`.
pub open spec fn part_tangent(d: Table, part: int, n_head: int, size: int, time: int) -> Table {
    dealt(columns_from(d, part * (n_head * size)), n_head, size, time)
}

/// Joining the gradients of the heads keeps inner products.
pub proof fn lemma_unpacked_slope<T>(
    read: Reading<T>,
    q: Tensor3<T>,
    k: Tensor3<T>,
    v: Tensor3<T>,
    n_head: int,
    size: int,
    batch: int,
    time: int,
    joined: Tensor3<T>,
    d: Table,
)
    requires
        n_head > 0,
        size > 0,
        batch >= 0,
        time >= 0,
        q.has_shape(batch * n_head, time, size),
        k.has_shape(batch * n_head, time, size),
        v.has_shape(batch * n_head, time, size),
        unpacked(q, k, v, n_head, size, batch, time, joined),
    ensures
        stack_pair(read, joined, d) == stack_pair(
            read,
            q,
            part_tangent(d, 0, n_head, size, time),
        ) + stack_pair(read, k, part_tangent(d, 1, n_head, size, time)) + stack_pair(
            read,
            v,
            part_tangent(d, 2, n_head, size, time),
        ),
{
    let g = cells(read, joined.flat);
    let (rows, w): (nat, nat) = ((batch * time) as nat, (n_head * size) as nat);
    lemma_pair_split(rows, w, w + w, g, d);
    lemma_pair_split(rows, w, w, columns_from(g, w as int), columns_from(d, w as int));
    let (g1, d1) = (columns_from(g, w as int), columns_from(d, w as int));
    let (g2, d2) = (columns_from(g1, w as int), columns_from(d1, w as int));
    lemma_part_slope(read, q, k, v, n_head, size, batch, time, joined, 0, g, d, d);
    lemma_part_slope(read, q, k, v, n_head, size, batch, time, joined, 1, g1, d, d1);
    lemma_part_slope(read, q, k, v, n_head, size, batch, time, joined, 2, g2, d, d2);
    assert((w + w) as nat + w == 3 * (n_head * size));
}

/// One of the three parts of the joined gradients.
proof fn lemma_part_slope<T>(
    read: Reading<T>,
    q: Tensor3<T>,
    k: Tensor3<T>,
    v: Tensor3<T>,
    n_head: int,
    size: int,
    batch: int,
    time: int,
    joined: Tensor3<T>,
    part: int,
    g: Table,
    d: Table,
    e: Table,
)
    requires
        n_head > 0,
        size > 0,
        batch >= 0,
        time >= 0,
        0 <= part < 3,
        q.has_shape(batch * n_head, time, size),
        k.has_shape(batch * n_head, time, size),
        v.has_shape(batch * n_head, time, size),
        unpacked(q, k, v, n_head, size, batch, time, joined),
        forall|r: int, c: int| #[trigger]
            g(r, c) == (read.value)(joined.flat.at(r, part * (n_head * size) + c)),
        forall|r: int, c: int| #[trigger] e(r, c) == d(r, part * (n_head * size) + c),
    ensures
        pair((batch * time) as nat, (n_head * size) as nat, g, e) == stack_pair(
            read,
            if part == 0 {
                q
            } else if part == 1 {
                k
            } else {
                v
            },
            part_tangent(d, part, n_head, size, time),
        ),
{
    let one = if part == 0 {
        q
    } else if part == 1 {
        k
    } else {
        v
    };
    lemma_pair_dealt(batch as nat, n_head as nat, time as nat, size as nat, g, e);
    let (x, y) = (dealt(g, n_head, size, time), dealt(e, n_head, size, time));
    let (p, t) = (cells(read, one.flat), part_tangent(d, part, n_head, size, time));
    let rows = (batch * n_head) * time;
    assert forall|r: int, c: int| 0 <= r < rows && 0 <= c < size implies #[trigger] x(r, c) == p(
        r,
        c,
    ) && y(r, c) == t(r, c) by {
        assert(time > 0) by (nonlinear_arith)
            requires
                0 <= r < rows,
                rows == (batch * n_head) * time,
                time >= 0,
        ;
        lemma_split_index(r, batch * n_head, time);
        let (head, i) = (r / time, r % time);
        lemma_unpacked_part(q, k, v, n_head, size, batch, time, joined, part, head, i, c);
        let (row, col) = ((head / n_head) * time + i, (head % n_head) * size + c);
        assert(x(r, c) == g(row, col));
        assert(y(r, c) == e(row, col));
    }
    assert forall|r: int, c: int| 0 <= r < rows && 0 <= c < size implies (#[trigger] p(r, c)) * t(
        r,
        c,
    ) == x(r, c) * y(r, c) by {
        assert(x(r, c) == p(r, c));
    }
    lemma_pair_same(rows as nat, size as nat, x, y, p, t);
}

/// How the weights of the heads change, before dropout, where what the queries and keys are taken
/// from changes by `d`.
pub open spec fn weights_tangent<T>(
    read: Reading<T>,
    n_head: int,
    size: int,
    cache: AttentionCache<T>,
    d: Table,
) -> Table {
    probs_tangent(
        read,
        cache.att_probs,
        inverse_root(size),
        score_tangent(
            cache.k.inner as nat,
            cache.k.flat.cols as nat,
            cells(read, cache.q.flat),
            cells(read, cache.k.flat),
            part_tangent(d, 0, n_head, size, cache.input.inner as int),
            part_tangent(d, 1, n_head, size, cache.input.inner as int),
        ),
    )
}

/// How the context changes where what the queries, keys and values are taken from changes by `d`.
pub open spec fn heads_tangent<T>(
    read: Reading<T>,
    n_head: int,
    size: int,
    cache: AttentionCache<T>,
    d: Table,
) -> Table {
    gathered(
        context_tangent(
            cache.input.inner as nat,
            cells(read, cache.att_dropped.flat),
            cells(read, cache.v.flat),
            masked(read, cache.att_dropout_mask, weights_tangent(read, n_head, size, cache, d)),
            part_tangent(d, 2, n_head, size, cache.input.inner as int),
        ),
        n_head,
        size,
        cache.input.inner as int,
    )
}

/// How the output of self-attention changes where its input changes by `d`, in a run that left
/// this cache.
pub open spec fn attention_tangent<T>(
    read: Reading<T>,
    layer: MultiHeadSelfAttention<T>,
    cache: AttentionCache<T>,
    dir: AttentionDirection,
    d: Table,
) -> Table {
    masked(
        read,
        cache.proj_dropout_mask,
        linear_tangent(
            read,
            layer.proj,
            cache.context,
            dir.proj,
            heads_tangent(
                read,
                layer.n_head as int,
                layer.head_size as int,
                cache,
                linear_tangent(read, layer.qkv, cache.input, dir.qkv, d),
            ),
        ),
    )
}

/// What going back added to the gradients of self-attention, times how its parameters change.
pub open spec fn attention_slope<T>(
    read: Reading<T>,
    before: MultiHeadSelfAttention<T>,
    after: MultiHeadSelfAttention<T>,
    dir: AttentionDirection,
) -> real {
    linear_slope(read, before.qkv, after.qkv, dir.qkv) + linear_slope(
        read,
        before.proj,
        after.proj,
        dir.proj,
    )
}

/// What is handed back by the heads, from the context to what the queries, keys and values were
/// taken from, is a slope.
proof fn lemma_heads_slope<T: Real>(
    read: Reading<T>,
    layer: MultiHeadSelfAttention<T>,
    cache: AttentionCache<T>,
    g: AttentionGrads<T>,
    d: Table,
)
    requires
        is_exact(read),
        layer.n_head > 0,
        layer.head_size > 0,
        attention_cache_finite(read, cache),
        cache.has_shape(
            cache.input.outer as int,
            cache.input.inner as int,
            layer.n_head as int,
            layer.head_size as int,
        ),
        stack_finite(read, g.context),
        g.context.same_shape(cache.context),
        att_grads_give(
            g.context,
            cache.v,
            layer.n_head as int,
            layer.head_size as int,
            g.att_dropped,
        ),
        value_grads_give(
            g.context,
            cache.att_dropped,
            layer.n_head as int,
            layer.head_size as int,
            g.v,
        ),
        dropout_backward_gives(cache.att_dropout_mask, g.att_dropped, g.att),
        scale_gives(layer.head_size, g.scale),
        all_score_grads_give(cache.att_probs, g.att, g.scale, g.scores),
        query_grads_give(g.scores, cache.k, g.q),
        key_grads_give(g.scores, cache.q, g.k),
        unpacked(
            g.q,
            g.k,
            g.v,
            layer.n_head as int,
            layer.head_size as int,
            cache.input.outer as int,
            cache.input.inner as int,
            g.qkv,
        ),
    ensures
        stack_pair(
            read,
            g.context,
            heads_tangent(read, layer.n_head as int, layer.head_size as int, cache, d),
        ) == stack_pair(read, g.qkv, d),
        stack_finite(read, g.qkv),
{
    let (n_head, size) = (layer.n_head as int, layer.head_size as int);
    let (batch, time) = (cache.input.outer as int, cache.input.inner as int);
    let (dq, dk, dv) = (
        part_tangent(d, 0, n_head, size, time),
        part_tangent(d, 1, n_head, size, time),
        part_tangent(d, 2, n_head, size, time),
    );
    let weights = weights_tangent(read, n_head, size, cache, d);
    let datt = masked(read, cache.att_dropout_mask, weights);
    lemma_stack_like_itself(read, g.context);
    lemma_heads_scale(read, 1 as real, cache, n_head, size, batch, g, g);
    lemma_context_product_slope(
        read,
        n_head,
        size,
        cache.att_dropped,
        cache.v,
        g.context,
        g.att_dropped,
        g.v,
        datt,
        dv,
    );
    lemma_dropout_slope(read, cache.att_dropout_mask, g.att_dropped, g.att, weights);
    lemma_scale_value(read, layer.head_size, g.scale);
    lemma_stack_like_itself(read, g.att);
    lemma_scores_scale(read, 1 as real, cache, g, g);
    let ds = score_tangent(
        cache.k.inner as nat,
        cache.k.flat.cols as nat,
        cells(read, cache.q.flat),
        cells(read, cache.k.flat),
        dq,
        dk,
    );
    lemma_probs_slope(read, cache.att_probs, g.att, g.scale, g.scores, ds);
    lemma_score_product_slope(read, cache.q, cache.k, g.scores, g.q, g.k, dq, dk);
    lemma_unpacked_slope(read, g.q, g.k, g.v, n_head, size, batch, time, g.qkv, d);
    lemma_unpack_scales(read, 1 as real, n_head, size, batch, time, g, g);
}

/// The gradients of self-attention are slopes: wherever the input and the parameters go, the
/// inner product of the gradient of the output with how the output changes is that of the
/// gradient of the input with how the input changes, plus what was added to the gradients of the
/// parameters times how they change.
pub proof fn lemma_attention_slope<T: Real>(
    read: Reading<T>,
    layer: MultiHeadSelfAttention<T>,
    cache: AttentionCache<T>,
    grad_output: Tensor3<T>,
    after: MultiHeadSelfAttention<T>,
    grad_input: Tensor3<T>,
    dir: AttentionDirection,
    d: Table,
)
    requires
        is_exact(read),
        layer.n_head > 0,
        layer.head_size > 0,
        layer.n_head * layer.head_size == grad_output.flat.cols,
        layer.qkv.has_shape(grad_output.flat.cols as int, 3 * grad_output.flat.cols),
        layer.proj.has_shape(grad_output.flat.cols as int, grad_output.flat.cols as int),
        linear_finite(read, layer.qkv),
        linear_finite(read, layer.proj),
        attention_cache_finite(read, cache),
        cache.has_shape(
            grad_output.outer as int,
            grad_output.inner as int,
            layer.n_head as int,
            layer.head_size as int,
        ),
        stack_finite(read, grad_output),
        attention_backward_gives(layer, cache, grad_output, after, grad_input),
    ensures
        stack_pair(read, grad_output, attention_tangent(read, layer, cache, dir, d)) == stack_pair(
            read,
            grad_input,
            d,
        ) + attention_slope(read, layer, after, dir),
        stack_finite(read, grad_input),
        grad_input.same_shape(grad_output),
{
    let g = choose|g: AttentionGrads<T>| #[trigger]
        attention_backward_steps_give(layer, cache, grad_output, after, grad_input, g);
    let dqkv = linear_tangent(read, layer.qkv, cache.input, dir.qkv, d);
    let dctx = heads_tangent(read, layer.n_head as int, layer.head_size as int, cache, dqkv);
    let dproj = linear_tangent(read, layer.proj, cache.context, dir.proj, dctx);
    lemma_dropout_slope(read, cache.proj_dropout_mask, grad_output, g.projected, dproj);
    lemma_linear_slope(
        read,
        layer.proj,
        cache.context,
        g.projected,
        after.proj,
        g.context,
        dir.proj,
        dctx,
    );
    lemma_heads_slope(read, layer, cache, g, dqkv);
    lemma_linear_slope(
        read,
        layer.qkv,
        cache.input,
        g.qkv,
        after.qkv,
        grad_input,
        dir.qkv,
        d,
    );
}

} // verus!
