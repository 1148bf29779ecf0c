//! What attention makes of numbers, over the reals.

use crate::attention::{
    att_probs_give, attention_gives, attention_steps_give, context_gives, packed, probs_give,
    scale_gives, score_gives, scores_give, AttentionCache, MultiHeadSelfAttention,
};
use crate::block::lemma_head_size_positive;
use crate::dropout::dropout_gives;
use crate::exact::{all_finite, is_exact, lemma_dot_exact, Reading};
use crate::finite::{
    lemma_attention_stays_finite, lemma_dropout_stays_finite, lemma_linear_stays_finite,
    lemma_scale_value,
};
use crate::gradient::{layer_is_finite, lemma_dot_is_series, lemma_series_same, series};
use crate::linearity::attention_cache_finite;
use crate::meaning::{
    attends, attention_of, context_of, is_softmax, is_softmax_shifted, lemma_linear_of_same,
    lemma_linear_reads, lemma_softmax_reads, linear_of, row_attends, score_of,
};
use crate::pairing::{cells, Table};
use crate::reduce::{dot_gives, softmax_gives};
use crate::scalar::{times_gives, Real};
use crate::scaling::{lemma_parts_finite, stack_finite};
use crate::slope::masked;
use crate::tangent::lemma_distribute;
use crate::tensor::{lemma_index_in_range, lemma_index_split, lemma_split_index, Tensor3};
use rand::rngs::SmallRng;
use vstd::prelude::*;

verus! {

/// What a dropout reads as, given that it was made.
pub proof fn lemma_dropout_reads<T: Real>(
    read: Reading<T>,
    input: Tensor3<T>,
    rate: T,
    training: bool,
    output: Tensor3<T>,
    mask: Option<Tensor3<T>>,
    before: SmallRng,
    after: SmallRng,
    r: int,
    c: int,
)
    requires
        is_exact(read),
        (read.finite)(rate),
        stack_finite(read, input),
        dropout_gives(input, rate, training, output, mask, before, after),
        0 <= r < input.flat.rows,
        0 <= c < input.flat.cols,
    ensures
        cells(read, output.flat)(r, c) == masked(read, mask, cells(read, input.flat))(r, c),
{
    lemma_dropout_stays_finite(read, input, rate, training, output, mask, before, after);
    lemma_index_in_range(r, input.flat.rows as int, c, input.flat.cols as int);
    let i = r * input.flat.cols + c;
    assert((read.finite)(input.flat.data@[i]));
    if let Some(m) = mask {
        assert((read.finite)(m.flat.data@[i]));
        assert(times_gives(input.flat.data@[i], m.flat.data@[i], output.flat.data@[i]));
        lemma_distribute(
            (read.value)(input.flat.data@[i]),
            (read.value)(m.flat.data@[i]),
            0 as real,
        );
    }
}

/// Softmaxes that agree.
pub proof fn lemma_is_softmax_same(
    exp: spec_fn(real) -> real,
    n: nat,
    s: spec_fn(int) -> real,
    p: spec_fn(int) -> real,
    q: spec_fn(int) -> real,
)
    requires
        is_softmax(exp, n, s, p),
        forall|u: int| 0 <= u < n ==> #[trigger] q(u) == p(u),
    ensures
        is_softmax(exp, n, s, q),
{
    let shift = choose|shift: real| #[trigger] is_softmax_shifted(exp, n, s, p, shift);
    assert forall|u: int| 0 <= u < n implies #[trigger] q(u) == exp(s(u) - shift) / series(
        n,
        |j: int| exp(s(j) - shift),
    ) by {
        assert(p(u) == exp(s(u) - shift) / series(n, |j: int| exp(s(j) - shift)));
    }
    assert(is_softmax_shifted(exp, n, s, q, shift));
}

/// Where the heads find their queries, keys and values.
proof fn lemma_part_reads<T: Real>(
    read: Reading<T>,
    qkv: Tensor3<T>,
    q: Table,
    part: int,
    n_head: int,
    size: int,
    out: Tensor3<T>,
    b: int,
    h: int,
    t: int,
    c: int,
)
    requires
        n_head > 0,
        size > 0,
        0 <= part < 3,
        qkv.has_shape(qkv.outer as int, qkv.inner as int, 3 * (n_head * size)),
        packed(qkv, part * (n_head * size), n_head, size, out),
        forall|r: int, y: int|
            0 <= r < qkv.flat.rows && 0 <= y < qkv.flat.cols ==> #[trigger] cells(read, qkv.flat)(
                r,
                y,
            ) == q(r, y),
        0 <= b < qkv.outer,
        0 <= h < n_head,
        0 <= t < qkv.inner,
        0 <= c < size,
    ensures
        0 <= b * n_head + h < out.outer,
        (read.value)(out.cell(b * n_head + h, t, c)) == q(
            b * qkv.inner + t,
            part * (n_head * size) + h * size + c,
        ),
{
    let head = b * n_head + h;
    lemma_index_in_range(b, qkv.outer as int, h, n_head);
    lemma_index_split(b, h, n_head);
    lemma_index_in_range(h, n_head, c, size);
    lemma_index_in_range(b, qkv.outer as int, t, qkv.inner as int);
    let w = n_head * size;
    let y = part * w + h * size + c;
    assert(0 <= y < 3 * w) by (nonlinear_arith)
        requires
            0 <= part < 3,
            0 <= h * size + c < w,
            y == part * w + h * size + c,
    ;
    assert(out.cell(head, t, c) == qkv.cell(b, t, y));
    assert(cells(read, qkv.flat)(b * qkv.inner + t, y) == q(b * qkv.inner + t, y));
}

/// The weights of a row.
proof fn lemma_row_attends<T: Real>(
    read: Reading<T>,
    layer: MultiHeadSelfAttention<T>,
    qkv: Tensor3<T>,
    q: Table,
    scale: T,
    cache: AttentionCache<T>,
    b: int,
    h: int,
    t: int,
)
    requires
        is_exact(read),
        layer.n_head > 0,
        layer.head_size > 0,
        attention_cache_finite(read, cache),
        cache.has_shape(
            qkv.outer as int,
            qkv.inner as int,
            layer.n_head as int,
            layer.head_size as int,
        ),
        qkv.has_shape(
            qkv.outer as int,
            qkv.inner as int,
            3 * (layer.n_head * layer.head_size),
        ),
        forall|r: int, y: int|
            0 <= r < qkv.flat.rows && 0 <= y < qkv.flat.cols ==> #[trigger] cells(read, qkv.flat)(
                r,
                y,
            ) == q(r, y),
        packed(qkv, 0, layer.n_head as int, layer.head_size as int, cache.q),
        packed(
            qkv,
            layer.n_head * layer.head_size,
            layer.n_head as int,
            layer.head_size as int,
            cache.k,
        ),
        scale_gives(layer.head_size, scale),
        att_probs_give(cache.q, cache.k, scale, cache.att_probs),
        0 <= b < qkv.outer,
        0 <= h < layer.n_head,
        0 <= t < qkv.inner,
    ensures
        row_attends(
            read,
            q,
            layer.n_head as int,
            layer.head_size as int,
            qkv.inner as int,
            cache.att_probs,
            b,
            h,
            t,
        ),
{
    let v = read.value;
    let (n_head, size) = (layer.n_head as int, layer.head_size as int);
    let (batch, time) = (qkv.outer as int, qkv.inner as int);
    let head = b * n_head + h;
    lemma_index_in_range(b, batch, h, n_head);
    lemma_scale_value(read, layer.head_size, scale);
    lemma_parts_finite(read, cache.q);
    lemma_parts_finite(read, cache.k);
    let (row, keys, out) = (
        cache.q.row(head, t),
        cache.k.slab_rows(head),
        cache.att_probs.row(head, t),
    );
    assert(probs_give(row, keys, t, scale, out));
    let scores = choose|scores: Seq<T>| #[trigger]
        scores_give(row, keys, t, scale, scores) && softmax_gives(scores, out);
    let s = |u: int| score_of(q, n_head, size, time, b, h, t, u);
    let n = (t + 1) as nat;
    assert forall|u: int| 0 <= u < n implies (read.finite)(#[trigger] scores[u]) && v(scores[u])
        == s(u) by {
        assert(score_gives(row, keys[u], t, u, scale, scores[u]));
        let key = keys[u];
        assert(key == cache.k.row(head, u));
        assert(all_finite(read, key) && all_finite(read, row));
        let product = choose|product: T| #[trigger]
            dot_gives(row, key, product) && times_gives(product, scale, scores[u]);
        lemma_dot_exact(read, row, key, product);
        lemma_dot_is_series(read, row, key);
        let (f, g) = (
            |c: int| v(row[c]) * v(key[c]),
            |c: int| q(b * time + t, h * size + c) * q(b * time + u, n_head * size + h * size + c),
        );
        assert forall|c: int| 0 <= c < size implies #[trigger] f(c) == g(c) by {
            lemma_part_reads(read, qkv, q, 0, n_head, size, cache.q, b, h, t, c);
            lemma_part_reads(read, qkv, q, 1, n_head, size, cache.k, b, h, u, c);
            assert(row[c] == cache.q.cell(head, t, c));
            assert(key[c] == cache.k.cell(head, u, c));
        }
        lemma_series_same(size as nat, f, g);
        lemma_distribute(v(product), v(scale), 0 as real);
    }
    assert forall|u: int| n <= u < scores.len() implies (read.bottom)(#[trigger] scores[u]) by {
        assert(score_gives(row, keys[u], t, u, scale, scores[u]));
    }
    lemma_softmax_reads(read, scores, out, n, s);
    let place = head * time + t;
    let (p, r) = (|u: int| v(out[u]), |u: int| v(cache.att_probs.flat.at(place, u)));
    assert forall|u: int| 0 <= u < n implies #[trigger] r(u) == p(u) by {
        assert(out[u] == cache.att_probs.flat.at(place, u));
    }
    lemma_is_softmax_same(read.exp, n, s, p, r);
    assert forall|u: int| t < u < time implies v(#[trigger] cache.att_probs.flat.at(place, u))
        == 0 as real by {
        assert(out[u] == cache.att_probs.flat.at(place, u));
        assert(v(out[u]) == 0 as real);
    }
}

/// What an entry of the context reads as.
proof fn lemma_context_reads<T: Real>(
    read: Reading<T>,
    layer: MultiHeadSelfAttention<T>,
    qkv: Tensor3<T>,
    q: Table,
    training: bool,
    rate: T,
    cache: AttentionCache<T>,
    before: SmallRng,
    mid: SmallRng,
    r: int,
    x: int,
)
    requires
        is_exact(read),
        layer.n_head > 0,
        layer.head_size > 0,
        (read.finite)(rate),
        attention_cache_finite(read, cache),
        cache.has_shape(
            qkv.outer as int,
            qkv.inner as int,
            layer.n_head as int,
            layer.head_size as int,
        ),
        qkv.has_shape(
            qkv.outer as int,
            qkv.inner as int,
            3 * (layer.n_head * layer.head_size),
        ),
        forall|r: int, y: int|
            0 <= r < qkv.flat.rows && 0 <= y < qkv.flat.cols ==> #[trigger] cells(read, qkv.flat)(
                r,
                y,
            ) == q(r, y),
        packed(
            qkv,
            2 * (layer.n_head * layer.head_size),
            layer.n_head as int,
            layer.head_size as int,
            cache.v,
        ),
        dropout_gives(
            cache.att_probs,
            rate,
            training,
            cache.att_dropped,
            cache.att_dropout_mask,
            before,
            mid,
        ),
        context_gives(
            cache.att_dropped,
            cache.v,
            layer.n_head as int,
            layer.head_size as int,
            qkv.outer as int,
            cache.context,
        ),
        0 <= r < qkv.flat.rows,
        0 <= x < layer.n_head * layer.head_size,
    ensures
        cells(read, cache.context.flat)(r, x) == context_of(
            read,
            layer.n_head as int,
            layer.head_size as int,
            qkv.inner as int,
            cache.att_probs,
            cache.att_dropout_mask,
            q,
        )(r, x),
{
    let v = read.value;
    let (n_head, size) = (layer.n_head as int, layer.head_size as int);
    let (batch, time) = (qkv.outer as int, qkv.inner as int);
    assert(time > 0) by (nonlinear_arith)
        requires
            0 <= r < batch * time,
            time >= 0,
    ;
    lemma_split_index(r, batch, time);
    lemma_split_index(x, n_head, size);
    let (b, t, h, c) = (r / time, r % time, x / size, x % size);
    let head = b * n_head + h;
    lemma_index_in_range(b, batch, h, n_head);
    lemma_index_in_range(head, batch * n_head, t, time);
    lemma_parts_finite(read, cache.att_dropped);
    lemma_parts_finite(read, cache.v);
    let (row, col) = (cache.att_dropped.row(head, t), cache.v.col(head, c));
    let out = cache.context.cell(b, t, x);
    assert(dot_gives(row, col, out));
    lemma_dot_exact(read, row, col, out);
    lemma_dot_is_series(read, row, col);
    let kept = masked(read, cache.att_dropout_mask, cells(read, cache.att_probs.flat));
    let place = head * time + t;
    let (f, g) = (
        |u: int| v(row[u]) * v(col[u]),
        |u: int|
            kept(((r / time) * n_head + x / size) * time + r % time, u) * q(
                (r / time) * time + u,
                2 * (n_head * size) + x,
            ),
    );
    assert forall|u: int| 0 <= u < time implies #[trigger] f(u) == g(u) by {
        lemma_dropout_reads(
            read,
            cache.att_probs,
            rate,
            training,
            cache.att_dropped,
            cache.att_dropout_mask,
            before,
            mid,
            place,
            u,
        );
        lemma_part_reads(read, qkv, q, 2, n_head, size, cache.v, b, h, u, c);
        assert(row[u] == cache.att_dropped.flat.at(place, u));
        assert(col[u] == cache.v.cell(head, u, c));
        assert(h * size + c == x);
    }
    lemma_series_same(time as nat, f, g);
}

/// What attention reads as, given that it was run: its weights are those of [`attends`], and its
/// output is what [`attention_of`] makes with them.
pub proof fn lemma_attention_reads<T: Real>(
    read: Reading<T>,
    layer: MultiHeadSelfAttention<T>,
    block_size: int,
    input: Tensor3<T>,
    training: bool,
    rate: T,
    output: Tensor3<T>,
    cache: AttentionCache<T>,
    before: SmallRng,
    after: SmallRng,
)
    requires
        is_exact(read),
        input.flat.cols > 0,
        layer.has_shape(input.flat.cols as int, block_size),
        layer_is_finite(read, layer.qkv),
        layer_is_finite(read, layer.proj),
        (read.finite)(rate),
        stack_finite(read, input),
        attention_gives(layer, input, training, rate, output, cache, before, after),
    ensures
        cache.input.same(input),
        attends(
            read,
            layer,
            input.outer as int,
            input.inner as int,
            cache.att_probs,
            cells(read, cache.input.flat),
        ),
        forall|r: int, c: int|
            0 <= r < input.flat.rows && 0 <= c < input.flat.cols ==> #[trigger] cells(
                read,
                output.flat,
            )(r, c) == attention_of(
                read,
                layer,
                input.inner as int,
                cache,
                cells(read, cache.input.flat),
            )(r, c),
{
    let (n_head, size) = (layer.n_head as int, layer.head_size as int);
    let (batch, time) = (input.outer as int, input.inner as int);
    lemma_head_size_positive(n_head, size, input.flat.cols as int);
    lemma_attention_stays_finite(
        read,
        layer,
        block_size,
        input,
        training,
        rate,
        output,
        cache,
        before,
        after,
    );
    let (qkv, scale, projected, mid) = choose|
        qkv: Tensor3<T>,
        scale: T,
        projected: Tensor3<T>,
        mid: SmallRng,
    |
        attention_steps_give(
            layer,
            input,
            training,
            rate,
            output,
            cache,
            before,
            after,
            qkv,
            scale,
            projected,
            mid,
        );
    let x = cells(read, cache.input.flat);
    let q = linear_of(read, layer.qkv, x);
    assert forall|r: int, y: int| 0 <= r < qkv.flat.rows && 0 <= y < qkv.flat.cols implies (
    #[trigger] cells(read, qkv.flat)(r, y)) == q(r, y) by {
        lemma_linear_reads(read, layer.qkv, input, qkv, r, y);
        lemma_linear_of_same(read, layer.qkv, cells(read, input.flat), x, r, y);
    }
    assert forall|b: int, h: int, t: int|
        0 <= b < batch && 0 <= h < n_head && 0 <= t < time implies #[trigger] row_attends(
        read,
        q,
        n_head,
        size,
        time,
        cache.att_probs,
        b,
        h,
        t,
    ) by {
        lemma_row_attends(read, layer, qkv, q, scale, cache, b, h, t);
    }
    let context = context_of(
        read,
        n_head,
        size,
        time,
        cache.att_probs,
        cache.att_dropout_mask,
        q,
    );
    lemma_linear_stays_finite(read, layer.proj, cache.context, projected);
    assert forall|r: int, c: int| 0 <= r < input.flat.rows && 0 <= c < input.flat.cols implies (
    #[trigger] cells(read, output.flat)(r, c)) == attention_of(read, layer, time, cache, x)(
        r,
        c,
    ) by {
        lemma_dropout_reads(
            read,
            projected,
            rate,
            training,
            output,
            cache.proj_dropout_mask,
            mid,
            after,
            r,
            c,
        );
        lemma_linear_reads(read, layer.proj, cache.context, projected, r, c);
        let made = cells(read, cache.context.flat);
        assert forall|i: int| 0 <= i < layer.proj.weight.value.rows implies #[trigger] made(r, i)
            == context(r, i) by {
            lemma_context_reads(
                read,
                layer,
                qkv,
                q,
                training,
                rate,
                cache,
                before,
                mid,
                r,
                i,
            );
        }
        lemma_linear_of_same(read, layer.proj, made, context, r, c);
    }
}

} // verus!
