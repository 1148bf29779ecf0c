//! Multi-head causal self-attention.

use crate::dropout::{
    dropout, dropout_backward, dropout_backward_gives, dropout_gives, rate_refused, rate_zero_gives,
    InvalidRate,
};
use crate::grid::{flag_dim, flag_items, FlagArray};
use crate::linear::{
    fresh_linear, linear_backward_gives, linear_gives, linear_grads_cleared, linear_step_gives,
    Linear,
};
use crate::optim::AdamStep;
use crate::parallel::par_map;
use crate::reduce::{
    dot_gives, matmul, matmul_transposed, row_dot_row, softmax_gives, softmax_slice,
    transposed_matmul,
};
use crate::scalar::{
    count_gives, minus_gives, negative_infinity_gives, one_gives, over_gives, sqrt_gives,
    times_gives, zero_gives, Real,
};
use crate::tensor::{
    lemma_index_in_range, lemma_index_split, lemma_split_index, tabulate, Tensor2, Tensor3,
};
use rand::rngs::SmallRng;
use vstd::prelude::*;

verus! {

/// What going back through the layer needs.
pub struct AttentionCache<T> {
    pub input: Tensor3<T>,
    pub q: Tensor3<T>,
    pub k: Tensor3<T>,
    pub v: Tensor3<T>,
    pub att_probs: Tensor3<T>,
    pub att_dropped: Tensor3<T>,
    pub att_dropout_mask: Option<Tensor3<T>>,
    pub context: Tensor3<T>,
    pub proj_dropout_mask: Option<Tensor3<T>>,
}

/// Self-attention with `n_head` heads of `head_size` channels each, in which a position sees
/// itself and what stands before it.
pub struct MultiHeadSelfAttention<T> {
    pub n_head: usize,
    pub head_size: usize,
    pub qkv: Linear<T>,
    pub proj: Linear<T>,
    pub causal_mask: FlagArray,
}

impl<T> MultiHeadSelfAttention<T> {
    /// How many rows a sequence may have.
    pub open spec fn block_size(self) -> int {
        flag_dim(self.causal_mask).0 as int
    }

    /// The layer takes rows of `n_embd` numbers, in sequences of up to `block_size` rows.
    pub open spec fn has_shape(self, n_embd: int, block_size: int) -> bool {
        &&& self.n_head > 0
        &&& self.n_head * self.head_size == n_embd
        &&& self.qkv.has_shape(n_embd, 3 * n_embd)
        &&& self.proj.has_shape(n_embd, n_embd)
        &&& self.causal_mask.is_causal(block_size)
    }
}

impl<T> AttentionCache<T> {
    /// The cache belongs to `batch` sequences of `time` rows, and to heads of these numbers.
    pub open spec fn has_shape(self, batch: int, time: int, n_head: int, head_size: int) -> bool {
        let heads = batch * n_head;
        &&& self.input.has_shape(batch, time, n_head * head_size)
        &&& self.q.has_shape(heads, time, head_size)
        &&& self.k.has_shape(heads, time, head_size)
        &&& self.v.has_shape(heads, time, head_size)
        &&& self.att_probs.has_shape(heads, time, time)
        &&& self.att_dropped.has_shape(heads, time, time)
        &&& self.att_dropout_mask matches Some(mask) ==> mask.has_shape(heads, time, time)
        &&& self.context.has_shape(batch, time, n_head * head_size)
        &&& self.proj_dropout_mask matches Some(mask) ==> mask.has_shape(
            batch,
            time,
            n_head * head_size,
        )
    }
}

/// `r` is one over the square root of `head_size`.
pub open spec fn scale_gives<T: Real>(head_size: usize, r: T) -> bool {
    exists|count: T, root: T, one: T|
        count_gives(head_size, count) && #[trigger] sqrt_gives(count, root) && one_gives(one)
            && #[trigger] over_gives(one, root, r)
}

/// `out` holds one of the three parts (queries, keys, values) of `qkv`, head by head: head `h`
/// of sequence `b` is matrix `b * n_head + h`, and takes its columns from `offset + h *
/// head_size` on.
pub open spec fn packed<T>(
    qkv: Tensor3<T>,
    offset: int,
    n_head: int,
    head_size: int,
    out: Tensor3<T>,
) -> bool {
    out.has_shape(qkv.outer * n_head, qkv.inner as int, head_size) && forall|
        head: int,
        t: int,
        c: int,
    |
        0 <= head < out.outer && 0 <= t < out.inner && 0 <= c < head_size ==> #[trigger] out.cell(
            head,
            t,
            c,
        ) == qkv.cell(head / n_head, t, offset + (head % n_head) * head_size + c)
}

/// Column `y` of row `t` of sequence `b`, where the queries, keys and values of all heads stand
/// one behind the other.
pub open spec fn unpacked_entry<T>(
    q: Tensor3<T>,
    k: Tensor3<T>,
    v: Tensor3<T>,
    n_head: int,
    head_size: int,
    b: int,
    t: int,
    y: int,
) -> T {
    let part = (y / head_size) / n_head;
    let h = (y / head_size) % n_head;
    let c = y % head_size;
    if part == 0 {
        q.cell(b * n_head + h, t, c)
    } else if part == 1 {
        k.cell(b * n_head + h, t, c)
    } else {
        v.cell(b * n_head + h, t, c)
    }
}

/// `out` holds the queries, keys and values of all heads side by side.
pub open spec fn unpacked<T>(
    q: Tensor3<T>,
    k: Tensor3<T>,
    v: Tensor3<T>,
    n_head: int,
    head_size: int,
    batch: int,
    time: int,
    out: Tensor3<T>,
) -> bool {
    out.has_shape(batch, time, 3 * (n_head * head_size)) && forall|b: int, t: int, y: int|
        0 <= b < batch && 0 <= t < time && 0 <= y < 3 * (n_head * head_size)
            ==> #[trigger] out.cell(b, t, y) == unpacked_entry(
            q,
            k,
            v,
            n_head,
            head_size,
            b,
            t,
            y,
        )
}

/// `r` is the score of a query `i` and a key `j`: minus infinity where the key stands behind the
/// query, else their inner product times `scale`.
pub open spec fn score_gives<T: Real>(
    q: Seq<T>,
    key: Seq<T>,
    i: int,
    j: int,
    scale: T,
    r: T,
) -> bool {
    if j > i {
        negative_infinity_gives(r)
    } else {
        exists|product: T| #[trigger] dot_gives(q, key, product) && times_gives(product, scale, r)
    }
}

/// `scores` are the scores of query `i` with all keys.
pub open spec fn scores_give<T: Real>(
    q: Seq<T>,
    keys: Seq<Seq<T>>,
    i: int,
    scale: T,
    scores: Seq<T>,
) -> bool {
    scores.len() == keys.len() && forall|j: int|
        0 <= j < keys.len() ==> score_gives(q, keys[j], i, j, scale, #[trigger] scores[j])
}

/// `probs` is the softmax of the scores of query `i`.
pub open spec fn probs_give<T: Real>(
    q: Seq<T>,
    keys: Seq<Seq<T>>,
    i: int,
    scale: T,
    probs: Seq<T>,
) -> bool {
    exists|scores: Seq<T>| #[trigger]
        scores_give(q, keys, i, scale, scores) && softmax_gives(scores, probs)
}

/// `probs` are the attention probabilities of all queries of all heads.
pub open spec fn att_probs_give<T: Real>(
    q: Tensor3<T>,
    k: Tensor3<T>,
    scale: T,
    probs: Tensor3<T>,
) -> bool {
    probs.has_shape(q.outer as int, q.inner as int, q.inner as int) && forall|head: int, i: int|
        0 <= head < q.outer && 0 <= i < q.inner ==> probs_give(
            q.row(head, i),
            k.slab_rows(head),
            i,
            scale,
            #[trigger] probs.row(head, i),
        )
}

/// `context` holds, for every position, the values weighted by `att`, head beside head.
pub open spec fn context_gives<T: Real>(
    att: Tensor3<T>,
    v: Tensor3<T>,
    n_head: int,
    head_size: int,
    batch: int,
    context: Tensor3<T>,
) -> bool {
    context.has_shape(batch, att.inner as int, n_head * head_size) && forall|
        b: int,
        t: int,
        x: int,
    |
        0 <= b < batch && 0 <= t < att.inner && 0 <= x < n_head * head_size ==> dot_gives(
            att.row(b * n_head + x / head_size, t),
            v.col(b * n_head + x / head_size, x % head_size),
            #[trigger] context.cell(b, t, x),
        )
}

/// `output` and `cache` are what the layer makes of `input`; the generator `before` is left as
/// `after`.
pub open spec fn attention_gives<T: Real>(
    layer: MultiHeadSelfAttention<T>,
    input: Tensor3<T>,
    training: bool,
    dropout_v: T,
    output: Tensor3<T>,
    cache: AttentionCache<T>,
    before: SmallRng,
    after: SmallRng,
) -> bool {
    exists|qkv: Tensor3<T>, scale: T, projected: Tensor3<T>, mid: SmallRng|
        attention_steps_give(
            layer,
            input,
            training,
            dropout_v,
            output,
            cache,
            before,
            after,
            qkv,
            scale,
            projected,
            mid,
        )
}

/// The steps of [`attention_gives`], with what stands between them: the queries, keys and values
/// side by side, the scale of the scores, the projection before its dropout, and the generator
/// between the two dropouts.
pub open spec fn attention_steps_give<T: Real>(
    layer: MultiHeadSelfAttention<T>,
    input: Tensor3<T>,
    training: bool,
    dropout_v: T,
    output: Tensor3<T>,
    cache: AttentionCache<T>,
    before: SmallRng,
    after: SmallRng,
    qkv: Tensor3<T>,
    scale: T,
    projected: Tensor3<T>,
    mid: SmallRng,
) -> bool {
    let (n_head, head_size) = (layer.n_head as int, layer.head_size as int);
    let n_embd = n_head * head_size;
    &&& cache.has_shape(input.outer as int, input.inner as int, n_head, head_size)
    &&& cache.input.same(input)
    &&& linear_gives(layer.qkv, input, qkv)
    &&& packed(qkv, 0, n_head, head_size, cache.q)
    &&& packed(qkv, n_embd, n_head, head_size, cache.k)
    &&& packed(qkv, 2 * n_embd, n_head, head_size, cache.v)
    &&& scale_gives(layer.head_size, scale)
    &&& att_probs_give(cache.q, cache.k, scale, cache.att_probs)
    &&& dropout_gives(
        cache.att_probs,
        dropout_v,
        training,
        cache.att_dropped,
        cache.att_dropout_mask,
        before,
        mid,
    )
    &&& context_gives(
        cache.att_dropped,
        cache.v,
        n_head,
        head_size,
        input.outer as int,
        cache.context,
    )
    &&& linear_gives(layer.proj, cache.context, projected)
    &&& dropout_gives(
        projected,
        dropout_v,
        training,
        output,
        cache.proj_dropout_mask,
        mid,
        after,
    )
}

impl<T> Tensor3<T> {
    /// The rows of matrix `i`.
    pub open spec fn slab_rows(self, i: int) -> Seq<Seq<T>> {
        Seq::new(self.inner as nat, |j: int| self.row(i, j))
    }
}

/// The attention probabilities of one head.
fn head_probs<T: Real>(
    q: &Tensor2<T>,
    k: &Tensor2<T>,
    mask: &FlagArray,
    scale: T,
    Ghost(block_size): Ghost<int>,
) -> (probs: Tensor2<T>)
    requires
        q.wf(),
        k.has_shape(q.rows as int, q.cols as int),
        mask.is_causal(block_size),
        q.rows <= block_size,
    ensures
        probs.has_shape(q.rows as int, q.rows as int),
        forall|i: int|
            0 <= i < q.rows ==> probs_give(
                q.row(i),
                Seq::new(k.rows as nat, |j: int| k.row(j)),
                i,
                scale,
                #[trigger] probs.row(i),
            ),
{
    let time: usize = q.rows;
    let ghost keys = Seq::new(k.rows as nat, |j: int| k.row(j));
    let products = matmul_transposed(q, k);
    let mut rows: Vec<Vec<T>> = Vec::new();
    let mut i: usize = 0;
    while i < time
        invariant
            i <= time,
            time == q.rows,
            q.wf(),
            k.has_shape(q.rows as int, q.cols as int),
            mask.is_causal(block_size),
            time <= block_size,
            keys == Seq::new(k.rows as nat, |j: int| k.row(j)),
            products.has_shape(time as int, time as int),
            forall|a: int, b: int|
                0 <= a < time && 0 <= b < time ==> dot_gives(
                    q.row(a),
                    k.row(b),
                    #[trigger] products.at(a, b),
                ),
            rows@.len() == i,
            forall|a: int| 0 <= a < i ==> (#[trigger] rows@[a])@.len() == time,
            forall|a: int|
                0 <= a < i ==> probs_give(q.row(a), keys, a, scale, (#[trigger] rows@[a])@),
        decreases time - i,
    {
        let mut row: Vec<T> = Vec::new();
        let mut j: usize = 0;
        while j < time
            invariant
                i < time,
                j <= time,
                time <= block_size,
                mask.is_causal(block_size),
                keys == Seq::new(k.rows as nat, |j: int| k.row(j)),
                k.rows == time,
                products.has_shape(time as int, time as int),
                forall|a: int, b: int|
                    0 <= a < time && 0 <= b < time ==> dot_gives(
                        q.row(a),
                        k.row(b),
                        #[trigger] products.at(a, b),
                    ),
                row@.len() == j,
                forall|b: int|
                    0 <= b < j ==> score_gives(
                        q.row(i as int),
                        keys[b],
                        i as int,
                        b,
                        scale,
                        #[trigger] row@[b],
                    ),
            decreases time - j,
        {
            let score = products.get(i, j).times(scale);
            let masked = mask.get(i, j);
            assert(flag_items(*mask)[i * block_size + j] == (j > i));
            if masked {
                row.push(T::negative_infinity());
            } else {
                row.push(score);
            }
            j = j + 1;
        }
        let ghost scores = row@;
        assert(scores_give(q.row(i as int), keys, i as int, scale, scores));
        softmax_slice(&mut row);
        rows.push(row);
        i = i + 1;
    }
    let ghost parts = rows@;
    let probs = Tensor2::from_rows(rows, time);
    proof {
        assert forall|a: int| 0 <= a < time implies probs_give(
            q.row(a),
            keys,
            a,
            scale,
            #[trigger] probs.row(a),
        ) by {
            assert(probs.row(a) == parts[a]@);
        }
    }
    probs
}

/// The matrices side by side.
fn beside<T: Copy>(parts: &Vec<Tensor2<T>>, rows: usize, width: usize) -> (whole: Tensor2<T>)
    requires
        width > 0,
        parts@.len() * width <= usize::MAX,
        forall|i: int|
            0 <= i < parts@.len() ==> (#[trigger] parts@[i]).has_shape(rows as int, width as int),
    ensures
        whole.has_shape(rows as int, parts@.len() * width),
        forall|r: int, x: int|
            0 <= r < rows && 0 <= x < parts@.len() * width ==> #[trigger] whole.at(r, x)
                == parts@[x / (width as int)].at(r, x % (width as int)),
{
    let cols: usize = parts.len() * width;
    let lines = tabulate(rows, |r: usize| -> (line: Vec<T>)
        requires
            r < rows,
            width > 0,
            cols == parts@.len() * width,
            forall|i: int|
                0 <= i < parts@.len()
                    ==> (#[trigger] parts@[i]).has_shape(rows as int, width as int),
        ensures
            line@.len() == cols,
            forall|x: int|
                0 <= x < cols
                    ==> #[trigger] line@[x] == parts@[x / (width as int)].at(r as int, x % (width as int)),
        {
            tabulate(cols, |x: usize| -> (value: T)
                requires
                    r < rows,
                    x < cols,
                    width > 0,
                    cols == parts@.len() * width,
                    forall|i: int|
                        0 <= i < parts@.len()
                            ==> (#[trigger] parts@[i]).has_shape(rows as int, width as int),
                ensures
                    value == parts@[x as int / (width as int)].at(r as int, x as int % (width as int)),
                {
                    proof {
                        lemma_split_index(x as int, parts@.len() as int, width as int);
                    }
                    parts[x / width].get(r, x % width)
                })
        });
    Tensor2::from_rows(lines, cols)
}

/// The heads of all sequences find room, where the queries, keys and values do.
proof fn lemma_heads_fit(batch: int, time: int, n_head: int, head_size: int, limit: int)
    requires
        0 <= batch,
        0 < time,
        0 < n_head,
        0 < head_size,
        (batch * time) * (3 * (n_head * head_size)) <= limit,
    ensures
        0 <= batch * n_head <= limit,
        0 <= (batch * n_head) * time <= limit,
        0 <= n_head * head_size,
{
    assert(n_head <= 3 * (n_head * head_size)) by (nonlinear_arith)
        requires
            0 < n_head,
            0 < head_size,
    ;
    let wide = 3 * (n_head * head_size);
    assert(0 <= batch * time) by (nonlinear_arith)
        requires
            0 <= batch,
            0 < time,
    ;
    assert((batch * time) * n_head <= (batch * time) * wide) by (nonlinear_arith)
        requires
            0 <= batch * time,
            n_head <= wide,
    ;
    assert((batch * n_head) * time == (batch * time) * n_head) by (nonlinear_arith);
    assert(0 <= batch * n_head <= (batch * n_head) * time) by (nonlinear_arith)
        requires
            0 <= batch,
            0 < n_head,
            0 < time,
    ;
}

/// Head `h` of `n_head` heads takes `head_size` columns among `n_head * head_size`.
proof fn lemma_head_columns(h: int, n_head: int, head_size: int)
    requires
        0 <= h < n_head,
        0 <= head_size,
    ensures
        0 <= h * head_size,
        h * head_size + head_size <= n_head * head_size,
{
    assert(0 <= h * head_size && h * head_size + head_size <= n_head * head_size)
        by (nonlinear_arith)
        requires
            0 <= h < n_head,
            0 <= head_size,
    ;
}

/// One of the three parts of `qkv`, head by head.
fn pack_part<T: Real>(qkv: &Tensor3<T>, offset: usize, n_head: usize, head_size: usize) -> (part:
    Tensor3<T>)
    requires
        qkv.wf(),
        qkv.inner > 0,
        n_head > 0,
        head_size > 0,
        qkv.flat.cols == 3 * (n_head * head_size),
        offset + n_head * head_size <= qkv.flat.cols,
    ensures
        packed(*qkv, offset as int, n_head as int, head_size as int, part),
{
    proof {
        assert(qkv.flat.data@.len() == qkv.flat.data.len());
        lemma_heads_fit(
            qkv.outer as int,
            qkv.inner as int,
            n_head as int,
            head_size as int,
            usize::MAX as int,
        );
    }
    let heads: usize = qkv.outer * n_head;
    let slabs = par_map(heads, |head: usize| -> (slab: Tensor2<T>)
        requires
            head < heads,
            heads == qkv.outer * n_head,
            qkv.wf(),
            n_head > 0,
            offset + n_head * head_size <= qkv.flat.cols,
        ensures
            slab.has_shape(qkv.inner as int, head_size as int),
            forall|t: int, c: int|
                0 <= t < qkv.inner && 0 <= c < head_size ==> #[trigger] slab.at(t, c)
                == qkv.cell(
                    head as int / (n_head as int),
                    t,
                    offset + (head as int % (n_head as int)) * head_size + c,
                ),
        {
            let b: usize = head / n_head;
            let h: usize = head % n_head;
            proof {
                lemma_split_index(head as int, qkv.outer as int, n_head as int);
                lemma_head_columns(h as int, n_head as int, head_size as int);
            }
            qkv.slab(b).columns(offset + h * head_size, head_size)
        });
    Tensor3::stack(slabs, qkv.inner, head_size)
}

impl<T: Real> MultiHeadSelfAttention<T> {
    /// The queries, the keys and the values of `qkv`, each head by head.
    pub fn pack_qkv(&self, qkv: &Tensor3<T>) -> (parts: (Tensor3<T>, Tensor3<T>, Tensor3<T>))
        requires
            qkv.wf(),
            qkv.inner > 0,
            self.n_head > 0,
            self.head_size > 0,
            qkv.flat.cols == 3 * (self.n_head * self.head_size),
        ensures
            packed(*qkv, 0, self.n_head as int, self.head_size as int, parts.0),
            packed(
                *qkv,
                self.n_head * self.head_size,
                self.n_head as int,
                self.head_size as int,
                parts.1,
            ),
            packed(
                *qkv,
                2 * (self.n_head * self.head_size),
                self.n_head as int,
                self.head_size as int,
                parts.2,
            ),
    {
        let n_embd: usize = self.n_head * self.head_size;
        let q = pack_part(qkv, 0, self.n_head, self.head_size);
        let k = pack_part(qkv, n_embd, self.n_head, self.head_size);
        let v = pack_part(qkv, 2 * n_embd, self.n_head, self.head_size);
        (q, k, v)
    }

    /// The gradients of the queries, keys and values of all heads, side by side.
    pub fn unpack_qkv_grads(
        &self,
        grad_q: &Tensor3<T>,
        grad_k: &Tensor3<T>,
        grad_v: &Tensor3<T>,
        batch: usize,
        time: usize,
    ) -> (grad_qkv: Tensor3<T>)
        requires
            time > 0,
            self.n_head > 0,
            self.head_size > 0,
            batch * time <= usize::MAX,
            3 * (self.n_head * self.head_size) <= usize::MAX,
            grad_q.has_shape(batch * self.n_head, time as int, self.head_size as int),
            grad_k.has_shape(batch * self.n_head, time as int, self.head_size as int),
            grad_v.has_shape(batch * self.n_head, time as int, self.head_size as int),
        ensures
            unpacked(
                *grad_q,
                *grad_k,
                *grad_v,
                self.n_head as int,
                self.head_size as int,
                batch as int,
                time as int,
                grad_qkv,
            ),
    {
        let n_head: usize = self.n_head;
        let head_size: usize = self.head_size;
        let width: usize = 3 * (n_head * head_size);
        let slabs = par_map(batch, |b: usize| -> (slab: Tensor2<T>)
            requires
                b < batch,
                n_head > 0,
                head_size > 0,
                width == 3 * (n_head * head_size),
                grad_q.has_shape(batch * n_head, time as int, head_size as int),
                grad_k.has_shape(batch * n_head, time as int, head_size as int),
                grad_v.has_shape(batch * n_head, time as int, head_size as int),
            ensures
                slab.has_shape(time as int, width as int),
                forall|t: int, y: int| 0 <= t < time && 0 <= y < width ==> #[trigger] slab.at(t, y)
                    == unpacked_entry(
                        *grad_q,
                        *grad_k,
                        *grad_v,
                        n_head as int,
                        head_size as int,
                        b as int,
                        t,
                        y,
                    ),
            {
                proof {
                    lemma_heads_of(b as int, batch as int, n_head as int);
                }
                unpacked_slab(grad_q, grad_k, grad_v, n_head, head_size, b, width)
            });
        Tensor3::stack(slabs, time, width)
    }
}

/// The queries, keys and values of sequence `b`, side by side.
fn unpacked_slab<T: Real>(
    q: &Tensor3<T>,
    k: &Tensor3<T>,
    v: &Tensor3<T>,
    n_head: usize,
    head_size: usize,
    b: usize,
    width: usize,
) -> (slab: Tensor2<T>)
    requires
        q.wf(),
        k.has_shape(q.outer as int, q.inner as int, head_size as int),
        v.has_shape(q.outer as int, q.inner as int, head_size as int),
        q.flat.cols == head_size,
        n_head > 0,
        head_size > 0,
        b * n_head + n_head <= q.outer,
        width == 3 * (n_head * head_size),
    ensures
        slab.has_shape(q.inner as int, width as int),
        forall|t: int, y: int|
            0 <= t < q.inner && 0 <= y < width ==> #[trigger] slab.at(t, y) == unpacked_entry(
                *q,
                *k,
                *v,
                n_head as int,
                head_size as int,
                b as int,
                t,
                y,
            ),
{
    let ghost count: int = 3 * n_head;
    proof {
        assert(count * head_size == width) by (nonlinear_arith)
            requires
                count == 3 * n_head,
                width == 3 * (n_head * head_size),
        ;
        assert(count <= width) by (nonlinear_arith)
            requires
                count * head_size == width,
                head_size > 0,
                count >= 0,
        ;
    }
    let mut parts: Vec<Tensor2<T>> = Vec::new();
    let mut i: usize = 0;
    while i < 3 * n_head
        invariant
            i <= 3 * n_head,
            3 * n_head <= width,
            n_head > 0,
            q.wf(),
            k.has_shape(q.outer as int, q.inner as int, head_size as int),
            v.has_shape(q.outer as int, q.inner as int, head_size as int),
            q.flat.cols == head_size,
            b * n_head + n_head <= q.outer,
            parts@.len() == i,
            forall|a: int|
                0 <= a < i ==> (#[trigger] parts@[a]).has_shape(q.inner as int, head_size as int),
            forall|a: int, t: int, c: int|
                0 <= a < i && 0 <= t < q.inner && 0 <= c < head_size ==> #[trigger] parts@[a].at(
                    t,
                    c,
                ) == (if a / (n_head as int) == 0 {
                    q.cell(b * n_head + a % (n_head as int), t, c)
                } else if a / (n_head as int) == 1 {
                    k.cell(b * n_head + a % (n_head as int), t, c)
                } else {
                    v.cell(b * n_head + a % (n_head as int), t, c)
                }),
        decreases 3 * n_head - i,
    {
        proof {
            lemma_split_index(i as int, 3, n_head as int);
            assert(0 <= b * n_head) by (nonlinear_arith);
        }
        let part: usize = i / n_head;
        let head: usize = b * n_head + i % n_head;
        let slab = if part == 0 {
            q.slab(head)
        } else if part == 1 {
            k.slab(head)
        } else {
            v.slab(head)
        };
        parts.push(slab);
        i = i + 1;
    }
    let slab = beside(&parts, q.inner, head_size);
    proof {
        assert forall|t: int, y: int| 0 <= t < q.inner && 0 <= y < width implies #[trigger] slab.at(
            t,
            y,
        ) == unpacked_entry(*q, *k, *v, n_head as int, head_size as int, b as int, t, y) by {
            lemma_split_index(y, count, head_size as int);
            assert(slab.at(t, y) == parts@[y / (head_size as int)].at(t, y % (head_size as int)));
        }
    }
    slab
}

/// The context of sequence `b`: the values weighted by `att`, head beside head.
fn context_slab<T: Real>(
    att: &Tensor3<T>,
    v: &Tensor3<T>,
    n_head: usize,
    head_size: usize,
    b: usize,
) -> (slab: Tensor2<T>)
    requires
        att.has_shape(v.outer as int, v.inner as int, v.inner as int),
        v.wf(),
        v.flat.cols == head_size,
        head_size > 0,
        b * n_head + n_head <= v.outer,
        n_head * head_size <= usize::MAX,
    ensures
        slab.has_shape(v.inner as int, n_head * head_size),
        forall|t: int, x: int|
            0 <= t < v.inner && 0 <= x < n_head * head_size ==> dot_gives(
                att.row(b * n_head + x / (head_size as int), t),
                v.col(b * n_head + x / (head_size as int), x % (head_size as int)),
                #[trigger] slab.at(t, x),
            ),
{
    let mut parts: Vec<Tensor2<T>> = Vec::new();
    let mut h: usize = 0;
    while h < n_head
        invariant
            h <= n_head,
            att.has_shape(v.outer as int, v.inner as int, v.inner as int),
            v.wf(),
            v.flat.cols == head_size,
            b * n_head + n_head <= v.outer,
            parts@.len() == h,
            forall|a: int|
                0 <= a < h ==> (#[trigger] parts@[a]).has_shape(v.inner as int, head_size as int),
            forall|a: int, t: int, c: int|
                0 <= a < h && 0 <= t < v.inner && 0 <= c < head_size ==> dot_gives(
                    att.row(b * n_head + a, t),
                    v.col(b * n_head + a, c),
                    #[trigger] parts@[a].at(t, c),
                ),
        decreases n_head - h,
    {
        proof {
            assert(0 <= b * n_head) by (nonlinear_arith);
        }
        let head: usize = b * n_head + h;
        let att_head = att.slab(head);
        let v_head = v.slab(head);
        let product = matmul(&att_head, &v_head);
        proof {
            assert forall|t: int, c: int| 0 <= t < v.inner && 0 <= c < head_size implies dot_gives(
                att.row(b * n_head + h, t),
                v.col(b * n_head + h, c),
                #[trigger] product.at(t, c),
            ) by {
                assert(att_head.row(t) == att.row(head as int, t));
                assert(v_head.col(c) == v.col(head as int, c));
            }
        }
        parts.push(product);
        h = h + 1;
    }
    let slab = beside(&parts, v.inner, head_size);
    proof {
        assert forall|t: int, x: int|
            0 <= t < v.inner && 0 <= x < n_head * head_size implies dot_gives(
            att.row(b * n_head + x / (head_size as int), t),
            v.col(b * n_head + x / (head_size as int), x % (head_size as int)),
            #[trigger] slab.at(t, x),
        ) by {
            lemma_split_index(x, n_head as int, head_size as int);
            assert(slab.at(t, x) == parts@[x / (head_size as int)].at(t, x % (head_size as int)));
        }
    }
    slab
}

/// The heads of sequence `b` are among those of `batch` sequences.
proof fn lemma_heads_of(b: int, batch: int, n_head: int)
    requires
        0 <= b < batch,
        0 <= n_head,
    ensures
        0 <= b * n_head,
        b * n_head + n_head <= batch * n_head,
{
    assert(0 <= b * n_head && b * n_head + n_head <= batch * n_head) by (nonlinear_arith)
        requires
            0 <= b < batch,
            0 <= n_head,
    ;
}

impl<T: Real> MultiHeadSelfAttention<T> {
    /// Lets every position gather values from itself and from what stands before it.
    pub fn forward(
        &self,
        input: &Tensor3<T>,
        training: bool,
        dropout_v: T,
        rng: &mut SmallRng,
    ) -> (result: Result<(Tensor3<T>, AttentionCache<T>), InvalidRate>)
        requires
            self.has_shape(input.flat.cols as int, self.block_size()),
            input.wf(),
            self.head_size > 0,
            0 < input.inner <= self.block_size(),
        ensures
            match result {
                Ok((output, cache)) => {
                    &&& attention_gives(
                        *self,
                        *input,
                        training,
                        dropout_v,
                        output,
                        cache,
                        *old(rng),
                        *final(rng),
                    )
                    &&& output.wf()
                    &&& output.same_shape(*input)
                    &&& cache.has_shape(
                        input.outer as int,
                        input.inner as int,
                        self.n_head as int,
                        self.head_size as int,
                    )
                },
                Err(_) => training && rate_zero_gives(dropout_v, false) && rate_refused(dropout_v),
            },
            !training ==> *final(rng) == *old(rng),
    {
        let ghost block_size = self.block_size();
        let (batch, time) = (input.outer, input.inner);
        let (n_head, head_size) = (self.n_head, self.head_size);
        let qkv = self.qkv.forward(input);
        let (q, k, v) = self.pack_qkv(&qkv);

        let scale = T::one().over(T::from_count(head_size).sqrt());
        assert(scale_gives(head_size, scale));
        let heads: usize = q.outer;
        let mask = &self.causal_mask;
        let slabs = par_map(heads, |head: usize| -> (slab: Tensor2<T>)
            requires
                head < heads,
                q.has_shape(heads as int, time as int, head_size as int),
                k.has_shape(heads as int, time as int, head_size as int),
                mask.is_causal(block_size),
                time <= block_size,
            ensures
                slab.has_shape(time as int, time as int),
                forall|i: int|
                    0 <= i < time
                        ==> probs_give(
                            q.row(head as int, i),
                            k.slab_rows(head as int),
                            i,
                            scale,
                            #[trigger] slab.row(i),
                        ),
            {
                let q_head = q.slab(head);
                let k_head = k.slab(head);
                let probs = head_probs(&q_head, &k_head, mask, scale, Ghost(block_size));
                assert(Seq::new(k_head.rows as nat, |j: int| k_head.row(j)) =~= k.slab_rows(head as int));
                proof {
                    assert forall|i: int|
                        0 <= i < time
                            implies probs_give(
                                q.row(head as int, i),
                                k.slab_rows(head as int),
                                i,
                                scale,
                                #[trigger] probs.row(i),
                            ) by {
                        assert(q_head.row(i) == q.row(head as int, i));
                    }
                }
                probs
            });
        let att_probs = Tensor3::stack(slabs, time, time);
        assert(att_probs_give(q, k, scale, att_probs));

        let (att_dropped, att_dropout_mask) = match dropout(&att_probs, dropout_v, training, rng) {
            Ok(pair) => pair,
            Err(e) => {
                return Err(e);
            },
        };
        let ghost mid = *rng;
        proof {
            assert(n_head * head_size == input.flat.cols);
            assert(input.outer * n_head == heads);
        }
        let contexts = par_map(batch, |b: usize| -> (slab: Tensor2<T>)
            requires
                b < batch,
                head_size > 0,
                n_head * head_size <= usize::MAX,
                v.has_shape(batch * n_head, time as int, head_size as int),
                att_dropped.has_shape(batch * n_head, time as int, time as int),
            ensures
                slab.has_shape(time as int, n_head * head_size),
                forall|t: int, x: int| 0 <= t < time && 0 <= x < n_head * head_size ==> dot_gives(
                    att_dropped.row(b * n_head + x / (head_size as int), t),
                    v.col(b * n_head + x / (head_size as int), x % (head_size as int)),
                    #[trigger] slab.at(t, x),
                ),
            {
                proof {
                    lemma_heads_of(b as int, batch as int, n_head as int);
                }
                context_slab(&att_dropped, &v, n_head, head_size, b)
            });
        let context = Tensor3::stack(contexts, time, input.flat.cols);
        assert(context_gives(att_dropped, v, n_head as int, head_size as int, batch as int, context));

        let projected = self.proj.forward(&context);
        let (output, proj_dropout_mask) = match dropout(&projected, dropout_v, training, rng) {
            Ok(pair) => pair,
            Err(e) => {
                return Err(e);
            },
        };
        let cache = AttentionCache {
            input: input.duplicate(),
            q,
            k,
            v,
            att_probs,
            att_dropped,
            att_dropout_mask,
            context,
            proj_dropout_mask,
        };
        assert(attention_steps_give(
            *self,
            *input,
            training,
            dropout_v,
            output,
            cache,
            *old(rng),
            *rng,
            qkv,
            scale,
            projected,
            mid,
        ));
        Ok((output, cache))
    }
}

/// `r` is entry `j` of the gradient of the scores of query `i`: zero where the key stands behind
/// the query, else `p * (g - weighted) * scale`.
pub open spec fn score_grad_gives<T: Real>(
    p: T,
    g: T,
    weighted: T,
    i: int,
    j: int,
    scale: T,
    r: T,
) -> bool {
    if j > i {
        zero_gives(r)
    } else {
        exists|centred: T, product: T| #[trigger]
            minus_gives(g, weighted, centred) && #[trigger] times_gives(p, centred, product)
                && times_gives(product, scale, r)
    }
}

/// `out` is the gradient of the scores of query `i`, where `g` is that of its probabilities `p`.
pub open spec fn score_grads_give<T: Real>(
    p: Seq<T>,
    g: Seq<T>,
    i: int,
    scale: T,
    out: Seq<T>,
) -> bool {
    exists|weighted: T| #[trigger]
        dot_gives(g, p, weighted) && out.len() == p.len() && forall|j: int|
            0 <= j < p.len() ==> score_grad_gives(
                p[j],
                g[j],
                weighted,
                i,
                j,
                scale,
                #[trigger] out[j],
            )
}

/// What stands between the steps of going back through the layer.
pub ghost struct AttentionGrads<T> {
    pub projected: Tensor3<T>,
    pub context: Tensor3<T>,
    pub att_dropped: Tensor3<T>,
    pub att: Tensor3<T>,
    pub scale: T,
    pub scores: Tensor3<T>,
    pub q: Tensor3<T>,
    pub k: Tensor3<T>,
    pub v: Tensor3<T>,
    pub qkv: Tensor3<T>,
}

/// `grads` is the gradient of the dropped-out probabilities: the gradient of the context of each
/// head times its values.
pub open spec fn att_grads_give<T: Real>(
    context: Tensor3<T>,
    v: Tensor3<T>,
    n_head: int,
    head_size: int,
    grads: Tensor3<T>,
) -> bool {
    grads.has_shape(v.outer as int, v.inner as int, v.inner as int) && forall|
        head: int,
        t: int,
        u: int,
    |
        0 <= head < v.outer && 0 <= t < v.inner && 0 <= u < v.inner ==> dot_gives(
            context.row(head / n_head, t).subrange(
                (head % n_head) * head_size,
                (head % n_head) * head_size + head_size,
            ),
            v.row(head, u),
            #[trigger] grads.cell(head, t, u),
        )
}

/// `grads` is the gradient of the values: the dropped-out probabilities of each head, transposed,
/// times the gradient of its context.
pub open spec fn value_grads_give<T: Real>(
    context: Tensor3<T>,
    att: Tensor3<T>,
    n_head: int,
    head_size: int,
    grads: Tensor3<T>,
) -> bool {
    grads.has_shape(att.outer as int, att.inner as int, head_size) && forall|
        head: int,
        u: int,
        c: int,
    |
        0 <= head < att.outer && 0 <= u < att.inner && 0 <= c < head_size ==> dot_gives(
            att.col(head, u),
            context.col(head / n_head, (head % n_head) * head_size + c),
            #[trigger] grads.cell(head, u, c),
        )
}

/// `grads` is the gradient of the scores, where `att` is that of the probabilities.
pub open spec fn all_score_grads_give<T: Real>(
    probs: Tensor3<T>,
    att: Tensor3<T>,
    scale: T,
    grads: Tensor3<T>,
) -> bool {
    grads.has_shape(probs.outer as int, probs.inner as int, probs.inner as int) && forall|
        head: int,
        i: int,
    |
        0 <= head < probs.outer && 0 <= i < probs.inner ==> score_grads_give(
            probs.row(head, i),
            att.row(head, i),
            i,
            scale,
            #[trigger] grads.row(head, i),
        )
}

/// `grads` is the gradient of the queries: the gradients of the scores times the keys.
pub open spec fn query_grads_give<T: Real>(
    scores: Tensor3<T>,
    k: Tensor3<T>,
    grads: Tensor3<T>,
) -> bool {
    grads.wf() && grads.same_shape(k) && forall|head: int, i: int, c: int|
        0 <= head < k.outer && 0 <= i < k.inner && 0 <= c < k.flat.cols ==> dot_gives(
            scores.row(head, i),
            k.col(head, c),
            #[trigger] grads.cell(head, i, c),
        )
}

/// `grads` is the gradient of the keys: the gradients of the scores, transposed, times the
/// queries.
pub open spec fn key_grads_give<T: Real>(
    scores: Tensor3<T>,
    q: Tensor3<T>,
    grads: Tensor3<T>,
) -> bool {
    grads.wf() && grads.same_shape(q) && forall|head: int, j: int, c: int|
        0 <= head < q.outer && 0 <= j < q.inner && 0 <= c < q.flat.cols ==> dot_gives(
            scores.col(head, j),
            q.col(head, c),
            #[trigger] grads.cell(head, j, c),
        )
}

/// The steps of [`attention_backward_gives`].
pub open spec fn attention_backward_steps_give<T: Real>(
    before: MultiHeadSelfAttention<T>,
    cache: AttentionCache<T>,
    grad_output: Tensor3<T>,
    after: MultiHeadSelfAttention<T>,
    grad_input: Tensor3<T>,
    g: AttentionGrads<T>,
) -> bool {
    let (n_head, head_size) = (before.n_head as int, before.head_size as int);
    &&& dropout_backward_gives(cache.proj_dropout_mask, grad_output, g.projected)
    &&& linear_backward_gives(before.proj, cache.context, g.projected, after.proj, g.context)
    &&& att_grads_give(g.context, cache.v, n_head, head_size, g.att_dropped)
    &&& value_grads_give(g.context, cache.att_dropped, n_head, head_size, g.v)
    &&& dropout_backward_gives(cache.att_dropout_mask, g.att_dropped, g.att)
    &&& scale_gives(before.head_size, g.scale)
    &&& all_score_grads_give(cache.att_probs, g.att, g.scale, g.scores)
    &&& query_grads_give(g.scores, cache.k, g.q)
    &&& key_grads_give(g.scores, cache.q, g.k)
    &&& unpacked(
        g.q,
        g.k,
        g.v,
        n_head,
        head_size,
        cache.input.outer as int,
        cache.input.inner as int,
        g.qkv,
    )
    &&& linear_backward_gives(before.qkv, cache.input, g.qkv, after.qkv, grad_input)
}

/// Going back through the layer: the gradients of its two linear layers grow by what
/// `grad_output` adds to them, nothing else of the layer changes, and `grad_input` is the
/// gradient of the input.
pub open spec fn attention_backward_gives<T: Real>(
    before: MultiHeadSelfAttention<T>,
    cache: AttentionCache<T>,
    grad_output: Tensor3<T>,
    after: MultiHeadSelfAttention<T>,
    grad_input: Tensor3<T>,
) -> bool {
    &&& after.n_head == before.n_head
    &&& after.head_size == before.head_size
    &&& after.causal_mask == before.causal_mask
    &&& exists|g: AttentionGrads<T>| #[trigger]
        attention_backward_steps_give(before, cache, grad_output, after, grad_input, g)
}

/// The gradient of the scores of one head.
fn head_score_grads<T: Real>(probs: &Tensor2<T>, att: &Tensor2<T>, scale: T) -> (grads: Tensor2<T>)
    requires
        probs.wf(),
        probs.rows == probs.cols,
        att.has_shape(probs.rows as int, probs.cols as int),
    ensures
        grads.has_shape(probs.rows as int, probs.cols as int),
        forall|i: int|
            0 <= i < probs.rows ==> score_grads_give(
                probs.row(i),
                att.row(i),
                i,
                scale,
                #[trigger] grads.row(i),
            ),
{
    let time: usize = probs.rows;
    let mut rows: Vec<Vec<T>> = Vec::new();
    let mut i: usize = 0;
    while i < time
        invariant
            i <= time,
            probs.has_shape(time as int, time as int),
            att.has_shape(time as int, time as int),
            rows@.len() == i,
            forall|a: int| 0 <= a < i ==> (#[trigger] rows@[a])@.len() == time,
            forall|a: int|
                0 <= a < i ==> score_grads_give(
                    probs.row(a),
                    att.row(a),
                    a,
                    scale,
                    (#[trigger] rows@[a])@,
                ),
        decreases time - i,
    {
        let weighted = row_dot_row(att, i, probs, i);
        let mut row: Vec<T> = Vec::new();
        let mut j: usize = 0;
        while j < time
            invariant
                i < time,
                j <= time,
                probs.has_shape(time as int, time as int),
                att.has_shape(time as int, time as int),
                row@.len() == j,
                forall|b: int|
                    0 <= b < j ==> score_grad_gives(
                        probs.row(i as int)[b],
                        att.row(i as int)[b],
                        weighted,
                        i as int,
                        b,
                        scale,
                        #[trigger] row@[b],
                    ),
            decreases time - j,
        {
            if j > i {
                row.push(T::zero());
            } else {
                let entry = probs.get(i, j).times(att.get(i, j).minus(weighted)).times(scale);
                row.push(entry);
            }
            j = j + 1;
        }
        assert(score_grads_give(probs.row(i as int), att.row(i as int), i as int, scale, row@));
        rows.push(row);
        i = i + 1;
    }
    let ghost parts = rows@;
    let grads = Tensor2::from_rows(rows, time);
    proof {
        assert forall|a: int| 0 <= a < time implies score_grads_give(
            probs.row(a),
            att.row(a),
            a,
            scale,
            #[trigger] grads.row(a),
        ) by {
            assert(grads.row(a) == parts[a]@);
        }
    }
    grads
}

/// The columns of head `head` in the context of its sequence.
fn head_context<T: Real>(context: &Tensor3<T>, n_head: usize, head_size: usize, head: usize) -> (part:
    Tensor2<T>)
    requires
        context.wf(),
        n_head > 0,
        context.flat.cols == n_head * head_size,
        head < context.outer * n_head,
    ensures
        part.has_shape(context.inner as int, head_size as int),
        forall|t: int|
            0 <= t < context.inner ==> #[trigger] part.row(t) == context.row(
                head as int / (n_head as int),
                t,
            ).subrange(
                (head as int % (n_head as int)) * head_size,
                (head as int % (n_head as int)) * head_size + head_size,
            ),
        forall|c: int|
            0 <= c < head_size ==> #[trigger] part.col(c) == context.col(
                head as int / (n_head as int),
                (head as int % (n_head as int)) * head_size + c,
            ),
{
    let b: usize = head / n_head;
    let h: usize = head % n_head;
    proof {
        lemma_split_index(head as int, context.outer as int, n_head as int);
        lemma_head_columns(h as int, n_head as int, head_size as int);
    }
    let slab = context.slab(b);
    let start: usize = h * head_size;
    let part = slab.columns(start, head_size);
    proof {
        assert forall|t: int| 0 <= t < context.inner implies #[trigger] part.row(t) == context.row(
            b as int,
            t,
        ).subrange(start as int, start + head_size) by {
            assert forall|c: int| 0 <= c < head_size implies part.row(t)[c] == context.row(
                b as int,
                t,
            ).subrange(start as int, start + head_size)[c] by {
                assert(part.at(t, c) == slab.at(t, start + c));
                assert(slab.row(t)[start + c] == context.row(b as int, t)[start + c]);
            }
            assert(part.row(t) =~= context.row(b as int, t).subrange(
                start as int,
                start + head_size,
            ));
        }
        assert forall|c: int| 0 <= c < head_size implies #[trigger] part.col(c) == context.col(
            b as int,
            start + c,
        ) by {
            assert forall|t: int| 0 <= t < context.inner implies part.col(c)[t] == context.col(
                b as int,
                start + c,
            )[t] by {
                assert(part.at(t, c) == slab.at(t, start + c));
            }
            assert(part.col(c) =~= context.col(b as int, start + c));
        }
    }
    part
}

impl<T: Real> MultiHeadSelfAttention<T> {
    /// Adds the gradients of the two linear layers to those kept so far, and returns the gradient
    /// of the input.
    pub fn backward(&mut self, cache: &AttentionCache<T>, grad_output: &Tensor3<T>) -> (grad_input:
        Tensor3<T>)
        requires
            old(self).has_shape(grad_output.flat.cols as int, old(self).block_size()),
            old(self).head_size > 0,
            grad_output.wf(),
            grad_output.inner > 0,
            cache.has_shape(
                grad_output.outer as int,
                grad_output.inner as int,
                old(self).n_head as int,
                old(self).head_size as int,
            ),
        ensures
            attention_backward_gives(
                *old(self),
                *cache,
                *grad_output,
                *final(self),
                grad_input,
            ),
            final(self).has_shape(grad_output.flat.cols as int, old(self).block_size()),
            grad_input.wf(),
            grad_input.same_shape(*grad_output),
    {
        let (batch, time) = (cache.input.outer, cache.input.inner);
        let (n_head, head_size) = (self.n_head, self.head_size);
        let heads: usize = cache.q.outer;
        let projected = dropout_backward(&cache.proj_dropout_mask, grad_output);
        let context = self.proj.backward(&cache.context, &projected);

        let att_slabs = par_map(heads, |head: usize| -> (slab: Tensor2<T>)
            requires
                head < heads,
                n_head > 0,
                heads == batch * n_head,
                context.has_shape(batch as int, time as int, n_head * head_size),
                cache.v.has_shape(heads as int, time as int, head_size as int),
            ensures
                slab.has_shape(time as int, time as int),
                forall|t: int, u: int| 0 <= t < time && 0 <= u < time ==> dot_gives(
                    context.row(head as int / (n_head as int), t).subrange(
                        (head as int % (n_head as int)) * head_size,
                        (head as int % (n_head as int)) * head_size + head_size,
                    ),
                    cache.v.row(head as int, u),
                    #[trigger] slab.at(t, u),
                ),
            {
                let context_head = head_context(&context, n_head, head_size, head);
                let v_head = cache.v.slab(head);
                let slab = matmul_transposed(&context_head, &v_head);
                proof {
                    assert forall|t: int, u: int| 0 <= t < time && 0 <= u < time implies dot_gives(
                        context.row(head as int / (n_head as int), t).subrange(
                            (head as int % (n_head as int)) * head_size,
                            (head as int % (n_head as int)) * head_size + head_size,
                        ),
                        cache.v.row(head as int, u),
                        #[trigger] slab.at(t, u),
                    ) by {
                        assert(dot_gives(context_head.row(t), v_head.row(u), slab.at(t, u)));
                    }
                }
                slab
            });
        let att_dropped = Tensor3::stack(att_slabs, time, time);
        assert(att_grads_give(context, cache.v, n_head as int, head_size as int, att_dropped));

        let v_slabs = par_map(heads, |head: usize| -> (slab: Tensor2<T>)
            requires
                head < heads,
                n_head > 0,
                heads == batch * n_head,
                context.has_shape(batch as int, time as int, n_head * head_size),
                cache.att_dropped.has_shape(heads as int, time as int, time as int),
            ensures
                slab.has_shape(time as int, head_size as int),
                forall|u: int, c: int| 0 <= u < time && 0 <= c < head_size ==> dot_gives(
                    cache.att_dropped.col(head as int, u),
                    context.col(
                        head as int / (n_head as int),
                        (head as int % (n_head as int)) * head_size + c,
                    ),
                    #[trigger] slab.at(u, c),
                ),
            {
                let context_head = head_context(&context, n_head, head_size, head);
                let att_head = cache.att_dropped.slab(head);
                let slab = transposed_matmul(&att_head, &context_head);
                proof {
                    assert forall|u: int, c: int|
                        0 <= u < time && 0 <= c < head_size implies dot_gives(
                        cache.att_dropped.col(head as int, u),
                        context.col(
                        head as int / (n_head as int),
                        (head as int % (n_head as int)) * head_size + c,
                    ),
                        #[trigger] slab.at(u, c),
                    ) by {
                        assert(dot_gives(att_head.col(u), context_head.col(c), slab.at(u, c)));
                    }
                }
                slab
            });
        let grad_v = Tensor3::stack(v_slabs, time, head_size);
        assert(value_grads_give(context, cache.att_dropped, n_head as int, head_size as int, grad_v));

        let att = dropout_backward(&cache.att_dropout_mask, &att_dropped);
        let scale = T::one().over(T::from_count(head_size).sqrt());
        assert(scale_gives(head_size, scale));
        let score_slabs = par_map(heads, |head: usize| -> (slab: Tensor2<T>)
            requires
                head < heads,
                cache.att_probs.has_shape(heads as int, time as int, time as int),
                att.has_shape(heads as int, time as int, time as int),
            ensures
                slab.has_shape(time as int, time as int),
                forall|i: int| 0 <= i < time ==> score_grads_give(
                    cache.att_probs.row(head as int, i),
                    att.row(head as int, i),
                    i,
                    scale,
                    #[trigger] slab.row(i),
                ),
            {
                let probs_head = cache.att_probs.slab(head);
                let att_head = att.slab(head);
                let slab = head_score_grads(&probs_head, &att_head, scale);
                proof {
                    assert forall|i: int| 0 <= i < time implies score_grads_give(
                        cache.att_probs.row(head as int, i),
                        att.row(head as int, i),
                        i,
                        scale,
                        #[trigger] slab.row(i),
                    ) by {
                        assert(score_grads_give(probs_head.row(i), att_head.row(i), i, scale, slab.row(i)));
                    }
                }
                slab
            });
        let scores = Tensor3::stack(score_slabs, time, time);
        assert(all_score_grads_give(cache.att_probs, att, scale, scores));

        let grad_q = query_grads(&scores, &cache.k);
        let grad_k = key_grads(&scores, &cache.q);
        let grad_qkv = self.unpack_qkv_grads(&grad_q, &grad_k, &grad_v, batch, time);
        let grad_input = self.qkv.backward(&cache.input, &grad_qkv);
        proof {
            let g = AttentionGrads {
                projected,
                context,
                att_dropped,
                att,
                scale,
                scores,
                q: grad_q,
                k: grad_k,
                v: grad_v,
                qkv: grad_qkv,
            };
            assert(attention_backward_steps_give(
                *old(self),
                *cache,
                *grad_output,
                *self,
                grad_input,
                g,
            ));
        }
        grad_input
    }

    /// Sets the gradients to zeros.
    pub fn zero_grad(&mut self)
        requires
            old(self).qkv.wf(),
            old(self).proj.wf(),
        ensures
            attention_grads_cleared(*old(self), *final(self)),
    {
        self.qkv.zero_grad();
        self.proj.zero_grad();
    }

    /// Applies an optimizer step.
    pub fn step(&mut self, step: AdamStep<T>)
        requires
            old(self).qkv.wf(),
            old(self).proj.wf(),
        ensures
            attention_step_gives(step, *old(self), *final(self)),
    {
        self.qkv.step(step);
        self.proj.step(step);
    }
}

/// `after` is `before` with gradients of zeros.
pub open spec fn attention_grads_cleared<T: Real>(
    before: MultiHeadSelfAttention<T>,
    after: MultiHeadSelfAttention<T>,
) -> bool {
    &&& linear_grads_cleared(before.qkv, after.qkv)
    &&& linear_grads_cleared(before.proj, after.proj)
    &&& after == (MultiHeadSelfAttention { qkv: after.qkv, proj: after.proj, ..before })
}

/// `after` is `before` after an optimizer step.
pub open spec fn attention_step_gives<T: Real>(
    step: AdamStep<T>,
    before: MultiHeadSelfAttention<T>,
    after: MultiHeadSelfAttention<T>,
) -> bool {
    &&& linear_step_gives(step, before.qkv, after.qkv)
    &&& linear_step_gives(step, before.proj, after.proj)
    &&& after == (MultiHeadSelfAttention { qkv: after.qkv, proj: after.proj, ..before })
}

/// The gradient of the queries.
fn query_grads<T: Real>(scores: &Tensor3<T>, k: &Tensor3<T>) -> (grads: Tensor3<T>)
    requires
        k.wf(),
        scores.has_shape(k.outer as int, k.inner as int, k.inner as int),
    ensures
        query_grads_give(*scores, *k, grads),
{
    let slabs = par_map(k.outer, |head: usize| -> (slab: Tensor2<T>)
        requires
            head < k.outer,
            k.wf(),
            scores.has_shape(k.outer as int, k.inner as int, k.inner as int),
        ensures
            slab.has_shape(k.inner as int, k.flat.cols as int),
            forall|i: int, c: int| 0 <= i < k.inner && 0 <= c < k.flat.cols ==> dot_gives(
                scores.row(head as int, i),
                k.col(head as int, c),
                #[trigger] slab.at(i, c),
            ),
        {
            let scores_head = scores.slab(head);
            let k_head = k.slab(head);
            let slab = matmul(&scores_head, &k_head);
            proof {
                assert forall|i: int, c: int|
                    0 <= i < k.inner && 0 <= c < k.flat.cols implies dot_gives(
                    scores.row(head as int, i),
                    k.col(head as int, c),
                    #[trigger] slab.at(i, c),
                ) by {
                    assert(dot_gives(scores_head.row(i), k_head.col(c), slab.at(i, c)));
                }
            }
            slab
        });
    Tensor3::stack(slabs, k.inner, k.flat.cols)
}

/// The gradient of the keys.
fn key_grads<T: Real>(scores: &Tensor3<T>, q: &Tensor3<T>) -> (grads: Tensor3<T>)
    requires
        q.wf(),
        scores.has_shape(q.outer as int, q.inner as int, q.inner as int),
    ensures
        key_grads_give(*scores, *q, grads),
{
    let slabs = par_map(q.outer, |head: usize| -> (slab: Tensor2<T>)
        requires
            head < q.outer,
            q.wf(),
            scores.has_shape(q.outer as int, q.inner as int, q.inner as int),
        ensures
            slab.has_shape(q.inner as int, q.flat.cols as int),
            forall|j: int, c: int| 0 <= j < q.inner && 0 <= c < q.flat.cols ==> dot_gives(
                scores.col(head as int, j),
                q.col(head as int, c),
                #[trigger] slab.at(j, c),
            ),
        {
            let scores_head = scores.slab(head);
            let q_head = q.slab(head);
            let slab = transposed_matmul(&scores_head, &q_head);
            proof {
                assert forall|j: int, c: int|
                    0 <= j < q.inner && 0 <= c < q.flat.cols implies dot_gives(
                    scores.col(head as int, j),
                    q.col(head as int, c),
                    #[trigger] slab.at(j, c),
                ) by {
                    assert(dot_gives(scores_head.col(j), q_head.col(c), slab.at(j, c)));
                }
            }
            slab
        });
    Tensor3::stack(slabs, q.inner, q.flat.cols)
}

/// `layer` is a new layer whose weights were drawn from the generator `before`, first those of
/// the queries, keys and values, then those of the projection; the generator `after` is left.
pub open spec fn fresh_attention<T: Real>(
    layer: MultiHeadSelfAttention<T>,
    n_embd: int,
    n_head: int,
    block_size: int,
    before: SmallRng,
    after: SmallRng,
) -> bool {
    &&& layer.has_shape(n_embd, block_size)
    &&& layer.n_head == n_head
    &&& layer.head_size == n_embd / n_head
    &&& exists|mid: SmallRng| #[trigger]
        fresh_linear(layer.qkv, n_embd, 3 * n_embd, false, before, mid) && fresh_linear(
            layer.proj,
            n_embd,
            n_embd,
            true,
            mid,
            after,
        )
}

impl<T: Real> MultiHeadSelfAttention<T> {
    /// A new layer.
    pub fn new(n_embd: usize, n_head: usize, block_size: usize, rng: &mut SmallRng) -> (layer:
        MultiHeadSelfAttention<T>)
        requires
            n_head > 0,
            n_embd % n_head == 0,
            3 * n_embd <= usize::MAX,
            n_embd * (3 * n_embd) <= usize::MAX,
            block_size * block_size <= isize::MAX,
        ensures
            fresh_attention(
                layer,
                n_embd as int,
                n_head as int,
                block_size as int,
                *old(rng),
                *final(rng),
            ),
    {
        let causal_mask = FlagArray::causal(block_size);
        proof {
            vstd::arithmetic::div_mod::lemma_fundamental_div_mod(n_embd as int, n_head as int);
            assert(n_embd * n_embd <= n_embd * (3 * n_embd)) by (nonlinear_arith)
                requires
                    n_embd >= 0,
            ;
        }
        let qkv = Linear::new(n_embd, 3 * n_embd, false, rng);
        let proj = Linear::new(n_embd, n_embd, true, rng);
        MultiHeadSelfAttention { n_head, head_size: n_embd / n_head, qkv, proj, causal_mask }
    }
}

/// The attention probabilities of a query depend on no key behind it.
pub proof fn lemma_probs_ignore_later_keys<T: Real>(
    q: Seq<T>,
    keys: Seq<Seq<T>>,
    others: Seq<Seq<T>>,
    i: int,
    scale: T,
    probs: Seq<T>,
)
    requires
        probs_give(q, keys, i, scale, probs),
        others.len() == keys.len(),
        forall|j: int| 0 <= j <= i && j < keys.len() ==> #[trigger] others[j] == keys[j],
    ensures
        probs_give(q, others, i, scale, probs),
{
    let scores = choose|scores: Seq<T>| #[trigger]
        scores_give(q, keys, i, scale, scores) && softmax_gives(scores, probs);
    assert forall|j: int| 0 <= j < others.len() implies score_gives(
        q,
        others[j],
        i,
        j,
        scale,
        #[trigger] scores[j],
    ) by {
        assert(score_gives(q, keys[j], i, j, scale, scores[j]));
        if j <= i {
            assert(others[j] == keys[j]);
        }
    }
    assert(scores_give(q, others, i, scale, scores));
}

/// Where a column of the joined queries, keys and values stands: part, head and place.
proof fn lemma_column_parts(n_head: int, head_size: int, y: int)
    requires
        n_head >= 0,
        head_size >= 0,
        0 <= y < 3 * (n_head * head_size),
    ensures
        n_head > 0,
        head_size > 0,
        0 <= (y / head_size) / n_head < 3,
        0 <= (y / head_size) % n_head < n_head,
        0 <= y % head_size < head_size,
        y == ((y / head_size) / n_head) * (n_head * head_size) + ((y / head_size) % n_head)
            * head_size + y % head_size,
{
    assert(n_head > 0 && head_size > 0) by (nonlinear_arith)
        requires
            n_head >= 0,
            head_size >= 0,
            0 < 3 * (n_head * head_size),
    ;
    assert(3 * (n_head * head_size) == (3 * n_head) * head_size) by (nonlinear_arith);
    lemma_split_index(y, 3 * n_head, head_size);
    let z = y / head_size;
    lemma_split_index(z, 3, n_head);
    let part = z / n_head;
    let h = z % n_head;
    assert((part * n_head + h) * head_size == part * (n_head * head_size) + h * head_size)
        by (nonlinear_arith);
}

/// Splitting queries, keys and values into heads and joining the heads again gives back what was
/// split.
pub proof fn lemma_unpack_packed<T>(
    qkv: Tensor3<T>,
    n_head: int,
    head_size: int,
    q: Tensor3<T>,
    k: Tensor3<T>,
    v: Tensor3<T>,
    out: Tensor3<T>,
)
    requires
        n_head >= 0,
        head_size >= 0,
        qkv.has_shape(qkv.outer as int, qkv.inner as int, 3 * (n_head * head_size)),
        packed(qkv, 0, n_head, head_size, q),
        packed(qkv, n_head * head_size, n_head, head_size, k),
        packed(qkv, 2 * (n_head * head_size), n_head, head_size, v),
        unpacked(q, k, v, n_head, head_size, qkv.outer as int, qkv.inner as int, out),
    ensures
        out.same_shape(qkv),
        forall|b: int, t: int, y: int|
            0 <= b < qkv.outer && 0 <= t < qkv.inner && 0 <= y < qkv.flat.cols
                ==> #[trigger] out.cell(b, t, y) == qkv.cell(b, t, y),
{
    assert forall|b: int, t: int, y: int|
        0 <= b < qkv.outer && 0 <= t < qkv.inner && 0 <= y < qkv.flat.cols
        implies #[trigger] out.cell(b, t, y) == qkv.cell(b, t, y) by {
        lemma_column_parts(n_head, head_size, y);
        let part = (y / head_size) / n_head;
        let h = (y / head_size) % n_head;
        let c = y % head_size;
        let head = b * n_head + h;
        lemma_index_in_range(b, qkv.outer as int, h, n_head);
        lemma_index_split(b, h, n_head);
        if part == 0 {
            assert(0 * (n_head * head_size) == 0) by (nonlinear_arith);
            assert(q.cell(head, t, c) == qkv.cell(b, t, 0 + h * head_size + c));
        } else if part == 1 {
            assert(1 * (n_head * head_size) == n_head * head_size) by (nonlinear_arith);
            assert(k.cell(head, t, c) == qkv.cell(b, t, n_head * head_size + h * head_size + c));
        } else {
            assert(v.cell(head, t, c) == qkv.cell(
                b,
                t,
                2 * (n_head * head_size) + h * head_size + c,
            ));
        }
    }
}

/// What unpacking put into each part of a row.
pub proof fn lemma_unpacked_part<T>(
    q: Tensor3<T>,
    k: Tensor3<T>,
    v: Tensor3<T>,
    n_head: int,
    head_size: int,
    batch: int,
    time: int,
    qkv: Tensor3<T>,
    part: int,
    head: int,
    t: int,
    c: int,
)
    requires
        n_head > 0,
        head_size > 0,
        0 <= part < 3,
        unpacked(q, k, v, n_head, head_size, batch, time, qkv),
        0 <= head < batch * n_head,
        0 <= batch,
        0 <= t < time,
        0 <= c < head_size,
    ensures
        qkv.cell(
            head / n_head,
            t,
            part * (n_head * head_size) + (head % n_head) * head_size + c,
        ) == (if part == 0 {
            q
        } else if part == 1 {
            k
        } else {
            v
        }).cell(head, t, c),
{
    lemma_split_index(head, batch, n_head);
    let b = head / n_head;
    let h = head % n_head;
    let y = part * (n_head * head_size) + h * head_size + c;
    let z = part * n_head + h;
    assert(y == z * head_size + c) by (nonlinear_arith)
        requires
            y == part * (n_head * head_size) + h * head_size + c,
            z == part * n_head + h,
    ;
    lemma_index_in_range(part, 3, h, n_head);
    lemma_index_in_range(z, 3 * n_head, c, head_size);
    assert(3 * (n_head * head_size) == (3 * n_head) * head_size) by (nonlinear_arith);
    lemma_index_split(z, c, head_size);
    lemma_index_split(part, h, n_head);
    assert(qkv.cell(b, t, y) == unpacked_entry(q, k, v, n_head, head_size, b, t, y));
}


/// One part of joined heads, split again.
proof fn lemma_pack_unpacked_part<T>(
    q: Tensor3<T>,
    k: Tensor3<T>,
    v: Tensor3<T>,
    n_head: int,
    head_size: int,
    batch: int,
    time: int,
    qkv: Tensor3<T>,
    part: int,
    out: Tensor3<T>,
    head: int,
    t: int,
    c: int,
)
    requires
        n_head > 0,
        head_size > 0,
        0 <= part < 3,
        unpacked(q, k, v, n_head, head_size, batch, time, qkv),
        packed(qkv, part * (n_head * head_size), n_head, head_size, out),
        0 <= head < batch * n_head,
        0 <= batch,
        0 <= t < time,
        0 <= c < head_size,
    ensures
        out.cell(head, t, c) == (if part == 0 {
            q
        } else if part == 1 {
            k
        } else {
            v
        }).cell(head, t, c),
{
    lemma_unpacked_part(q, k, v, n_head, head_size, batch, time, qkv, part, head, t, c);
}

/// Joining the heads of queries, keys and values and splitting what was joined gives back the
/// heads.
pub proof fn lemma_pack_unpacked<T>(
    q: Tensor3<T>,
    k: Tensor3<T>,
    v: Tensor3<T>,
    n_head: int,
    head_size: int,
    batch: int,
    time: int,
    qkv: Tensor3<T>,
    q2: Tensor3<T>,
    k2: Tensor3<T>,
    v2: Tensor3<T>,
)
    requires
        n_head > 0,
        head_size > 0,
        batch >= 0,
        unpacked(q, k, v, n_head, head_size, batch, time, qkv),
        packed(qkv, 0, n_head, head_size, q2),
        packed(qkv, n_head * head_size, n_head, head_size, k2),
        packed(qkv, 2 * (n_head * head_size), n_head, head_size, v2),
    ensures
        forall|head: int, t: int, c: int|
            0 <= head < batch * n_head && 0 <= t < time && 0 <= c < head_size
                ==> #[trigger] q2.cell(head, t, c) == q.cell(head, t, c),
        forall|head: int, t: int, c: int|
            0 <= head < batch * n_head && 0 <= t < time && 0 <= c < head_size
                ==> #[trigger] k2.cell(head, t, c) == k.cell(head, t, c),
        forall|head: int, t: int, c: int|
            0 <= head < batch * n_head && 0 <= t < time && 0 <= c < head_size
                ==> #[trigger] v2.cell(head, t, c) == v.cell(head, t, c),
{
    let n_embd = n_head * head_size;
    assert(0 * n_embd == 0 && 1 * n_embd == n_embd) by (nonlinear_arith);
    assert forall|head: int, t: int, c: int|
        0 <= head < batch * n_head && 0 <= t < time && 0 <= c < head_size implies #[trigger] q2.cell(
        head,
        t,
        c,
    ) == q.cell(head, t, c) by {
        lemma_pack_unpacked_part(
            q,
            k,
            v,
            n_head,
            head_size,
            batch,
            time,
            qkv,
            0,
            q2,
            head,
            t,
            c,
        );
    }
    assert forall|head: int, t: int, c: int|
        0 <= head < batch * n_head && 0 <= t < time && 0 <= c < head_size implies #[trigger] k2.cell(
        head,
        t,
        c,
    ) == k.cell(head, t, c) by {
        lemma_pack_unpacked_part(
            q,
            k,
            v,
            n_head,
            head_size,
            batch,
            time,
            qkv,
            1,
            k2,
            head,
            t,
            c,
        );
    }
    assert forall|head: int, t: int, c: int|
        0 <= head < batch * n_head && 0 <= t < time && 0 <= c < head_size implies #[trigger] v2.cell(
        head,
        t,
        c,
    ) == v.cell(head, t, c) by {
        lemma_pack_unpacked_part(
            q,
            k,
            v,
            n_head,
            head_size,
            batch,
            time,
            qkv,
            2,
            v2,
            head,
            t,
            c,
        );
    }
}

} // verus!
