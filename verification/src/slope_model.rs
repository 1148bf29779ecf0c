//! The gradients of the whole model are slopes, up to the loss.

use crate::block::{block_backward_gives, Block, BlockCache};
use crate::exact::{all_finite, is_exact, Reading};
use crate::finite::{
    block_values_finite, is_run, lemma_loss_stays_finite, lemma_model_stays_finite,
    lemma_run_stays_finite, model_values_finite, BlocksRun,
};
use crate::gradient::{lemma_series_same, series};
use crate::grid::{token_items, TokenArray};
use crate::linearity::{block_grads_finite, model_grads_finite, table_gain};
use crate::loss::cross_entropy_gives;
use crate::model::{
    blocks_backward_give, model_backward_gives, model_backward_steps_give, model_steps_give, places,
    scattered, GptCache, GptLanguageModel,
};
use crate::optim::Param2D;
use crate::pairing::{
    cells, column_pair, lemma_pair_columns, lemma_pair_plus, pair, row_pair, stack_pair, table_sum,
    Table,
};
use crate::scalar::Real;
use crate::scaling::stack_finite;
use crate::slope::{
    layer_norm_tangent, lemma_linear_slope, lemma_norm_slope, linear_slope, linear_tangent,
    norm_slope, LinearDirection, NormDirection,
};
use crate::slope_block::{block_slope, block_tangent, lemma_block_slope, BlockDirection};
use crate::tangent::{lemma_embedding_gradient, lemma_loss_gradient, row_loss_tangent};
use crate::tensor::{lemma_split_index, Tensor3};
use rand::rngs::SmallRng;
use vstd::prelude::*;

verus! {

/// How the stack behind the first `n` blocks changes where the stack before them changes by `d`.
pub open spec fn blocks_tangent<T>(
    read: Reading<T>,
    blocks: Seq<Block<T>>,
    caches: Seq<BlockCache<T>>,
    run: BlocksRun<T>,
    dirs: Seq<BlockDirection>,
    d: Table,
    n: nat,
) -> Table
    decreases n,
{
    if n == 0 {
        d
    } else {
        block_tangent(
            read,
            blocks[n - 1],
            run.stacks[n - 1],
            run.steps[n - 1].residual,
            caches[n - 1],
            dirs[n - 1],
            blocks_tangent(read, blocks, caches, run, dirs, d, (n - 1) as nat),
        )
    }
}

/// What going back added to the gradients of the blocks, times how their parameters change.
pub open spec fn blocks_slope<T>(
    read: Reading<T>,
    before: Seq<Block<T>>,
    after: Seq<Block<T>>,
    dirs: Seq<BlockDirection>,
    n: nat,
) -> real {
    series(n, |i: int| block_slope(read, before[i], after[i], dirs[i]))
}

/// The gradients of the blocks from block `n` on are slopes.
#[verifier::rlimit(40)]
pub proof fn lemma_blocks_slope<T: Real>(
    read: Reading<T>,
    blocks: Seq<Block<T>>,
    block_size: int,
    training: bool,
    rate: T,
    caches: Seq<BlockCache<T>>,
    run: BlocksRun<T>,
    grad_output: Tensor3<T>,
    after: Seq<Block<T>>,
    grad_input: Tensor3<T>,
    dirs: Seq<BlockDirection>,
    d: Table,
    n: nat,
)
    requires
        is_exact(read),
        (read.finite)(rate),
        is_run(blocks, training, rate, caches, run),
        n <= blocks.len(),
        after.len() == blocks.len(),
        stack_finite(read, run.stacks[0]),
        run.stacks[0].flat.cols > 0,
        forall|i: int|
            0 <= i < blocks.len() ==> block_values_finite(read, #[trigger] blocks[i])
                && block_grads_finite(read, blocks[i]) && blocks[i].has_shape(
                run.stacks[0].flat.cols as int,
                block_size,
            ),
        stack_finite(read, grad_output),
        grad_output.same_shape(run.stacks[0]),
        blocks_backward_give(
            blocks.skip(n as int),
            caches.skip(n as int),
            grad_output,
            after.skip(n as int),
            grad_input,
        ),
    ensures
        stack_pair(
            read,
            grad_output,
            blocks_tangent(read, blocks, caches, run, dirs, d, blocks.len()),
        ) + blocks_slope(read, blocks, after, dirs, n) == stack_pair(
            read,
            grad_input,
            blocks_tangent(read, blocks, caches, run, dirs, d, n),
        ) + blocks_slope(read, blocks, after, dirs, blocks.len()),
        stack_finite(read, grad_input),
        grad_input.same_shape(grad_output),
    decreases blocks.len() - n,
{
    if n < blocks.len() {
        let i: int = n as int;
        let (bs, cs, al) = (blocks.skip(i), caches.skip(i), after.skip(i));
        let mid = choose|mid: Tensor3<T>|
            blocks_backward_give(bs.skip(1), cs.skip(1), grad_output, al.skip(1), mid)
                && #[trigger] block_backward_gives(bs[0], cs[0], mid, al[0], grad_input);
        assert(bs.skip(1) =~= blocks.skip(i + 1));
        assert(cs.skip(1) =~= caches.skip(i + 1));
        assert(al.skip(1) =~= after.skip(i + 1));
        lemma_blocks_slope(
            read,
            blocks,
            block_size,
            training,
            rate,
            caches,
            run,
            grad_output,
            after,
            mid,
            dirs,
            d,
            n + 1,
        );
        lemma_run_stays_finite(read, blocks, block_size, training, rate, caches, run, n);
        let s = run.steps[i];
        assert(block_values_finite(read, blocks[i]));
        lemma_block_slope(
            read,
            blocks[i],
            block_size,
            run.stacks[i],
            training,
            rate,
            run.stacks[i + 1],
            caches[i],
            run.rngs[i],
            run.rngs[i + 1],
            s,
            mid,
            after[i],
            grad_input,
            dirs[i],
            blocks_tangent(read, blocks, caches, run, dirs, d, n),
        );
        let f = |j: int| block_slope(read, blocks[j], after[j], dirs[j]);
        assert(series(n + 1, f) == series(n, f) + f(i));
    }
}

/// How the parameters of a model change.
pub ghost struct ModelDirection {
    pub token_embedding: Table,
    pub position_embedding: Table,
    pub blocks: Seq<BlockDirection>,
    pub ln_f: NormDirection,
    pub lm_head: LinearDirection,
}

/// How the rows that `keys` pick from a table change where the table changes by `d`.
pub open spec fn picked(keys: Seq<usize>, d: Table) -> Table {
    |r: int, c: int| d(keys[r] as int, c)
}

/// How the embedded tokens change.
pub open spec fn embedding_tangent(idx: TokenArray, dir: ModelDirection) -> Table {
    table_sum(
        picked(token_items(idx), dir.token_embedding),
        picked(places(idx.rows() * idx.cols(), idx.cols()), dir.position_embedding),
    )
}

/// How the logits of a model change along `dir`, in a run that left this cache.
pub open spec fn model_tangent<T>(
    read: Reading<T>,
    model: GptLanguageModel<T>,
    cache: GptCache<T>,
    run: BlocksRun<T>,
    dir: ModelDirection,
) -> Table {
    linear_tangent(
        read,
        model.lm_head,
        cache.final_norm_output,
        dir.lm_head,
        layer_norm_tangent(
            read,
            model.ln_f,
            run.stacks.last(),
            cache.final_norm,
            dir.ln_f,
            blocks_tangent(
                read,
                model.blocks@,
                cache.blocks@,
                run,
                dir.blocks,
                embedding_tangent(cache.idx, dir),
                model.blocks@.len(),
            ),
        ),
    )
}

/// What going back added to the gradients of a table, times how the table changes.
pub open spec fn table_slope<T>(
    read: Reading<T>,
    before: Param2D<T>,
    after: Param2D<T>,
    d: Table,
) -> real {
    pair(
        before.value.rows as nat,
        before.value.cols as nat,
        |v: int, c: int| table_gain(read, before, after, v, c),
        d,
    )
}

/// What going back added to the gradients of a model, times how its parameters change.
pub open spec fn model_slope<T>(
    read: Reading<T>,
    before: GptLanguageModel<T>,
    after: GptLanguageModel<T>,
    dir: ModelDirection,
) -> real {
    table_slope(read, before.token_embedding, after.token_embedding, dir.token_embedding)
        + table_slope(
        read,
        before.position_embedding,
        after.position_embedding,
        dir.position_embedding,
    ) + blocks_slope(read, before.blocks@, after.blocks@, dir.blocks, before.blocks@.len())
        + norm_slope(read, before.ln_f, after.ln_f, dir.ln_f) + linear_slope(
        read,
        before.lm_head,
        after.lm_head,
        dir.lm_head,
    )
}

/// The gradient of a table that rows were picked from is a slope.
pub proof fn lemma_table_slope<T: Real>(
    read: Reading<T>,
    keys: Seq<usize>,
    before: Param2D<T>,
    g: Tensor3<T>,
    after: Param2D<T>,
    d: Table,
)
    requires
        is_exact(read),
        before.wf(),
        stack_finite(read, g),
        g.flat.cols == before.value.cols,
        forall|r: int| 0 <= r < g.flat.rows ==> (#[trigger] keys[r]) < before.value.rows,
        all_finite(read, before.grad.data@),
        scattered(before.grad, keys, g.flat, after.grad),
    ensures
        stack_pair(read, g, picked(keys, d)) == table_slope(read, before, after, d),
{
    let v = read.value;
    let (n, m, rows) = (g.flat.rows as nat, g.flat.cols as nat, before.value.rows as nat);
    let (gt, e) = (cells(read, g.flat), picked(keys, d));
    let gains = |w: int, c: int| table_gain(read, before, after, w, c);
    lemma_embedding_gradient(read, keys, before, g.flat, after, d);
    lemma_pair_columns(n, m, gt, e);
    lemma_pair_columns(rows, m, gains, d);
    let (x, y) = (
        |c: int| column_pair(n, gt, e, c),
        |c: int| series(n, |r: int| v(g.flat.at(r, c)) * d(keys[r] as int, c)),
    );
    assert forall|c: int| 0 <= c < m implies #[trigger] x(c) == y(c) by {
        lemma_series_same(
            n,
            |r: int| gt(r, c) * e(r, c),
            |r: int| v(g.flat.at(r, c)) * d(keys[r] as int, c),
        );
    }
    lemma_series_same(m, x, y);
    let (p, q) = (
        |c: int| column_pair(rows, gains, d, c),
        |c: int| series(rows, |w: int| table_gain(read, before, after, w, c) * d(w, c)),
    );
    assert forall|c: int| 0 <= c < m implies #[trigger] p(c) == q(c) by {
        lemma_series_same(
            rows,
            |w: int| gains(w, c) * d(w, c),
            |w: int| table_gain(read, before, after, w, c) * d(w, c),
        );
    }
    lemma_series_same(m, p, q);
}

/// The gradients of the two embeddings are slopes.
proof fn lemma_embedding_slope<T: Real>(
    read: Reading<T>,
    model: GptLanguageModel<T>,
    idx: TokenArray,
    cache: GptCache<T>,
    g: Tensor3<T>,
    after: GptLanguageModel<T>,
    dir: ModelDirection,
)
    requires
        is_exact(read),
        model.wf(),
        model.takes(idx),
        model_grads_finite(read, model),
        cache.idx.same(idx),
        stack_finite(read, g),
        g.has_shape(idx.rows(), idx.cols(), model.config.n_embd as int),
        scattered(
            model.token_embedding.grad,
            token_items(cache.idx),
            g.flat,
            after.token_embedding.grad,
        ),
        scattered(
            model.position_embedding.grad,
            places(g.flat.rows as int, cache.idx.cols()),
            g.flat,
            after.position_embedding.grad,
        ),
    ensures
        stack_pair(read, g, embedding_tangent(cache.idx, dir)) == table_slope(
            read,
            model.token_embedding,
            after.token_embedding,
            dir.token_embedding,
        ) + table_slope(
            read,
            model.position_embedding,
            after.position_embedding,
            dir.position_embedding,
        ),
{
    let (rows, cols) = (g.flat.rows as nat, g.flat.cols as nat);
    let time = idx.cols();
    let keys = token_items(cache.idx);
    let spots = places(cache.idx.rows() * cache.idx.cols(), cache.idx.cols());
    lemma_pair_plus(
        rows,
        cols,
        cells(read, g.flat),
        picked(keys, dir.token_embedding),
        picked(spots, dir.position_embedding),
    );
    assert forall|r: int| 0 <= r < rows implies 0 <= r / time < idx.rows() && 0 <= #[trigger] (r
        % time) < time && (r / time) * time + r % time == r by {
        assert(time > 0) by (nonlinear_arith)
            requires
                0 <= r < idx.rows() * time,
                time >= 0,
        ;
        lemma_split_index(r, idx.rows(), time);
    }
    assert forall|r: int| 0 <= r < rows implies (#[trigger] keys[r]) < model.config.vocab_size by {
        let (b, t) = (r / time, r % time);
        assert(cache.idx.at(b, t) == keys[r]);
        assert(cache.idx.at(b, t) == idx.at(b, t));
        assert(idx.at(b, t) < model.config.vocab_size);
    }
    assert forall|r: int| 0 <= r < rows implies (#[trigger] spots[r]) < model.config.block_size by {
        assert(spots[r] == (r % time) as usize);
    }
    lemma_table_slope(
        read,
        keys,
        model.token_embedding,
        g,
        after.token_embedding,
        dir.token_embedding,
    );
    lemma_table_slope(
        read,
        spots,
        model.position_embedding,
        g,
        after.position_embedding,
        dir.position_embedding,
    );
}

/// The gradients of a model are slopes: wherever its parameters go, the inner product of the
/// gradient of the logits with how the logits change is what was added to the gradients of the
/// parameters times how they change.
#[verifier::rlimit(40)]
pub proof fn lemma_model_slope<T: Real>(
    read: Reading<T>,
    model: GptLanguageModel<T>,
    idx: TokenArray,
    training: bool,
    logits: Tensor3<T>,
    cache: GptCache<T>,
    rng: SmallRng,
    rng_after: SmallRng,
    embedded: Tensor3<T>,
    last: Tensor3<T>,
    run: BlocksRun<T>,
    grad_logits: Tensor3<T>,
    after: GptLanguageModel<T>,
    dir: ModelDirection,
)
    requires
        is_exact(read),
        model.wf(),
        model.takes(idx),
        model_values_finite(read, model),
        model_grads_finite(read, model),
        model_steps_give(model, idx, training, logits, cache, rng, rng_after, embedded, last),
        is_run(model.blocks@, training, model.config.dropout, cache.blocks@, run),
        run.stacks.first() == embedded,
        run.stacks.last() == last,
        stack_finite(read, grad_logits),
        grad_logits.same_shape(logits),
        model_backward_gives(model, cache, grad_logits, after),
    ensures
        stack_pair(read, grad_logits, model_tangent(read, model, cache, run, dir)) == model_slope(
            read,
            model,
            after,
            dir,
        ),
{
    lemma_model_stays_finite(
        read,
        model,
        idx,
        training,
        logits,
        cache,
        rng,
        rng_after,
        embedded,
        last,
    );
    let (normed, back, front) = choose|normed: Tensor3<T>, back: Tensor3<T>, front: Tensor3<T>|
        model_backward_steps_give(model, cache, grad_logits, after, normed, back, front);
    let (blocks, caches) = (model.blocks@, cache.blocks@);
    let n = blocks.len();
    let d0 = embedding_tangent(cache.idx, dir);
    let dn = blocks_tangent(read, blocks, caches, run, dir.blocks, d0, n);
    let dl = layer_norm_tangent(read, model.ln_f, last, cache.final_norm, dir.ln_f, dn);
    lemma_linear_slope(
        read,
        model.lm_head,
        cache.final_norm_output,
        grad_logits,
        after.lm_head,
        normed,
        dir.lm_head,
        dl,
    );
    lemma_norm_slope(
        read,
        model.ln_f,
        last,
        cache.final_norm_output,
        cache.final_norm,
        normed,
        after.ln_f,
        back,
        dir.ln_f,
        dn,
    );
    assert(blocks.skip(0) =~= blocks && caches.skip(0) =~= caches);
    assert(after.blocks@.skip(0) =~= after.blocks@);
    lemma_blocks_slope(
        read,
        blocks,
        model.config.block_size as int,
        training,
        model.config.dropout,
        caches,
        run,
        back,
        after.blocks@,
        front,
        dir.blocks,
        d0,
        0,
    );
    lemma_embedding_slope(read, model, idx, cache, front, after, dir);
}

/// How the loss changes where the logits change by `d`.
pub open spec fn loss_tangent<T>(
    read: Reading<T>,
    probs: Tensor3<T>,
    targets: TokenArray,
    d: Table,
) -> real {
    series(
        probs.flat.rows as nat,
        |r: int| row_loss_tangent(read, probs, targets, d, r),
    ) / probs.flat.rows as real
}

/// The gradients of training are slopes of the loss: wherever the parameters of the model go, the
/// loss changes by what was added to their gradients times how they change. This is said of runs
/// that give every target a probability above the least that the loss tells apart from zero.
pub proof fn lemma_loss_slope<T: Real>(
    read: Reading<T>,
    model: GptLanguageModel<T>,
    idx: TokenArray,
    training: bool,
    logits: Tensor3<T>,
    cache: GptCache<T>,
    rng: SmallRng,
    rng_after: SmallRng,
    embedded: Tensor3<T>,
    last: Tensor3<T>,
    run: BlocksRun<T>,
    targets: TokenArray,
    probs: Tensor3<T>,
    loss: T,
    grad_logits: Tensor3<T>,
    after: GptLanguageModel<T>,
    dir: ModelDirection,
)
    requires
        is_exact(read),
        model.wf(),
        model.takes(idx),
        model_values_finite(read, model),
        model_grads_finite(read, model),
        model_steps_give(model, idx, training, logits, cache, rng, rng_after, embedded, last),
        is_run(model.blocks@, training, model.config.dropout, cache.blocks@, run),
        run.stacks.first() == embedded,
        run.stacks.last() == last,
        cross_entropy_gives(logits, targets, probs, loss, grad_logits),
        logits.flat.rows > 0,
        forall|r: int|
            0 <= r < logits.flat.rows ==> (#[trigger] token_items(targets)[r])
                < model.config.vocab_size && (read.value)(
                probs.flat.at(r, token_items(targets)[r] as int),
            ) > 1 as real / 1_000_000_000_000 as real,
        model_backward_gives(model, cache, grad_logits, after),
    ensures
        loss_tangent(
            read,
            probs,
            targets,
            model_tangent(read, model, cache, run, dir),
        ) == model_slope(read, model, after, dir),
{
    lemma_model_stays_finite(
        read,
        model,
        idx,
        training,
        logits,
        cache,
        rng,
        rng_after,
        embedded,
        last,
    );
    lemma_loss_stays_finite(read, logits, targets, probs, loss, grad_logits);
    lemma_model_slope(
        read,
        model,
        idx,
        training,
        logits,
        cache,
        rng,
        rng_after,
        embedded,
        last,
        run,
        grad_logits,
        after,
        dir,
    );
    let d = model_tangent(read, model, cache, run, dir);
    lemma_loss_gradient(read, logits, targets, probs, loss, grad_logits, d);
    let (n, m) = (logits.flat.rows as nat, logits.flat.cols as nat);
    let g = cells(read, grad_logits.flat);
    let (x, y) = (
        |r: int| series(m, |c: int| (read.value)(grad_logits.flat.at(r, c)) * d(r, c)),
        |r: int| row_pair(m, g, d, r),
    );
    assert forall|r: int| 0 <= r < n implies #[trigger] x(r) == y(r) by {
        lemma_series_same(
            m,
            |c: int| (read.value)(grad_logits.flat.at(r, c)) * d(r, c),
            |c: int| g(r, c) * d(r, c),
        );
    }
    lemma_series_same(n, x, y);
}

} // verus!
