//! What the whole model makes of tokens, over the reals.

use crate::attention::{AttentionCache, MultiHeadSelfAttention};
use crate::block::{block_steps_give, Block, BlockCache, BlockSteps};
use crate::dropout::dropout_gives;
use crate::elementwise::plus_tensor_gives;
use crate::exact::{is_exact, Reading};
use crate::feed_forward::{feed_forward_gives, relu_gives, FeedForward, FeedForwardCache};
use crate::finite::{
    block_values_finite, lemma_attention_stays_finite, lemma_blocks_have_run,
    lemma_feed_forward_stays_finite, lemma_linear_stays_finite, lemma_model_stays_finite,
    lemma_norm_stays_finite, lemma_plus_stays_finite, lemma_run_stays_finite, model_values_finite,
    norm_values_finite,
};
use crate::gradient::{layer_is_finite, lemma_series_same, series};
use crate::grid::TokenArray;
use crate::layer_norm::{LayerNorm, LayerNormCache};
use crate::linear::{linear_gives, Linear};
use crate::meaning::{
    attends, attention_of, feed_forward_of, is_block_of, is_normed, is_normed_by,
    lemma_linear_of_same, lemma_linear_reads, lemma_moments_same, lemma_norm_reads, linear_of,
    rectified,
};
use crate::meaning_attention::{lemma_attention_reads, lemma_dropout_reads};
use crate::model::{model_gives, model_steps_give, GptCache, GptLanguageModel};
use crate::norm_tangent::deviation;
use crate::pairing::{cells, table_sum, Table};
use crate::scalar::{plus_gives, Real};
use crate::scaling::stack_finite;
use crate::tensor::{lemma_index_in_range, Tensor3};
use rand::rngs::SmallRng;
use vstd::prelude::*;

verus! {

/// What a feed-forward network reads as, given that it was run.
pub proof fn lemma_feed_forward_reads<T: Real>(
    read: Reading<T>,
    layer: FeedForward<T>,
    input: Tensor3<T>,
    training: bool,
    rate: T,
    output: Tensor3<T>,
    cache: FeedForwardCache<T>,
    before: SmallRng,
    after: SmallRng,
)
    requires
        is_exact(read),
        layer.has_width(input.flat.cols as int),
        layer_is_finite(read, layer.fc1),
        layer_is_finite(read, layer.fc2),
        (read.finite)(rate),
        stack_finite(read, input),
        feed_forward_gives(layer, input, training, rate, output, cache, before, after),
    ensures
        cache.input.same(input),
        forall|r: int, c: int|
            0 <= r < input.flat.rows && 0 <= c < input.flat.cols ==> #[trigger] cells(
                read,
                output.flat,
            )(r, c) == feed_forward_of(
                read,
                layer,
                cache.dropout_mask,
                cells(read, cache.input.flat),
            )(r, c),
{
    let v = read.value;
    lemma_feed_forward_stays_finite(
        read,
        layer,
        input,
        training,
        rate,
        output,
        cache,
        before,
        after,
    );
    let projected = choose|projected: Tensor3<T>| #[trigger]
        linear_gives(layer.fc2, cache.hidden, projected) && dropout_gives(
            projected,
            rate,
            training,
            output,
            cache.dropout_mask,
            before,
            after,
        );
    lemma_linear_stays_finite(read, layer.fc2, cache.hidden, projected);
    let x = cells(read, cache.input.flat);
    let pre = linear_of(read, layer.fc1, x);
    assert forall|r: int, c: int| 0 <= r < input.flat.rows && 0 <= c < input.flat.cols implies (
    #[trigger] cells(read, output.flat)(r, c)) == feed_forward_of(
        read,
        layer,
        cache.dropout_mask,
        x,
    )(r, c) by {
        lemma_dropout_reads(
            read,
            projected,
            rate,
            training,
            output,
            cache.dropout_mask,
            before,
            after,
            r,
            c,
        );
        lemma_linear_reads(read, layer.fc2, cache.hidden, projected, r, c);
        let made = cells(read, cache.hidden.flat);
        assert forall|i: int| 0 <= i < layer.fc2.weight.value.rows implies #[trigger] made(r, i)
            == rectified(pre)(r, i) by {
            lemma_linear_reads(read, layer.fc1, input, cache.hidden_pre, r, i);
            lemma_linear_of_same(read, layer.fc1, cells(read, input.flat), x, r, i);
            lemma_index_in_range(
                r,
                cache.hidden.flat.rows as int,
                i,
                cache.hidden.flat.cols as int,
            );
            let k = r * cache.hidden.flat.cols + i;
            assert((read.finite)(cache.hidden_pre.flat.data@[k]));
            assert(relu_gives(cache.hidden_pre.flat.data@[k], cache.hidden.flat.data@[k]));
        }
        lemma_linear_of_same(read, layer.fc2, made, rectified(pre), r, c);
    }
}

/// Normalizations that agree on a row.
proof fn lemma_is_normed_same<T>(
    read: Reading<T>,
    layer: LayerNorm<T>,
    n: nat,
    x: Table,
    y: Table,
    x2: Table,
    y2: Table,
    r: int,
)
    requires
        is_normed(read, layer, n, x, y, r),
        forall|c: int| 0 <= c < n ==> #[trigger] x2(r, c) == x(r, c),
        forall|c: int| 0 <= c < n ==> #[trigger] y2(r, c) == y(r, c),
    ensures
        is_normed(read, layer, n, x2, y2, r),
{
    let root = choose|root: real| #[trigger] is_normed_by(read, layer, n, x, y, r, root);
    let (f, g) = (|k: int| x(r, k), |k: int| x2(r, k));
    assert forall|k: int| 0 <= k < n implies #[trigger] f(k) == g(k) by {
        assert(x2(r, k) == x(r, k));
    }
    lemma_moments_same(n, f, g);
    assert forall|c: int| 0 <= c < n implies #[trigger] y2(r, c) == (read.value)(
        layer.gamma.value@[c],
    ) * (deviation(n, g, c) / root) + (read.value)(layer.beta.value@[c]) by {
        assert(y2(r, c) == y(r, c));
        assert(deviation(n, f, c) == deviation(n, g, c));
    }
    assert(is_normed_by(read, layer, n, x2, y2, r, root));
}

/// What a sum of stacks reads as.
pub proof fn lemma_plus_reads<T: Real>(
    read: Reading<T>,
    a: Tensor3<T>,
    b: Tensor3<T>,
    total: Tensor3<T>,
    r: int,
    c: int,
)
    requires
        is_exact(read),
        stack_finite(read, a),
        stack_finite(read, b),
        a.same_shape(b),
        plus_tensor_gives(a, b, total),
        0 <= r < a.flat.rows,
        0 <= c < a.flat.cols,
    ensures
        cells(read, total.flat)(r, c) == cells(read, a.flat)(r, c) + cells(read, b.flat)(r, c),
{
    lemma_index_in_range(r, a.flat.rows as int, c, a.flat.cols as int);
    let i = r * a.flat.cols + c;
    assert((read.finite)(a.flat.data@[i]) && (read.finite)(b.flat.data@[i]));
    assert(plus_gives(a.flat.data@[i], b.flat.data@[i], total.flat.data@[i]));
}

/// What a block reads as, given that it was run.
pub proof fn lemma_block_reads<T: Real>(
    read: Reading<T>,
    block: Block<T>,
    block_size: int,
    input: Tensor3<T>,
    training: bool,
    rate: T,
    output: Tensor3<T>,
    cache: BlockCache<T>,
    before: SmallRng,
    after: SmallRng,
    s: BlockSteps<T>,
)
    requires
        is_exact(read),
        input.flat.cols > 0,
        block.has_shape(input.flat.cols as int, block_size),
        block_values_finite(read, block),
        (read.finite)(rate),
        stack_finite(read, input),
        block_steps_give(block, input, training, rate, output, cache, before, after, s),
    ensures
        is_block_of(
            read,
            block,
            input.outer as int,
            input.inner as int,
            input.flat.cols as int,
            cells(read, input.flat),
            cache,
            cells(read, output.flat),
        ),
{
    let (rows, width) = (input.flat.rows as int, input.flat.cols as int);
    let time = input.inner as int;
    lemma_norm_stays_finite(read, block.ln1, input, s.ln1_output, cache.ln1);
    lemma_attention_stays_finite(
        read,
        block.attention,
        block_size,
        s.ln1_output,
        training,
        rate,
        s.attention_output,
        cache.attention,
        before,
        s.rng,
    );
    lemma_plus_stays_finite(read, input, s.attention_output, s.residual);
    lemma_norm_stays_finite(read, block.ln2, s.residual, s.ln2_output, cache.ln2);
    lemma_feed_forward_stays_finite(
        read,
        block.feed_forward,
        s.ln2_output,
        training,
        rate,
        s.feed_forward_output,
        cache.feed_forward,
        s.rng,
        after,
    );
    lemma_attention_reads(
        read,
        block.attention,
        block_size,
        s.ln1_output,
        training,
        rate,
        s.attention_output,
        cache.attention,
        before,
        s.rng,
    );
    lemma_feed_forward_reads(
        read,
        block.feed_forward,
        s.ln2_output,
        training,
        rate,
        s.feed_forward_output,
        cache.feed_forward,
        s.rng,
        after,
    );
    let x = cells(read, input.flat);
    let n1 = cells(read, cache.attention.input.flat);
    let attended = attention_of(read, block.attention, time, cache.attention, n1);
    let residual = table_sum(x, attended);
    let n2 = cells(read, cache.feed_forward.input.flat);
    let spread = feed_forward_of(read, block.feed_forward, cache.feed_forward.dropout_mask, n2);
    let mid = cells(read, s.residual.flat);
    assert forall|r: int, c: int| 0 <= r < rows && 0 <= c < width implies #[trigger] residual(r, c)
        == mid(r, c) by {
        lemma_plus_reads(read, input, s.attention_output, s.residual, r, c);
        assert(cells(read, s.attention_output.flat)(r, c) == attended(r, c));
    }
    assert forall|r: int| 0 <= r < rows implies #[trigger] is_normed(
        read,
        block.ln1,
        width as nat,
        x,
        n1,
        r,
    ) by {
        lemma_norm_reads(read, block.ln1, input, s.ln1_output, cache.ln1, r);
        lemma_is_normed_same(
            read,
            block.ln1,
            width as nat,
            x,
            cells(read, s.ln1_output.flat),
            x,
            n1,
            r,
        );
    }
    assert forall|r: int| 0 <= r < rows implies #[trigger] is_normed(
        read,
        block.ln2,
        width as nat,
        residual,
        n2,
        r,
    ) by {
        lemma_norm_reads(read, block.ln2, s.residual, s.ln2_output, cache.ln2, r);
        lemma_is_normed_same(
            read,
            block.ln2,
            width as nat,
            mid,
            cells(read, s.ln2_output.flat),
            residual,
            n2,
            r,
        );
    }
    let y = cells(read, output.flat);
    assert forall|r: int, c: int| 0 <= r < rows && 0 <= c < width implies #[trigger] y(r, c)
        == residual(r, c) + spread(r, c) by {
        lemma_plus_reads(read, s.residual, s.feed_forward_output, output, r, c);
        assert(residual(r, c) == mid(r, c));
        assert(cells(read, s.feed_forward_output.flat)(r, c) == spread(r, c));
    }
}

/// Stack `l + 1` is what block `l` makes of stack `l`.
pub open spec fn is_block_at<T>(
    read: Reading<T>,
    blocks: Seq<Block<T>>,
    batch: int,
    time: int,
    width: int,
    caches: Seq<BlockCache<T>>,
    stacks: Seq<Table>,
    l: int,
) -> bool {
    is_block_of(read, blocks[l], batch, time, width, stacks[l], caches[l], stacks[l + 1])
}

/// `logits` is what the model makes of the tokens, in a run that left this cache and had these
/// stacks before, between and behind the blocks: the row of a token is its embedding plus that of
/// its place, then come the blocks in order, then the last normalization, then the head.
pub open spec fn is_model_of<T>(
    read: Reading<T>,
    model: GptLanguageModel<T>,
    idx: TokenArray,
    cache: GptCache<T>,
    stacks: Seq<Table>,
    logits: Tensor3<T>,
) -> bool {
    let (batch, time, width) = (idx.rows(), idx.cols(), model.config.n_embd as int);
    let n = model.blocks@.len() as int;
    let normed = cells(read, cache.final_norm_output.flat);
    &&& stacks.len() == n + 1
    &&& logits.has_shape(batch, time, model.config.vocab_size as int)
    &&& forall|b: int, t: int, c: int|
        0 <= b < batch && 0 <= t < time && 0 <= c < width ==> stacks[0](b * time + t, c) == (
        read.value)(model.token_embedding.value.at(#[trigger] idx.at(b, t) as int, c)) + (
        read.value)(#[trigger] model.position_embedding.value.at(t, c))
    &&& forall|l: int|
        0 <= l < n ==> #[trigger] is_block_at(
            read,
            model.blocks@,
            batch,
            time,
            width,
            cache.blocks@,
            stacks,
            l,
        )
    &&& forall|r: int|
        0 <= r < batch * time ==> #[trigger] is_normed(
            read,
            model.ln_f,
            width as nat,
            stacks[n],
            normed,
            r,
        )
    &&& forall|r: int, c: int|
        0 <= r < batch * time && 0 <= c < model.config.vocab_size ==> #[trigger] cells(
            read,
            logits.flat,
        )(r, c) == linear_of(read, model.lm_head, normed)(r, c)
}

/// What the model reads as, given that it was run.
pub proof fn lemma_model_reads<T: Real>(
    read: Reading<T>,
    model: GptLanguageModel<T>,
    idx: TokenArray,
    training: bool,
    logits: Tensor3<T>,
    cache: GptCache<T>,
    before: SmallRng,
    after: SmallRng,
) -> (stacks: Seq<Table>)
    requires
        is_exact(read),
        model.wf(),
        model.takes(idx),
        model_values_finite(read, model),
        model_gives(model, idx, training, logits, cache, before, after),
    ensures
        is_model_of(read, model, idx, cache, stacks, logits),
        cache.idx.same(idx),
        cache.blocks@.len() == model.blocks@.len(),
        stack_finite(read, logits),
{
    let v = read.value;
    let (batch, time, width) = (idx.rows(), idx.cols(), model.config.n_embd as int);
    let (embedded, last) = choose|embedded: Tensor3<T>, last: Tensor3<T>|
        model_steps_give(
            model,
            idx,
            training,
            logits,
            cache,
            before,
            after,
            embedded,
            last,
        );
    lemma_model_stays_finite(
        read,
        model,
        idx,
        training,
        logits,
        cache,
        before,
        after,
        embedded,
        last,
    );
    let rate = model.config.dropout;
    let block_size = model.config.block_size as int;
    let run = lemma_blocks_have_run(
        model.blocks@,
        training,
        rate,
        embedded,
        cache.blocks@,
        last,
        before,
        after,
    );
    let n = model.blocks@.len();
    let stacks = Seq::new(n + 1, |l: int| cells(read, run.stacks[l].flat));
    assert forall|b: int, t: int, c: int|
        0 <= b < batch && 0 <= t < time && 0 <= c < width implies stacks[0](b * time + t, c) == v(
        model.token_embedding.value.at(#[trigger] idx.at(b, t) as int, c),
    ) + v(#[trigger] model.position_embedding.value.at(t, c)) by {
        let key = idx.at(b, t) as int;
        assert(idx.at(b, t) < model.config.vocab_size);
        let (token, position) = (model.token_embedding.value, model.position_embedding.value);
        lemma_index_in_range(key, token.rows as int, c, width);
        lemma_index_in_range(t, position.rows as int, c, width);
        assert((read.finite)(token.data@[key * width + c]));
        assert((read.finite)(position.data@[t * width + c]));
        assert(plus_gives(token.at(key, c), position.at(t, c), embedded.cell(b, t, c)));
        assert(run.stacks[0] == embedded);
    }
    assert forall|l: int| 0 <= l < n implies #[trigger] is_block_at(
        read,
        model.blocks@,
        batch,
        time,
        width,
        cache.blocks@,
        stacks,
        l,
    ) by {
        lemma_run_stays_finite(
            read,
            model.blocks@,
            block_size,
            training,
            rate,
            cache.blocks@,
            run,
            l as nat,
        );
        let s = run.steps[l];
        assert(block_values_finite(read, model.blocks@[l]));
        lemma_block_reads(
            read,
            model.blocks@[l],
            block_size,
            run.stacks[l],
            training,
            rate,
            run.stacks[l + 1],
            cache.blocks@[l],
            run.rngs[l],
            run.rngs[l + 1],
            s,
        );
    }
    let normed = cells(read, cache.final_norm_output.flat);
    assert forall|r: int| 0 <= r < batch * time implies #[trigger] is_normed(
        read,
        model.ln_f,
        width as nat,
        stacks[n as int],
        normed,
        r,
    ) by {
        lemma_norm_reads(
            read,
            model.ln_f,
            last,
            cache.final_norm_output,
            cache.final_norm,
            r,
        );
    }
    assert forall|r: int, c: int|
        0 <= r < batch * time && 0 <= c < model.config.vocab_size implies (#[trigger] cells(
        read,
        logits.flat,
    )(r, c)) == linear_of(read, model.lm_head, normed)(r, c) by {
        lemma_linear_reads(read, model.lm_head, cache.final_norm_output, logits, r, c);
    }
    stacks
}

/// What the model makes of tokens: the row of a token is its embedding plus that of its place, then
/// come the blocks in order, then the last normalization, then the head.
pub proof fn lemma_forward_value<T: Real>(
    read: Reading<T>,
    model: &GptLanguageModel<T>,
    idx: &TokenArray,
    training: bool,
    rng: &mut SmallRng,
    logits: Tensor3<T>,
    cache: GptCache<T>,
)
    requires
        is_exact(read),
        model.wf(),
        model.takes(*idx),
        model_values_finite(read, *model),
        call_ensures(
            GptLanguageModel::<T>::forward,
            (model, idx, training, rng),
            Ok((logits, cache)),
        ),
    ensures
        exists|stacks: Seq<Table>| #[trigger]
            is_model_of(read, *model, *idx, cache, stacks, logits),
{
    let stacks = lemma_model_reads(
        read,
        *model,
        *idx,
        training,
        logits,
        cache,
        *old(rng),
        *final(rng),
    );
}

/// What a block makes of its input: to the input is added what attention makes of its normalized
/// rows, and to that what the feed-forward network makes of the normalized rows of the sum.
pub proof fn lemma_block_value<T: Real>(
    read: Reading<T>,
    block: &Block<T>,
    input: &Tensor3<T>,
    training: bool,
    rate: T,
    rng: &mut SmallRng,
    output: Tensor3<T>,
    cache: BlockCache<T>,
)
    requires
        is_exact(read),
        input.flat.cols > 0,
        block.has_shape(input.flat.cols as int, block.attention.block_size()),
        block_values_finite(read, *block),
        (read.finite)(rate),
        stack_finite(read, *input),
        call_ensures(
            Block::<T>::forward,
            (block, input, training, rate, rng),
            Ok((output, cache)),
        ),
    ensures
        output.wf() && output.same_shape(*input),
        is_block_of(
            read,
            *block,
            input.outer as int,
            input.inner as int,
            input.flat.cols as int,
            cells(read, input.flat),
            cache,
            cells(read, output.flat),
        ),
{
    let s = choose|s: BlockSteps<T>|
        block_steps_give(
            *block,
            *input,
            training,
            rate,
            output,
            cache,
            *old(rng),
            *final(rng),
            s,
        );
    lemma_block_reads(
        read,
        *block,
        block.attention.block_size(),
        *input,
        training,
        rate,
        output,
        cache,
        *old(rng),
        *final(rng),
        s,
    );
}

/// What attention makes of its input: every row of every head spreads a weight of one over the rows
/// up to itself, by the softmax of its scores, and takes the sum of their values by those weights.
pub proof fn lemma_attention_value<T: Real>(
    read: Reading<T>,
    layer: &MultiHeadSelfAttention<T>,
    input: &Tensor3<T>,
    training: bool,
    rate: T,
    rng: &mut SmallRng,
    output: Tensor3<T>,
    cache: AttentionCache<T>,
)
    requires
        is_exact(read),
        input.flat.cols > 0,
        layer.has_shape(input.flat.cols as int, layer.block_size()),
        layer_is_finite(read, layer.qkv),
        layer_is_finite(read, layer.proj),
        (read.finite)(rate),
        stack_finite(read, *input),
        call_ensures(
            MultiHeadSelfAttention::<T>::forward,
            (layer, input, training, rate, rng),
            Ok((output, cache)),
        ),
    ensures
        cache.input.same(*input),
        attends(
            read,
            *layer,
            input.outer as int,
            input.inner as int,
            cache.att_probs,
            cells(read, cache.input.flat),
        ),
        forall|r: int, c: int|
            0 <= r < input.flat.rows && 0 <= c < input.flat.cols ==> #[trigger] cells(
                read,
                output.flat,
            )(r, c) == attention_of(
                read,
                *layer,
                input.inner as int,
                cache,
                cells(read, cache.input.flat),
            )(r, c),
{
    lemma_attention_reads(
        read,
        *layer,
        layer.block_size(),
        *input,
        training,
        rate,
        output,
        cache,
        *old(rng),
        *final(rng),
    );
}

/// What a feed-forward network makes of its input.
pub proof fn lemma_feed_forward_value<T: Real>(
    read: Reading<T>,
    layer: &FeedForward<T>,
    input: &Tensor3<T>,
    training: bool,
    rate: T,
    rng: &mut SmallRng,
    output: Tensor3<T>,
    cache: FeedForwardCache<T>,
)
    requires
        is_exact(read),
        layer.has_width(input.flat.cols as int),
        layer_is_finite(read, layer.fc1),
        layer_is_finite(read, layer.fc2),
        (read.finite)(rate),
        stack_finite(read, *input),
        call_ensures(
            FeedForward::<T>::forward,
            (layer, input, training, rate, rng),
            Ok((output, cache)),
        ),
    ensures
        cache.input.same(*input),
        forall|r: int, c: int|
            0 <= r < input.flat.rows && 0 <= c < input.flat.cols ==> #[trigger] cells(
                read,
                output.flat,
            )(r, c) == feed_forward_of(
                read,
                *layer,
                cache.dropout_mask,
                cells(read, cache.input.flat),
            )(r, c),
{
    lemma_feed_forward_reads(
        read,
        *layer,
        *input,
        training,
        rate,
        output,
        cache,
        *old(rng),
        *final(rng),
    );
}

/// What a normalization makes of its input.
pub proof fn lemma_norm_value<T: Real>(
    read: Reading<T>,
    layer: &LayerNorm<T>,
    input: &Tensor3<T>,
    made: (Tensor3<T>, LayerNormCache<T>),
    r: int,
)
    requires
        is_exact(read),
        input.flat.cols > 0,
        layer.has_width(input.flat.cols as int),
        norm_values_finite(read, *layer),
        stack_finite(read, *input),
        call_ensures(LayerNorm::<T>::forward, (layer, input), made),
        0 <= r < input.flat.rows,
    ensures
        is_normed(
            read,
            *layer,
            input.flat.cols as nat,
            cells(read, input.flat),
            cells(read, made.0.flat),
            r,
        ),
{
    lemma_norm_reads(read, *layer, *input, made.0, made.1, r);
}

/// What a linear layer makes of its input.
pub proof fn lemma_linear_value<T: Real>(
    read: Reading<T>,
    layer: &Linear<T>,
    input: &Tensor3<T>,
    output: Tensor3<T>,
    r: int,
    c: int,
)
    requires
        is_exact(read),
        layer.wf(),
        layer_is_finite(read, *layer),
        stack_finite(read, *input),
        input.flat.cols == layer.weight.value.rows,
        call_ensures(Linear::<T>::forward, (layer, input), output),
        0 <= r < input.flat.rows,
        0 <= c < layer.weight.value.cols,
    ensures
        (read.value)(output.flat.at(r, c)) == series(
            layer.weight.value.rows as nat,
            |i: int|
                (read.value)(input.flat.at(r, i)) * (read.value)(layer.weight.value.at(i, c)),
        ) + (match layer.bias {
            Some(bias) => (read.value)(bias.value@[c]),
            None => 0 as real,
        }),
{
    lemma_linear_reads(read, *layer, *input, output, r, c);
    let x = cells(read, input.flat);
    let w = layer.weight.value;
    lemma_series_same(
        w.rows as nat,
        |i: int| x(r, i) * (read.value)(w.at(i, c)),
        |i: int| (read.value)(input.flat.at(r, i)) * (read.value)(w.at(i, c)),
    );
}

} // verus!
