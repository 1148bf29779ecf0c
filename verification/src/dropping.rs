//! What is dropped while training, and by which draws.

use crate::attention::{
    attention_gives, attention_steps_give, AttentionCache, MultiHeadSelfAttention,
};
use crate::block::{block_gives, block_steps_give, Block, BlockCache, BlockSteps};
use crate::dropout::{
    chunk_seed_of, dropout, dropout_gives, mask_chunk, mask_chunk_gives, mask_draws_give,
    mask_entry_gives, mask_gives, random_mask_gives, InvalidRate,
};
use crate::exact::{is_exact, Reading};
use crate::feed_forward::{feed_forward_gives, FeedForward, FeedForwardCache};
use crate::finite::{is_run, lemma_blocks_have_run, BlocksRun};
use crate::grid::TokenArray;
use crate::laws::{lemma_clearing_changes_grads_only, model_same_but_grads};
use crate::linear::linear_gives;
use crate::masks::{draws_below_one, lemma_rate_decides_dropout, lemma_rate_readings};
use crate::meaning_training::lemma_cleared_keeps_shape;
use crate::model::{model_gives, model_steps_give, GptCache, GptLanguageModel};
use crate::optim::{complement_gives, AdamW};
use crate::random::{random_u64_gives, seeded_gives};
use crate::scalar::{less_gives, one_gives, over_gives, times_gives, uniform_gives, Real};
use crate::scaling::stack_finite;
use crate::tensor::Tensor3;
use crate::training::{train_steps_give, TrainSteps};
use rand::rngs::SmallRng;
use vstd::prelude::*;

verus! {

/// Number `k` was drawn from generator `k`, which left the next generator.
pub open spec fn uniform_at<T: Real>(gens: Seq<SmallRng>, us: Seq<T>, k: int) -> bool {
    uniform_gives(gens[k], us[k], gens[k + 1])
}

/// The numbers were drawn one after the other, from the first generator to the last.
pub open spec fn uniform_chain<T: Real>(gens: Seq<SmallRng>, us: Seq<T>) -> bool {
    gens.len() == us.len() + 1 && forall|k: int|
        0 <= k < us.len() ==> #[trigger] uniform_at(gens, us, k)
}

/// Entry `i` of a mask was decided by a draw: the entries come in chunks of 4096, each with a
/// generator of its own, whose seed is made from the base seed and the number of the chunk; the
/// draws of a chunk follow one another. Where the draw of the entry lies below the share that is
/// kept, the entry reads as one over that share, and elsewhere as zero.
pub open spec fn kept_by_draw<T: Real>(
    read: Reading<T>,
    base: u64,
    share: real,
    mask: Seq<T>,
    i: int,
) -> bool {
    (read.finite)(mask[i]) && exists|gens: Seq<SmallRng>, us: Seq<T>|
        us.len() == i % 4096 + 1 && #[trigger] uniform_chain(gens, us) && seeded_gives(
            base ^ (((i / 4096) * 0x9E37_79B9_7F4A_7C15) % 0x1_0000_0000_0000_0000) as u64,
            gens[0],
        ) && (read.value)(mask[i]) == (if (read.value)(us[i % 4096]) < share {
            1 as real / share
        } else {
            0 as real
        })
}

/// The mask drops by the rate `p`: a base seed was drawn from the generator `before`, which left
/// the generator `after`, and every entry is decided by a draw of its own that follows from the
/// base seed.
pub open spec fn drops_by_rate<T: Real>(
    read: Reading<T>,
    p: T,
    mask: Seq<T>,
    before: SmallRng,
    after: SmallRng,
) -> bool {
    exists|base: u64| #[trigger]
        random_u64_gives(before, base, after) && forall|i: int|
            0 <= i < mask.len() ==> #[trigger] kept_by_draw(
                read,
                base,
                1 as real - (read.value)(p),
                mask,
                i,
            )
}

/// The generators and the draws of a chunk.
proof fn lemma_chunk_draws<T: Real>(
    before: SmallRng,
    keep: T,
    items: Seq<T>,
    after: SmallRng,
    n: nat,
) -> (found: (Seq<SmallRng>, Seq<T>))
    requires
        mask_draws_give(before, keep, items, after),
        n < items.len(),
    ensures
        uniform_chain(found.0, found.1),
        found.1.len() == n + 1,
        found.0[0] == before,
        mask_entry_gives(found.1[n as int], keep, items[n as int]),
    decreases items.len(),
{
    let front = items.drop_last();
    let (mid, u) = choose|mid: SmallRng, u: T|
        mask_draws_give(before, keep, front, mid) && #[trigger] uniform_gives(mid, u, after)
            && mask_entry_gives(u, keep, items.last());
    if n < front.len() {
        lemma_chunk_draws(before, keep, front, mid, n)
    } else {
        let found = lemma_all_draws(before, keep, front, mid);
        let (gens, us) = (found.0.push(after), found.1.push(u));
        assert forall|k: int| 0 <= k < us.len() implies #[trigger] uniform_at(gens, us, k) by {
            if k < found.1.len() {
                assert(uniform_at(found.0, found.1, k));
                assert(gens[k] == found.0[k] && gens[k + 1] == found.0[k + 1]);
                assert(us[k] == found.1[k]);
            }
        }
        (gens, us)
    }
}

/// The generators and all draws of a chunk.
proof fn lemma_all_draws<T: Real>(
    before: SmallRng,
    keep: T,
    items: Seq<T>,
    after: SmallRng,
) -> (found: (Seq<SmallRng>, Seq<T>))
    requires
        mask_draws_give(before, keep, items, after),
    ensures
        uniform_chain(found.0, found.1),
        found.1.len() == items.len(),
        found.0[0] == before,
        found.0[items.len() as int] == after,
    decreases items.len(),
{
    if items.len() == 0 {
        (seq![before], Seq::empty())
    } else {
        let front = items.drop_last();
        let (mid, u) = choose|mid: SmallRng, u: T|
            mask_draws_give(before, keep, front, mid) && #[trigger] uniform_gives(mid, u, after)
                && mask_entry_gives(u, keep, items.last());
        let found = lemma_all_draws(before, keep, front, mid);
        let (gens, us) = (found.0.push(after), found.1.push(u));
        assert forall|k: int| 0 <= k < us.len() implies #[trigger] uniform_at(gens, us, k) by {
            if k < found.1.len() {
                assert(uniform_at(found.0, found.1, k));
                assert(gens[k] == found.0[k] && gens[k + 1] == found.0[k + 1]);
                assert(us[k] == found.1[k]);
            }
        }
        (gens, us)
    }
}

/// What a mask is, given that it was drawn.
proof fn lemma_mask_drops_by_rate<T: Real>(
    read: Reading<T>,
    p: T,
    mask: Seq<T>,
    before: SmallRng,
    after: SmallRng,
)
    requires
        is_exact(read),
        draws_below_one(read),
        (read.finite)(p),
        (read.value)(p) < 1 as real,
        random_mask_gives(p, mask, before, after),
    ensures
        drops_by_rate(read, p, mask, before, after),
{
    let (base, keep) = choose|base: u64, keep: T| #[trigger]
        complement_gives(p, keep) && #[trigger] random_u64_gives(before, base, after)
            && mask_gives(base, keep, mask);
    let share = 1 as real - (read.value)(p);
    assert((read.finite)(keep) && (read.value)(keep) == share);
    assert forall|i: int| 0 <= i < mask.len() implies #[trigger] kept_by_draw(
        read,
        base,
        share,
        mask,
        i,
    ) by {
        let (chunk, place) = (i / 4096, i % 4096);
        let items = mask_chunk(mask, chunk);
        assert(chunk * 4096 + place == i);
        let seed = base ^ (((i / 4096) * 0x9E37_79B9_7F4A_7C15) % 0x1_0000_0000_0000_0000) as u64;
        assert(mask_chunk_gives(chunk_seed_of(base, chunk), keep, items));
        assert(seed == chunk_seed_of(base, chunk));
        let (first, last) = choose|first: SmallRng, last: SmallRng| #[trigger]
            seeded_gives(seed, first) && #[trigger] mask_draws_give(first, keep, items, last);
        let found = lemma_chunk_draws(first, keep, items, last, place as nat);
        let u = found.1[place];
        assert(items[place] == mask[i]);
        assert(uniform_at(found.0, found.1, place));
        assert((read.finite)(u));
        assert(mask_entry_gives(u, keep, mask[i]));
        if less_gives(u, keep, true) && exists|one: T|
            one_gives(one) && #[trigger] over_gives(one, keep, mask[i]) {
            let one = choose|one: T| one_gives(one) && #[trigger] over_gives(one, keep, mask[i]);
        }
        assert(uniform_chain(found.0, found.1));
    }
}

/// What a dropout does, given that it was made.
proof fn lemma_dropout_by_rate<T: Real>(
    read: Reading<T>,
    input: Tensor3<T>,
    p: T,
    training: bool,
    output: Tensor3<T>,
    mask: Option<Tensor3<T>>,
    before: SmallRng,
    after: SmallRng,
)
    requires
        is_exact(read),
        draws_below_one(read),
        (read.finite)(p),
        dropout_gives(input, p, training, output, mask, before, after),
    ensures
        mask is Some <==> training && (read.value)(p) != 0 as real,
        mask matches Some(m) ==> {
            &&& (0 as real) < (read.value)(p) && (read.value)(p) < 1 as real
            &&& m.wf() && m.same_shape(input)
            &&& drops_by_rate(read, p, m.flat.data@, before, after)
        },
        mask is None ==> after == before,
{
    lemma_rate_decides_dropout(read, input, p, training, output, mask, before, after);
    if let Some(m) = mask {
        lemma_mask_drops_by_rate(read, p, m.flat.data@, before, after);
    }
}

/// Dropout, while training and with a rate that does not read as zero, multiplies every entry by
/// the entry of a mask: by one over the share that is kept where a draw for the entry lies below
/// that share, and by zero elsewhere. Outside training, or with a rate of zero, the input comes out
/// as it is and nothing is drawn. A rate below zero, or of one and more, is refused while training,
/// and no other.
pub proof fn lemma_dropout_value<T: Real>(
    read: Reading<T>,
    input: &Tensor3<T>,
    p: T,
    training: bool,
    rng: &mut SmallRng,
    result: Result<(Tensor3<T>, Option<Tensor3<T>>), InvalidRate>,
)
    requires
        is_exact(read),
        draws_below_one(read),
        (read.finite)(p),
        stack_finite(read, *input),
        call_ensures(dropout::<T>, (input, p, training, rng), result),
    ensures
        result is Err <==> training && ((read.value)(p) < 0 as real || (read.value)(p)
            >= 1 as real),
        result matches Ok((output, mask)) ==> {
            &&& output.wf() && output.same_shape(*input)
            &&& mask is Some <==> training && (read.value)(p) != 0 as real
            &&& mask is None ==> output.flat.data@ == input.flat.data@ && *final(rng) == *old(rng)
            &&& mask matches Some(m) ==> {
                &&& m.wf() && m.same_shape(*input)
                &&& drops_by_rate(read, p, m.flat.data@, *old(rng), *final(rng))
                &&& forall|i: int|
                    0 <= i < input.flat.data@.len() ==> (read.value)(
                        #[trigger] output.flat.data@[i],
                    ) == (read.value)(input.flat.data@[i]) * (read.value)(m.flat.data@[i])
            }
        },
{
    lemma_rate_readings(read, p);
    if let Ok((output, mask)) = result {
        lemma_dropout_by_rate(read, *input, p, training, output, mask, *old(rng), *final(rng));
        if let Some(m) = mask {
            let base = choose|base: u64| #[trigger]
                random_u64_gives(*old(rng), base, *final(rng)) && forall|i: int|
                    0 <= i < m.flat.data@.len() ==> #[trigger] kept_by_draw(
                        read,
                        base,
                        1 as real - (read.value)(p),
                        m.flat.data@,
                        i,
                    );
            assert forall|i: int| 0 <= i < input.flat.data@.len() implies (read.value)(
                #[trigger] output.flat.data@[i],
            ) == (read.value)(input.flat.data@[i]) * (read.value)(m.flat.data@[i]) by {
                assert(kept_by_draw(
                    read,
                    base,
                    1 as real - (read.value)(p),
                    m.flat.data@,
                    i,
                ));
                assert((read.finite)(input.flat.data@[i]));
                assert(times_gives(
                    input.flat.data@[i],
                    m.flat.data@[i],
                    output.flat.data@[i],
                ));
            }
        }
    }
}

/// The mask is there, has this shape, and drops by the rate `p`.
pub open spec fn is_mask_by_rate<T: Real>(
    read: Reading<T>,
    p: T,
    mask: Option<Tensor3<T>>,
    outer: int,
    inner: int,
    width: int,
    before: SmallRng,
    after: SmallRng,
) -> bool {
    &&& mask is Some
    &&& mask->0.has_shape(outer, inner, width)
    &&& drops_by_rate(read, p, mask->0.flat.data@, before, after)
}

/// While training, with a rate that does not read as zero, attention drops twice: from the weights
/// of its heads and from its output. Outside training, or with a rate of zero, it drops nothing
/// and draws nothing.
pub proof fn lemma_attention_drops<T: Real>(
    read: Reading<T>,
    layer: &MultiHeadSelfAttention<T>,
    input: &Tensor3<T>,
    training: bool,
    rate: T,
    rng: &mut SmallRng,
    output: Tensor3<T>,
    cache: AttentionCache<T>,
)
    requires
        is_exact(read),
        draws_below_one(read),
        (read.finite)(rate),
        layer.has_shape(input.flat.cols as int, layer.block_size()),
        input.wf(),
        call_ensures(
            MultiHeadSelfAttention::<T>::forward,
            (layer, input, training, rate, rng),
            Ok((output, cache)),
        ),
    ensures
        !training || (read.value)(rate) == 0 as real ==> cache.att_dropout_mask is None
            && cache.proj_dropout_mask is None && *final(rng) == *old(rng),
        training && (read.value)(rate) != 0 as real ==> (0 as real) < (read.value)(rate) && (
        read.value)(rate) < 1 as real && exists|mid: SmallRng|
            #![trigger is_mask_by_rate(
                read,
                rate,
                cache.att_dropout_mask,
                input.outer * layer.n_head,
                input.inner as int,
                input.inner as int,
                *old(rng),
                mid,
            )]
            is_mask_by_rate(
                read,
                rate,
                cache.att_dropout_mask,
                input.outer * layer.n_head,
                input.inner as int,
                input.inner as int,
                *old(rng),
                mid,
            ) && is_mask_by_rate(
                read,
                rate,
                cache.proj_dropout_mask,
                input.outer as int,
                input.inner as int,
                input.flat.cols as int,
                mid,
                *final(rng),
            ),
{
    let mid = lemma_attention_masks(
        read,
        *layer,
        *input,
        training,
        rate,
        output,
        cache,
        *old(rng),
        *final(rng),
    );
}

/// The two masks of attention, given that it was run.
proof fn lemma_attention_masks<T: Real>(
    read: Reading<T>,
    layer: MultiHeadSelfAttention<T>,
    input: Tensor3<T>,
    training: bool,
    rate: T,
    output: Tensor3<T>,
    cache: AttentionCache<T>,
    before: SmallRng,
    after: SmallRng,
) -> (mid: SmallRng)
    requires
        is_exact(read),
        draws_below_one(read),
        (read.finite)(rate),
        layer.has_shape(input.flat.cols as int, layer.block_size()),
        input.wf(),
        attention_gives(layer, input, training, rate, output, cache, before, after),
    ensures
        !training || (read.value)(rate) == 0 as real ==> cache.att_dropout_mask is None
            && cache.proj_dropout_mask is None && after == before,
        training && (read.value)(rate) != 0 as real ==> (0 as real) < (read.value)(rate) && (
        read.value)(rate) < 1 as real && is_mask_by_rate(
            read,
            rate,
            cache.att_dropout_mask,
            input.outer * layer.n_head,
            input.inner as int,
            input.inner as int,
            before,
            mid,
        ) && is_mask_by_rate(
            read,
            rate,
            cache.proj_dropout_mask,
            input.outer as int,
            input.inner as int,
            input.flat.cols as int,
            mid,
            after,
        ),
        output.same_shape(input),
        output.wf(),
{
    let (qkv, scale, projected, mid) = choose|
        qkv: Tensor3<T>,
        scale: T,
        projected: Tensor3<T>,
        mid: SmallRng,
    |
        attention_steps_give(
            layer,
            input,
            training,
            rate,
            output,
            cache,
            before,
            after,
            qkv,
            scale,
            projected,
            mid,
        );
    lemma_dropout_by_rate(
        read,
        cache.att_probs,
        rate,
        training,
        cache.att_dropped,
        cache.att_dropout_mask,
        before,
        mid,
    );
    lemma_dropout_by_rate(
        read,
        projected,
        rate,
        training,
        output,
        cache.proj_dropout_mask,
        mid,
        after,
    );
    mid
}

/// The mask of a feed-forward network, given that it was run.
proof fn lemma_feed_forward_mask<T: Real>(
    read: Reading<T>,
    layer: FeedForward<T>,
    input: Tensor3<T>,
    training: bool,
    rate: T,
    output: Tensor3<T>,
    cache: FeedForwardCache<T>,
    before: SmallRng,
    after: SmallRng,
)
    requires
        is_exact(read),
        draws_below_one(read),
        (read.finite)(rate),
        layer.has_width(input.flat.cols as int),
        input.wf(),
        feed_forward_gives(layer, input, training, rate, output, cache, before, after),
    ensures
        !training || (read.value)(rate) == 0 as real ==> cache.dropout_mask is None && after
            == before,
        training && (read.value)(rate) != 0 as real ==> (0 as real) < (read.value)(rate) && (
        read.value)(rate) < 1 as real && is_mask_by_rate(
            read,
            rate,
            cache.dropout_mask,
            input.outer as int,
            input.inner as int,
            input.flat.cols as int,
            before,
            after,
        ),
        output.same_shape(input),
        output.wf(),
{
    let projected = choose|projected: Tensor3<T>| #[trigger]
        linear_gives(layer.fc2, cache.hidden, projected) && dropout_gives(
            projected,
            rate,
            training,
            output,
            cache.dropout_mask,
            before,
            after,
        );
    lemma_dropout_by_rate(
        read,
        projected,
        rate,
        training,
        output,
        cache.dropout_mask,
        before,
        after,
    );
}

/// While training, with a rate that does not read as zero, a feed-forward network drops from its
/// output. Outside training, or with a rate of zero, it drops nothing and draws nothing.
pub proof fn lemma_feed_forward_drops<T: Real>(
    read: Reading<T>,
    layer: &FeedForward<T>,
    input: &Tensor3<T>,
    training: bool,
    rate: T,
    rng: &mut SmallRng,
    output: Tensor3<T>,
    cache: FeedForwardCache<T>,
)
    requires
        is_exact(read),
        draws_below_one(read),
        (read.finite)(rate),
        layer.has_width(input.flat.cols as int),
        input.wf(),
        call_ensures(
            FeedForward::<T>::forward,
            (layer, input, training, rate, rng),
            Ok((output, cache)),
        ),
    ensures
        !training || (read.value)(rate) == 0 as real ==> cache.dropout_mask is None && *final(rng)
            == *old(rng),
        training && (read.value)(rate) != 0 as real ==> (0 as real) < (read.value)(rate) && (
        read.value)(rate) < 1 as real && is_mask_by_rate(
            read,
            rate,
            cache.dropout_mask,
            input.outer as int,
            input.inner as int,
            input.flat.cols as int,
            *old(rng),
            *final(rng),
        ),
{
    lemma_feed_forward_mask(
        read,
        *layer,
        *input,
        training,
        rate,
        output,
        cache,
        *old(rng),
        *final(rng),
    );
}

/// The three masks of a block are there and drop by the rate `p`; their base seeds were drawn one
/// after the other, from the generator `before`, and `after` was left.
pub open spec fn block_drops<T: Real>(
    read: Reading<T>,
    p: T,
    n_head: int,
    outer: int,
    inner: int,
    width: int,
    cache: BlockCache<T>,
    before: SmallRng,
    after: SmallRng,
) -> bool {
    exists|first: SmallRng, second: SmallRng|
        is_mask_by_rate(
            read,
            p,
            cache.attention.att_dropout_mask,
            outer * n_head,
            inner,
            inner,
            before,
            first,
        ) && #[trigger] is_mask_by_rate(
            read,
            p,
            cache.attention.proj_dropout_mask,
            outer,
            inner,
            width,
            first,
            second,
        ) && is_mask_by_rate(
            read,
            p,
            cache.feed_forward.dropout_mask,
            outer,
            inner,
            width,
            second,
            after,
        )
}

/// Nothing was dropped in a block.
pub open spec fn block_drops_nothing<T>(cache: BlockCache<T>) -> bool {
    &&& cache.attention.att_dropout_mask is None
    &&& cache.attention.proj_dropout_mask is None
    &&& cache.feed_forward.dropout_mask is None
}

/// The masks of a block, given that it was run.
proof fn lemma_block_masks<T: Real>(
    read: Reading<T>,
    block: Block<T>,
    input: Tensor3<T>,
    training: bool,
    rate: T,
    output: Tensor3<T>,
    cache: BlockCache<T>,
    before: SmallRng,
    after: SmallRng,
)
    requires
        is_exact(read),
        draws_below_one(read),
        (read.finite)(rate),
        block.has_shape(input.flat.cols as int, block.attention.block_size()),
        input.wf(),
        block_gives(block, input, training, rate, output, cache, before, after),
    ensures
        !training || (read.value)(rate) == 0 as real ==> block_drops_nothing(cache) && after
            == before,
        training && (read.value)(rate) != 0 as real ==> (0 as real) < (read.value)(rate) && (
        read.value)(rate) < 1 as real && block_drops(
            read,
            rate,
            block.attention.n_head as int,
            input.outer as int,
            input.inner as int,
            input.flat.cols as int,
            cache,
            before,
            after,
        ),
        output.same_shape(input),
        output.wf(),
{
    let s = choose|s: BlockSteps<T>|
        block_steps_give(block, input, training, rate, output, cache, before, after, s);
    let mid = lemma_attention_masks(
        read,
        block.attention,
        s.ln1_output,
        training,
        rate,
        s.attention_output,
        cache.attention,
        before,
        s.rng,
    );
    lemma_feed_forward_mask(
        read,
        block.feed_forward,
        s.ln2_output,
        training,
        rate,
        s.feed_forward_output,
        cache.feed_forward,
        s.rng,
        after,
    );
}

/// While training, with a rate that does not read as zero, a block drops three times: from the
/// weights of attention, from its output and from the output of the feed-forward network. Outside
/// training, or with a rate of zero, it drops nothing and draws nothing.
pub proof fn lemma_block_drops<T: Real>(
    read: Reading<T>,
    block: &Block<T>,
    input: &Tensor3<T>,
    training: bool,
    rate: T,
    rng: &mut SmallRng,
    output: Tensor3<T>,
    cache: BlockCache<T>,
)
    requires
        is_exact(read),
        draws_below_one(read),
        (read.finite)(rate),
        block.has_shape(input.flat.cols as int, block.attention.block_size()),
        input.wf(),
        call_ensures(
            Block::<T>::forward,
            (block, input, training, rate, rng),
            Ok((output, cache)),
        ),
    ensures
        !training || (read.value)(rate) == 0 as real ==> block_drops_nothing(cache) && *final(rng)
            == *old(rng),
        training && (read.value)(rate) != 0 as real ==> (0 as real) < (read.value)(rate) && (
        read.value)(rate) < 1 as real && block_drops(
            read,
            rate,
            block.attention.n_head as int,
            input.outer as int,
            input.inner as int,
            input.flat.cols as int,
            cache,
            *old(rng),
            *final(rng),
        ),
{
    lemma_block_masks(
        read,
        *block,
        *input,
        training,
        rate,
        output,
        cache,
        *old(rng),
        *final(rng),
    );
}

/// Block `l` of a run drops by the rate `p`, from generator `l` to the next.
pub open spec fn block_drops_at<T: Real>(
    read: Reading<T>,
    p: T,
    n_head: int,
    outer: int,
    inner: int,
    width: int,
    caches: Seq<BlockCache<T>>,
    gens: Seq<SmallRng>,
    l: int,
) -> bool {
    block_drops(read, p, n_head, outer, inner, width, caches[l], gens[l], gens[l + 1])
}

/// The masks of the blocks of a run.
proof fn lemma_run_masks<T: Real>(
    read: Reading<T>,
    blocks: Seq<Block<T>>,
    training: bool,
    rate: T,
    caches: Seq<BlockCache<T>>,
    run: BlocksRun<T>,
    n: nat,
)
    requires
        is_exact(read),
        draws_below_one(read),
        (read.finite)(rate),
        is_run(blocks, training, rate, caches, run),
        n <= blocks.len(),
        run.stacks[0].wf(),
        forall|i: int|
            0 <= i < blocks.len() ==> (#[trigger] blocks[i]).has_shape(
                run.stacks[0].flat.cols as int,
                blocks[i].attention.block_size(),
            ),
    ensures
        run.stacks[n as int].wf(),
        run.stacks[n as int].same_shape(run.stacks[0]),
        n > 0 ==> {
            &&& !training || (read.value)(rate) == 0 as real ==> block_drops_nothing(caches[n - 1])
                && run.rngs[n as int] == run.rngs[n - 1]
            &&& training && (read.value)(rate) != 0 as real ==> block_drops_at(
                read,
                rate,
                blocks[n - 1].attention.n_head as int,
                run.stacks[0].outer as int,
                run.stacks[0].inner as int,
                run.stacks[0].flat.cols as int,
                caches,
                run.rngs,
                n - 1,
            )
        },
        !training || (read.value)(rate) == 0 as real ==> run.rngs[n as int] == run.rngs[0],
        n > 0 && training && (read.value)(rate) != 0 as real ==> (0 as real) < (read.value)(rate)
            && (read.value)(rate) < 1 as real,
    decreases n,
{
    if n > 0 {
        let i: int = n - 1;
        lemma_run_masks(read, blocks, training, rate, caches, run, (n - 1) as nat);
        let s = run.steps[i];
        assert(block_steps_give(
            blocks[i],
            run.stacks[i],
            training,
            rate,
            run.stacks[i + 1],
            caches[i],
            run.rngs[i],
            run.rngs[i + 1],
            s,
        ));
        assert(blocks[i].has_shape(
            run.stacks[0].flat.cols as int,
            blocks[i].attention.block_size(),
        ));
        lemma_block_masks(
            read,
            blocks[i],
            run.stacks[i],
            training,
            rate,
            run.stacks[i + 1],
            caches[i],
            run.rngs[i],
            run.rngs[i + 1],
        );
    }
}

/// While training, with a rate that does not read as zero, every block of the model drops three
/// times by that rate, one block after the other. Outside training, or with a rate of zero, nothing
/// is dropped and nothing is drawn.
pub proof fn lemma_model_drops<T: Real>(
    read: Reading<T>,
    model: &GptLanguageModel<T>,
    idx: &TokenArray,
    training: bool,
    rng: &mut SmallRng,
    logits: Tensor3<T>,
    cache: GptCache<T>,
)
    requires
        is_exact(read),
        draws_below_one(read),
        (read.finite)(model.config.dropout),
        model.wf(),
        model.takes(*idx),
        call_ensures(
            GptLanguageModel::<T>::forward,
            (model, idx, training, rng),
            Ok((logits, cache)),
        ),
    ensures
        cache.blocks@.len() == model.blocks@.len(),
        !training || (read.value)(model.config.dropout) == 0 as real ==> *final(rng) == *old(rng)
            && forall|l: int|
            0 <= l < model.blocks@.len() ==> block_drops_nothing(#[trigger] cache.blocks@[l]),
        training && (read.value)(model.config.dropout) != 0 as real ==> exists|
            gens: Seq<SmallRng>,
        |
            {
                &&& #[trigger] gens.len() == model.blocks@.len() + 1
                &&& gens[0] == *old(rng)
                &&& gens[model.blocks@.len() as int] == *final(rng)
                &&& forall|l: int|
                    0 <= l < model.blocks@.len() ==> #[trigger] block_drops_at(
                        read,
                        model.config.dropout,
                        model.blocks@[l].attention.n_head as int,
                        idx.rows(),
                        idx.cols(),
                        model.config.n_embd as int,
                        cache.blocks@,
                        gens,
                        l,
                    )
            },
{
    lemma_run_model_masks(
        read,
        *model,
        *idx,
        training,
        logits,
        cache,
        *old(rng),
        *final(rng),
    );
}

/// What [`lemma_model_drops`] says, given that the model was run.
pub proof fn lemma_run_model_masks<T: Real>(
    read: Reading<T>,
    model: GptLanguageModel<T>,
    idx: TokenArray,
    training: bool,
    logits: Tensor3<T>,
    cache: GptCache<T>,
    before: SmallRng,
    after: SmallRng,
)
    requires
        is_exact(read),
        draws_below_one(read),
        (read.finite)(model.config.dropout),
        model.wf(),
        model_gives(model, idx, training, logits, cache, before, after),
    ensures
        cache.blocks@.len() == model.blocks@.len(),
        training && model.blocks@.len() > 0 ==> 0 as real <= (read.value)(model.config.dropout) && (
        read.value)(model.config.dropout) < 1 as real,
        !training || (read.value)(model.config.dropout) == 0 as real ==> after == before && forall|
            l: int,
        |
            0 <= l < model.blocks@.len() ==> block_drops_nothing(#[trigger] cache.blocks@[l]),
        training && (read.value)(model.config.dropout) != 0 as real ==> exists|
            gens: Seq<SmallRng>,
        |
            {
                &&& #[trigger] gens.len() == model.blocks@.len() + 1
                &&& gens[0] == before
                &&& gens[model.blocks@.len() as int] == after
                &&& forall|l: int|
                    0 <= l < model.blocks@.len() ==> #[trigger] block_drops_at(
                        read,
                        model.config.dropout,
                        model.blocks@[l].attention.n_head as int,
                        idx.rows(),
                        idx.cols(),
                        model.config.n_embd as int,
                        cache.blocks@,
                        gens,
                        l,
                    )
            },
{
    let (rate, n) = (model.config.dropout, model.blocks@.len());
    let (embedded, last) = choose|embedded: Tensor3<T>, last: Tensor3<T>|
        model_steps_give(
            model,
            idx,
            training,
            logits,
            cache,
            before,
            after,
            embedded,
            last,
        );
    let run = lemma_blocks_have_run(
        model.blocks@,
        training,
        rate,
        embedded,
        cache.blocks@,
        last,
        before,
        after,
    );
    lemma_run_masks(read, model.blocks@, training, rate, cache.blocks@, run, n);
    let gens = run.rngs;
    if !training || (read.value)(rate) == 0 as real {
        assert forall|l: int| 0 <= l < n implies block_drops_nothing(
            #[trigger] cache.blocks@[l],
        ) by {
            lemma_run_masks(
                read,
                model.blocks@,
                training,
                rate,
                cache.blocks@,
                run,
                (l + 1) as nat,
            );
        }
    } else {
        assert forall|l: int| 0 <= l < n implies #[trigger] block_drops_at(
            read,
            rate,
            model.blocks@[l].attention.n_head as int,
            idx.rows(),
            idx.cols(),
            model.config.n_embd as int,
            cache.blocks@,
            gens,
            l,
        ) by {
            lemma_run_masks(
                read,
                model.blocks@,
                training,
                rate,
                cache.blocks@,
                run,
                (l + 1) as nat,
            );
        }
        assert(gens.len() == n + 1);
    }
}

/// Attention refuses a rate of dropout below zero, or of one and more, while training; nothing else
/// is refused.
pub proof fn lemma_attention_refuses<T: Real>(
    read: Reading<T>,
    layer: &MultiHeadSelfAttention<T>,
    input: &Tensor3<T>,
    training: bool,
    rate: T,
    rng: &mut SmallRng,
    result: Result<(Tensor3<T>, AttentionCache<T>), InvalidRate>,
)
    requires
        is_exact(read),
        draws_below_one(read),
        (read.finite)(rate),
        layer.has_shape(input.flat.cols as int, layer.block_size()),
        input.wf(),
        call_ensures(
            MultiHeadSelfAttention::<T>::forward,
            (layer, input, training, rate, rng),
            result,
        ),
    ensures
        result is Err <==> training && ((read.value)(rate) < 0 as real || (read.value)(rate)
            >= 1 as real),
{
    lemma_rate_readings(read, rate);
    if let Ok((output, cache)) = result {
        let mid = lemma_attention_masks(
            read,
            *layer,
            *input,
            training,
            rate,
            output,
            cache,
            *old(rng),
            *final(rng),
        );
    }
}

/// A feed-forward network refuses a rate of dropout below zero, or of one and more, while training;
/// nothing else is refused.
pub proof fn lemma_feed_forward_refuses<T: Real>(
    read: Reading<T>,
    layer: &FeedForward<T>,
    input: &Tensor3<T>,
    training: bool,
    rate: T,
    rng: &mut SmallRng,
    result: Result<(Tensor3<T>, FeedForwardCache<T>), InvalidRate>,
)
    requires
        is_exact(read),
        draws_below_one(read),
        (read.finite)(rate),
        layer.has_width(input.flat.cols as int),
        input.wf(),
        call_ensures(FeedForward::<T>::forward, (layer, input, training, rate, rng), result),
    ensures
        result is Err <==> training && ((read.value)(rate) < 0 as real || (read.value)(rate)
            >= 1 as real),
{
    lemma_rate_readings(read, rate);
    if let Ok((output, cache)) = result {
        lemma_feed_forward_mask(
            read,
            *layer,
            *input,
            training,
            rate,
            output,
            cache,
            *old(rng),
            *final(rng),
        );
    }
}

/// A block refuses a rate of dropout below zero, or of one and more, while training; nothing else
/// is refused.
pub proof fn lemma_block_refuses<T: Real>(
    read: Reading<T>,
    block: &Block<T>,
    input: &Tensor3<T>,
    training: bool,
    rate: T,
    rng: &mut SmallRng,
    result: Result<(Tensor3<T>, BlockCache<T>), InvalidRate>,
)
    requires
        is_exact(read),
        draws_below_one(read),
        (read.finite)(rate),
        block.has_shape(input.flat.cols as int, block.attention.block_size()),
        input.wf(),
        call_ensures(Block::<T>::forward, (block, input, training, rate, rng), result),
    ensures
        result is Err <==> training && ((read.value)(rate) < 0 as real || (read.value)(rate)
            >= 1 as real),
{
    lemma_rate_readings(read, rate);
    if let Ok((output, cache)) = result {
        lemma_block_masks(
            read,
            *block,
            *input,
            training,
            rate,
            output,
            cache,
            *old(rng),
            *final(rng),
        );
    }
}

/// A model with blocks refuses a rate of dropout below zero, or of one and more, while training;
/// nothing else is refused.
pub proof fn lemma_model_refuses<T: Real>(
    read: Reading<T>,
    model: &GptLanguageModel<T>,
    idx: &TokenArray,
    training: bool,
    rng: &mut SmallRng,
    result: Result<(Tensor3<T>, GptCache<T>), InvalidRate>,
)
    requires
        is_exact(read),
        draws_below_one(read),
        (read.finite)(model.config.dropout),
        model.wf(),
        model.takes(*idx),
        call_ensures(GptLanguageModel::<T>::forward, (model, idx, training, rng), result),
    ensures
        result is Err <==> training && model.blocks@.len() > 0 && ((read.value)(
            model.config.dropout,
        ) < 0 as real || (read.value)(model.config.dropout) >= 1 as real),
{
    lemma_rate_readings(read, model.config.dropout);
    if let Ok((logits, cache)) = result {
        lemma_run_model_masks(
            read,
            *model,
            *idx,
            training,
            logits,
            cache,
            *old(rng),
            *final(rng),
        );
    }
}

/// A step of training is refused where the model has blocks and its rate of dropout reads as less
/// than zero or as one and more, and only there. Then nothing moves: the parameters, their moments
/// and the optimizer are as they were.
pub proof fn lemma_training_refuses<T: Real>(
    read: Reading<T>,
    model: &mut GptLanguageModel<T>,
    idx: &TokenArray,
    targets: &TokenArray,
    optimizer: &mut AdamW<T>,
    rng: &mut SmallRng,
    result: Result<T, InvalidRate>,
)
    requires
        is_exact(read),
        draws_below_one(read),
        (read.finite)(old(model).config.dropout),
        old(model).wf(),
        call_ensures(
            GptLanguageModel::<T>::train_batch,
            (model, idx, targets, optimizer, rng),
            result,
        ),
    ensures
        result is Err <==> old(model).blocks@.len() > 0 && ((read.value)(
            old(model).config.dropout,
        ) < 0 as real || (read.value)(old(model).config.dropout) >= 1 as real),
        result is Err ==> model_same_but_grads(*final(model), *old(model)) && *final(optimizer)
            == *old(optimizer),
{
    let before = *old(model);
    lemma_rate_readings(read, before.config.dropout);
    match result {
        Ok(loss) => {
            let steps = choose|steps: TrainSteps<T>|
                train_steps_give(
                    before,
                    *old(optimizer),
                    *idx,
                    *targets,
                    loss,
                    *final(model),
                    *final(optimizer),
                    *old(rng),
                    *final(rng),
                    steps,
                );
            lemma_clearing_changes_grads_only(before, steps.cleared);
            lemma_cleared_keeps_shape(before, steps.cleared);
            lemma_run_model_masks(
                read,
                steps.cleared,
                *idx,
                true,
                steps.logits,
                steps.cache,
                *old(rng),
                *final(rng),
            );
        },
        Err(_) => {
            lemma_clearing_changes_grads_only(before, *final(model));
        },
    }
}

} // verus!
