//! What a new model reads as.

use crate::attention::fresh_attention;
use crate::block::{fresh_block, Block};
use crate::dropping::{uniform_at, uniform_chain};
use crate::exact::{is_exact, ten_to, Reading};
use crate::feed_forward::fresh_feed_forward;
use crate::layer_norm::{fresh_layer_norm, LayerNorm};
use crate::linear::{fresh_linear, Linear};
use crate::masks::draws_below_one;
use crate::model::{fresh_blocks, fresh_embedding, GptConfig, GptLanguageModel};
use crate::optim::{spread_draws_give, spread_gives, Param1D, Param2D};
use crate::scalar::{decimal_gives, minus_gives, one_gives, times_gives, uniform_gives, Real};
use crate::tangent::lemma_distribute;
use rand::rngs::SmallRng;
use vstd::prelude::*;

verus! {

/// The entries are `(2 * u - 1) * scale`, for numbers `u` drawn one after the other from the
/// generator `before`, which left the generator `after`.
pub open spec fn is_spread<T: Real>(
    read: Reading<T>,
    scale: real,
    items: Seq<T>,
    before: SmallRng,
    after: SmallRng,
) -> bool {
    exists|gens: Seq<SmallRng>, us: Seq<T>|
        {
            &&& #[trigger] uniform_chain(gens, us)
            &&& us.len() == items.len()
            &&& gens[0] == before
            &&& gens[items.len() as int] == after
            &&& forall|i: int|
                #![trigger items[i]]
                0 <= i < items.len() ==> (read.finite)(items[i]) && (read.value)(items[i]) == (2
                    as real * (read.value)(us[i]) - 1 as real) * scale
        }
}

/// All items read as `x`.
pub open spec fn all_read<T>(read: Reading<T>, items: Seq<T>, x: real) -> bool {
    forall|i: int|
        0 <= i < items.len() ==> (read.finite)(#[trigger] items[i]) && (read.value)(items[i]) == x
}

/// The matrix has this shape; its gradient and its moments read as zero.
pub open spec fn is_untouched<T>(read: Reading<T>, p: Param2D<T>, rows: int, cols: int) -> bool {
    &&& p.has_shape(rows, cols)
    &&& all_read(read, p.grad.data@, 0 as real)
    &&& all_read(read, p.m.data@, 0 as real)
    &&& all_read(read, p.v.data@, 0 as real)
}

/// The vector has this length and reads as `x` at every place; its gradient and its moments read as
/// zero.
pub open spec fn is_even_vector<T>(read: Reading<T>, p: Param1D<T>, len: int, x: real) -> bool {
    &&& p.has_len(len)
    &&& all_read(read, p.value@, x)
    &&& all_read(read, p.grad@, 0 as real)
    &&& all_read(read, p.m@, 0 as real)
    &&& all_read(read, p.v@, 0 as real)
}

/// The layer is new: its weights are spread by two hundredths, and its bias, if it has one, reads
/// as zero.
pub open spec fn is_new_linear<T: Real>(
    read: Reading<T>,
    layer: Linear<T>,
    inputs: int,
    outputs: int,
    bias: bool,
    before: SmallRng,
    after: SmallRng,
) -> bool {
    &&& is_untouched(read, layer.weight, inputs, outputs)
    &&& is_spread(read, 2 as real / 100 as real, layer.weight.value.data@, before, after)
    &&& layer.bias is Some == bias
    &&& layer.bias matches Some(b) ==> is_even_vector(read, b, outputs, 0 as real)
}

/// The normalization is new: it multiplies by one, adds zero, and moves variances away from zero by
/// a hundred-thousandth.
pub open spec fn is_new_norm<T>(read: Reading<T>, layer: LayerNorm<T>, width: int) -> bool {
    &&& is_even_vector(read, layer.gamma, width, 1 as real)
    &&& is_even_vector(read, layer.beta, width, 0 as real)
    &&& (read.finite)(layer.eps)
    &&& (read.value)(layer.eps) == 1 as real / 100_000 as real
}

/// Block `l` is new: the weights of its four linear layers were drawn one layer after the other.
pub open spec fn is_new_block_at<T: Real>(
    read: Reading<T>,
    blocks: Seq<Block<T>>,
    n_embd: int,
    n_head: int,
    gens: Seq<SmallRng>,
    l: int,
) -> bool {
    let (a, f) = (blocks[l].attention, blocks[l].feed_forward);
    &&& is_new_norm(read, blocks[l].ln1, n_embd)
    &&& is_new_norm(read, blocks[l].ln2, n_embd)
    &&& a.n_head == n_head
    &&& a.head_size == n_embd / n_head
    &&& is_new_linear(read, a.qkv, n_embd, 3 * n_embd, false, gens[4 * l], gens[4 * l + 1])
    &&& is_new_linear(read, a.proj, n_embd, n_embd, true, gens[4 * l + 1], gens[4 * l + 2])
    &&& is_new_linear(read, f.fc1, n_embd, 4 * n_embd, true, gens[4 * l + 2], gens[4 * l + 3])
    &&& is_new_linear(read, f.fc2, 4 * n_embd, n_embd, true, gens[4 * l + 3], gens[4 * l + 4])
}

/// The generators and the draws of spread numbers.
proof fn lemma_spread_reads<T: Real>(
    read: Reading<T>,
    before: SmallRng,
    scale: T,
    items: Seq<T>,
    after: SmallRng,
) -> (found: (Seq<SmallRng>, Seq<T>))
    requires
        is_exact(read),
        draws_below_one(read),
        (read.finite)(scale),
        spread_draws_give(before, scale, items, after),
    ensures
        uniform_chain(found.0, found.1),
        found.1.len() == items.len(),
        found.0[0] == before,
        found.0[items.len() as int] == after,
        forall|i: int|
            #![trigger items[i]]
            0 <= i < items.len() ==> (read.finite)(items[i]) && (read.value)(items[i]) == (2 as real
                * (read.value)(found.1[i]) - 1 as real) * (read.value)(scale),
    decreases items.len(),
{
    if items.len() == 0 {
        (seq![before], Seq::empty())
    } else {
        let front = items.drop_last();
        let (mid, u) = choose|mid: SmallRng, u: T|
            spread_draws_give(before, scale, front, mid) && #[trigger] uniform_gives(mid, u, after)
                && spread_gives(u, scale, items.last());
        let found = lemma_spread_reads(read, before, scale, front, mid);
        let (gens, us) = (found.0.push(after), found.1.push(u));
        assert forall|k: int| 0 <= k < us.len() implies #[trigger] uniform_at(gens, us, k) by {
            if k < found.1.len() {
                assert(uniform_at(found.0, found.1, k));
                assert(gens[k] == found.0[k] && gens[k + 1] == found.0[k + 1]);
                assert(us[k] == found.1[k]);
            }
        }
        let (two, doubled, one, centred) = choose|two: T, doubled: T, one: T, centred: T|
            decimal_gives(2, 0, two) && #[trigger] times_gives(u, two, doubled) && one_gives(one)
                && #[trigger] minus_gives(doubled, one, centred) && times_gives(
                centred,
                scale,
                items.last(),
            );
        assert(ten_to(0) == 1 as real);
        let (t, x) = ((read.value)(two), (read.value)(u));
        assert(t == 2 as real) by (nonlinear_arith)
            requires
                t * (1 as real) == 2 as real,
        ;
        lemma_distribute(x, t, 0 as real);
        assert forall|i: int|
            #![trigger items[i]]
            0 <= i < items.len() implies (read.finite)(items[i]) && (read.value)(items[i]) == (2
            as real * (read.value)(us[i]) - 1 as real) * (read.value)(scale) by {
            if i < front.len() {
                assert(items[i] == front[i]);
                assert(us[i] == found.1[i]);
            }
        }
        (gens, us)
    }
}

/// Drawn entries are spread.
proof fn lemma_is_spread<T: Real>(
    read: Reading<T>,
    before: SmallRng,
    scale: T,
    items: Seq<T>,
    after: SmallRng,
)
    requires
        is_exact(read),
        draws_below_one(read),
        (read.finite)(scale),
        spread_draws_give(before, scale, items, after),
    ensures
        is_spread(read, (read.value)(scale), items, before, after),
{
    let found = lemma_spread_reads(read, before, scale, items, after);
}

/// What new weights are spread by.
proof fn lemma_two_hundredths<T: Real>(read: Reading<T>, scale: T)
    requires
        is_exact(read),
        decimal_gives(2, 2, scale),
    ensures
        (read.finite)(scale),
        (read.value)(scale) == 2 as real / 100 as real,
{
    reveal_with_fuel(ten_to, 3);
    let s = (read.value)(scale);
    assert(ten_to(2) == 100 as real);
    assert(s == 2 as real / 100 as real) by (nonlinear_arith)
        requires
            s * (100 as real) == 2 as real,
    ;
}

/// A random matrix holds draws spread from `-scale` to `scale`, and nothing else.
pub proof fn lemma_random_matrix_value<T: Real>(
    read: Reading<T>,
    rows: usize,
    cols: usize,
    scale: T,
    rng: &mut SmallRng,
    param: Param2D<T>,
)
    requires
        is_exact(read),
        draws_below_one(read),
        (read.finite)(scale),
        call_ensures(Param2D::<T>::rand, (rows, cols, scale, rng), param),
    ensures
        is_untouched(read, param, rows as int, cols as int),
        is_spread(read, (read.value)(scale), param.value.data@, *old(rng), *final(rng)),
{
    lemma_is_spread(read, *old(rng), scale, param.value.data@, *final(rng));
}

proof fn lemma_new_linear_reads<T: Real>(
    read: Reading<T>,
    layer: Linear<T>,
    inputs: int,
    outputs: int,
    bias: bool,
    before: SmallRng,
    after: SmallRng,
)
    requires
        is_exact(read),
        draws_below_one(read),
        fresh_linear(layer, inputs, outputs, bias, before, after),
    ensures
        is_new_linear(read, layer, inputs, outputs, bias, before, after),
{
    let items = layer.weight.value.data@;
    let scale = choose|scale: T| #[trigger]
        decimal_gives(2, 2, scale) && spread_draws_give(before, scale, items, after);
    lemma_two_hundredths(read, scale);
    lemma_is_spread(read, before, scale, items, after);
}

/// A new linear layer has weights spread by two hundredths, and a bias of zeros if it has one.
pub proof fn lemma_new_linear_value<T: Real>(
    read: Reading<T>,
    inputs: usize,
    outputs: usize,
    bias: bool,
    rng: &mut SmallRng,
    layer: Linear<T>,
)
    requires
        is_exact(read),
        draws_below_one(read),
        call_ensures(Linear::<T>::new, (inputs, outputs, bias, rng), layer),
    ensures
        is_new_linear(
            read,
            layer,
            inputs as int,
            outputs as int,
            bias,
            *old(rng),
            *final(rng),
        ),
{
    lemma_new_linear_reads(
        read,
        layer,
        inputs as int,
        outputs as int,
        bias,
        *old(rng),
        *final(rng),
    );
}

proof fn lemma_new_norm_reads<T: Real>(read: Reading<T>, layer: LayerNorm<T>, channels: int)
    requires
        is_exact(read),
        fresh_layer_norm(layer, channels),
    ensures
        is_new_norm(read, layer, channels),
{
    reveal_with_fuel(ten_to, 6);
    let e = (read.value)(layer.eps);
    assert(ten_to(5) == 100_000 as real);
    assert(e == 1 as real / 100_000 as real) by (nonlinear_arith)
        requires
            e * (100_000 as real) == 1 as real,
    ;
}

/// A new normalization multiplies by one and adds zero.
pub proof fn lemma_new_norm_value<T: Real>(
    read: Reading<T>,
    channels: usize,
    layer: LayerNorm<T>,
)
    requires
        is_exact(read),
        call_ensures(LayerNorm::<T>::new, (channels,), layer),
    ensures
        is_new_norm(read, layer, channels as int),
{
    lemma_new_norm_reads(read, layer, channels as int);
}

/// The generators between the layers of new blocks.
proof fn lemma_new_blocks_read<T: Real>(
    read: Reading<T>,
    blocks: Seq<Block<T>>,
    config: GptConfig<T>,
    before: SmallRng,
    after: SmallRng,
) -> (gens: Seq<SmallRng>)
    requires
        is_exact(read),
        draws_below_one(read),
        fresh_blocks(blocks, config, before, after),
    ensures
        gens.len() == 4 * blocks.len() + 1,
        gens[0] == before,
        gens[4 * blocks.len() as int] == after,
        forall|l: int|
            0 <= l < blocks.len() ==> #[trigger] is_new_block_at(
                read,
                blocks,
                config.n_embd as int,
                config.n_head as int,
                gens,
                l,
            ),
    decreases blocks.len(),
{
    let (n_embd, n_head) = (config.n_embd as int, config.n_head as int);
    let block_size = config.block_size as int;
    if blocks.len() == 0 {
        seq![before]
    } else {
        let front = blocks.drop_last();
        let mid = choose|mid: SmallRng|
            fresh_blocks(front, config, before, mid) && #[trigger] fresh_block(
                blocks.last(),
                n_embd,
                n_head,
                block_size,
                mid,
                after,
            );
        let short = lemma_new_blocks_read(read, front, config, before, mid);
        let block = blocks.last();
        let (a, f) = (block.attention, block.feed_forward);
        let rng = choose|rng: SmallRng| #[trigger]
            fresh_attention(a, n_embd, n_head, block_size, mid, rng) && fresh_feed_forward(
                f,
                n_embd,
                rng,
                after,
            );
        let r1 = choose|r1: SmallRng| #[trigger]
            fresh_linear(a.qkv, n_embd, 3 * n_embd, false, mid, r1) && fresh_linear(
                a.proj,
                n_embd,
                n_embd,
                true,
                r1,
                rng,
            );
        let r2 = choose|r2: SmallRng| #[trigger]
            fresh_linear(f.fc1, n_embd, 4 * n_embd, true, rng, r2) && fresh_linear(
                f.fc2,
                4 * n_embd,
                n_embd,
                true,
                r2,
                after,
            );
        lemma_new_norm_reads(read, block.ln1, n_embd);
        lemma_new_norm_reads(read, block.ln2, n_embd);
        lemma_new_linear_reads(read, a.qkv, n_embd, 3 * n_embd, false, mid, r1);
        lemma_new_linear_reads(read, a.proj, n_embd, n_embd, true, r1, rng);
        lemma_new_linear_reads(read, f.fc1, n_embd, 4 * n_embd, true, rng, r2);
        lemma_new_linear_reads(read, f.fc2, 4 * n_embd, n_embd, true, r2, after);
        let gens = short.push(r1).push(rng).push(r2).push(after);
        let n = front.len() as int;
        assert forall|l: int| 0 <= l < blocks.len() implies #[trigger] is_new_block_at(
            read,
            blocks,
            n_embd,
            n_head,
            gens,
            l,
        ) by {
            if l < n {
                assert(is_new_block_at(read, front, n_embd, n_head, short, l));
                assert(blocks[l] == front[l]);
                assert(gens[4 * l] == short[4 * l]);
                assert(gens[4 * l + 1] == short[4 * l + 1]);
                assert(gens[4 * l + 2] == short[4 * l + 2]);
                assert(gens[4 * l + 3] == short[4 * l + 3]);
                assert(gens[4 * l + 4] == short[4 * l + 4]);
            } else {
                assert(gens[4 * n] == mid);
                assert(gens[4 * n + 1] == r1);
                assert(gens[4 * n + 2] == rng);
                assert(gens[4 * n + 3] == r2);
                assert(gens[4 * n + 4] == after);
            }
        }
        gens
    }
}

/// The parts of a new model: `gens` are the generators between its layers.
pub open spec fn is_new_model<T: Real>(
    read: Reading<T>,
    model: GptLanguageModel<T>,
    config: GptConfig<T>,
    gens: Seq<SmallRng>,
) -> bool {
    let (n, n_embd) = (config.n_layer as int, config.n_embd as int);
    let s = 2 as real / 100 as real;
    let (token, position) = (model.token_embedding, model.position_embedding);
    &&& model.config == config
    &&& model.blocks@.len() == n
    &&& gens.len() == 4 * n + 4
    &&& forall|l: int|
        0 <= l < n ==> #[trigger] is_new_block_at(
            read,
            model.blocks@,
            n_embd,
            config.n_head as int,
            gens,
            l,
        )
    &&& is_untouched(read, token, config.vocab_size as int, n_embd)
    &&& is_spread(read, s, token.value.data@, gens[4 * n], gens[4 * n + 1])
    &&& is_untouched(read, position, config.block_size as int, n_embd)
    &&& is_spread(read, s, position.value.data@, gens[4 * n + 1], gens[4 * n + 2])
    &&& is_new_norm(read, model.ln_f, n_embd)
    &&& is_new_linear(
        read,
        model.lm_head,
        n_embd,
        config.vocab_size as int,
        true,
        gens[4 * n + 2],
        gens[4 * n + 3],
    )
}

/// A new model: all its matrices hold draws spread by two hundredths, first those of the blocks,
/// then the embeddings of the tokens and of the places, then the head; no draw is used twice. The
/// biases are zero, and the normalizations multiply by one and add zero.
pub proof fn lemma_new_model_value<T: Real>(
    read: Reading<T>,
    config: GptConfig<T>,
    rng: &mut SmallRng,
    model: GptLanguageModel<T>,
)
    requires
        is_exact(read),
        draws_below_one(read),
        call_ensures(GptLanguageModel::<T>::new, (config, rng), model),
    ensures
        exists|gens: Seq<SmallRng>| #[trigger]
            is_new_model(read, model, config, gens) && gens[0] == *old(rng) && gens.last()
                == *final(rng),
{
    let n_embd = config.n_embd as int;
    let (vocab_size, block_size) = (config.vocab_size as int, config.block_size as int);
    let (token, position) = (model.token_embedding, model.position_embedding);
    let (before, after) = (*old(rng), *final(rng));
    let (r1, r2, r3) = choose|r1: SmallRng, r2: SmallRng, r3: SmallRng| #[trigger]
        fresh_blocks(model.blocks@, config, before, r1) && #[trigger] fresh_embedding(
            token,
            vocab_size,
            n_embd,
            r1,
            r2,
        ) && #[trigger] fresh_embedding(position, block_size, n_embd, r2, r3) && fresh_linear(
            model.lm_head,
            n_embd,
            vocab_size,
            true,
            r3,
            after,
        );
    let short = lemma_new_blocks_read(read, model.blocks@, config, before, r1);
    let s1 = choose|scale: T| #[trigger]
        decimal_gives(2, 2, scale) && spread_draws_give(r1, scale, token.value.data@, r2);
    lemma_two_hundredths(read, s1);
    lemma_is_spread(read, r1, s1, token.value.data@, r2);
    let s2 = choose|scale: T| #[trigger]
        decimal_gives(2, 2, scale) && spread_draws_give(r2, scale, position.value.data@, r3);
    lemma_two_hundredths(read, s2);
    lemma_is_spread(read, r2, s2, position.value.data@, r3);
    lemma_new_norm_reads(read, model.ln_f, n_embd);
    lemma_new_linear_reads(read, model.lm_head, n_embd, vocab_size, true, r3, after);
    let gens = short.push(r2).push(r3).push(after);
    let n = model.blocks@.len() as int;
    assert forall|l: int| 0 <= l < n implies #[trigger] is_new_block_at(
        read,
        model.blocks@,
        n_embd,
        config.n_head as int,
        gens,
        l,
    ) by {
        assert(is_new_block_at(read, model.blocks@, n_embd, config.n_head as int, short, l));
        assert(gens[4 * l] == short[4 * l]);
        assert(gens[4 * l + 1] == short[4 * l + 1]);
        assert(gens[4 * l + 2] == short[4 * l + 2]);
        assert(gens[4 * l + 3] == short[4 * l + 3]);
        assert(gens[4 * l + 4] == short[4 * l + 4]);
    }
    assert(gens[4 * n] == r1 && gens[4 * n + 1] == r2);
    assert(gens[4 * n + 2] == r3 && gens[4 * n + 3] == after);
    assert(is_new_model(read, model, config, gens));
}

} // verus!
