//! The number of parameters of a model.

use crate::block::{fresh_block, Block};
use crate::layer_norm::LayerNorm;
use crate::linear::Linear;
use crate::model::{fresh_blocks, fresh_model, GptConfig, GptLanguageModel};
use crate::scalar::Real;
use rand::rngs::SmallRng;
use vstd::prelude::*;

verus! {

/// The number of weights of a linear layer.
pub open spec fn weight_total<T>(layer: Linear<T>) -> int {
    layer.weight.value.data@.len() as int
}

/// The number of entries of the bias of a linear layer, which may have none.
pub open spec fn bias_total<T>(layer: Linear<T>) -> int {
    match layer.bias {
        Some(bias) => bias.value@.len() as int,
        None => 0,
    }
}

/// The number of parameters of a normalization.
pub open spec fn norm_total<T>(norm: LayerNorm<T>) -> int {
    (norm.gamma.value@.len() + norm.beta.value@.len()) as int
}

/// The number of parameters of a block. A bias of the projection to queries, keys and values is
/// not counted.
pub open spec fn block_total<T>(block: Block<T>) -> int {
    norm_total(block.ln1) + weight_total(block.attention.qkv) + weight_total(block.attention.proj)
        + bias_total(block.attention.proj) + norm_total(block.ln2) + weight_total(
        block.feed_forward.fc1,
    ) + bias_total(block.feed_forward.fc1) + weight_total(block.feed_forward.fc2) + bias_total(
        block.feed_forward.fc2,
    )
}

/// The number of parameters of several blocks.
pub open spec fn blocks_total<T>(blocks: Seq<Block<T>>) -> int
    decreases blocks.len(),
{
    if blocks.len() == 0 {
        0
    } else {
        blocks_total(blocks.drop_last()) + block_total(blocks.last())
    }
}

/// The number of parameters of a model.
pub open spec fn model_total<T>(model: GptLanguageModel<T>) -> int {
    model.token_embedding.value.data@.len() as int + model.position_embedding.value.data@.len()
        + blocks_total(model.blocks@) + norm_total(model.ln_f) + weight_total(model.lm_head)
        + bias_total(model.lm_head)
}

/// A count of some of the blocks is no larger than a count of more of them.
proof fn lemma_blocks_total_grows<T>(blocks: Seq<Block<T>>, i: int, j: int)
    requires
        0 <= i <= j <= blocks.len(),
    ensures
        0 <= blocks_total(blocks.take(i)) <= blocks_total(blocks.take(j)),
    decreases j,
{
    if i < j {
        lemma_blocks_total_grows(blocks, i, j - 1);
        assert(blocks.take(j).drop_last() =~= blocks.take(j - 1));
    } else if i > 0 {
        lemma_blocks_total_grows(blocks, i - 1, i - 1);
        assert(blocks.take(i).drop_last() =~= blocks.take(i - 1));
    }
}

/// The number of parameters of a new block whose rows have `n_embd` numbers.
pub open spec fn new_block_total(n_embd: int) -> int {
    12 * (n_embd * n_embd) + 10 * n_embd
}

/// The number of parameters of a new model with this configuration.
pub open spec fn new_model_total<T>(config: GptConfig<T>) -> int {
    (config.vocab_size + config.block_size) * config.n_embd + config.n_layer * new_block_total(
        config.n_embd as int,
    ) + 2 * config.n_embd + config.n_embd * config.vocab_size + config.vocab_size
}

/// The number of parameters of a new block depends on the width of its rows alone.
pub proof fn lemma_fresh_block_total<T: Real>(
    block: Block<T>,
    n_embd: int,
    n_head: int,
    block_size: int,
    before: SmallRng,
    after: SmallRng,
)
    requires
        n_embd >= 0,
        fresh_block(block, n_embd, n_head, block_size, before, after),
    ensures
        block_total(block) == new_block_total(n_embd),
{
    assert(n_embd * (3 * n_embd) == 3 * (n_embd * n_embd)) by (nonlinear_arith);
    assert(n_embd * (4 * n_embd) == 4 * (n_embd * n_embd)) by (nonlinear_arith);
    assert((4 * n_embd) * n_embd == 4 * (n_embd * n_embd)) by (nonlinear_arith);
}

/// The number of parameters of new blocks.
proof fn lemma_fresh_blocks_total<T: Real>(
    blocks: Seq<Block<T>>,
    config: GptConfig<T>,
    before: SmallRng,
    after: SmallRng,
)
    requires
        fresh_blocks(blocks, config, before, after),
    ensures
        blocks_total(blocks) == blocks.len() * new_block_total(config.n_embd as int),
    decreases blocks.len(),
{
    let each = new_block_total(config.n_embd as int);
    if blocks.len() == 0 {
        assert(0 * each == 0) by (nonlinear_arith);
    } else {
        let mid = choose|mid: SmallRng|
            fresh_blocks(blocks.drop_last(), config, before, mid) && #[trigger] fresh_block(
                blocks.last(),
                config.n_embd as int,
                config.n_head as int,
                config.block_size as int,
                mid,
                after,
            );
        lemma_fresh_blocks_total(blocks.drop_last(), config, before, mid);
        lemma_fresh_block_total(
            blocks.last(),
            config.n_embd as int,
            config.n_head as int,
            config.block_size as int,
            mid,
            after,
        );
        let n = blocks.len() as int;
        assert(n * each == (n - 1) * each + each) by (nonlinear_arith);
    }
}

/// The number of parameters of a new model depends on the sizes in its configuration alone.
pub proof fn lemma_fresh_model_total<T: Real>(
    model: GptLanguageModel<T>,
    config: GptConfig<T>,
    before: SmallRng,
    after: SmallRng,
)
    requires
        fresh_model(model, config, before, after),
    ensures
        model_total(model) == new_model_total(config),
{
    let n_embd = config.n_embd as int;
    let vocab_size = config.vocab_size as int;
    let block_size = config.block_size as int;
    let mid = choose|mid: SmallRng| fresh_blocks(model.blocks@, config, before, mid);
    lemma_fresh_blocks_total(model.blocks@, config, before, mid);
    assert((vocab_size + block_size) * n_embd == vocab_size * n_embd + block_size * n_embd)
        by (nonlinear_arith);
}

/// The number of entries of the bias of a linear layer.
fn bias_len<T: Real>(layer: &Linear<T>) -> (len: usize)
    ensures
        len == bias_total(*layer),
{
    match &layer.bias {
        Some(bias) => bias.value.len(),
        None => 0,
    }
}

/// The number of parameters of a block.
fn block_parameter_count<T: Real>(block: &Block<T>) -> (total: usize)
    requires
        block_total(*block) <= usize::MAX,
    ensures
        total == block_total(*block),
{
    let mut total: usize = block.ln1.gamma.value.len() + block.ln1.beta.value.len();
    total = total + block.attention.qkv.weight.value.data.len();
    total = total + block.attention.proj.weight.value.data.len();
    total = total + bias_len(&block.attention.proj);
    total = total + (block.ln2.gamma.value.len() + block.ln2.beta.value.len());
    total = total + block.feed_forward.fc1.weight.value.data.len();
    total = total + bias_len(&block.feed_forward.fc1);
    total = total + block.feed_forward.fc2.weight.value.data.len();
    total = total + bias_len(&block.feed_forward.fc2);
    total
}

/// The number of parameters of a model.
pub fn parameter_count<T: Real>(model: &GptLanguageModel<T>) -> (total: usize)
    requires
        model_total(*model) <= usize::MAX,
    ensures
        total == model_total(*model),
{
    proof {
        lemma_blocks_total_grows(model.blocks@, 0, model.blocks@.len() as int);
        assert(model.blocks@.take(model.blocks@.len() as int) =~= model.blocks@);
    }
    let mut total: usize = model.token_embedding.value.data.len()
        + model.position_embedding.value.data.len();
    let ghost tables = total as int;
    let mut i: usize = 0;
    while i < model.blocks.len()
        invariant
            i <= model.blocks@.len(),
            0 <= tables,
            total == tables + blocks_total(model.blocks@.take(i as int)),
            tables + blocks_total(model.blocks@) <= usize::MAX,
            model.blocks@.take(model.blocks@.len() as int) == model.blocks@,
        decreases model.blocks@.len() - i,
    {
        proof {
            let next = model.blocks@.take(i + 1);
            assert(next.drop_last() =~= model.blocks@.take(i as int));
            assert(next.last() == model.blocks@[i as int]);
            lemma_blocks_total_grows(model.blocks@, i + 1, model.blocks@.len() as int);
            lemma_blocks_total_grows(model.blocks@, 0, i as int);
        }
        total = total + block_parameter_count(&model.blocks[i]);
        i = i + 1;
    }
    total = total + (model.ln_f.gamma.value.len() + model.ln_f.beta.value.len());
    total = total + model.lm_head.weight.value.data.len();
    total = total + bias_len(&model.lm_head);
    total
}

/// The number of parameters that is counted for a new model: a row for every token and for every
/// place, twelve squares of the width and ten times the width for every block, two vectors of the
/// last normalization, and the head with its bias.
pub proof fn lemma_new_model_parameter_count<T: Real>(
    config: GptConfig<T>,
    rng: &mut SmallRng,
    model: &GptLanguageModel<T>,
    total: usize,
)
    requires
        call_ensures(GptLanguageModel::<T>::new, (config, rng), *model),
        call_ensures(parameter_count::<T>, (model,), total),
    ensures
        total == (config.vocab_size + config.block_size) * config.n_embd + config.n_layer * (12 * (
        config.n_embd * config.n_embd) + 10 * config.n_embd) + 2 * config.n_embd + config.n_embd
            * config.vocab_size + config.vocab_size,
{
    lemma_fresh_model_total(*model, config, *old(rng), *final(rng));
}

} // verus!
