//! The language model.

use crate::block::{
    block_backward_gives, block_gives, block_grads_cleared, block_step_gives, fresh_block, Block,
    BlockCache,
};
use crate::dropout::{rate_refused, rate_zero_gives, InvalidRate};
use crate::grid::{token_items, TokenArray};
use crate::layer_norm::{
    fresh_layer_norm, layer_norm_backward_gives, layer_norm_gives, layer_norm_grads_cleared,
    layer_norm_step_gives, LayerNorm, LayerNormCache,
};
use crate::linear::{
    fresh_linear, linear_backward_gives, linear_gives, linear_grads_cleared, linear_step_gives,
    Linear,
};
use crate::optim::{
    fresh_matrix, matrix_grad_cleared, next_step_gives, spread_draws_give,
    undecayed_matrix_step_gives, AdamStep, AdamW, Param2D,
};
use crate::parallel::par_map;
use crate::scalar::{decimal_gives, one_gives, plus_gives, times_gives, Real};
use crate::tensor::{
    lemma_index_in_range, lemma_index_split, lemma_split_index, tabulate, Tensor2, Tensor3,
};
use rand::rngs::SmallRng;
use vstd::prelude::*;

verus! {

/// The sizes of a model, and its dropout rate.
#[derive(Clone, Copy)]
pub struct GptConfig<T> {
    pub vocab_size: usize,
    pub block_size: usize,
    pub n_embd: usize,
    pub n_head: usize,
    pub n_layer: usize,
    pub dropout: T,
}

/// What going back through the model needs.
pub struct GptCache<T> {
    pub idx: TokenArray,
    pub final_norm: LayerNormCache<T>,
    pub final_norm_output: Tensor3<T>,
    pub blocks: Vec<BlockCache<T>>,
}

/// A transformer that predicts, for every position of a sequence of tokens, the next token.
pub struct GptLanguageModel<T> {
    pub config: GptConfig<T>,
    pub token_embedding: Param2D<T>,
    pub position_embedding: Param2D<T>,
    pub blocks: Vec<Block<T>>,
    pub ln_f: LayerNorm<T>,
    pub lm_head: Linear<T>,
}

impl<T> GptConfig<T> {
    /// A model with these sizes can be made: every row splits into heads, and every table fits.
    pub open spec fn is_sound(self) -> bool {
        &&& self.vocab_size * self.n_embd <= usize::MAX
        &&& self.block_size * self.n_embd <= usize::MAX
        &&& self.n_layer > 0 ==> {
            &&& self.n_head > 0
            &&& self.n_embd as int % self.n_head as int == 0
            &&& 4 * self.n_embd <= usize::MAX
            &&& self.n_embd * (4 * self.n_embd) <= usize::MAX
            &&& self.block_size * self.block_size <= isize::MAX
        }
    }
}

impl<T> GptLanguageModel<T> {
    /// The parts of the model have the sizes that its configuration names.
    pub open spec fn wf(self) -> bool {
        let n_embd = self.config.n_embd as int;
        &&& self.token_embedding.has_shape(self.config.vocab_size as int, n_embd)
        &&& self.position_embedding.has_shape(self.config.block_size as int, n_embd)
        &&& self.blocks@.len() == self.config.n_layer
        &&& forall|i: int|
            0 <= i < self.blocks@.len() ==> (#[trigger] self.blocks@[i]).has_shape(
                n_embd,
                self.config.block_size as int,
            )
        &&& self.ln_f.has_width(n_embd)
        &&& self.lm_head.has_shape(n_embd, self.config.vocab_size as int)
    }

    /// The model takes `idx`: its sequences are no longer than the model's block, and its tokens
    /// are in the vocabulary.
    pub open spec fn takes(self, idx: TokenArray) -> bool {
        &&& self.config.n_embd > 0
        &&& idx.cols() <= self.config.block_size
        &&& self.config.n_layer > 0 ==> idx.cols() > 0
        &&& idx.all_below(self.config.vocab_size as int)
    }
}

impl<T> GptCache<T> {
    /// The cache belongs to `batch` sequences of `time` tokens, and to this model.
    pub open spec fn fits(self, model: GptLanguageModel<T>, batch: int, time: int) -> bool {
        let n_embd = model.config.n_embd as int;
        &&& self.idx.rows() == batch
        &&& self.idx.cols() == time
        &&& self.final_norm.has_shape(batch, time, n_embd)
        &&& self.final_norm_output.has_shape(batch, time, n_embd)
        &&& self.blocks@.len() == model.blocks@.len()
        &&& forall|i: int|
            0 <= i < self.blocks@.len() ==> (#[trigger] self.blocks@[i]).fits(
                model.blocks@[i],
                batch,
                time,
                n_embd,
            )
    }
}

/// `param` is a new embedding whose values were drawn from the generator `before`, which left
/// the generator `after`.
pub open spec fn fresh_embedding<T: Real>(
    param: Param2D<T>,
    rows: int,
    cols: int,
    before: SmallRng,
    after: SmallRng,
) -> bool {
    &&& fresh_matrix(param, rows, cols)
    &&& exists|scale: T| #[trigger]
        decimal_gives(2, 2, scale) && spread_draws_give(before, scale, param.value.data@, after)
}

/// `blocks` are new blocks whose weights were drawn, block after block, from the generator
/// `before`, which left the generator `after`.
pub open spec fn fresh_blocks<T: Real>(
    blocks: Seq<Block<T>>,
    config: GptConfig<T>,
    before: SmallRng,
    after: SmallRng,
) -> bool
    decreases blocks.len(),
{
    if blocks.len() == 0 {
        after == before
    } else {
        exists|mid: SmallRng|
            fresh_blocks(blocks.drop_last(), config, before, mid) && #[trigger] fresh_block(
                blocks.last(),
                config.n_embd as int,
                config.n_head as int,
                config.block_size as int,
                mid,
                after,
            )
    }
}

/// `model` is a new model whose weights were drawn from the generator `before`: first those of
/// the blocks, then the two embeddings, then those of the head. The generator `after` is left.
pub open spec fn fresh_model<T: Real>(
    model: GptLanguageModel<T>,
    config: GptConfig<T>,
    before: SmallRng,
    after: SmallRng,
) -> bool {
    let n_embd = config.n_embd as int;
    &&& model.wf()
    &&& model.config == config
    &&& fresh_layer_norm(model.ln_f, n_embd)
    &&& exists|r1: SmallRng, r2: SmallRng, r3: SmallRng| #[trigger]
        fresh_blocks(model.blocks@, config, before, r1) && #[trigger] fresh_embedding(
            model.token_embedding,
            config.vocab_size as int,
            n_embd,
            r1,
            r2,
        ) && #[trigger] fresh_embedding(
            model.position_embedding,
            config.block_size as int,
            n_embd,
            r2,
            r3,
        ) && fresh_linear(
            model.lm_head,
            n_embd,
            config.vocab_size as int,
            true,
            r3,
            after,
        )
}

/// `x` holds, for every position, the embedding of its token plus that of its place.
pub open spec fn embedding_gives<T: Real>(
    model: GptLanguageModel<T>,
    idx: TokenArray,
    x: Tensor3<T>,
) -> bool {
    &&& x.has_shape(idx.rows(), idx.cols(), model.config.n_embd as int)
    &&& forall|b: int, t: int, c: int|
        0 <= b < idx.rows() && 0 <= t < idx.cols() && 0 <= c < model.config.n_embd ==> plus_gives(
            model.token_embedding.value.at(idx.at(b, t) as int, c),
            model.position_embedding.value.at(t, c),
            #[trigger] x.cell(b, t, c),
        )
}

/// `output` and `caches` are what the blocks, one after the other, make of `input`; the generator
/// `before` is left as `after`.
pub open spec fn blocks_give<T: Real>(
    blocks: Seq<Block<T>>,
    training: bool,
    dropout: T,
    input: Tensor3<T>,
    caches: Seq<BlockCache<T>>,
    output: Tensor3<T>,
    before: SmallRng,
    after: SmallRng,
) -> bool
    decreases blocks.len(),
{
    if blocks.len() == 0 {
        output == input && after == before
    } else {
        exists|mid: Tensor3<T>, rng: SmallRng|
            blocks_give(
                blocks.drop_last(),
                training,
                dropout,
                input,
                caches.drop_last(),
                mid,
                before,
                rng,
            ) && #[trigger] block_gives(
                blocks.last(),
                mid,
                training,
                dropout,
                output,
                caches.last(),
                rng,
                after,
            )
    }
}

/// The steps of [`model_gives`], with the embedding and the output of the last block.
pub open spec fn model_steps_give<T: Real>(
    model: GptLanguageModel<T>,
    idx: TokenArray,
    training: bool,
    logits: Tensor3<T>,
    cache: GptCache<T>,
    before: SmallRng,
    after: SmallRng,
    embedded: Tensor3<T>,
    last: Tensor3<T>,
) -> bool {
    &&& cache.idx.same(idx)
    &&& embedding_gives(model, idx, embedded)
    &&& cache.blocks@.len() == model.blocks@.len()
    &&& blocks_give(
        model.blocks@,
        training,
        model.config.dropout,
        embedded,
        cache.blocks@,
        last,
        before,
        after,
    )
    &&& layer_norm_gives(model.ln_f, last, cache.final_norm_output, cache.final_norm)
    &&& linear_gives(model.lm_head, cache.final_norm_output, logits)
}

/// `logits` and `cache` are what the model makes of the tokens `idx`: their embedding goes
/// through the blocks, a last normalization and the head. The generator `before` is left as
/// `after`.
pub open spec fn model_gives<T: Real>(
    model: GptLanguageModel<T>,
    idx: TokenArray,
    training: bool,
    logits: Tensor3<T>,
    cache: GptCache<T>,
    before: SmallRng,
    after: SmallRng,
) -> bool {
    exists|embedded: Tensor3<T>, last: Tensor3<T>|
        model_steps_give(model, idx, training, logits, cache, before, after, embedded, last)
}

/// The embedding of token `token` at place `place`.
fn embedded_row<T: Real>(tokens: &Tensor2<T>, places: &Tensor2<T>, token: usize, place: usize) -> (row:
    Vec<T>)
    requires
        tokens.wf(),
        places.wf(),
        tokens.cols == places.cols,
        token < tokens.rows,
        place < places.rows,
    ensures
        row@.len() == tokens.cols,
        forall|c: int|
            0 <= c < tokens.cols ==> plus_gives(
                tokens.at(token as int, c),
                places.at(place as int, c),
                #[trigger] row@[c],
            ),
{
    tabulate(tokens.cols, |c: usize| -> (r: T)
        requires
            c < tokens.cols,
            tokens.wf(),
            places.wf(),
            tokens.cols == places.cols,
            token < tokens.rows,
            place < places.rows,
        ensures
            plus_gives(tokens.at(token as int, c as int), places.at(place as int, c as int), r),
        { tokens.get(token, c).plus(places.get(place, c)) })
}

impl<T: Real> GptLanguageModel<T> {
    /// A new model.
    pub fn new(config: GptConfig<T>, rng: &mut SmallRng) -> (model: GptLanguageModel<T>)
        requires
            config.is_sound(),
        ensures
            fresh_model(model, config, *old(rng), *final(rng)),
    {
        let mut blocks: Vec<Block<T>> = Vec::new();
        let mut i: usize = 0;
        while i < config.n_layer
            invariant
                i <= config.n_layer,
                config.is_sound(),
                blocks@.len() == i,
                fresh_blocks(blocks@, config, *old(rng), *rng),
                forall|k: int|
                    0 <= k < i ==> (#[trigger] blocks@[k]).has_shape(
                        config.n_embd as int,
                        config.block_size as int,
                    ),
            decreases config.n_layer - i,
        {
            let ghost before = blocks@;
            let ghost mid = *rng;
            let block = Block::new(config.n_embd, config.n_head, config.block_size, rng);
            blocks.push(block);
            proof {
                assert(blocks@.drop_last() =~= before);
                assert(fresh_block(
                    blocks@.last(),
                    config.n_embd as int,
                    config.n_head as int,
                    config.block_size as int,
                    mid,
                    *rng,
                ));
            }
            i = i + 1;
        }
        let ghost r1 = *rng;
        let token_embedding = Param2D::rand(
            config.vocab_size,
            config.n_embd,
            T::decimal(2, 2),
            rng,
        );
        let ghost r2 = *rng;
        let position_embedding = Param2D::rand(
            config.block_size,
            config.n_embd,
            T::decimal(2, 2),
            rng,
        );
        let ghost r3 = *rng;
        let ln_f = LayerNorm::new(config.n_embd);
        assert(config.n_embd * config.vocab_size == config.vocab_size * config.n_embd)
            by (nonlinear_arith);
        let lm_head = Linear::new(config.n_embd, config.vocab_size, true, rng);
        let model = GptLanguageModel {
            config,
            token_embedding,
            position_embedding,
            blocks,
            ln_f,
            lm_head,
        };
        proof {
            assert(fresh_blocks(model.blocks@, config, *old(rng), r1));
            assert(fresh_embedding(
                model.token_embedding,
                config.vocab_size as int,
                config.n_embd as int,
                r1,
                r2,
            ));
            assert(fresh_embedding(
                model.position_embedding,
                config.block_size as int,
                config.n_embd as int,
                r2,
                r3,
            ));
        }
        model
    }

    /// The embeddings of the tokens `idx`.
    fn embed(&self, idx: &TokenArray) -> (x: Tensor3<T>)
        requires
            self.wf(),
            self.takes(*idx),
        ensures
            embedding_gives(*self, *idx, x),
    {
        let (batch, time) = idx.dim();
        let rows: usize = batch * time;
        let tokens = &self.token_embedding.value;
        let places = &self.position_embedding.value;
        let vocab_size: usize = self.config.vocab_size;
        let block_size: usize = self.config.block_size;
        let parts = par_map(rows, |r: usize| -> (row: Vec<T>)
            requires
                r < rows,
                rows == batch * time,
                batch == idx.rows(),
                time == idx.cols(),
                time <= block_size,
                idx.all_below(vocab_size as int),
                places.has_shape(block_size as int, tokens.cols as int),
                tokens.has_shape(vocab_size as int, tokens.cols as int),
            ensures
                row@.len() == tokens.cols,
                forall|c: int| 0 <= c < tokens.cols ==> plus_gives(
                    tokens.at(idx.at(r as int / (time as int), r as int % (time as int)) as int, c),
                    places.at(r as int % (time as int), c),
                    #[trigger] row@[c],
                ),
            {
                proof {
                    assert(time > 0) by {
                        if time == 0 {
                            assert(batch * time == 0) by (nonlinear_arith) requires time == 0;
                        }
                    }
                    lemma_split_index(r as int, batch as int, time as int);
                    assert(idx.at(r as int / (time as int), r as int % (time as int)) < vocab_size);
                }
                let token = idx.get(r / time, r % time);
                embedded_row(tokens, places, token, r % time)
            });
        let ghost lines = parts@;
        let x = Tensor3 { outer: batch, inner: time, flat: Tensor2::from_rows(parts, tokens.cols) };
        proof {
            assert forall|b: int, t: int, c: int|
                0 <= b < batch && 0 <= t < time && 0 <= c < self.config.n_embd implies plus_gives(
                self.token_embedding.value.at(idx.at(b, t) as int, c),
                self.position_embedding.value.at(t, c),
                #[trigger] x.cell(b, t, c),
            ) by {
                lemma_index_in_range(b, batch as int, t, time as int);
                lemma_index_split(b, t, time as int);
                let r = b * time + t;
                assert(x.flat.at(r, c) == lines[r]@[c]);
            }
        }
        x
    }

    /// The logits of the next token for every position of `idx`.
    pub fn forward(&self, idx: &TokenArray, training: bool, rng: &mut SmallRng) -> (result: Result<
        (Tensor3<T>, GptCache<T>),
        InvalidRate,
    >)
        requires
            self.wf(),
            self.takes(*idx),
        ensures
            match result {
                Ok((logits, cache)) => {
                    &&& model_gives(
                        *self,
                        *idx,
                        training,
                        logits,
                        cache,
                        *old(rng),
                        *final(rng),
                    )
                    &&& logits.has_shape(idx.rows(), idx.cols(), self.config.vocab_size as int)
                    &&& cache.fits(*self, idx.rows(), idx.cols())
                },
                Err(_) => training && self.blocks@.len() > 0 && rate_zero_gives(
                    self.config.dropout,
                    false,
                ) && rate_refused(self.config.dropout),
            },
            !training ==> *final(rng) == *old(rng),
    {
        let dropout = self.config.dropout;
        let mut x = self.embed(idx);
        let ghost embedded = x;
        let mut caches: Vec<BlockCache<T>> = Vec::new();
        let mut i: usize = 0;
        proof {
            assert(self.blocks@.take(0) =~= Seq::empty());
        }
        while i < self.blocks.len()
            invariant
                i <= self.blocks@.len(),
                self.wf(),
                self.takes(*idx),
                dropout == self.config.dropout,
                x.has_shape(idx.rows(), idx.cols(), self.config.n_embd as int),
                caches@.len() == i,
                blocks_give(
                    self.blocks@.take(i as int),
                    training,
                    dropout,
                    embedded,
                    caches@,
                    x,
                    *old(rng),
                    *rng,
                ),
                forall|k: int|
                    0 <= k < i ==> (#[trigger] caches@[k]).fits(
                        self.blocks@[k],
                        idx.rows(),
                        idx.cols(),
                        self.config.n_embd as int,
                    ),
                !training ==> *rng == *old(rng),
            decreases self.blocks@.len() - i,
        {
            let ghost before = caches@;
            let ghost mid = x;
            let ghost mid_rng = *rng;
            assert(self.blocks@[i as int].has_shape(
                self.config.n_embd as int,
                self.config.block_size as int,
            ));
            let (next, cache) = match self.blocks[i].forward(&x, training, dropout, rng) {
                Ok(pair) => pair,
                Err(e) => {
                    return Err(e);
                },
            };
            caches.push(cache);
            x = next;
            proof {
                let done = self.blocks@.take(i + 1);
                assert(done.drop_last() =~= self.blocks@.take(i as int));
                assert(done.last() == self.blocks@[i as int]);
                assert(caches@.drop_last() =~= before);
                assert(block_gives(
                    done.last(),
                    mid,
                    training,
                    dropout,
                    x,
                    caches@.last(),
                    mid_rng,
                    *rng,
                ));
            }
            i = i + 1;
        }
        assert(self.blocks@.take(i as int) =~= self.blocks@);
        let (final_norm_output, final_norm) = self.ln_f.forward(&x);
        let logits = self.lm_head.forward(&final_norm_output);
        let cache = GptCache {
            idx: idx.duplicate(),
            final_norm,
            final_norm_output,
            blocks: caches,
        };
        assert(model_steps_give(
            *self,
            *idx,
            training,
            logits,
            cache,
            *old(rng),
            *rng,
            embedded,
            x,
        ));
        Ok((logits, cache))
    }
}

/// `r` is `before` plus one times `g`.
pub open spec fn plus_scaled_gives<T: Real>(before: T, g: T, r: T) -> bool {
    exists|one: T, scaled: T|
        one_gives(one) && #[trigger] times_gives(one, g, scaled) && #[trigger] plus_gives(
            before,
            scaled,
            r,
        )
}

/// `after` is the entry in row `v` and column `c` of a table, where `before` was that entry, and
/// each of the first `n` rows of `grads` was added to the row of the table that its key names.
pub open spec fn scatter_gives<T: Real>(
    keys: Seq<usize>,
    grads: Tensor2<T>,
    n: int,
    v: int,
    c: int,
    before: T,
    after: T,
) -> bool
    decreases n,
{
    if n <= 0 {
        after == before
    } else if keys[n - 1] == v {
        exists|mid: T|
            scatter_gives(keys, grads, n - 1, v, c, before, mid) && #[trigger] plus_scaled_gives(
                mid,
                grads.at(n - 1, c),
                after,
            )
    } else {
        scatter_gives(keys, grads, n - 1, v, c, before, after)
    }
}

/// `after` is `before` with each row of `grads` added to the row that its key names.
pub open spec fn scattered<T: Real>(
    before: Tensor2<T>,
    keys: Seq<usize>,
    grads: Tensor2<T>,
    after: Tensor2<T>,
) -> bool {
    after.has_shape(before.rows as int, before.cols as int) && forall|v: int, c: int|
        0 <= v < before.rows && 0 <= c < before.cols ==> scatter_gives(
            keys,
            grads,
            grads.rows as int,
            v,
            c,
            before.at(v, c),
            #[trigger] after.at(v, c),
        )
}

/// Adds each row of `grads` to the row of `table` that its key names.
pub fn scatter_add<T: Real>(table: &mut Tensor2<T>, keys: &Vec<usize>, grads: &Tensor2<T>)
    requires
        old(table).wf(),
        grads.wf(),
        grads.cols == old(table).cols,
        keys@.len() == grads.rows,
        forall|r: int| 0 <= r < keys@.len() ==> (#[trigger] keys@[r]) < old(table).rows,
    ensures
        scattered(*old(table), keys@, *grads, *final(table)),
{
    let (rows, cols) = (table.rows, table.cols);
    let mut r: usize = 0;
    while r < grads.rows
        invariant
            r <= grads.rows,
            grads.wf(),
            grads.cols == cols,
            keys@.len() == grads.rows,
            forall|k: int| 0 <= k < keys@.len() ==> (#[trigger] keys@[k]) < rows,
            old(table).has_shape(rows as int, cols as int),
            table.has_shape(rows as int, cols as int),
            forall|v: int, c: int|
                0 <= v < rows && 0 <= c < cols ==> scatter_gives(
                    keys@,
                    *grads,
                    r as int,
                    v,
                    c,
                    old(table).at(v, c),
                    #[trigger] table.at(v, c),
                ),
        decreases grads.rows - r,
    {
        let key: usize = keys[r];
        let ghost mid = *table;
        let mut c: usize = 0;
        while c < cols
            invariant
                c <= cols,
                r < grads.rows,
                key < rows,
                grads.wf(),
                grads.cols == cols,
                mid.has_shape(rows as int, cols as int),
                table.has_shape(rows as int, cols as int),
                forall|v: int, d: int|
                    0 <= v < rows && 0 <= d < cols && (v != key || d >= c) ==> #[trigger] table.at(
                        v,
                        d,
                    ) == mid.at(v, d),
                forall|d: int|
                    0 <= d < c ==> plus_scaled_gives(
                        mid.at(key as int, d),
                        grads.at(r as int, d),
                        #[trigger] table.at(key as int, d),
                    ),
            decreases cols - c,
        {
            let scaled = T::one().times(grads.get(r, c));
            let sum = table.get(key, c).plus(scaled);
            assert(plus_scaled_gives(
                mid.at(key as int, c as int),
                grads.at(r as int, c as int),
                sum,
            ));
            table.set(key, c, sum);
            c = c + 1;
        }
        proof {
            assert forall|v: int, d: int| 0 <= v < rows && 0 <= d < cols implies scatter_gives(
                keys@,
                *grads,
                r + 1,
                v,
                d,
                old(table).at(v, d),
                #[trigger] table.at(v, d),
            ) by {
                assert(scatter_gives(
                    keys@,
                    *grads,
                    r as int,
                    v,
                    d,
                    old(table).at(v, d),
                    mid.at(v, d),
                ));
                if v == key {
                    assert(plus_scaled_gives(mid.at(v, d), grads.at(r as int, d), table.at(v, d)));
                } else {
                    assert(table.at(v, d) == mid.at(v, d));
                }
            }
        }
        r = r + 1;
    }
}

/// Going back through the blocks, from the last to the first: `grad` is the gradient of the
/// input of the first, where `grad_output` is that of the output of the last.
pub open spec fn blocks_backward_give<T: Real>(
    before: Seq<Block<T>>,
    caches: Seq<BlockCache<T>>,
    grad_output: Tensor3<T>,
    after: Seq<Block<T>>,
    grad: Tensor3<T>,
) -> bool
    decreases before.len(),
{
    if before.len() == 0 {
        grad == grad_output
    } else {
        exists|mid: Tensor3<T>|
            blocks_backward_give(
                before.skip(1),
                caches.skip(1),
                grad_output,
                after.skip(1),
                mid,
            ) && #[trigger] block_backward_gives(before[0], caches[0], mid, after[0], grad)
    }
}

/// The place of every row: rows of `time` places, one behind the other.
pub open spec fn places(rows: int, time: int) -> Seq<usize> {
    Seq::new(rows as nat, |r: int| (r % time) as usize)
}

/// The steps of [`model_backward_gives`], with the gradients of the output of the last
/// normalization, of the output of the last block, and of the embeddings.
pub open spec fn model_backward_steps_give<T: Real>(
    before: GptLanguageModel<T>,
    cache: GptCache<T>,
    grad_logits: Tensor3<T>,
    after: GptLanguageModel<T>,
    normed: Tensor3<T>,
    last: Tensor3<T>,
    embedded: Tensor3<T>,
) -> bool {
    &&& linear_backward_gives(
        before.lm_head,
        cache.final_norm_output,
        grad_logits,
        after.lm_head,
        normed,
    )
    &&& layer_norm_backward_gives(before.ln_f, cache.final_norm, normed, after.ln_f, last)
    &&& after.blocks@.len() == before.blocks@.len()
    &&& blocks_backward_give(before.blocks@, cache.blocks@, last, after.blocks@, embedded)
    &&& after.token_embedding.same_but_grad(before.token_embedding)
    &&& scattered(
        before.token_embedding.grad,
        token_items(cache.idx),
        embedded.flat,
        after.token_embedding.grad,
    )
    &&& after.position_embedding.same_but_grad(before.position_embedding)
    &&& scattered(
        before.position_embedding.grad,
        places(embedded.flat.rows as int, cache.idx.cols()),
        embedded.flat,
        after.position_embedding.grad,
    )
    &&& after.config == before.config
}

/// Going back through the model: the gradients of `after` are those of `before` plus what
/// `grad_logits` adds to them, and nothing else of the model changes.
pub open spec fn model_backward_gives<T: Real>(
    before: GptLanguageModel<T>,
    cache: GptCache<T>,
    grad_logits: Tensor3<T>,
    after: GptLanguageModel<T>,
) -> bool {
    exists|normed: Tensor3<T>, last: Tensor3<T>, embedded: Tensor3<T>|
        model_backward_steps_give(before, cache, grad_logits, after, normed, last, embedded)
}

/// `after` is `before` with gradients of zeros.
pub open spec fn model_grads_cleared<T: Real>(
    before: GptLanguageModel<T>,
    after: GptLanguageModel<T>,
) -> bool {
    &&& after.config == before.config
    &&& matrix_grad_cleared(before.token_embedding, after.token_embedding)
    &&& matrix_grad_cleared(before.position_embedding, after.position_embedding)
    &&& after.blocks@.len() == before.blocks@.len()
    &&& forall|i: int|
        0 <= i < before.blocks@.len() ==> block_grads_cleared(
            before.blocks@[i],
            #[trigger] after.blocks@[i],
        )
    &&& layer_norm_grads_cleared(before.ln_f, after.ln_f)
    &&& linear_grads_cleared(before.lm_head, after.lm_head)
}

/// `after` is `before` after the optimizer step `step`. The step's weight decay reaches the
/// matrices of the linear layers, and neither the embeddings nor any vector.
pub open spec fn model_stepped<T: Real>(
    step: AdamStep<T>,
    before: GptLanguageModel<T>,
    after: GptLanguageModel<T>,
) -> bool {
    &&& after.config == before.config
    &&& undecayed_matrix_step_gives(step, before.token_embedding, after.token_embedding)
    &&& undecayed_matrix_step_gives(step, before.position_embedding, after.position_embedding)
    &&& after.blocks@.len() == before.blocks@.len()
    &&& forall|i: int|
        0 <= i < before.blocks@.len() ==> block_step_gives(
            step,
            before.blocks@[i],
            #[trigger] after.blocks@[i],
        )
    &&& layer_norm_step_gives(step, before.ln_f, after.ln_f)
    &&& linear_step_gives(step, before.lm_head, after.lm_head)
}

/// `after` is `before` after the next step of the optimizer.
pub open spec fn model_step_gives<T: Real>(
    before: GptLanguageModel<T>,
    optimizer_before: AdamW<T>,
    after: GptLanguageModel<T>,
    optimizer_after: AdamW<T>,
) -> bool {
    exists|step: AdamStep<T>| #[trigger]
        next_step_gives(optimizer_before, optimizer_after, step) && model_stepped(
            step,
            before,
            after,
        )
}

impl<T: Real> GptLanguageModel<T> {
    /// Adds the gradients of all parameters to those kept so far.
    pub fn backward(&mut self, cache: &GptCache<T>, grad_logits: &Tensor3<T>)
        requires
            old(self).wf(),
            old(self).takes(cache.idx),
            cache.fits(*old(self), cache.idx.rows(), cache.idx.cols()),
            grad_logits.has_shape(
                cache.idx.rows(),
                cache.idx.cols(),
                old(self).config.vocab_size as int,
            ),
        ensures
            model_backward_gives(*old(self), *cache, *grad_logits, *final(self)),
            final(self).wf(),
    {
        let (batch, time) = cache.idx.dim();
        let normed = self.lm_head.backward(&cache.final_norm_output, grad_logits);
        let mut grad = self.ln_f.backward(&cache.final_norm, &normed);
        let ghost last = grad;
        let count: usize = self.blocks.len();
        let ghost n_embd = self.config.n_embd as int;
        let ghost block_size = self.config.block_size as int;
        let mut i: usize = count;
        while i > 0
            invariant
                i <= count,
                count == old(self).blocks@.len(),
                self.blocks@.len() == count,
                cache.blocks@.len() == count,
                count == old(self).config.n_layer,
                old(self).wf(),
                old(self).takes(cache.idx),
                n_embd == old(self).config.n_embd,
                block_size == old(self).config.block_size,
                cache.fits(*old(self), batch as int, time as int),
                batch == cache.idx.rows(),
                time == cache.idx.cols(),
                grad.has_shape(batch as int, time as int, n_embd),
                self.config == old(self).config,
                self.token_embedding == old(self).token_embedding,
                self.position_embedding == old(self).position_embedding,
                self.ln_f.has_width(n_embd),
                self.lm_head.has_shape(n_embd, old(self).config.vocab_size as int),
                linear_backward_gives(
                    old(self).lm_head,
                    cache.final_norm_output,
                    *grad_logits,
                    self.lm_head,
                    normed,
                ),
                layer_norm_backward_gives(
                    old(self).ln_f,
                    cache.final_norm,
                    normed,
                    self.ln_f,
                    last,
                ),
                forall|k: int| 0 <= k < i ==> #[trigger] self.blocks@[k] == old(self).blocks@[k],
                forall|k: int|
                    i <= k < count ==> (#[trigger] self.blocks@[k]).has_shape(n_embd, block_size),
                blocks_backward_give(
                    old(self).blocks@.skip(i as int),
                    cache.blocks@.skip(i as int),
                    last,
                    self.blocks@.skip(i as int),
                    grad,
                ),
            decreases i,
        {
            i = i - 1;
            let ghost mid = grad;
            let ghost blocks = self.blocks@;
            proof {
                assert(old(self).blocks@[i as int].has_shape(n_embd, block_size));
                assert(blocks[i as int] == old(self).blocks@[i as int]);
                assert(cache.blocks@[i as int].fits(
                    old(self).blocks@[i as int],
                    batch as int,
                    time as int,
                    n_embd,
                ));
            }
            grad = self.blocks[i].backward(&cache.blocks[i], &grad);
            proof {
                assert(old(self).blocks@.skip(i as int).skip(1) =~= old(self).blocks@.skip(i + 1));
                assert(cache.blocks@.skip(i as int).skip(1) =~= cache.blocks@.skip(i + 1));
                assert(self.blocks@.skip(i as int).skip(1) =~= blocks.skip(i + 1));
                assert(block_backward_gives(
                    old(self).blocks@.skip(i as int)[0],
                    cache.blocks@.skip(i as int)[0],
                    mid,
                    self.blocks@.skip(i as int)[0],
                    grad,
                ));
            }
        }
        proof {
            assert(old(self).blocks@.skip(0) =~= old(self).blocks@);
            assert(cache.blocks@.skip(0) =~= cache.blocks@);
            assert(self.blocks@.skip(0) =~= self.blocks@);
        }
        let rows: usize = grad.flat.rows;
        let mut tokens: Vec<usize> = Vec::new();
        let mut spots: Vec<usize> = Vec::new();
        let mut r: usize = 0;
        while r < rows
            invariant
                r <= rows,
                rows == batch * time,
                batch == cache.idx.rows(),
                time == cache.idx.cols(),
                old(self).takes(cache.idx),
                tokens@.len() == r,
                spots@.len() == r,
                forall|k: int| 0 <= k < r ==> #[trigger] tokens@[k] == token_items(cache.idx)[k],
                forall|k: int|
                    0 <= k < r ==> (#[trigger] tokens@[k]) < old(self).config.vocab_size,
                forall|k: int| 0 <= k < r ==> #[trigger] spots@[k] == k % (time as int),
                forall|k: int|
                    0 <= k < r ==> (#[trigger] spots@[k]) < old(self).config.block_size,
            decreases rows - r,
        {
            proof {
                if time == 0 {
                    assert(batch * time == 0) by (nonlinear_arith)
                        requires
                            time == 0,
                    ;
                }
                lemma_split_index(r as int, batch as int, time as int);
                assert(cache.idx.at(r as int / (time as int), r as int % (time as int))
                    < old(self).config.vocab_size);
            }
            let token = cache.idx.get(r / time, r % time);
            tokens.push(token);
            spots.push(r % time);
            r = r + 1;
        }
        assert(tokens@ =~= token_items(cache.idx));
        assert(spots@ =~= places(rows as int, time as int));
        scatter_add(&mut self.token_embedding.grad, &tokens, &grad.flat);
        scatter_add(&mut self.position_embedding.grad, &spots, &grad.flat);
        assert(model_backward_steps_give(
            *old(self),
            *cache,
            *grad_logits,
            *self,
            normed,
            last,
            grad,
        ));
    }

    /// Sets all gradients to zeros.
    pub fn zero_grad(&mut self)
        requires
            old(self).wf(),
        ensures
            model_grads_cleared(*old(self), *final(self)),
            final(self).wf(),
    {
        self.token_embedding.zero_grad();
        self.position_embedding.zero_grad();
        let ghost n_embd = self.config.n_embd as int;
        let ghost block_size = self.config.block_size as int;
        let mut i: usize = 0;
        while i < self.blocks.len()
            invariant
                i <= self.blocks@.len(),
                self.blocks@.len() == old(self).blocks@.len(),
                old(self).wf(),
                n_embd == old(self).config.n_embd,
                block_size == old(self).config.block_size,
                self.config == old(self).config,
                self.ln_f == old(self).ln_f,
                self.lm_head == old(self).lm_head,
                matrix_grad_cleared(old(self).token_embedding, self.token_embedding),
                self.token_embedding.has_shape(old(self).config.vocab_size as int, n_embd),
                matrix_grad_cleared(old(self).position_embedding, self.position_embedding),
                self.position_embedding.has_shape(block_size, n_embd),
                forall|k: int|
                    0 <= k < i ==> block_grads_cleared(
                        old(self).blocks@[k],
                        #[trigger] self.blocks@[k],
                    ),
                forall|k: int|
                    0 <= k < i ==> (#[trigger] self.blocks@[k]).has_shape(n_embd, block_size),
                forall|k: int|
                    i <= k < self.blocks@.len() ==> #[trigger] self.blocks@[k]
                        == old(self).blocks@[k],
            decreases self.blocks@.len() - i,
        {
            assert(old(self).blocks@[i as int].has_shape(n_embd, block_size));
            assert(self.blocks@[i as int].has_shape(n_embd, block_size));
            self.blocks[i].zero_grad();
            assert(self.blocks@[i as int].has_shape(n_embd, block_size));
            i = i + 1;
        }
        self.ln_f.zero_grad();
        self.lm_head.zero_grad();
    }

    /// Applies the next step of the optimizer.
    pub fn step(&mut self, optimizer: &mut AdamW<T>)
        requires
            old(self).wf(),
        ensures
            model_step_gives(*old(self), *old(optimizer), *final(self), *final(optimizer)),
            final(self).wf(),
    {
        let step = optimizer.next_step();
        self.token_embedding.step_without_weight_decay(step);
        self.position_embedding.step_without_weight_decay(step);
        let ghost n_embd = self.config.n_embd as int;
        let ghost block_size = self.config.block_size as int;
        let mut i: usize = 0;
        while i < self.blocks.len()
            invariant
                i <= self.blocks@.len(),
                self.blocks@.len() == old(self).blocks@.len(),
                old(self).wf(),
                n_embd == old(self).config.n_embd,
                block_size == old(self).config.block_size,
                self.config == old(self).config,
                self.ln_f == old(self).ln_f,
                self.lm_head == old(self).lm_head,
                undecayed_matrix_step_gives(step, old(self).token_embedding, self.token_embedding),
                self.token_embedding.has_shape(old(self).config.vocab_size as int, n_embd),
                undecayed_matrix_step_gives(
                    step,
                    old(self).position_embedding,
                    self.position_embedding,
                ),
                self.position_embedding.has_shape(block_size, n_embd),
                forall|k: int|
                    0 <= k < i ==> block_step_gives(
                        step,
                        old(self).blocks@[k],
                        #[trigger] self.blocks@[k],
                    ),
                forall|k: int|
                    0 <= k < i ==> (#[trigger] self.blocks@[k]).has_shape(n_embd, block_size),
                forall|k: int|
                    i <= k < self.blocks@.len() ==> #[trigger] self.blocks@[k]
                        == old(self).blocks@[k],
            decreases self.blocks@.len() - i,
        {
            assert(old(self).blocks@[i as int].has_shape(n_embd, block_size));
            assert(self.blocks@[i as int].has_shape(n_embd, block_size));
            self.blocks[i].step(step);
            assert(self.blocks@[i as int].has_shape(n_embd, block_size));
            i = i + 1;
        }
        self.ln_f.step(step);
        self.lm_head.step(step);
        assert(model_stepped(step, *old(self), *self));
    }
}

} // verus!
