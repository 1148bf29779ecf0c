//! Reproducibility: where every operation and every draw has one result, two runs from equal
//! states are equal.

use crate::agreement::{lemma_logits_shape, lemma_model_agrees};
use crate::batch::{
    batch_drawn, batch_gives, is_batch, lemma_batch_below, lemma_drawn_batch_is_batch, starts_fit,
};
use crate::dropout::{
    chunk_seed_of, mask_chunk, mask_chunk_gives, mask_draws_give, mask_entry_gives, mask_gives,
    surely_zero, DROPOUT_CHUNK_SIZE,
};
use crate::exact::{is_exact, lemma_sum_exact, lemma_total_of_same, Reading};
use crate::generation::{
    generated_gives, lemma_generation_continues, lemma_only_window_matters, next_token_gives,
    next_token_steps_give, window_below, window_of,
};
use crate::grid::{token_items, TokenArray};
use crate::laws::{
    block_same_but_grads, lemma_clearing_changes_grads_only, lemma_forward_ignores_grads,
    lemma_zero_rate_training_is_evaluation, model_same_but_grads,
};
use crate::likeness::{lemma_softmax_alike, lemma_sum_alike, respects, Like};
use crate::loss::{cross_entropy_gives, mean_loss_gives, token_loss_gives, token_losses_give};
use crate::model::{model_gives, GptCache, GptLanguageModel};
use crate::optim::{
    complement_gives, first_moment_gives, lemma_vector_step_ignores_decay, same_but_decay,
    second_moment_gives, update_gives, vector_entry_gives, vector_step_gives, AdamStep, AdamW,
    Param1D,
};
use crate::random::{random_u64_gives, seeded_gives};
use crate::reduce::{mean_gives, softmax_gives, sum_gives};
use crate::scalar::{
    count_gives, decimal_gives, exp_gives, larger_gives, less_gives, ln_gives, minus_gives,
    negate_gives, negative_infinity_gives, one_gives, over_gives, pick_gives, plus_gives,
    sqrt_gives, times_gives, uniform_gives, zero_gives, Real,
};
use crate::tensor::{lemma_split_index, Tensor3};
use crate::training::{
    batch_loss_gives, batch_losses_give, data_fits, estimate_gives, loss_gives, loss_steps_give,
    targets_fit, train_gives, train_steps_give, BATCH_SIZE, BLOCK_SIZE, EVAL_ITERS, TrainSteps,
};
use rand::rngs::SmallRng;
use vstd::prelude::*;

verus! {

/// The operations of the number type, and the draws through it, have one result each. Nothing is
/// asked of the comparisons that only decide about a dropout rate or go back through a rectifier.
pub open spec fn one_result<T: Real>() -> bool {
    &&& forall|r: T, s: T| #[trigger] zero_gives(r) && #[trigger] zero_gives(s) ==> r == s
    &&& forall|r: T, s: T| #[trigger] one_gives(r) && #[trigger] one_gives(s) ==> r == s
    &&& forall|r: T, s: T| #[trigger]
        negative_infinity_gives(r) && #[trigger] negative_infinity_gives(s) ==> r == s
    &&& forall|n: usize, r: T, s: T| #[trigger]
        count_gives(n, r) && #[trigger] count_gives(n, s) ==> r == s
    &&& forall|d: u32, p: u32, r: T, s: T| #[trigger]
        decimal_gives(d, p, r) && #[trigger] decimal_gives(d, p, s) ==> r == s
    &&& forall|a: T, b: T, r: T, s: T| #[trigger]
        plus_gives(a, b, r) && #[trigger] plus_gives(a, b, s) ==> r == s
    &&& forall|a: T, b: T, r: T, s: T| #[trigger]
        minus_gives(a, b, r) && #[trigger] minus_gives(a, b, s) ==> r == s
    &&& forall|a: T, b: T, r: T, s: T| #[trigger]
        times_gives(a, b, r) && #[trigger] times_gives(a, b, s) ==> r == s
    &&& forall|a: T, b: T, r: T, s: T| #[trigger]
        over_gives(a, b, r) && #[trigger] over_gives(a, b, s) ==> r == s
    &&& forall|a: T, r: T, s: T| #[trigger]
        negate_gives(a, r) && #[trigger] negate_gives(a, s) ==> r == s
    &&& forall|a: T, r: T, s: T| #[trigger]
        sqrt_gives(a, r) && #[trigger] sqrt_gives(a, s) ==> r == s
    &&& forall|a: T, r: T, s: T| #[trigger]
        exp_gives(a, r) && #[trigger] exp_gives(a, s) ==> r == s
    &&& forall|a: T, r: T, s: T| #[trigger] ln_gives(a, r) && #[trigger] ln_gives(a, s) ==> r == s
    &&& forall|a: T, b: T, r: T, s: T| #[trigger]
        larger_gives(a, b, r) && #[trigger] larger_gives(a, b, s) ==> r == s
    &&& forall|a: T, b: T| !(#[trigger] less_gives(a, b, true) && #[trigger] less_gives(a, b, false))
    &&& forall|rng: SmallRng, r: T, s: T, p: SmallRng, q: SmallRng| #[trigger]
        uniform_gives(rng, r, p) && #[trigger] uniform_gives(rng, s, q) ==> r == s && p == q
    &&& forall|
        v: Vec<T>,
        w: Vec<T>,
        rng: SmallRng,
        r: Option<usize>,
        s: Option<usize>,
        p: SmallRng,
        q: SmallRng,
    | #[trigger]
        pick_gives(v, rng, r, p) && #[trigger] pick_gives(w, rng, s, q) && v@ == w@ ==> r == s && p
            == q
}

/// Every draw of the generators has one result.
pub open spec fn one_draw() -> bool {
    &&& forall|seed: u64, p: SmallRng, q: SmallRng| #[trigger]
        seeded_gives(seed, p) && #[trigger] seeded_gives(seed, q) ==> p == q
    &&& forall|rng: SmallRng, r: u64, s: u64, p: SmallRng, q: SmallRng| #[trigger]
        random_u64_gives(rng, r, p) && #[trigger] random_u64_gives(rng, s, q) ==> r == s && p == q
}

/// Numbers are alike where they are equal.
pub open spec fn equal_like<T>() -> Like<T> {
    Like {
        alike: |a: T, b: T| a == b,
        fin: |a: T| true,
        low: |a: T| false,
        nonneg: |a: T| true,
        pos: |a: T| true,
        nought: |a: T| false,
    }
}

proof fn lemma_equal_respects<T: Real>()
    requires
        one_result::<T>(),
    ensures
        respects(equal_like::<T>()),
{
    reveal(respects);
}

/// The softmax of a row has one result.
pub proof fn lemma_softmax_repeats<T: Real>(items: Seq<T>, p: Seq<T>, q: Seq<T>)
    requires
        one_result::<T>(),
        items.len() > 0,
        softmax_gives(items, p),
        softmax_gives(items, q),
    ensures
        p == q,
{
    let like = equal_like::<T>();
    lemma_equal_respects::<T>();
    assert((like.fin)(items[0]));
    lemma_softmax_alike(like, items, items, p, q);
    assert forall|i: int| 0 <= i < p.len() implies p[i] == q[i] by {
        assert(like.both(p[i], q[i]));
    }
    assert(p =~= q);
}

/// The sum of a row has one result.
proof fn lemma_sum_repeats<T: Real>(items: Seq<T>, r: T, s: T)
    requires
        one_result::<T>(),
        sum_gives(items, r),
        sum_gives(items, s),
    ensures
        r == s,
{
    lemma_equal_respects::<T>();
    lemma_sum_alike(equal_like::<T>(), items, items, r, s);
}

/// The two tables hold the same tokens.
pub open spec fn same_tokens(a: TokenArray, b: TokenArray) -> bool {
    &&& a.rows() == b.rows()
    &&& a.cols() == b.cols()
    &&& forall|r: int, c: int|
        #![trigger a.at(r, c)]
        #![trigger b.at(r, c)]
        0 <= r < a.rows() && 0 <= c < a.cols() ==> a.at(r, c) == b.at(r, c)
}

/// Tables that hold the same tokens do so item by item.
proof fn lemma_same_items(a: TokenArray, b: TokenArray, k: int)
    requires
        same_tokens(a, b),
        0 <= k < a.rows() * a.cols(),
    ensures
        token_items(a)[k] == token_items(b)[k],
{
    let (n, m) = (a.rows(), a.cols());
    assert(m > 0) by (nonlinear_arith)
        requires
            0 < n * m,
            n >= 0,
            m >= 0,
    ;
    lemma_split_index(k, n, m);
    assert(a.at(k / m, k % m) == b.at(k / m, k % m));
}

/// Outside training, the model makes the same logits of the same tokens.
pub proof fn lemma_logits_repeat<T: Real>(
    model: GptLanguageModel<T>,
    idx: TokenArray,
    idy: TokenArray,
    u: Tensor3<T>,
    v: Tensor3<T>,
    cx: GptCache<T>,
    cy: GptCache<T>,
    rx: (SmallRng, SmallRng),
    ry: (SmallRng, SmallRng),
)
    requires
        one_result::<T>(),
        model.wf(),
        model.takes(idx),
        same_tokens(idx, idy),
        model_gives(model, idx, false, u, cx, rx.0, rx.1),
        model_gives(model, idy, false, v, cy, ry.0, ry.1),
    ensures
        u.same(v),
{
    let like = equal_like::<T>();
    lemma_equal_respects::<T>();
    let (rows, cols) = (idx.rows(), idx.cols());
    let width = model.config.vocab_size as int;
    assert forall|b: int, s: int| 0 <= b < idy.rows() && 0 <= s < idy.cols() implies (
    #[trigger] idy.at(b, s)) < model.config.vocab_size by {
        assert(idy.at(b, s) == idx.at(b, s));
    }
    lemma_logits_shape(model, idx, false, u, cx, rx.0, rx.1);
    lemma_logits_shape(model, idy, false, v, cy, ry.0, ry.1);
    assert forall|i: int| 0 <= i < u.flat.data@.len() implies u.flat.data@[i]
        == v.flat.data@[i] by {
        assert(width > 0) by {
            if width == 0 {
                assert(u.flat.rows * width == 0) by (nonlinear_arith)
                    requires
                        width == 0,
                ;
            }
        }
        lemma_split_index(i, u.flat.rows as int, width);
        let (r, c) = (i / width, i % width);
        assert(cols > 0) by {
            if cols <= 0 {
                assert(rows * cols == 0) by (nonlinear_arith)
                    requires
                        cols == 0,
                ;
            }
        }
        lemma_split_index(r, rows, cols);
        let (b, s) = (r / cols, r % cols);
        assert forall|z: int| 0 <= z <= cols - 1 implies #[trigger] idx.at(b, z) == idy.at(
            b,
            z,
        ) by {}
        lemma_model_agrees(like, model, idx, idy, u, v, cx, cy, rx, ry, b, cols - 1);
        assert(like.both(u.cell(b, s, c), v.cell(b, s, c)));
    }
    assert(u.flat.data@ =~= v.flat.data@);
}

/// What is drawn behind some tokens has one result.
proof fn lemma_next_token_repeats<T: Real>(
    model: GptLanguageModel<T>,
    tokens: Seq<usize>,
    before: SmallRng,
    d1: Option<usize>,
    d2: Option<usize>,
    a1: SmallRng,
    a2: SmallRng,
)
    requires
        one_result::<T>(),
        model.wf(),
        model.config.n_embd > 0,
        model.config.block_size > 0,
        tokens.len() > 0,
        window_below(tokens, model.config.block_size as int, model.config.vocab_size as int),
        next_token_gives(model, tokens, before, d1, a1),
        next_token_gives(model, tokens, before, d2, a2),
    ensures
        d1 == d2,
        a1 == a2,
{
    let (idx, u, cx, p) = choose|idx: TokenArray, u: Tensor3<T>, cx: GptCache<T>, p: Vec<T>|
        next_token_steps_give(model, tokens, before, d1, a1, idx, u, cx, p);
    let (idy, v, cy, q) = choose|idy: TokenArray, v: Tensor3<T>, cy: GptCache<T>, q: Vec<T>|
        next_token_steps_give(model, tokens, before, d2, a2, idy, v, cy, q);
    let window = window_of(tokens, model.config.block_size as int);
    let start = tokens.len() - window.len();
    assert forall|r: int, c: int| 0 <= r < idx.rows() && 0 <= c < idx.cols() implies (
    #[trigger] idx.at(r, c)) < model.config.vocab_size by {
        assert(idx.at(r, c) == window[c]);
        assert(window[c] == tokens[start + c]);
        assert(tokens[start + c] < model.config.vocab_size);
    }
    lemma_logits_repeat(model, idx, idy, u, v, cx, cy, (before, before), (before, before));
    let last = window.len() - 1;
    assert(u.row(0, last) =~= v.row(0, last));
    assert(u.row(0, last).len() == model.config.vocab_size);
    assert(idx.at(0, 0) < model.config.vocab_size);
    lemma_softmax_repeats(u.row(0, last), p@, q@);
}

/// Tokens that were generated can be generated behind.
pub proof fn lemma_generated_window<T: Real>(
    model: GptLanguageModel<T>,
    context: Seq<usize>,
    count: nat,
    before: SmallRng,
    tokens: Seq<usize>,
    after: SmallRng,
)
    requires
        window_below(context, model.config.block_size as int, model.config.vocab_size as int),
        generated_gives(model, context, count, before, tokens, after),
    ensures
        window_below(tokens, model.config.block_size as int, model.config.vocab_size as int),
        tokens.len() == context.len() + count,
    decreases count,
{
    if count > 0 {
        let front = tokens.drop_last();
        let mid = choose|mid: SmallRng|
            generated_gives(model, context, (count - 1) as nat, before, front, mid)
                && #[trigger] next_token_gives(model, front, mid, Some(tokens.last()), after);
        lemma_generated_window(model, context, (count - 1) as nat, before, front, mid);
        assert forall|i: int|
            0 <= i < tokens.len() && i >= tokens.len() - model.config.block_size implies (
        #[trigger] tokens[i]) < model.config.vocab_size by {
            if i < front.len() {
                assert(front[i] < model.config.vocab_size);
            }
        }
    }
}

/// Two generations from the same context and from equal generators are equal, and leave equal
/// generators.
pub proof fn lemma_generation_repeats<T: Real>(
    model: GptLanguageModel<T>,
    context: Seq<usize>,
    count: nat,
    before: SmallRng,
    t1: Seq<usize>,
    t2: Seq<usize>,
    a1: SmallRng,
    a2: SmallRng,
)
    requires
        one_result::<T>(),
        model.wf(),
        model.config.n_embd > 0,
        model.config.block_size > 0,
        context.len() > 0,
        window_below(context, model.config.block_size as int, model.config.vocab_size as int),
        generated_gives(model, context, count, before, t1, a1),
        generated_gives(model, context, count, before, t2, a2),
    ensures
        t1 == t2,
        a1 == a2,
    decreases count,
{
    if count > 0 {
        let (f1, f2) = (t1.drop_last(), t2.drop_last());
        let less = (count - 1) as nat;
        let m1 = choose|m1: SmallRng|
            generated_gives(model, context, less, before, f1, m1) && #[trigger] next_token_gives(
                model,
                f1,
                m1,
                Some(t1.last()),
                a1,
            );
        let m2 = choose|m2: SmallRng|
            generated_gives(model, context, less, before, f2, m2) && #[trigger] next_token_gives(
                model,
                f2,
                m2,
                Some(t2.last()),
                a2,
            );
        lemma_generation_repeats(model, context, less, before, f1, f2, m1, m2);
        lemma_generated_window(model, context, less, before, f1, m1);
        lemma_next_token_repeats(model, f1, m1, Some(t1.last()), Some(t2.last()), a1, a2);
        assert(t1 =~= f1.push(t1.last()));
        assert(t2 =~= f2.push(t2.last()));
    }
}

/// Generation can be stopped and resumed: what comes out, and the generator that is left, are
/// those of one generation from the same generator.
pub proof fn lemma_generation_resumes<T: Real>(
    model: GptLanguageModel<T>,
    context: Seq<usize>,
    first: nat,
    second: nat,
    before: SmallRng,
    middle: Seq<usize>,
    between: SmallRng,
    resumed: Seq<usize>,
    after: SmallRng,
    whole: Seq<usize>,
    end: SmallRng,
)
    requires
        one_result::<T>(),
        model.wf(),
        model.config.n_embd > 0,
        model.config.block_size > 0,
        context.len() > 0,
        window_below(context, model.config.block_size as int, model.config.vocab_size as int),
        generated_gives(model, context, first, before, middle, between),
        generated_gives(model, middle, second, between, resumed, after),
        generated_gives(model, context, first + second, before, whole, end),
    ensures
        resumed == whole,
        after == end,
{
    lemma_generation_continues(
        model,
        context,
        first,
        second,
        before,
        middle,
        between,
        resumed,
        after,
    );
    lemma_generation_repeats(
        model,
        context,
        first + second,
        before,
        resumed,
        whole,
        after,
        end,
    );
}

/// Only the last tokens of a context matter: where two contexts hold at least as many tokens as
/// the model's block and agree on so many last ones, the new tokens are the same, and so are the
/// generators that are left.
pub proof fn lemma_generation_sees_window<T: Real>(
    model: GptLanguageModel<T>,
    c1: Seq<usize>,
    c2: Seq<usize>,
    count: nat,
    before: SmallRng,
    t1: Seq<usize>,
    t2: Seq<usize>,
    a1: SmallRng,
    a2: SmallRng,
)
    requires
        one_result::<T>(),
        model.wf(),
        model.config.n_embd > 0,
        model.config.block_size > 0,
        c1.len() >= model.config.block_size,
        c2.len() >= model.config.block_size,
        window_of(c1, model.config.block_size as int) == window_of(
            c2,
            model.config.block_size as int,
        ),
        window_below(c1, model.config.block_size as int, model.config.vocab_size as int),
        generated_gives(model, c1, count, before, t1, a1),
        generated_gives(model, c2, count, before, t2, a2),
    ensures
        t1.skip(c1.len() as int) == t2.skip(c2.len() as int),
        a1 == a2,
        window_of(t1, model.config.block_size as int) == window_of(
            t2,
            model.config.block_size as int,
        ),
        t1.len() == c1.len() + count,
        t2.len() == c2.len() + count,
    decreases count,
{
    let size = model.config.block_size as int;
    if count == 0 {
        assert(t1.skip(c1.len() as int) =~= t2.skip(c2.len() as int));
    } else {
        let (f1, f2) = (t1.drop_last(), t2.drop_last());
        let less = (count - 1) as nat;
        let m1 = choose|m1: SmallRng|
            generated_gives(model, c1, less, before, f1, m1) && #[trigger] next_token_gives(
                model,
                f1,
                m1,
                Some(t1.last()),
                a1,
            );
        let m2 = choose|m2: SmallRng|
            generated_gives(model, c2, less, before, f2, m2) && #[trigger] next_token_gives(
                model,
                f2,
                m2,
                Some(t2.last()),
                a2,
            );
        lemma_generation_sees_window(model, c1, c2, less, before, f1, f2, m1, m2);
        lemma_generated_window(model, c1, less, before, f1, m1);
        lemma_only_window_matters(model, f2, f1, m2, Some(t2.last()), a2);
        lemma_next_token_repeats(model, f1, m1, Some(t1.last()), Some(t2.last()), a1, a2);
        let (n1, n2) = (t1.len() as int, t2.len() as int);
        let (w1, w2) = (window_of(f1, size), window_of(f2, size));
        let (v1, v2) = (window_of(t1, size), window_of(t2, size));
        assert forall|i: int| 0 <= i < size implies #[trigger] v1[i] == v2[i] by {
            assert(v1[i] == t1[n1 - size + i]);
            assert(v2[i] == t2[n2 - size + i]);
            if i < size - 1 {
                assert(w1[i + 1] == w2[i + 1]);
                assert(w1[i + 1] == f1[n1 - 1 - size + i + 1]);
                assert(w2[i + 1] == f2[n2 - 1 - size + i + 1]);
            }
        }
        assert(v1 =~= v2);
        let (s1, s2) = (t1.skip(c1.len() as int), t2.skip(c2.len() as int));
        let (g1, g2) = (f1.skip(c1.len() as int), f2.skip(c2.len() as int));
        assert forall|i: int| 0 <= i < s1.len() implies s1[i] == s2[i] by {
            if i < s1.len() - 1 {
                assert(g1[i] == g2[i]);
                assert(s1[i] == g1[i] && s2[i] == g2[i]);
            }
        }
        assert(s1 =~= s2);
    }
}

/// Draws for a mask have one result.
proof fn lemma_mask_draws_repeat<T: Real>(
    before: SmallRng,
    keep: T,
    a: Seq<T>,
    b: Seq<T>,
    p: SmallRng,
    q: SmallRng,
)
    requires
        one_result::<T>(),
        a.len() == b.len(),
        mask_draws_give(before, keep, a, p),
        mask_draws_give(before, keep, b, q),
    ensures
        a == b,
        p == q,
    decreases a.len(),
{
    if a.len() == 0 {
        assert(a =~= b);
    } else {
        let (f, g) = (a.drop_last(), b.drop_last());
        let (m, u) = choose|m: SmallRng, u: T|
            mask_draws_give(before, keep, f, m) && #[trigger] uniform_gives(m, u, p)
                && mask_entry_gives(u, keep, a.last());
        let (n, w) = choose|n: SmallRng, w: T|
            mask_draws_give(before, keep, g, n) && #[trigger] uniform_gives(n, w, q)
                && mask_entry_gives(w, keep, b.last());
        lemma_mask_draws_repeat(before, keep, f, g, m, n);
        assert(uniform_gives(m, w, q));
        assert(u == w && p == q);
        assert(a.last() == b.last());
        assert(a =~= f.push(a.last()));
        assert(b =~= g.push(b.last()));
    }
}

/// Fewer draws for a mask are the start of more.
proof fn lemma_mask_draws_extend<T: Real>(
    before: SmallRng,
    keep: T,
    a: Seq<T>,
    b: Seq<T>,
    p: SmallRng,
    q: SmallRng,
)
    requires
        one_result::<T>(),
        a.len() <= b.len(),
        mask_draws_give(before, keep, a, p),
        mask_draws_give(before, keep, b, q),
    ensures
        a == b.take(a.len() as int),
    decreases b.len(),
{
    if a.len() == b.len() {
        lemma_mask_draws_repeat(before, keep, a, b, p, q);
        assert(a =~= b.take(a.len() as int));
    } else {
        let g = b.drop_last();
        let (n, w) = choose|n: SmallRng, w: T|
            mask_draws_give(before, keep, g, n) && #[trigger] uniform_gives(n, w, q)
                && mask_entry_gives(w, keep, b.last());
        lemma_mask_draws_extend(before, keep, a, g, p, n);
        assert(a =~= b.take(a.len() as int));
    }
}

/// A shorter mask is the start of a longer one: masks whose base seeds were drawn from equal
/// generators agree as far as the shorter one goes, and leave equal generators.
pub proof fn lemma_shorter_mask_is_start<T: Real>(
    before: SmallRng,
    keep: T,
    base1: u64,
    base2: u64,
    a: Seq<T>,
    b: Seq<T>,
    after1: SmallRng,
    after2: SmallRng,
)
    requires
        one_result::<T>(),
        one_draw(),
        a.len() <= b.len(),
        random_u64_gives(before, base1, after1),
        random_u64_gives(before, base2, after2),
        mask_gives(base1, keep, a),
        mask_gives(base2, keep, b),
    ensures
        a == b.take(a.len() as int),
        after1 == after2,
{
    let size = DROPOUT_CHUNK_SIZE as int;
    assert forall|i: int| 0 <= i < a.len() implies a[i] == b[i] by {
        let chunk = i / size;
        let place = i % size;
        assert(chunk * size + place == i);
        let (x, y) = (mask_chunk(a, chunk), mask_chunk(b, chunk));
        let seed = chunk_seed_of(base1, chunk);
        assert(mask_chunk_gives(seed, keep, x));
        assert(mask_chunk_gives(seed, keep, y));
        let (p, p2) = choose|p: SmallRng, p2: SmallRng| #[trigger]
            seeded_gives(seed, p) && #[trigger] mask_draws_give(p, keep, x, p2);
        let (q, q2) = choose|q: SmallRng, q2: SmallRng| #[trigger]
            seeded_gives(seed, q) && #[trigger] mask_draws_give(q, keep, y, q2);
        assert(p == q);
        lemma_mask_draws_extend(p, keep, x, y, p2, q2);
        assert(x[place] == a[i]);
        assert(y[place] == b[i]);
        assert(y.take(x.len() as int)[place] == y[place]);
    }
    assert(a =~= b.take(a.len() as int));
}

/// The moments that a step makes have one result.
proof fn lemma_moments_repeat<T: Real>(beta1: T, beta2: T, m: T, v: T, g: T, r: T, s: T, p: T, q: T)
    requires
        one_result::<T>(),
        first_moment_gives(beta1, m, g, r),
        first_moment_gives(beta1, m, g, s),
        second_moment_gives(beta2, v, g, p),
        second_moment_gives(beta2, v, g, q),
    ensures
        r == s,
        p == q,
{
    let (k1, c1, a1) = choose|k1: T, c1: T, a1: T| #[trigger]
        times_gives(beta1, m, k1) && #[trigger] complement_gives(beta1, c1)
            && #[trigger] times_gives(c1, g, a1) && plus_gives(k1, a1, r);
    let (k2, c2, a2) = choose|k2: T, c2: T, a2: T| #[trigger]
        times_gives(beta1, m, k2) && #[trigger] complement_gives(beta1, c2)
            && #[trigger] times_gives(c2, g, a2) && plus_gives(k2, a2, s);
    assert(c1 == c2);
    assert(k1 == k2 && a1 == a2);
    let (k3, c3, b3, a3) = choose|k3: T, c3: T, b3: T, a3: T| #[trigger]
        times_gives(beta2, v, k3) && #[trigger] complement_gives(beta2, c3)
            && #[trigger] times_gives(c3, g, b3) && #[trigger] times_gives(b3, g, a3)
            && plus_gives(k3, a3, p);
    let (k4, c4, b4, a4) = choose|k4: T, c4: T, b4: T, a4: T| #[trigger]
        times_gives(beta2, v, k4) && #[trigger] complement_gives(beta2, c4)
            && #[trigger] times_gives(c4, g, b4) && #[trigger] times_gives(b4, g, a4)
            && plus_gives(k4, a4, q);
    assert(c3 == c4);
    assert(k3 == k4 && b3 == b4);
    assert(a3 == a4);
}

/// The entry of a vector that a step makes has one result.
proof fn lemma_vector_entry_repeats<T: Real>(step: AdamStep<T>, value: T, m: T, v: T, r: T, s: T)
    requires
        one_result::<T>(),
        vector_entry_gives(step, value, m, v, r),
        vector_entry_gives(step, value, m, v, s),
    ensures
        r == s,
{
    let d1 = choose|d1: T| #[trigger] update_gives(step, m, v, d1) && minus_gives(value, d1, r);
    let d2 = choose|d2: T| #[trigger] update_gives(step, m, v, d2) && minus_gives(value, d2, s);
    let (m1, v1, a1, r1, b1) = choose|m1: T, v1: T, a1: T, r1: T, b1: T| #[trigger]
        over_gives(m, step.beta1_correction, m1) && #[trigger] over_gives(
            v,
            step.beta2_correction,
            v1,
        ) && #[trigger] times_gives(step.lr, m1, a1) && #[trigger] sqrt_gives(v1, r1)
            && #[trigger] plus_gives(r1, step.eps, b1) && over_gives(a1, b1, d1);
    let (m2, v2, a2, r2, b2) = choose|m2: T, v2: T, a2: T, r2: T, b2: T| #[trigger]
        over_gives(m, step.beta1_correction, m2) && #[trigger] over_gives(
            v,
            step.beta2_correction,
            v2,
        ) && #[trigger] times_gives(step.lr, m2, a2) && #[trigger] sqrt_gives(v2, r2)
            && #[trigger] plus_gives(r2, step.eps, b2) && over_gives(a2, b2, d2);
    assert(m1 == m2 && v1 == v2);
    assert(a1 == a2 && r1 == r2);
    assert(b1 == b2);
    assert(d1 == d2);
}

/// Two steps of the same vector that differ in nothing but the weight decay have equal results.
pub proof fn lemma_vector_steps_are_equal<T: Real>(
    s1: AdamStep<T>,
    s2: AdamStep<T>,
    before: Param1D<T>,
    p: Param1D<T>,
    q: Param1D<T>,
)
    requires
        one_result::<T>(),
        before.wf(),
        same_but_decay(s1, s2),
        vector_step_gives(s1, before, p),
        vector_step_gives(s2, before, q),
    ensures
        p.value@ == q.value@,
        p.m@ == q.m@,
        p.v@ == q.v@,
        p.grad@ == before.grad@,
        q.grad@ == before.grad@,
{
    lemma_vector_step_ignores_decay(s1, s2, before, p);
    assert forall|i: int| 0 <= i < before.value@.len() implies #[trigger] p.m@[i] == q.m@[i]
        && p.v@[i] == q.v@[i] && p.value@[i] == q.value@[i] by {
        assert(p.v@[i] == p.v@[i] && q.v@[i] == q.v@[i]);
        lemma_moments_repeat(
            s2.beta1,
            s2.beta2,
            before.m@[i],
            before.v@[i],
            before.grad@[i],
            p.m@[i],
            q.m@[i],
            p.v@[i],
            q.v@[i],
        );
        assert(vector_entry_gives(s2, before.value@[i], p.m@[i], p.v@[i], p.value@[i]));
        assert(vector_entry_gives(s2, before.value@[i], q.m@[i], q.v@[i], q.value@[i]));
        lemma_vector_entry_repeats(
            s2,
            before.value@[i],
            p.m@[i],
            p.v@[i],
            p.value@[i],
            q.value@[i],
        );
    }
    assert(p.m@ =~= q.m@);
    assert(p.v@ =~= q.v@);
    assert(p.value@ =~= q.value@);
}

/// The loss of a target has one result.
proof fn lemma_token_loss_repeats<T: Real>(p: T, r: T, s: T)
    requires
        one_result::<T>(),
        token_loss_gives(p, r),
        token_loss_gives(p, s),
    ensures
        r == s,
{
    let (a, b, c) = choose|a: T, b: T, c: T|
        decimal_gives(1, 12, a) && #[trigger] larger_gives(p, a, b) && #[trigger] ln_gives(b, c)
            && negate_gives(c, r);
    let (d, e, f) = choose|d: T, e: T, f: T|
        decimal_gives(1, 12, d) && #[trigger] larger_gives(p, d, e) && #[trigger] ln_gives(e, f)
            && negate_gives(f, s);
    assert(a == d);
    assert(b == e);
    assert(c == f);
}

/// The same logits and targets have the same loss.
proof fn lemma_cross_entropy_repeats<T: Real>(
    u: Tensor3<T>,
    v: Tensor3<T>,
    t1: TokenArray,
    t2: TokenArray,
    p: Tensor3<T>,
    q: Tensor3<T>,
    r: T,
    s: T,
    g: Tensor3<T>,
    h: Tensor3<T>,
)
    requires
        one_result::<T>(),
        u.wf(),
        v.wf(),
        u.same(v),
        forall|k: int|
            0 <= k < u.flat.rows ==> #[trigger] token_items(t1)[k] == token_items(t2)[k],
        forall|k: int|
            0 <= k < u.flat.rows ==> (#[trigger] token_items(t1)[k]) < u.flat.cols,
        cross_entropy_gives(u, t1, p, r, g),
        cross_entropy_gives(v, t2, q, s, h),
    ensures
        r == s,
{
    let n = choose|n: T| #[trigger]
        count_gives(u.flat.rows, n) && mean_loss_gives(p, t1, n, r);
    let m = choose|m: T| #[trigger]
        count_gives(v.flat.rows, m) && mean_loss_gives(q, t2, m, s);
    let (a, x) = choose|a: Seq<T>, x: T| #[trigger]
        token_losses_give(p, t1, a) && #[trigger] sum_gives(a, x) && over_gives(x, n, r);
    let (b, y) = choose|b: Seq<T>, y: T| #[trigger]
        token_losses_give(q, t2, b) && #[trigger] sum_gives(b, y) && over_gives(y, m, s);
    assert forall|k: int| 0 <= k < a.len() implies a[k] == b[k] by {
        let target = token_items(t1)[k] as int;
        assert(token_items(t2)[k] == token_items(t1)[k]);
        assert(token_items(t1)[k] < u.flat.cols);
        assert(u.flat.row(k) =~= v.flat.row(k));
        assert(softmax_gives(u.flat.row(k), p.flat.row(k)));
        assert(softmax_gives(v.flat.row(k), q.flat.row(k)));
        lemma_softmax_repeats(u.flat.row(k), p.flat.row(k), q.flat.row(k));
        assert(p.flat.at(k, target) == p.flat.row(k)[target]);
        assert(q.flat.at(k, target) == q.flat.row(k)[target]);
        assert(token_loss_gives(p.flat.at(k, target), a[k]));
        assert(token_loss_gives(q.flat.at(k, target), b[k]));
        lemma_token_loss_repeats(p.flat.at(k, target), a[k], b[k]);
    }
    assert(a =~= b);
    lemma_sum_repeats(a, x, y);
}

/// The targets of a table lie in the vocabulary, item by item.
proof fn lemma_targets_below(targets: TokenArray, bound: int, rows: int, k: int)
    requires
        targets.all_below(bound),
        rows == targets.rows() * targets.cols(),
        0 <= k < rows,
    ensures
        token_items(targets)[k] < bound,
{
    let (n, m) = (targets.rows(), targets.cols());
    assert(m > 0) by (nonlinear_arith)
        requires
            0 < n * m,
            n >= 0,
            m >= 0,
    ;
    lemma_split_index(k, n, m);
    assert(targets.at(k / m, k % m) < bound);
}

/// Outside training, the same tokens and targets have the same loss.
pub proof fn lemma_loss_repeats<T: Real>(
    model: GptLanguageModel<T>,
    idx: TokenArray,
    idy: TokenArray,
    t1: TokenArray,
    t2: TokenArray,
    r: T,
    s: T,
)
    requires
        one_result::<T>(),
        model.wf(),
        model.takes(idx),
        targets_fit(model, idx, t1),
        same_tokens(idx, idy),
        same_tokens(t1, t2),
        loss_gives(model, idx, t1, r),
        loss_gives(model, idy, t2, s),
    ensures
        r == s,
{
    let (u, c1, p1, g1, rng1) = choose|
        u: Tensor3<T>,
        c1: GptCache<T>,
        p1: Tensor3<T>,
        g1: Tensor3<T>,
        rng1: SmallRng,
    |
        loss_steps_give(model, idx, t1, r, u, c1, p1, g1, rng1);
    let (v, c2, p2, g2, rng2) = choose|
        v: Tensor3<T>,
        c2: GptCache<T>,
        p2: Tensor3<T>,
        g2: Tensor3<T>,
        rng2: SmallRng,
    |
        loss_steps_give(model, idy, t2, s, v, c2, p2, g2, rng2);
    lemma_logits_repeat(model, idx, idy, u, v, c1, c2, (rng1, rng1), (rng2, rng2));
    lemma_logits_shape(model, idx, false, u, c1, rng1, rng1);
    lemma_logits_shape(model, idy, false, v, c2, rng2, rng2);
    assert forall|k: int| 0 <= k < u.flat.rows implies (#[trigger] token_items(t1)[k])
        < u.flat.cols by {
        lemma_targets_below(t1, u.flat.cols as int, u.flat.rows as int, k);
    }
    assert forall|k: int| 0 <= k < u.flat.rows implies #[trigger] token_items(t1)[k]
        == token_items(t2)[k] by {
        lemma_same_items(t1, t2, k);
    }
    lemma_cross_entropy_repeats(u, v, t1, t2, p1, p2, r, s, g1, g2);
}

/// With a dropout rate of zero, the loss that a step of training returns is the loss of the model
/// before the step; the optimizer moves on by one step.
pub proof fn lemma_training_returns_loss_before<T: Real>(
    before: GptLanguageModel<T>,
    optimizer_before: AdamW<T>,
    idx: TokenArray,
    targets: TokenArray,
    loss: T,
    after: GptLanguageModel<T>,
    optimizer_after: AdamW<T>,
    rng_before: SmallRng,
    rng_after: SmallRng,
    taken: T,
)
    requires
        one_result::<T>(),
        before.wf(),
        before.takes(idx),
        targets_fit(before, idx, targets),
        surely_zero(before.config.dropout),
        train_gives(
            before,
            optimizer_before,
            idx,
            targets,
            loss,
            after,
            optimizer_after,
            rng_before,
            rng_after,
        ),
        loss_gives(before, idx, targets, taken),
    ensures
        loss == taken,
        times_gives(
            optimizer_before.beta1_pow,
            optimizer_before.beta1,
            optimizer_after.beta1_pow,
        ),
        times_gives(
            optimizer_before.beta2_pow,
            optimizer_before.beta2,
            optimizer_after.beta2_pow,
        ),
{
    let steps = choose|steps: TrainSteps<T>|
        train_steps_give(
            before,
            optimizer_before,
            idx,
            targets,
            loss,
            after,
            optimizer_after,
            rng_before,
            rng_after,
            steps,
        );
    let (u, c) = (steps.logits, steps.cache);
    lemma_zero_rate_training_is_evaluation(
        steps.cleared,
        idx,
        true,
        u,
        c,
        rng_before,
        rng_after,
    );
    lemma_clearing_changes_grads_only(before, steps.cleared);
    assert(model_same_but_grads(before, steps.cleared)) by {
        assert forall|i: int| 0 <= i < before.blocks@.len() implies block_same_but_grads(
            #[trigger] before.blocks@[i],
            steps.cleared.blocks@[i],
        ) by {
            assert(block_same_but_grads(steps.cleared.blocks@[i], before.blocks@[i]));
        }
    }
    lemma_forward_ignores_grads(
        steps.cleared,
        before,
        idx,
        false,
        u,
        c,
        rng_before,
        rng_after,
    );
    assert(loss_steps_give(
        before,
        idx,
        targets,
        loss,
        u,
        c,
        steps.probs,
        steps.grad,
        rng_before,
    ));
    lemma_loss_repeats(before, idx, idx, targets, targets, loss, taken);
}

/// From data with one window, every batch is the same.
proof fn lemma_one_window_batch(
    data: Seq<usize>,
    in1: TokenArray,
    in2: TokenArray,
    t1: TokenArray,
    t2: TokenArray,
)
    requires
        data.len() == BLOCK_SIZE + 1,
        is_batch(data, BATCH_SIZE as int, BLOCK_SIZE as int, in1, t1),
        is_batch(data, BATCH_SIZE as int, BLOCK_SIZE as int, in2, t2),
    ensures
        same_tokens(in1, in2),
        same_tokens(t1, t2),
{
    let size = BLOCK_SIZE as int;
    let a = choose|a: Seq<usize>|
        a.len() == BATCH_SIZE && starts_fit(a, size, data.len() as int) && #[trigger] batch_gives(
            data,
            a,
            size,
            in1,
            t1,
        );
    let b = choose|b: Seq<usize>|
        b.len() == BATCH_SIZE && starts_fit(b, size, data.len() as int) && #[trigger] batch_gives(
            data,
            b,
            size,
            in2,
            t2,
        );
    assert forall|r: int| 0 <= r < BATCH_SIZE implies a[r] == 0 && #[trigger] b[r] == 0 by {
        assert(a[r] + size < data.len());
    }
    assert forall|r: int, c: int|
        #![trigger in1.at(r, c)]
        #![trigger in2.at(r, c)]
        0 <= r < BATCH_SIZE && 0 <= c < size implies in1.at(r, c) == in2.at(r, c) by {
        assert(b[r] == 0);
        assert(in1.at(r, c) == data[a[r] + c]);
        assert(in2.at(r, c) == data[b[r] + c]);
    }
    assert forall|r: int, c: int|
        #![trigger t1.at(r, c)]
        #![trigger t2.at(r, c)]
        0 <= r < BATCH_SIZE && 0 <= c < size implies t1.at(r, c) == t2.at(r, c) by {
        assert(b[r] == 0);
        assert(t1.at(r, c) == data[a[r] + c + 1]);
        assert(t2.at(r, c) == data[b[r] + c + 1]);
    }
}

/// From data with one window, every batch has the same loss.
proof fn lemma_one_window_loss<T: Real>(
    model: GptLanguageModel<T>,
    data: Seq<usize>,
    input: TokenArray,
    targets: TokenArray,
    taken: T,
    loss: T,
    before: SmallRng,
    after: SmallRng,
)
    requires
        one_result::<T>(),
        model.wf(),
        model.config.n_embd > 0,
        model.config.block_size >= BLOCK_SIZE,
        data_fits(model, data),
        data.len() == BLOCK_SIZE + 1,
        is_batch(data, BATCH_SIZE as int, BLOCK_SIZE as int, input, targets),
        loss_gives(model, input, targets, taken),
        batch_loss_gives(model, data, loss, before, after),
    ensures
        loss == taken,
{
    let (size, block) = (BATCH_SIZE as int, BLOCK_SIZE as int);
    let (x, t) = choose|x: TokenArray, t: TokenArray| #[trigger]
        batch_drawn(data, size, block, x, t, before, after) && loss_gives(model, x, t, loss);
    lemma_drawn_batch_is_batch(data, size, block, x, t, before, after);
    lemma_one_window_batch(data, input, x, targets, t);
    lemma_batch_below(data, size, block, input, targets, model.config.vocab_size as int);
    lemma_loss_repeats(model, input, x, targets, t, taken, loss);
}

/// The losses of all batches from data with one window are the same.
proof fn lemma_one_window_losses<T: Real>(
    model: GptLanguageModel<T>,
    d1: Seq<usize>,
    d2: Seq<usize>,
    x1: TokenArray,
    y1: TokenArray,
    x2: TokenArray,
    y2: TokenArray,
    l1: T,
    l2: T,
    a: Seq<T>,
    b: Seq<T>,
    before: SmallRng,
    after: SmallRng,
    i: int,
)
    requires
        one_result::<T>(),
        model.wf(),
        model.config.n_embd > 0,
        model.config.block_size >= BLOCK_SIZE,
        data_fits(model, d1),
        data_fits(model, d2),
        d1.len() == BLOCK_SIZE + 1,
        d2.len() == BLOCK_SIZE + 1,
        is_batch(d1, BATCH_SIZE as int, BLOCK_SIZE as int, x1, y1),
        is_batch(d2, BATCH_SIZE as int, BLOCK_SIZE as int, x2, y2),
        loss_gives(model, x1, y1, l1),
        loss_gives(model, x2, y2, l2),
        a.len() == b.len(),
        batch_losses_give(model, d1, d2, a, b, before, after),
        0 <= i < a.len(),
    ensures
        a[i] == l1,
        b[i] == l2,
    decreases a.len(),
{
    let (f, g) = (a.drop_last(), b.drop_last());
    let (r1, r2) = choose|r1: SmallRng, r2: SmallRng|
        batch_losses_give(model, d1, d2, f, g, before, r1) && #[trigger] batch_loss_gives(
            model,
            d1,
            a.last(),
            r1,
            r2,
        ) && #[trigger] batch_loss_gives(model, d2, b.last(), r2, after);
    if i < a.len() - 1 {
        lemma_one_window_losses(
            model,
            d1,
            d2,
            x1,
            y1,
            x2,
            y2,
            l1,
            l2,
            f,
            g,
            before,
            r1,
            i,
        );
    } else {
        lemma_one_window_loss(model, d1, x1, y1, l1, a.last(), r1, r2);
        lemma_one_window_loss(model, d2, x2, y2, l2, b.last(), r2, after);
    }
}

/// The mean of equal numbers reads as each of them.
proof fn lemma_mean_of_equals<T: Real>(read: Reading<T>, items: Seq<T>, x: T, mean: T)
    requires
        is_exact(read),
        (read.finite)(x),
        0 < items.len() <= usize::MAX,
        forall|i: int| 0 <= i < items.len() ==> #[trigger] items[i] == x,
        mean_gives(items, mean),
    ensures
        (read.finite)(mean),
        (read.value)(mean) == (read.value)(x),
{
    let (total, count) = choose|total: T, count: T| #[trigger]
        sum_gives(items, total) && count_gives(items.len() as usize, count)
            && #[trigger] over_gives(total, count, mean);
    lemma_sum_exact(read, items, total);
    lemma_total_of_same(read, items, (read.value)(x));
    let (n, v) = (items.len() as real, (read.value)(x));
    assert((read.value)(count) == n);
    assert((n * v) / n == v) by (nonlinear_arith)
        requires
            n > 0 as real,
    ;
}

/// Where both texts allow only one window, each estimate reads as the loss of a batch of that
/// window.
pub proof fn lemma_one_window_estimate<T: Real>(
    read: Reading<T>,
    model: GptLanguageModel<T>,
    train_data: Seq<usize>,
    val_data: Seq<usize>,
    train_input: TokenArray,
    train_targets: TokenArray,
    val_input: TokenArray,
    val_targets: TokenArray,
    train_loss: T,
    val_loss: T,
    losses: (T, T),
    before: SmallRng,
    after: SmallRng,
)
    requires
        one_result::<T>(),
        is_exact(read),
        model.wf(),
        model.config.n_embd > 0,
        model.config.block_size >= BLOCK_SIZE,
        data_fits(model, train_data),
        data_fits(model, val_data),
        train_data.len() == BLOCK_SIZE + 1,
        val_data.len() == BLOCK_SIZE + 1,
        is_batch(
            train_data,
            BATCH_SIZE as int,
            BLOCK_SIZE as int,
            train_input,
            train_targets,
        ),
        is_batch(val_data, BATCH_SIZE as int, BLOCK_SIZE as int, val_input, val_targets),
        loss_gives(model, train_input, train_targets, train_loss),
        loss_gives(model, val_input, val_targets, val_loss),
        (read.finite)(train_loss),
        (read.finite)(val_loss),
        estimate_gives(model, train_data, val_data, losses, before, after),
    ensures
        (read.value)(losses.0) == (read.value)(train_loss),
        (read.value)(losses.1) == (read.value)(val_loss),
{
    let (a, b) = choose|a: Seq<T>, b: Seq<T>|
        a.len() == EVAL_ITERS && b.len() == EVAL_ITERS && #[trigger] batch_losses_give(
            model,
            train_data,
            val_data,
            a,
            b,
            before,
            after,
        ) && mean_gives(a, losses.0) && mean_gives(b, losses.1);
    assert forall|i: int| 0 <= i < a.len() implies #[trigger] a[i] == train_loss && b[i]
        == val_loss by {
        lemma_one_window_losses(
            model,
            train_data,
            val_data,
            train_input,
            train_targets,
            val_input,
            val_targets,
            train_loss,
            val_loss,
            a,
            b,
            before,
            after,
            i,
        );
    }
    assert forall|i: int| 0 <= i < b.len() implies #[trigger] b[i] == val_loss by {
        assert(a[i] == train_loss);
    }
    lemma_mean_of_equals(read, a, train_loss, losses.0);
    lemma_mean_of_equals(read, b, val_loss, losses.1);
}

} // verus!
