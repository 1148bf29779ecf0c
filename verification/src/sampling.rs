//! Which windows of the data batches are made of: those that start at numbers drawn one after the
//! other out of all places where a window and the token behind it fit.

use crate::batch::{batch_drawn, batch_from_starts, batch_gives, get_batch, starts_drawn};
use crate::exact::{all_finite, is_exact, lemma_sum_exact, total_of, Reading};
use crate::grid::TokenArray;
use crate::model::GptLanguageModel;
use crate::optim::AdamW;
use crate::random::{lemma_random_up_to_in_range, random_up_to_gives};
use crate::reduce::{mean_gives, sum_gives};
use crate::scalar::{count_gives, over_gives, Real};
use crate::training::{
    batch_loss_gives, batch_losses_give, estimate_loss, loss_gives, train_gives, train_random_batch,
    BATCH_SIZE, BLOCK_SIZE, EVAL_ITERS,
};
use rand::rngs::SmallRng;
use vstd::prelude::*;

verus! {

/// Number `b` was drawn out of `0` to `max` from generator `b`, which left the next generator.
pub open spec fn start_drawn(max: int, starts: Seq<usize>, gens: Seq<SmallRng>, b: int) -> bool {
    &&& 0 <= starts[b] <= max
    &&& random_up_to_gives(max as usize, gens[b], starts[b], gens[b + 1])
}

/// Row `b` of `input` is the window of `width` tokens of `data` from `starts[b]` on, and row `b` of
/// `targets` holds the tokens that follow them. The `rows` starts were drawn one after the other
/// out of all the numbers from zero to `data.len() - width - 1`, from the first of the generators
/// to the last.
pub open spec fn random_windows(
    data: Seq<usize>,
    rows: int,
    width: int,
    starts: Seq<usize>,
    gens: Seq<SmallRng>,
    input: TokenArray,
    targets: TokenArray,
) -> bool {
    &&& starts.len() == rows
    &&& gens.len() == rows + 1
    &&& forall|b: int|
        0 <= b < rows ==> #[trigger] start_drawn(data.len() - width - 1, starts, gens, b)
    &&& input.rows() == rows && input.cols() == width
    &&& targets.rows() == rows && targets.cols() == width
    &&& forall|b: int, t: int|
        0 <= b < rows && 0 <= t < width ==> #[trigger] input.at(b, t) == data[starts[b] + t]
    &&& forall|b: int, t: int|
        0 <= b < rows && 0 <= t < width ==> #[trigger] targets.at(b, t) == data[starts[b] + t + 1]
}

/// The generators between draws.
proof fn lemma_start_generators(
    max: usize,
    starts: Seq<usize>,
    before: SmallRng,
    after: SmallRng,
) -> (gens: Seq<SmallRng>)
    requires
        starts_drawn(max, starts, before, after),
    ensures
        gens.len() == starts.len() + 1,
        gens[0] == before,
        gens[starts.len() as int] == after,
        forall|b: int|
            0 <= b < starts.len() ==> #[trigger] start_drawn(max as int, starts, gens, b),
    decreases starts.len(),
{
    if starts.len() == 0 {
        seq![before]
    } else {
        let front = starts.drop_last();
        let mid = choose|mid: SmallRng|
            starts_drawn(max, front, before, mid) && #[trigger] random_up_to_gives(
                max,
                mid,
                starts.last(),
                after,
            );
        let short = lemma_start_generators(max, front, before, mid);
        let gens = short.push(after);
        lemma_random_up_to_in_range(max, mid, starts.last(), after);
        assert forall|b: int| 0 <= b < starts.len() implies #[trigger] start_drawn(
            max as int,
            starts,
            gens,
            b,
        ) by {
            if b < starts.len() - 1 {
                assert(start_drawn(max as int, front, short, b));
                assert(starts[b] == front[b]);
                assert(gens[b] == short[b] && gens[b + 1] == short[b + 1]);
            }
        }
        gens
    }
}

/// A batch that was drawn is one of random windows.
proof fn lemma_drawn_batch_is_random(
    data: Seq<usize>,
    rows: int,
    width: int,
    input: TokenArray,
    targets: TokenArray,
    before: SmallRng,
    after: SmallRng,
) -> (found: (Seq<usize>, Seq<SmallRng>))
    requires
        0 <= width < data.len() <= usize::MAX,
        batch_drawn(data, rows, width, input, targets, before, after),
    ensures
        random_windows(data, rows, width, found.0, found.1, input, targets),
        found.1[0] == before,
        found.1[rows] == after,
{
    let max = (data.len() - width - 1) as usize;
    let starts = choose|starts: Seq<usize>|
        starts.len() == rows && starts_drawn(max, starts, before, after)
            && #[trigger] batch_gives(data, starts, width, input, targets);
    let gens = lemma_start_generators(max, starts, before, after);
    assert forall|b: int| 0 <= b < rows implies #[trigger] start_drawn(
        data.len() - width - 1,
        starts,
        gens,
        b,
    ) by {
        assert(start_drawn(max as int, starts, gens, b));
    }
    (starts, gens)
}

/// A batch is made of windows of all of the data: their starts are drawn one after the other out
/// of all places where a window and the token behind it fit.
pub proof fn lemma_batch_is_of_all_windows(
    data: &[usize],
    rows: usize,
    width: usize,
    rng: &mut SmallRng,
    batch: (TokenArray, TokenArray),
)
    requires
        width < data@.len() <= usize::MAX,
        call_ensures(get_batch, (data, rows, width, rng), batch),
    ensures
        exists|starts: Seq<usize>, gens: Seq<SmallRng>| #[trigger]
            random_windows(
                data@,
                rows as int,
                width as int,
                starts,
                gens,
                batch.0,
                batch.1,
            ) && gens[0] == *old(rng) && gens[rows as int] == *final(rng),
{
    let found = lemma_drawn_batch_is_random(
        data@,
        rows as int,
        width as int,
        batch.0,
        batch.1,
        *old(rng),
        *final(rng),
    );
}

/// A batch from given starts holds their windows and, as targets, the tokens that follow.
pub proof fn lemma_batch_from_starts_value(
    data: &[usize],
    starts: &Vec<usize>,
    width: usize,
    batch: (TokenArray, TokenArray),
    b: int,
    t: int,
)
    requires
        call_ensures(batch_from_starts, (data, starts, width), batch),
        0 <= b < starts@.len(),
        0 <= t < width,
    ensures
        batch.0.rows() == starts@.len() && batch.0.cols() == width,
        batch.1.rows() == starts@.len() && batch.1.cols() == width,
        batch.0.at(b, t) == data@[starts@[b] + t],
        batch.1.at(b, t) == data@[starts@[b] + t + 1],
{
}

/// A step of training on random data is a step on a batch of 64 windows of 256 tokens of all of
/// the data, each with the tokens that follow as targets. First the starts are drawn, out of all
/// places where a window and the token behind it fit; the generator that they leave is the one
/// that the step draws from.
pub proof fn lemma_training_is_on_all_windows<T: Real>(
    model: &mut GptLanguageModel<T>,
    data: &[usize],
    optimizer: &mut AdamW<T>,
    rng: &mut SmallRng,
    loss: T,
)
    requires
        256 < data@.len() <= usize::MAX,
        call_ensures(train_random_batch::<T>, (model, data, optimizer, rng), Ok(loss)),
    ensures
        exists|
            starts: Seq<usize>,
            gens: Seq<SmallRng>,
            input: TokenArray,
            targets: TokenArray,
        | #[trigger]
            random_windows(data@, 64, 256, starts, gens, input, targets) && gens[0] == *old(rng)
                && train_gives(
                *old(model),
                *old(optimizer),
                input,
                targets,
                loss,
                *final(model),
                *final(optimizer),
                gens[64],
                *final(rng),
            ),
{
    let (input, targets, mid) = choose|input: TokenArray, targets: TokenArray, mid: SmallRng|
        #[trigger] batch_drawn(
            data@,
            BATCH_SIZE as int,
            BLOCK_SIZE as int,
            input,
            targets,
            *old(rng),
            mid,
        ) && train_gives(
            *old(model),
            *old(optimizer),
            input,
            targets,
            loss,
            *final(model),
            *final(optimizer),
            mid,
            *final(rng),
        );
    let found = lemma_drawn_batch_is_random(
        data@,
        BATCH_SIZE as int,
        BLOCK_SIZE as int,
        input,
        targets,
        *old(rng),
        mid,
    );
    assert(random_windows(data@, 64, 256, found.0, found.1, input, targets));
}

/// `loss` is the loss, with nothing dropped, of 64 windows of 256 tokens of all of `data`, whose
/// starts were drawn from the generator `before`, which left the generator `after`.
pub open spec fn is_loss_of_random_windows<T: Real>(
    model: GptLanguageModel<T>,
    data: Seq<usize>,
    loss: T,
    before: SmallRng,
    after: SmallRng,
) -> bool {
    exists|starts: Seq<usize>, gens: Seq<SmallRng>, input: TokenArray, targets: TokenArray|
        #[trigger] random_windows(data, 64, 256, starts, gens, input, targets) && gens[0] == before
            && gens[64] == after && loss_gives(model, input, targets, loss)
}

proof fn lemma_batch_loss_is_of_windows<T: Real>(
    model: GptLanguageModel<T>,
    data: Seq<usize>,
    loss: T,
    before: SmallRng,
    after: SmallRng,
)
    requires
        256 < data.len() <= usize::MAX,
        batch_loss_gives(model, data, loss, before, after),
    ensures
        is_loss_of_random_windows(model, data, loss, before, after),
{
    let (input, targets) = choose|input: TokenArray, targets: TokenArray| #[trigger]
        batch_drawn(
            data,
            BATCH_SIZE as int,
            BLOCK_SIZE as int,
            input,
            targets,
            before,
            after,
        ) && loss_gives(model, input, targets, loss);
    let found = lemma_drawn_batch_is_random(
        data,
        BATCH_SIZE as int,
        BLOCK_SIZE as int,
        input,
        targets,
        before,
        after,
    );
    assert(random_windows(data, 64, 256, found.0, found.1, input, targets));
}

/// Losses `i` are those of random windows of the two texts: first of the training data, drawn from
/// generator `2 * i`, then of the validation data, drawn from what that left.
pub open spec fn losses_at<T: Real>(
    model: GptLanguageModel<T>,
    train_data: Seq<usize>,
    val_data: Seq<usize>,
    train_losses: Seq<T>,
    val_losses: Seq<T>,
    gens: Seq<SmallRng>,
    i: int,
) -> bool {
    &&& is_loss_of_random_windows(
        model,
        train_data,
        train_losses[i],
        gens[2 * i],
        gens[2 * i + 1],
    )
    &&& is_loss_of_random_windows(
        model,
        val_data,
        val_losses[i],
        gens[2 * i + 1],
        gens[2 * i + 2],
    )
}

/// The `n` losses of each text are those of random windows of that text, drawn in turn.
pub open spec fn are_losses_of_random_windows<T: Real>(
    model: GptLanguageModel<T>,
    train_data: Seq<usize>,
    val_data: Seq<usize>,
    train_losses: Seq<T>,
    val_losses: Seq<T>,
    gens: Seq<SmallRng>,
    n: int,
) -> bool {
    &&& train_losses.len() == n
    &&& val_losses.len() == n
    &&& gens.len() == 2 * n + 1
    &&& forall|i: int|
        0 <= i < n ==> #[trigger] losses_at(
            model,
            train_data,
            val_data,
            train_losses,
            val_losses,
            gens,
            i,
        )
}

proof fn lemma_losses_are_of_windows<T: Real>(
    model: GptLanguageModel<T>,
    train_data: Seq<usize>,
    val_data: Seq<usize>,
    train_losses: Seq<T>,
    val_losses: Seq<T>,
    before: SmallRng,
    after: SmallRng,
) -> (gens: Seq<SmallRng>)
    requires
        256 < train_data.len() <= usize::MAX,
        256 < val_data.len() <= usize::MAX,
        train_losses.len() == val_losses.len(),
        batch_losses_give(
            model,
            train_data,
            val_data,
            train_losses,
            val_losses,
            before,
            after,
        ),
    ensures
        gens.len() == 2 * train_losses.len() + 1,
        gens[0] == before,
        gens[2 * train_losses.len() as int] == after,
        forall|i: int|
            0 <= i < train_losses.len() ==> #[trigger] losses_at(
                model,
                train_data,
                val_data,
                train_losses,
                val_losses,
                gens,
                i,
            ),
    decreases train_losses.len(),
{
    if train_losses.len() == 0 {
        seq![before]
    } else {
        let (a, b) = (train_losses.drop_last(), val_losses.drop_last());
        let (first, second) = choose|first: SmallRng, second: SmallRng|
            batch_losses_give(model, train_data, val_data, a, b, before, first)
                && #[trigger] batch_loss_gives(
                model,
                train_data,
                train_losses.last(),
                first,
                second,
            ) && #[trigger] batch_loss_gives(model, val_data, val_losses.last(), second, after);
        let short = lemma_losses_are_of_windows(
            model,
            train_data,
            val_data,
            a,
            b,
            before,
            first,
        );
        let gens = short.push(second).push(after);
        lemma_batch_loss_is_of_windows(model, train_data, train_losses.last(), first, second);
        lemma_batch_loss_is_of_windows(model, val_data, val_losses.last(), second, after);
        assert forall|i: int| 0 <= i < train_losses.len() implies #[trigger] losses_at(
            model,
            train_data,
            val_data,
            train_losses,
            val_losses,
            gens,
            i,
        ) by {
            if i < train_losses.len() - 1 {
                assert(losses_at(model, train_data, val_data, a, b, short, i));
                assert(train_losses[i] == a[i] && val_losses[i] == b[i]);
                assert(gens[2 * i] == short[2 * i]);
                assert(gens[2 * i + 1] == short[2 * i + 1]);
                assert(gens[2 * i + 2] == short[2 * i + 2]);
            }
        }
        gens
    }
}

/// An estimate is the mean of 200 losses for each of the two texts. Every one of them is the loss,
/// with nothing dropped, of 64 windows of 256 tokens of all of that text; the starts are drawn in
/// turn for the training data and for the validation data, from the first generator to the last.
pub proof fn lemma_estimate_is_over_all_windows<T: Real>(
    read: Reading<T>,
    model: &GptLanguageModel<T>,
    train_data: &[usize],
    val_data: &[usize],
    rng: &mut SmallRng,
    losses: (T, T),
)
    requires
        is_exact(read),
        256 < train_data@.len() <= usize::MAX,
        256 < val_data@.len() <= usize::MAX,
        call_ensures(estimate_loss::<T>, (model, train_data, val_data, rng), losses),
    ensures
        exists|train_losses: Seq<T>, val_losses: Seq<T>, gens: Seq<SmallRng>|
            {
                &&& #[trigger] are_losses_of_random_windows(
                    *model,
                    train_data@,
                    val_data@,
                    train_losses,
                    val_losses,
                    gens,
                    200,
                )
                &&& gens[0] == *old(rng)
                &&& gens[400] == *final(rng)
                &&& all_finite(read, train_losses) ==> (read.value)(losses.0) == total_of(
                    read,
                    train_losses,
                ) / 200 as real
                &&& all_finite(read, val_losses) ==> (read.value)(losses.1) == total_of(
                    read,
                    val_losses,
                ) / 200 as real
            },
{
    let (a, b) = choose|a: Seq<T>, b: Seq<T>|
        a.len() == EVAL_ITERS && b.len() == EVAL_ITERS && #[trigger] batch_losses_give(
            *model,
            train_data@,
            val_data@,
            a,
            b,
            *old(rng),
            *final(rng),
        ) && mean_gives(a, losses.0) && mean_gives(b, losses.1);
    let gens = lemma_losses_are_of_windows(
        *model,
        train_data@,
        val_data@,
        a,
        b,
        *old(rng),
        *final(rng),
    );
    if all_finite(read, a) {
        lemma_mean_is_total(read, a, losses.0);
    }
    if all_finite(read, b) {
        lemma_mean_is_total(read, b, losses.1);
    }
    assert(are_losses_of_random_windows(*model, train_data@, val_data@, a, b, gens, 200));
}

/// What a mean reads as.
pub proof fn lemma_mean_is_total<T: Real>(read: Reading<T>, items: Seq<T>, mean: T)
    requires
        is_exact(read),
        0 < items.len() <= usize::MAX,
        all_finite(read, items),
        mean_gives(items, mean),
    ensures
        (read.finite)(mean),
        (read.value)(mean) == total_of(read, items) / items.len() as real,
{
    let (total, count) = choose|total: T, count: T| #[trigger]
        sum_gives(items, total) && count_gives(items.len() as usize, count)
            && #[trigger] over_gives(total, count, mean);
    lemma_sum_exact(read, items, total);
}

} // verus!
