//! The settings of training, in numbers.

use crate::exact::{is_exact, ten_to, Reading};
use crate::model::GptConfig;
use crate::optim::AdamW;
use crate::scalar::{decimal_gives, Real};
use crate::stepping::optimizer_ready;
use crate::training::{evaluates_at, split_data, training_config, training_optimizer};
use vstd::prelude::*;

verus! {

/// What decimals read as.
proof fn lemma_decimal_value<T: Real>(read: Reading<T>, digits: u32, places: u32, r: T, x: real)
    requires
        is_exact(read),
        decimal_gives(digits, places, r),
        x * ten_to(places as nat) == digits as real,
        ten_to(places as nat) > 0 as real,
    ensures
        (read.finite)(r),
        (read.value)(r) == x,
{
    let (y, t) = ((read.value)(r), ten_to(places as nat));
    assert(y == x) by (nonlinear_arith)
        requires
            y * t == x * t,
            t > 0 as real,
    ;
}

/// The model that is trained: rows of 128 numbers for up to 256 tokens, two blocks of four heads,
/// and a fifth dropped.
pub proof fn lemma_training_config_value<T: Real>(
    read: Reading<T>,
    vocab_size: usize,
    config: GptConfig<T>,
)
    requires
        is_exact(read),
        call_ensures(training_config::<T>, (vocab_size,), config),
    ensures
        config.vocab_size == vocab_size,
        config.block_size == 256,
        config.n_embd == 128,
        config.n_head == 4,
        config.n_layer == 2,
        (read.finite)(config.dropout),
        (read.value)(config.dropout) == 1 as real / 5 as real,
{
    reveal_with_fuel(ten_to, 2);
    assert(ten_to(1) == 10 as real);
    lemma_decimal_value(read, 2, 1, config.dropout, 1 as real / 5 as real);
}

/// The optimizer that trains: a rate of three ten-thousandths, a decay of a hundredth, factors of
/// nine tenths and 999 thousandths, and powers of one.
pub proof fn lemma_training_optimizer_value<T: Real>(read: Reading<T>, optimizer: AdamW<T>)
    requires
        is_exact(read),
        call_ensures(training_optimizer::<T>, (), optimizer),
    ensures
        (read.finite)(optimizer.lr),
        (read.value)(optimizer.lr) == 3 as real / 10_000 as real,
        (read.finite)(optimizer.weight_decay),
        (read.value)(optimizer.weight_decay) == 1 as real / 100 as real,
        (read.finite)(optimizer.beta1),
        (read.value)(optimizer.beta1) == 9 as real / 10 as real,
        (read.finite)(optimizer.beta2),
        (read.value)(optimizer.beta2) == 999 as real / 1000 as real,
        (read.value)(optimizer.beta1_pow) == 1 as real,
        (read.value)(optimizer.beta2_pow) == 1 as real,
        (read.value)(optimizer.eps) == 1 as real / 100_000_000 as real,
        optimizer_ready(read, optimizer),
{
    reveal_with_fuel(ten_to, 9);
    assert(ten_to(1) == 10 as real && ten_to(2) == 100 as real && ten_to(3) == 1000 as real);
    assert(ten_to(4) == 10_000 as real && ten_to(8) == 100_000_000 as real);
    lemma_decimal_value(read, 3, 4, optimizer.lr, 3 as real / 10_000 as real);
    lemma_decimal_value(read, 1, 2, optimizer.weight_decay, 1 as real / 100 as real);
    lemma_decimal_value(read, 9, 1, optimizer.beta1, 9 as real / 10 as real);
    lemma_decimal_value(read, 999, 3, optimizer.beta2, 999 as real / 1000 as real);
    lemma_decimal_value(read, 1, 8, optimizer.eps, 1 as real / 100_000_000 as real);
}

/// Of the 2000 steps of training, the loss is estimated before the first, before those after 500,
/// 1000 and 1500 steps, and before the last.
pub proof fn lemma_when_the_loss_is_estimated(iter: usize, evaluates: bool)
    requires
        call_ensures(evaluates_at, (iter,), evaluates),
        iter < 2000,
    ensures
        evaluates <==> iter == 0 || iter == 500 || iter == 1000 || iter == 1500 || iter == 1999,
{
}

/// The data is split into what is trained on and what is not: the first nine tenths, rounded down,
/// and the rest, both in order.
pub proof fn lemma_split_value(data: &[usize], parts: (&[usize], &[usize]), i: int)
    requires
        call_ensures(split_data, (data,), parts),
    ensures
        10 * parts.0@.len() <= 9 * data@.len(),
        9 * data@.len() < 10 * parts.0@.len() + 10,
        parts.0@.len() + parts.1@.len() == data@.len(),
        0 <= i < parts.0@.len() ==> parts.0@[i] == data@[i],
        0 <= i < parts.1@.len() ==> parts.1@[i] == data@[parts.0@.len() + i],
{
    let whole = parts.0@ + parts.1@;
    assert(whole == data@);
    assert(whole.len() == parts.0@.len() + parts.1@.len());
    if 0 <= i < parts.0@.len() {
        assert(whole[i] == parts.0@[i]);
    }
    if 0 <= i < parts.1@.len() {
        assert(whole[parts.0@.len() + i] == parts.1@[i]);
    }
}

} // verus!
