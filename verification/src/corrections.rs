//! The corrections of the optimizer, where the number type computes exactly.

use crate::exact::{is_exact, ten_to, Reading};
use crate::optim::{
    fresh_optimizer, lemma_powers_after_steps, next_step_gives, power_gives, steps_give, AdamStep,
    AdamW,
};
use crate::scalar::{decimal_gives, minus_gives, one_gives, times_gives, Real};
use vstd::prelude::*;

verus! {

/// `x` to the power `n`.
pub open spec fn power_of(x: real, n: nat) -> real
    decreases n,
{
    if n == 0 {
        1 as real
    } else {
        power_of(x, (n - 1) as nat) * x
    }
}

/// A power that was multiplied up reads as the power.
proof fn lemma_power_exact<T: Real>(read: Reading<T>, base: T, n: nat, r: T)
    requires
        is_exact(read),
        (read.finite)(base),
        power_gives(base, n, r),
    ensures
        (read.finite)(r),
        (read.value)(r) == power_of((read.value)(base), n),
    decreases n,
{
    if n > 0 {
        let prev = choose|prev: T|
            power_gives(base, (n - 1) as nat, prev) && #[trigger] times_gives(prev, base, r);
        lemma_power_exact(read, base, (n - 1) as nat, prev);
    }
}

/// The powers of a number from zero to below one stay there from the first on, and never grow.
proof fn lemma_powers_shrink(x: real, n: nat)
    requires
        0 as real <= x,
        x < 1 as real,
    ensures
        0 as real <= power_of(x, n) <= 1 as real,
        0 as real <= power_of(x, n + 1),
        power_of(x, n + 1) <= x,
        power_of(x, n + 1) <= power_of(x, n),
    decreases n,
{
    if n > 0 {
        lemma_powers_shrink(x, (n - 1) as nat);
        assert(((n - 1) as nat) + 1 == n);
    }
    let p = power_of(x, n);
    assert(power_of(x, n + 1) == p * x);
    assert(p * x <= x && p * x <= p && p * x >= 0 as real) by (nonlinear_arith)
        requires
            0 as real <= x,
            x < 1 as real,
            0 as real <= p,
            p <= 1 as real,
    ;
}

/// Both corrections of a step.
pub open spec fn corrections_read<T>(read: Reading<T>, step: AdamStep<T>, c1: real, c2: real) -> bool {
    (read.value)(step.beta1_correction) == c1 && (read.value)(step.beta2_correction) == c2
}

/// The step after `n` others corrects by one less the powers `n + 1` of the factors.
proof fn lemma_correction_values<T: Real>(
    read: Reading<T>,
    before: AdamW<T>,
    n: nat,
    mid: AdamW<T>,
    after: AdamW<T>,
    step: AdamStep<T>,
)
    requires
        is_exact(read),
        one_gives(before.beta1_pow),
        one_gives(before.beta2_pow),
        (read.finite)(before.beta1),
        (read.finite)(before.beta2),
        steps_give(before, n, mid),
        next_step_gives(mid, after, step),
    ensures
        corrections_read(
            read,
            step,
            1 as real - power_of((read.value)(before.beta1), n + 1),
            1 as real - power_of((read.value)(before.beta2), n + 1),
        ),
        step.beta1 == before.beta1,
        step.beta2 == before.beta2,
        step.lr == before.lr,
        step.eps == before.eps,
        step.weight_decay == before.weight_decay,
        steps_give(before, n + 1, after),
{
    lemma_powers_after_steps(before, n, mid);
    assert(steps_give(before, n + 1, after)) by {
        assert((n + 1 - 1) as nat == n);
    }
    lemma_powers_after_steps(before, n + 1, after);
    lemma_power_exact(read, before.beta1, n + 1, after.beta1_pow);
    lemma_power_exact(read, before.beta2, n + 1, after.beta2_pow);
    let a = choose|a: T| one_gives(a) && #[trigger] minus_gives(
        a,
        after.beta1_pow,
        step.beta1_correction,
    );
    let b = choose|b: T| one_gives(b) && #[trigger] minus_gives(
        b,
        after.beta2_pow,
        step.beta2_correction,
    );
}

/// For factors from zero to below one, both corrections of every step lie above zero and are at
/// most one, and those of the next step are no smaller.
pub proof fn lemma_corrections_grow<T: Real>(
    read: Reading<T>,
    before: AdamW<T>,
    n: nat,
    mid: AdamW<T>,
    after: AdamW<T>,
    later: AdamW<T>,
    step: AdamStep<T>,
    next: AdamStep<T>,
)
    requires
        is_exact(read),
        one_gives(before.beta1_pow),
        one_gives(before.beta2_pow),
        (read.finite)(before.beta1),
        (read.finite)(before.beta2),
        0 as real <= (read.value)(before.beta1),
        (read.value)(before.beta1) < 1 as real,
        0 as real <= (read.value)(before.beta2),
        (read.value)(before.beta2) < 1 as real,
        steps_give(before, n, mid),
        next_step_gives(mid, after, step),
        next_step_gives(after, later, next),
    ensures
        (0 as real) < (read.value)(step.beta1_correction) <= 1 as real,
        (0 as real) < (read.value)(step.beta2_correction) <= 1 as real,
        (read.value)(step.beta1_correction) <= (read.value)(next.beta1_correction),
        (read.value)(step.beta2_correction) <= (read.value)(next.beta2_correction),
{
    lemma_correction_values(read, before, n, mid, after, step);
    lemma_correction_values(read, before, n + 1, after, later, next);
    lemma_powers_shrink((read.value)(before.beta1), n);
    lemma_powers_shrink((read.value)(before.beta2), n);
    lemma_powers_shrink((read.value)(before.beta1), n + 1);
    lemma_powers_shrink((read.value)(before.beta2), n + 1);
}

/// The factors of a new optimizer are nine tenths and 999 thousandths.
proof fn lemma_fresh_factors<T: Real>(read: Reading<T>, optimizer: AdamW<T>)
    requires
        is_exact(read),
        fresh_optimizer(optimizer),
    ensures
        (read.finite)(optimizer.beta1),
        (read.finite)(optimizer.beta2),
        (read.value)(optimizer.beta1) == 9 as real / 10 as real,
        (read.value)(optimizer.beta2) == 999 as real / 1000 as real,
{
    assert(decimal_gives(9, 1, optimizer.beta1));
    assert(decimal_gives(999, 3, optimizer.beta2));
    reveal_with_fuel(ten_to, 4);
    assert(ten_to(1) == 10 as real);
    assert(ten_to(3) == 1000 as real);
    let (a, b) = ((read.value)(optimizer.beta1), (read.value)(optimizer.beta2));
    assert(a * (10 as real) == 9 as real);
    assert(b * (1000 as real) == 999 as real);
}

/// Step `k` of a new optimizer, counted from one, carries the numbers that the optimizer was made
/// with and corrects by `1 - 0.9^k` and `1 - 0.999^k`. Both lie above zero and are at most one.
pub proof fn lemma_new_optimizer_corrections<T: Real>(
    read: Reading<T>,
    before: AdamW<T>,
    k: nat,
    mid: AdamW<T>,
    after: AdamW<T>,
    step: AdamStep<T>,
)
    requires
        is_exact(read),
        fresh_optimizer(before),
        k >= 1,
        steps_give(before, (k - 1) as nat, mid),
        next_step_gives(mid, after, step),
    ensures
        corrections_read(
            read,
            step,
            1 as real - power_of(9 as real / 10 as real, k),
            1 as real - power_of(999 as real / 1000 as real, k),
        ),
        (0 as real) < (read.value)(step.beta1_correction) <= 1 as real,
        (0 as real) < (read.value)(step.beta2_correction) <= 1 as real,
        step.beta1 == before.beta1,
        step.beta2 == before.beta2,
        step.lr == before.lr,
        step.eps == before.eps,
        step.weight_decay == before.weight_decay,
        after == (AdamW { beta1_pow: after.beta1_pow, beta2_pow: after.beta2_pow, ..before }),
{
    lemma_fresh_factors(read, before);
    lemma_correction_values(read, before, (k - 1) as nat, mid, after, step);
    lemma_powers_after_steps(before, k, after);
    lemma_powers_shrink(9 as real / 10 as real, (k - 1) as nat);
    lemma_powers_shrink(999 as real / 1000 as real, (k - 1) as nat);
    lemma_powers_shrink(9 as real / 10 as real, k);
    lemma_powers_shrink(999 as real / 1000 as real, k);
}

} // verus!
