//! What a step of the optimizer does to a parameter, in real numbers.

use crate::block::block_step_gives;
use crate::exact::{is_exact, lemma_times_nought, ten_to, Reading};
use crate::layer_norm::{layer_norm_step_gives, LayerNorm};
use crate::linear::{linear_step_gives, Linear};
use crate::model::{model_step_gives, model_stepped, GptLanguageModel};
use crate::optim::{
    complement_gives, decay_factor_gives, first_moment_gives, fresh_optimizer, matrix_entry_gives,
    matrix_step_gives, next_step_gives, same_but_decay, second_moment_gives, undecayed,
    update_gives, vector_entry_gives, vector_step_gives, AdamStep, AdamW, Param1D, Param2D,
};
use crate::scalar::{
    decimal_gives, minus_gives, over_gives, plus_gives, sqrt_gives, times_gives, Real,
};
use crate::tangent::lemma_regroup;
use vstd::prelude::*;

verus! {

/// The size of a real number.
pub open spec fn size_of_real(x: real) -> real {
    if x >= 0 as real {
        x
    } else {
        -x
    }
}

/// `root` is the square root of `x`.
pub open spec fn is_root(root: real, x: real) -> bool {
    root >= 0 as real && root * root == x
}

/// The numbers of a step stand for real numbers that can be divided by.
pub open spec fn step_finite<T>(read: Reading<T>, step: AdamStep<T>) -> bool {
    &&& (read.finite)(step.beta1)
    &&& (read.finite)(step.beta2)
    &&& (read.finite)(step.beta1_correction)
    &&& (read.value)(step.beta1_correction) != 0 as real
    &&& (read.finite)(step.beta2_correction)
    &&& (read.value)(step.beta2_correction) != 0 as real
    &&& (read.finite)(step.lr)
    &&& (read.finite)(step.eps)
    &&& (read.value)(step.eps) > 0 as real
    &&& (read.finite)(step.weight_decay)
}

/// Square roots are unique.
proof fn lemma_one_root(a: real, b: real)
    requires
        a >= 0 as real,
        b >= 0 as real,
        a * a == b * b,
    ensures
        a == b,
{
    assert((a - b) * (a + b) == a * a - b * b) by (nonlinear_arith);
    if a != b {
        let (x, y) = (a - b, a + b);
        assert(x * y != 0 as real) by (nonlinear_arith)
            requires
                x != 0 as real,
                y > 0 as real,
        ;
    }
}

/// What the moments read as after a step.
proof fn lemma_moment_values<T: Real>(
    read: Reading<T>,
    step: AdamStep<T>,
    g: T,
    m: T,
    v: T,
    m_after: T,
    v_after: T,
)
    requires
        is_exact(read),
        step_finite(read, step),
        (read.finite)(g),
        (read.finite)(m),
        (read.finite)(v),
        first_moment_gives(step.beta1, m, g, m_after),
        second_moment_gives(step.beta2, v, g, v_after),
    ensures
        (read.finite)(m_after),
        (read.value)(m_after) == (read.value)(step.beta1) * (read.value)(m) + (1 as real - (
        read.value)(step.beta1)) * (read.value)(g),
        (read.finite)(v_after),
        (read.value)(v_after) == (read.value)(step.beta2) * (read.value)(v) + (1 as real - (
        read.value)(step.beta2)) * ((read.value)(g) * (read.value)(g)),
{
    let (kept, rest, added) = choose|kept: T, rest: T, added: T| #[trigger]
        times_gives(step.beta1, m, kept) && #[trigger] complement_gives(step.beta1, rest)
            && #[trigger] times_gives(rest, g, added) && plus_gives(kept, added, m_after);
    let (kept2, rest2, scaled, added2) = choose|kept2: T, rest2: T, scaled: T, added2: T| #[trigger]
        times_gives(step.beta2, v, kept2) && #[trigger] complement_gives(step.beta2, rest2)
            && #[trigger] times_gives(rest2, g, scaled) && #[trigger] times_gives(
            scaled,
            g,
            added2,
        ) && plus_gives(kept2, added2, v_after);
    lemma_regroup((read.value)(rest2), (read.value)(g), (read.value)(g));
}

/// What an update reads as.
proof fn lemma_update_value<T: Real>(
    read: Reading<T>,
    step: AdamStep<T>,
    m: T,
    v: T,
    update: T,
    root: real,
)
    requires
        is_exact(read),
        step_finite(read, step),
        (read.finite)(m),
        (read.finite)(v),
        is_root(root, (read.value)(v) / (read.value)(step.beta2_correction)),
        update_gives(step, m, v, update),
    ensures
        (read.finite)(update),
        (read.value)(update) == ((read.value)(step.lr) * ((read.value)(m) / (read.value)(
            step.beta1_correction,
        ))) / (root + (read.value)(step.eps)),
{
    let (m_hat, v_hat, above, rt, below) = choose|m_hat: T, v_hat: T, above: T, rt: T, below: T|
        #[trigger] over_gives(m, step.beta1_correction, m_hat) && #[trigger] over_gives(
            v,
            step.beta2_correction,
            v_hat,
        ) && #[trigger] times_gives(step.lr, m_hat, above) && #[trigger] sqrt_gives(v_hat, rt)
            && #[trigger] plus_gives(rt, step.eps, below) && over_gives(above, below, update);
    assert(root * root >= 0 as real) by (nonlinear_arith);
    lemma_one_root((read.value)(rt), root);
}

/// What a step does to an entry of a matrix. The moments come first: the first becomes
/// `b1 * m + (1 - b1) * g` and the second `b2 * v + (1 - b2) * g * g`, with the gradient `g` of
/// this step in them. From these, divided by the corrections of the step, comes the update; the
/// value is multiplied by `1 - lr * decay`, and the update is taken from it.
pub proof fn lemma_matrix_step_value<T: Real>(
    read: Reading<T>,
    param: &mut Param2D<T>,
    step: AdamStep<T>,
    i: int,
    root: real,
)
    requires
        is_exact(read),
        step_finite(read, step),
        old(param).wf(),
        0 <= i < old(param).value.data@.len(),
        (read.finite)(old(param).value.data@[i]),
        (read.finite)(old(param).grad.data@[i]),
        (read.finite)(old(param).m.data@[i]),
        (read.finite)(old(param).v.data@[i]),
        root >= 0 as real,
        root * root == ((read.value)(step.beta2) * (read.value)(old(param).v.data@[i]) + (1 as real
            - (read.value)(step.beta2)) * ((read.value)(old(param).grad.data@[i]) * (read.value)(
            old(param).grad.data@[i],
        ))) / (read.value)(step.beta2_correction),
        call_ensures(Param2D::<T>::step, (param, step), ()),
    ensures
        final(param).wf(),
        final(param).grad == old(param).grad,
        (read.finite)(final(param).m.data@[i]),
        (read.value)(final(param).m.data@[i]) == (read.value)(step.beta1) * (read.value)(
            old(param).m.data@[i],
        ) + (1 as real - (read.value)(step.beta1)) * (read.value)(old(param).grad.data@[i]),
        (read.finite)(final(param).v.data@[i]),
        (read.value)(final(param).v.data@[i]) == (read.value)(step.beta2) * (read.value)(
            old(param).v.data@[i],
        ) + (1 as real - (read.value)(step.beta2)) * ((read.value)(old(param).grad.data@[i]) * (
        read.value)(old(param).grad.data@[i])),
        (read.finite)(final(param).value.data@[i]),
        (read.value)(final(param).value.data@[i]) == (read.value)(old(param).value.data@[i]) * (
        1 as real - (read.value)(step.lr) * (read.value)(step.weight_decay)) - ((read.value)(
            step.lr,
        ) * (((read.value)(step.beta1) * (read.value)(old(param).m.data@[i]) + (1 as real - (
        read.value)(step.beta1)) * (read.value)(old(param).grad.data@[i])) / (read.value)(
            step.beta1_correction,
        ))) / (root + (read.value)(step.eps)),
{
    lemma_matrix_entry_moves(read, step, *old(param), *final(param), i, root);
}

/// The entry of a matrix after a step, given that the step was made.
proof fn lemma_matrix_entry_moves<T: Real>(
    read: Reading<T>,
    step: AdamStep<T>,
    before: Param2D<T>,
    after: Param2D<T>,
    i: int,
    root: real,
)
    requires
        is_exact(read),
        step_finite(read, step),
        before.wf(),
        0 <= i < before.value.data@.len(),
        (read.finite)(before.value.data@[i]),
        (read.finite)(before.grad.data@[i]),
        (read.finite)(before.m.data@[i]),
        (read.finite)(before.v.data@[i]),
        matrix_step_gives(step, before, after),
    ensures
        (read.finite)(after.m.data@[i]),
        (read.value)(after.m.data@[i]) == (read.value)(step.beta1) * (read.value)(before.m.data@[i])
            + (1 as real - (read.value)(step.beta1)) * (read.value)(before.grad.data@[i]),
        (read.finite)(after.v.data@[i]),
        (read.value)(after.v.data@[i]) == (read.value)(step.beta2) * (read.value)(before.v.data@[i])
            + (1 as real - (read.value)(step.beta2)) * ((read.value)(before.grad.data@[i]) * (
        read.value)(before.grad.data@[i])),
        is_root(root, (read.value)(after.v.data@[i]) / (read.value)(step.beta2_correction)) ==> (
        read.finite)(after.value.data@[i]) && (read.value)(after.value.data@[i]) == (read.value)(
            before.value.data@[i],
        ) * (1 as real - (read.value)(step.lr) * (read.value)(step.weight_decay)) - ((read.value)(
            step.lr,
        ) * ((read.value)(after.m.data@[i]) / (read.value)(step.beta1_correction))) / (root + (
        read.value)(step.eps)),
{
    let (x, g) = (before.value.data@[i], before.grad.data@[i]);
    let (m, v) = (after.m.data@[i], after.v.data@[i]);
    lemma_moment_values(read, step, g, before.m.data@[i], before.v.data@[i], m, v);
    assert(matrix_entry_gives(step, x, m, v, after.value.data@[i]));
    let (factor, kept, update) = choose|factor: T, kept: T, update: T| #[trigger]
        decay_factor_gives(step, factor) && #[trigger] times_gives(x, factor, kept)
            && #[trigger] update_gives(step, m, v, update) && minus_gives(
            kept,
            update,
            after.value.data@[i],
        );
    let rate = choose|rate: T| #[trigger]
        times_gives(step.lr, step.weight_decay, rate) && complement_gives(rate, factor);
    if is_root(root, (read.value)(v) / (read.value)(step.beta2_correction)) {
        lemma_update_value(read, step, m, v, update, root);
    }
}

/// What a step does to an entry of a vector: what it does to an entry of a matrix, with nothing
/// decayed whatever the weight decay of the step is.
pub proof fn lemma_vector_step_value<T: Real>(
    read: Reading<T>,
    param: &mut Param1D<T>,
    step: AdamStep<T>,
    i: int,
    root: real,
)
    requires
        is_exact(read),
        step_finite(read, step),
        old(param).wf(),
        0 <= i < old(param).value@.len(),
        (read.finite)(old(param).value@[i]),
        (read.finite)(old(param).grad@[i]),
        (read.finite)(old(param).m@[i]),
        (read.finite)(old(param).v@[i]),
        root >= 0 as real,
        root * root == ((read.value)(step.beta2) * (read.value)(old(param).v@[i]) + (1 as real - (
        read.value)(step.beta2)) * ((read.value)(old(param).grad@[i]) * (read.value)(
            old(param).grad@[i],
        ))) / (read.value)(step.beta2_correction),
        call_ensures(Param1D::<T>::step, (param, step), ()),
    ensures
        final(param).wf(),
        final(param).grad == old(param).grad,
        (read.finite)(final(param).m@[i]),
        (read.value)(final(param).m@[i]) == (read.value)(step.beta1) * (read.value)(
            old(param).m@[i],
        ) + (1 as real - (read.value)(step.beta1)) * (read.value)(old(param).grad@[i]),
        (read.finite)(final(param).v@[i]),
        (read.value)(final(param).v@[i]) == (read.value)(step.beta2) * (read.value)(
            old(param).v@[i],
        ) + (1 as real - (read.value)(step.beta2)) * ((read.value)(old(param).grad@[i]) * (
        read.value)(old(param).grad@[i])),
        (read.finite)(final(param).value@[i]),
        (read.value)(final(param).value@[i]) == (read.value)(old(param).value@[i]) - ((read.value)(
            step.lr,
        ) * (((read.value)(step.beta1) * (read.value)(old(param).m@[i]) + (1 as real - (
        read.value)(step.beta1)) * (read.value)(old(param).grad@[i])) / (read.value)(
            step.beta1_correction,
        ))) / (root + (read.value)(step.eps)),
{
    lemma_vector_entry_moves(read, step, *old(param), *final(param), i, root);
}

/// The entry of a vector after a step, given that the step was made.
proof fn lemma_vector_entry_moves<T: Real>(
    read: Reading<T>,
    step: AdamStep<T>,
    before: Param1D<T>,
    after: Param1D<T>,
    i: int,
    root: real,
)
    requires
        is_exact(read),
        step_finite(read, step),
        before.wf(),
        0 <= i < before.value@.len(),
        (read.finite)(before.value@[i]),
        (read.finite)(before.grad@[i]),
        (read.finite)(before.m@[i]),
        (read.finite)(before.v@[i]),
        vector_step_gives(step, before, after),
    ensures
        (read.finite)(after.m@[i]),
        (read.value)(after.m@[i]) == (read.value)(step.beta1) * (read.value)(before.m@[i]) + (
        1 as real - (read.value)(step.beta1)) * (read.value)(before.grad@[i]),
        (read.finite)(after.v@[i]),
        (read.value)(after.v@[i]) == (read.value)(step.beta2) * (read.value)(before.v@[i]) + (
        1 as real - (read.value)(step.beta2)) * ((read.value)(before.grad@[i]) * (read.value)(
            before.grad@[i],
        )),
        is_root(root, (read.value)(after.v@[i]) / (read.value)(step.beta2_correction)) ==> (
        read.finite)(after.value@[i]) && (read.value)(after.value@[i]) == (read.value)(
            before.value@[i],
        ) - ((read.value)(step.lr) * ((read.value)(after.m@[i]) / (read.value)(
            step.beta1_correction,
        ))) / (root + (read.value)(step.eps)),
{
    let (x, g) = (before.value@[i], before.grad@[i]);
    let (m, v) = (after.m@[i], after.v@[i]);
    lemma_moment_values(read, step, g, before.m@[i], before.v@[i], m, v);
    assert(vector_entry_gives(step, x, m, v, after.value@[i]));
    let update = choose|update: T| #[trigger]
        update_gives(step, m, v, update) && minus_gives(x, update, after.value@[i]);
    if is_root(root, (read.value)(v) / (read.value)(step.beta2_correction)) {
        lemma_update_value(read, step, m, v, update, root);
    }
}

/// What the next step of an optimizer carries: its factors, its rate, its decay, and one less the
/// powers of the factors, which grow by one factor first.
pub proof fn lemma_next_step_value<T: Real>(
    read: Reading<T>,
    optimizer: &mut AdamW<T>,
    step: AdamStep<T>,
)
    requires
        is_exact(read),
        (read.finite)(old(optimizer).beta1),
        (read.finite)(old(optimizer).beta2),
        (read.finite)(old(optimizer).beta1_pow),
        (read.finite)(old(optimizer).beta2_pow),
        call_ensures(AdamW::<T>::next_step, (optimizer,), step),
    ensures
        (read.finite)(final(optimizer).beta1_pow),
        (read.value)(final(optimizer).beta1_pow) == (read.value)(old(optimizer).beta1_pow) * (
        read.value)(old(optimizer).beta1),
        (read.finite)(final(optimizer).beta2_pow),
        (read.value)(final(optimizer).beta2_pow) == (read.value)(old(optimizer).beta2_pow) * (
        read.value)(old(optimizer).beta2),
        (read.finite)(step.beta1_correction),
        (read.value)(step.beta1_correction) == 1 as real - (read.value)(old(optimizer).beta1_pow)
            * (read.value)(old(optimizer).beta1),
        (read.finite)(step.beta2_correction),
        (read.value)(step.beta2_correction) == 1 as real - (read.value)(old(optimizer).beta2_pow)
            * (read.value)(old(optimizer).beta2),
        step.beta1 == old(optimizer).beta1,
        step.beta2 == old(optimizer).beta2,
        step.lr == old(optimizer).lr,
        step.eps == old(optimizer).eps,
        step.weight_decay == old(optimizer).weight_decay,
        final(optimizer).beta1 == old(optimizer).beta1,
        final(optimizer).beta2 == old(optimizer).beta2,
        final(optimizer).lr == old(optimizer).lr,
        final(optimizer).eps == old(optimizer).eps,
        final(optimizer).weight_decay == old(optimizer).weight_decay,
{
    assert(next_step_gives(*old(optimizer), *final(optimizer), step));
}

/// What a new optimizer reads as: factors of nine tenths and 999 thousandths, powers of one, a
/// hundred-millionth that keeps from dividing by zero, and the rate and the decay that it was made
/// with.
pub proof fn lemma_new_optimizer_value<T: Real>(
    read: Reading<T>,
    lr: T,
    weight_decay: T,
    optimizer: AdamW<T>,
)
    requires
        is_exact(read),
        call_ensures(AdamW::<T>::new, (lr, weight_decay), optimizer),
    ensures
        (read.finite)(optimizer.beta1),
        (read.value)(optimizer.beta1) == 9 as real / 10 as real,
        (read.finite)(optimizer.beta2),
        (read.value)(optimizer.beta2) == 999 as real / 1000 as real,
        (read.finite)(optimizer.beta1_pow),
        (read.value)(optimizer.beta1_pow) == 1 as real,
        (read.finite)(optimizer.beta2_pow),
        (read.value)(optimizer.beta2_pow) == 1 as real,
        (read.finite)(optimizer.eps),
        (read.value)(optimizer.eps) == 1 as real / 100_000_000 as real,
        optimizer.lr == lr,
        optimizer.weight_decay == weight_decay,
{
    assert(fresh_optimizer(optimizer));
    assert(decimal_gives(9, 1, optimizer.beta1));
    assert(decimal_gives(999, 3, optimizer.beta2));
    assert(decimal_gives(1, 8, optimizer.eps));
    reveal_with_fuel(ten_to, 9);
    let (a, b, e) = (
        (read.value)(optimizer.beta1),
        (read.value)(optimizer.beta2),
        (read.value)(optimizer.eps),
    );
    assert(ten_to(1) == 10 as real && ten_to(3) == 1000 as real);
    assert(ten_to(8) == 100_000_000 as real);
    assert(a * (10 as real) == 9 as real);
    assert(b * (1000 as real) == 999 as real);
    assert(e * (100_000_000 as real) == 1 as real);
}

/// The numbers of the first step: with moments of zero, the update is the rate times the gradient
/// over its size, but for what keeps from dividing by zero.
proof fn lemma_first_update(
    b1: real,
    b2: real,
    c1: real,
    c2: real,
    lr: real,
    eps: real,
    m: real,
    v: real,
    g: real,
)
    requires
        b1 == 9 as real / 10 as real,
        b2 == 999 as real / 1000 as real,
        c1 == 1 as real - (1 as real) * b1,
        c2 == 1 as real - (1 as real) * b2,
        m == 0 as real,
        v == 0 as real,
    ensures
        c1 != 0 as real,
        c2 != 0 as real,
        is_root(size_of_real(g), (b2 * v + (1 as real - b2) * (g * g)) / c2),
        (lr * ((b1 * m + (1 as real - b1) * g) / c1)) / (size_of_real(g) + eps) == (lr * g) / (
        size_of_real(g) + eps),
{
    lemma_times_nought(b1);
    lemma_times_nought(b2);
    let s = size_of_real(g);
    assert(s * s == g * g) by (nonlinear_arith)
        requires
            s == g || s == -g,
    ;
    let x = g * g;
    assert(c1 == 1 as real / 10 as real);
    assert(c2 == 1 as real / 1000 as real);
    assert((c2 * x) / c2 == x) by (nonlinear_arith)
        requires
            c2 == 1 as real / 1000 as real,
    ;
    assert((c1 * g) / c1 == g) by (nonlinear_arith)
        requires
            c1 == 1 as real / 10 as real,
    ;
}

/// The first step of a new optimizer, on an entry with moments of zero: it moves against the sign
/// of its gradient `g` by `lr * g / (|g| + 0.00000001)`, after it was multiplied by one less the
/// rate times the decay.
pub proof fn lemma_first_matrix_step<T: Real>(
    read: Reading<T>,
    lr: T,
    weight_decay: T,
    optimizer: &mut AdamW<T>,
    step: AdamStep<T>,
    param: &mut Param2D<T>,
    i: int,
)
    requires
        is_exact(read),
        (read.finite)(lr),
        (read.finite)(weight_decay),
        call_ensures(AdamW::<T>::new, (lr, weight_decay), *old(optimizer)),
        call_ensures(AdamW::<T>::next_step, (optimizer,), step),
        call_ensures(Param2D::<T>::step, (param, step), ()),
        old(param).wf(),
        0 <= i < old(param).value.data@.len(),
        (read.finite)(old(param).value.data@[i]),
        (read.finite)(old(param).grad.data@[i]),
        (read.finite)(old(param).m.data@[i]),
        (read.value)(old(param).m.data@[i]) == 0 as real,
        (read.finite)(old(param).v.data@[i]),
        (read.value)(old(param).v.data@[i]) == 0 as real,
    ensures
        (read.value)(final(param).value.data@[i]) == (read.value)(old(param).value.data@[i]) * (
        1 as real - (read.value)(lr) * (read.value)(weight_decay)) - ((read.value)(lr) * (
        read.value)(old(param).grad.data@[i])) / (size_of_real(
            (read.value)(old(param).grad.data@[i]),
        ) + 1 as real / 100_000_000 as real),
{
    let v = read.value;
    let before = *old(optimizer);
    lemma_new_optimizer_value(read, lr, weight_decay, before);
    assert(next_step_gives(before, *final(optimizer), step));
    let g = v(old(param).grad.data@[i]);
    lemma_first_update(
        v(step.beta1),
        v(step.beta2),
        v(step.beta1_correction),
        v(step.beta2_correction),
        v(step.lr),
        v(step.eps),
        v(old(param).m.data@[i]),
        v(old(param).v.data@[i]),
        g,
    );
    lemma_matrix_entry_moves(read, step, *old(param), *final(param), i, size_of_real(g));
}

/// The first step of a new optimizer without weight decay: an entry with moments of zero moves
/// against the sign of its gradient `g` by `lr * g / (|g| + 0.00000001)`.
pub proof fn lemma_first_undecayed_step<T: Real>(
    read: Reading<T>,
    lr: T,
    weight_decay: T,
    optimizer: &mut AdamW<T>,
    step: AdamStep<T>,
    param: &mut Param2D<T>,
    i: int,
)
    requires
        is_exact(read),
        (read.finite)(lr),
        (read.finite)(weight_decay),
        call_ensures(AdamW::<T>::new, (lr, weight_decay), *old(optimizer)),
        call_ensures(AdamW::<T>::next_step, (optimizer,), step),
        call_ensures(Param2D::<T>::step_without_weight_decay, (param, step), ()),
        old(param).wf(),
        0 <= i < old(param).value.data@.len(),
        (read.finite)(old(param).value.data@[i]),
        (read.finite)(old(param).grad.data@[i]),
        (read.finite)(old(param).m.data@[i]),
        (read.value)(old(param).m.data@[i]) == 0 as real,
        (read.finite)(old(param).v.data@[i]),
        (read.value)(old(param).v.data@[i]) == 0 as real,
    ensures
        (read.value)(final(param).value.data@[i]) == (read.value)(old(param).value.data@[i]) - ((
        read.value)(lr) * (read.value)(old(param).grad.data@[i])) / (size_of_real(
            (read.value)(old(param).grad.data@[i]),
        ) + 1 as real / 100_000_000 as real),
{
    let v = read.value;
    let before = *old(optimizer);
    lemma_new_optimizer_value(read, lr, weight_decay, before);
    assert(next_step_gives(before, *final(optimizer), step));
    let plain = choose|plain: AdamStep<T>| #[trigger]
        undecayed(step, plain) && matrix_step_gives(plain, *old(param), *final(param));
    let g = v(old(param).grad.data@[i]);
    lemma_first_update(
        v(plain.beta1),
        v(plain.beta2),
        v(plain.beta1_correction),
        v(plain.beta2_correction),
        v(plain.lr),
        v(plain.eps),
        v(old(param).m.data@[i]),
        v(old(param).v.data@[i]),
        g,
    );
    lemma_matrix_entry_moves(read, plain, *old(param), *final(param), i, size_of_real(g));
    lemma_times_nought(v(plain.lr));
    let x = v(old(param).value.data@[i]);
    assert(x * (1 as real) == x) by (nonlinear_arith);
}

/// The first step of a new optimizer moves an entry of a vector with moments of zero against the
/// sign of its gradient `g` by `lr * g / (|g| + 0.00000001)`.
pub proof fn lemma_first_vector_step<T: Real>(
    read: Reading<T>,
    lr: T,
    weight_decay: T,
    optimizer: &mut AdamW<T>,
    step: AdamStep<T>,
    param: &mut Param1D<T>,
    i: int,
)
    requires
        is_exact(read),
        (read.finite)(lr),
        (read.finite)(weight_decay),
        call_ensures(AdamW::<T>::new, (lr, weight_decay), *old(optimizer)),
        call_ensures(AdamW::<T>::next_step, (optimizer,), step),
        call_ensures(Param1D::<T>::step, (param, step), ()),
        old(param).wf(),
        0 <= i < old(param).value@.len(),
        (read.finite)(old(param).value@[i]),
        (read.finite)(old(param).grad@[i]),
        (read.finite)(old(param).m@[i]),
        (read.value)(old(param).m@[i]) == 0 as real,
        (read.finite)(old(param).v@[i]),
        (read.value)(old(param).v@[i]) == 0 as real,
    ensures
        (read.value)(final(param).value@[i]) == (read.value)(old(param).value@[i]) - ((read.value)(
            lr,
        ) * (read.value)(old(param).grad@[i])) / (size_of_real((read.value)(old(param).grad@[i]))
            + 1 as real / 100_000_000 as real),
{
    let v = read.value;
    let before = *old(optimizer);
    lemma_new_optimizer_value(read, lr, weight_decay, before);
    assert(next_step_gives(before, *final(optimizer), step));
    let g = v(old(param).grad@[i]);
    lemma_first_update(
        v(step.beta1),
        v(step.beta2),
        v(step.beta1_correction),
        v(step.beta2_correction),
        v(step.lr),
        v(step.eps),
        v(old(param).m@[i]),
        v(old(param).v@[i]),
        g,
    );
    lemma_vector_entry_moves(read, step, *old(param), *final(param), i, size_of_real(g));
}

/// The numbers of an optimizer stand for real numbers, and neither correction of its next step is
/// zero.
pub open spec fn optimizer_ready<T>(read: Reading<T>, o: AdamW<T>) -> bool {
    &&& (read.finite)(o.beta1)
    &&& (read.finite)(o.beta2)
    &&& (read.finite)(o.beta1_pow)
    &&& (read.finite)(o.beta2_pow)
    &&& 1 as real - (read.value)(o.beta1_pow) * (read.value)(o.beta1) != 0 as real
    &&& 1 as real - (read.value)(o.beta2_pow) * (read.value)(o.beta2) != 0 as real
    &&& (read.finite)(o.lr)
    &&& (read.finite)(o.eps)
    &&& (read.value)(o.eps) > 0 as real
    &&& (read.finite)(o.weight_decay)
}

/// The next step of the optimizer `o` with this decay moves the number `x` with the gradient `g`
/// and the moments `m` and `v` to `x1`, and the moments to `m1` and `v1`.
pub open spec fn entry_moves<T>(
    read: Reading<T>,
    o: AdamW<T>,
    decay: real,
    x: T,
    g: T,
    m: T,
    v: T,
    x1: T,
    m1: T,
    v1: T,
) -> bool {
    let (b1, b2) = ((read.value)(o.beta1), (read.value)(o.beta2));
    let (c1, c2) = (
        1 as real - (read.value)(o.beta1_pow) * b1,
        1 as real - (read.value)(o.beta2_pow) * b2,
    );
    let (gr, lr) = ((read.value)(g), (read.value)(o.lr));
    (read.finite)(x) && (read.finite)(g) && (read.finite)(m) && (read.finite)(v) ==> {
        &&& (read.finite)(m1)
        &&& (read.value)(m1) == b1 * (read.value)(m) + (1 as real - b1) * gr
        &&& (read.finite)(v1)
        &&& (read.value)(v1) == b2 * (read.value)(v) + (1 as real - b2) * (gr * gr)
        &&& forall|root: real| #[trigger]
            is_root(root, (read.value)(v1) / c2) ==> (read.finite)(x1) && (read.value)(x1) == (
            read.value)(x) * (1 as real - lr * decay) - (lr * ((read.value)(m1) / c1)) / (root + (
            read.value)(o.eps))
    }
}

/// The next step of the optimizer `o` with this decay moves every entry of the matrix.
pub open spec fn matrix_moves<T>(
    read: Reading<T>,
    o: AdamW<T>,
    decay: real,
    before: Param2D<T>,
    after: Param2D<T>,
) -> bool {
    &&& after.grad == before.grad
    &&& after.value.has_shape(before.value.rows as int, before.value.cols as int)
    &&& forall|i: int|
        0 <= i < before.value.data@.len() ==> entry_moves(
            read,
            o,
            decay,
            before.value.data@[i],
            before.grad.data@[i],
            before.m.data@[i],
            before.v.data@[i],
            #[trigger] after.value.data@[i],
            after.m.data@[i],
            after.v.data@[i],
        )
}

/// The next step of the optimizer `o`, with nothing decayed, moves every entry of the vector.
pub open spec fn vector_moves<T>(
    read: Reading<T>,
    o: AdamW<T>,
    before: Param1D<T>,
    after: Param1D<T>,
) -> bool {
    &&& after.grad == before.grad
    &&& after.value@.len() == before.value@.len()
    &&& forall|i: int|
        0 <= i < before.value@.len() ==> entry_moves(
            read,
            o,
            0 as real,
            before.value@[i],
            before.grad@[i],
            before.m@[i],
            before.v@[i],
            #[trigger] after.value@[i],
            after.m@[i],
            after.v@[i],
        )
}

proof fn lemma_matrix_moves<T: Real>(
    read: Reading<T>,
    o: AdamW<T>,
    later: AdamW<T>,
    step: AdamStep<T>,
    plain: AdamStep<T>,
    before: Param2D<T>,
    after: Param2D<T>,
)
    requires
        is_exact(read),
        optimizer_ready(read, o),
        next_step_gives(o, later, step),
        same_but_decay(step, plain),
        (read.finite)(plain.weight_decay),
        before.wf(),
        matrix_step_gives(plain, before, after),
    ensures
        matrix_moves(read, o, (read.value)(plain.weight_decay), before, after),
{
    let v = read.value;
    let decay = v(plain.weight_decay);
    assert(step_finite(read, plain));
    assert forall|i: int| 0 <= i < before.value.data@.len() implies entry_moves(
        read,
        o,
        decay,
        before.value.data@[i],
        before.grad.data@[i],
        before.m.data@[i],
        before.v.data@[i],
        #[trigger] after.value.data@[i],
        after.m.data@[i],
        after.v.data@[i],
    ) by {
        if (read.finite)(before.value.data@[i]) && (read.finite)(before.grad.data@[i]) && (
        read.finite)(before.m.data@[i]) && (read.finite)(before.v.data@[i]) {
            lemma_matrix_entry_moves(read, plain, before, after, i, 0 as real);
            assert forall|root: real| #[trigger]
                is_root(root, v(after.v.data@[i]) / v(plain.beta2_correction)) implies (
            read.finite)(after.value.data@[i]) && v(after.value.data@[i]) == v(
                before.value.data@[i],
            ) * (1 as real - v(plain.lr) * decay) - (v(plain.lr) * (v(after.m.data@[i]) / v(
                plain.beta1_correction,
            ))) / (root + v(plain.eps)) by {
                lemma_matrix_entry_moves(read, plain, before, after, i, root);
            }
        }
    }
}

proof fn lemma_vector_moves<T: Real>(
    read: Reading<T>,
    o: AdamW<T>,
    later: AdamW<T>,
    step: AdamStep<T>,
    before: Param1D<T>,
    after: Param1D<T>,
)
    requires
        is_exact(read),
        optimizer_ready(read, o),
        next_step_gives(o, later, step),
        before.wf(),
        vector_step_gives(step, before, after),
    ensures
        vector_moves(read, o, before, after),
{
    let v = read.value;
    assert(step_finite(read, step));
    lemma_times_nought(v(o.lr));
    assert forall|i: int| 0 <= i < before.value@.len() implies entry_moves(
        read,
        o,
        0 as real,
        before.value@[i],
        before.grad@[i],
        before.m@[i],
        before.v@[i],
        #[trigger] after.value@[i],
        after.m@[i],
        after.v@[i],
    ) by {
        if (read.finite)(before.value@[i]) && (read.finite)(before.grad@[i]) && (read.finite)(
            before.m@[i],
        ) && (read.finite)(before.v@[i]) {
            let x = v(before.value@[i]);
            assert(x * (1 as real) == x) by (nonlinear_arith);
            lemma_vector_entry_moves(read, step, before, after, i, 0 as real);
            assert forall|root: real| #[trigger]
                is_root(root, v(after.v@[i]) / v(step.beta2_correction)) implies (read.finite)(
                after.value@[i],
            ) && v(after.value@[i]) == x - (v(step.lr) * (v(after.m@[i]) / v(
                step.beta1_correction,
            ))) / (root + v(step.eps)) by {
                lemma_vector_entry_moves(read, step, before, after, i, root);
            }
        }
    }
}

/// The next step of the optimizer `o` moves the weights of the linear layer, with the decay of the
/// optimizer, and its bias, with none.
pub open spec fn linear_moves<T>(
    read: Reading<T>,
    o: AdamW<T>,
    before: Linear<T>,
    after: Linear<T>,
) -> bool {
    &&& matrix_moves(read, o, (read.value)(o.weight_decay), before.weight, after.weight)
    &&& after.bias is Some == before.bias is Some
    &&& before.bias matches Some(b) ==> vector_moves(read, o, b, after.bias->0)
}

/// The next step of the optimizer `o` moves the two vectors of the normalization.
pub open spec fn norm_moves<T>(
    read: Reading<T>,
    o: AdamW<T>,
    before: LayerNorm<T>,
    after: LayerNorm<T>,
) -> bool {
    &&& vector_moves(read, o, before.gamma, after.gamma)
    &&& vector_moves(read, o, before.beta, after.beta)
    &&& after.eps == before.eps
}

proof fn lemma_linear_moves<T: Real>(
    read: Reading<T>,
    o: AdamW<T>,
    later: AdamW<T>,
    step: AdamStep<T>,
    before: Linear<T>,
    after: Linear<T>,
)
    requires
        is_exact(read),
        optimizer_ready(read, o),
        next_step_gives(o, later, step),
        before.wf(),
        linear_step_gives(step, before, after),
    ensures
        linear_moves(read, o, before, after),
{
    lemma_matrix_moves(read, o, later, step, step, before.weight, after.weight);
    if let Some(b) = before.bias {
        lemma_vector_moves(read, o, later, step, b, after.bias->0);
    }
}

proof fn lemma_norm_moves<T: Real>(
    read: Reading<T>,
    o: AdamW<T>,
    later: AdamW<T>,
    step: AdamStep<T>,
    before: LayerNorm<T>,
    after: LayerNorm<T>,
)
    requires
        is_exact(read),
        optimizer_ready(read, o),
        next_step_gives(o, later, step),
        before.has_width(before.gamma.value@.len() as int),
        layer_norm_step_gives(step, before, after),
    ensures
        norm_moves(read, o, before, after),
{
    lemma_vector_moves(read, o, later, step, before.gamma, after.gamma);
    lemma_vector_moves(read, o, later, step, before.beta, after.beta);
}

/// A step of a model moves all its parameters by one and the same step of the optimizer. The
/// weights of the linear layers decay; the embeddings, the biases and the vectors of the
/// normalizations do not.
pub proof fn lemma_model_step_value<T: Real>(
    read: Reading<T>,
    model: &mut GptLanguageModel<T>,
    optimizer: &mut AdamW<T>,
)
    requires
        is_exact(read),
        old(model).wf(),
        optimizer_ready(read, *old(optimizer)),
        call_ensures(GptLanguageModel::<T>::step, (model, optimizer), ()),
    ensures
        final(model).config == old(model).config,
        final(model).blocks@.len() == old(model).blocks@.len(),
        matrix_moves(
            read,
            *old(optimizer),
            0 as real,
            old(model).token_embedding,
            final(model).token_embedding,
        ),
        matrix_moves(
            read,
            *old(optimizer),
            0 as real,
            old(model).position_embedding,
            final(model).position_embedding,
        ),
        forall|l: int|
            #![trigger final(model).blocks@[l]]
            0 <= l < old(model).blocks@.len() ==> {
                let (a, b) = (old(model).blocks@[l], final(model).blocks@[l]);
                let o = *old(optimizer);
                &&& norm_moves(read, o, a.ln1, b.ln1)
                &&& linear_moves(read, o, a.attention.qkv, b.attention.qkv)
                &&& linear_moves(read, o, a.attention.proj, b.attention.proj)
                &&& norm_moves(read, o, a.ln2, b.ln2)
                &&& linear_moves(read, o, a.feed_forward.fc1, b.feed_forward.fc1)
                &&& linear_moves(read, o, a.feed_forward.fc2, b.feed_forward.fc2)
            },
        norm_moves(read, *old(optimizer), old(model).ln_f, final(model).ln_f),
        linear_moves(read, *old(optimizer), old(model).lm_head, final(model).lm_head),
        (read.value)(final(optimizer).beta1_pow) == (read.value)(old(optimizer).beta1_pow) * (
        read.value)(old(optimizer).beta1),
        (read.value)(final(optimizer).beta2_pow) == (read.value)(old(optimizer).beta2_pow) * (
        read.value)(old(optimizer).beta2),
{
    lemma_stepped_model_value(read, *old(model), *old(optimizer), *final(model), *final(optimizer));
}

/// What [`lemma_model_step_value`] says, given that the step was made.
pub proof fn lemma_stepped_model_value<T: Real>(
    read: Reading<T>,
    before: GptLanguageModel<T>,
    o: AdamW<T>,
    after: GptLanguageModel<T>,
    later: AdamW<T>,
)
    requires
        is_exact(read),
        before.wf(),
        optimizer_ready(read, o),
        model_step_gives(before, o, after, later),
    ensures
        after.config == before.config,
        after.blocks@.len() == before.blocks@.len(),
        matrix_moves(read, o, 0 as real, before.token_embedding, after.token_embedding),
        matrix_moves(read, o, 0 as real, before.position_embedding, after.position_embedding),
        forall|l: int|
            #![trigger after.blocks@[l]]
            0 <= l < before.blocks@.len() ==> {
                let (a, b) = (before.blocks@[l], after.blocks@[l]);
                &&& norm_moves(read, o, a.ln1, b.ln1)
                &&& linear_moves(read, o, a.attention.qkv, b.attention.qkv)
                &&& linear_moves(read, o, a.attention.proj, b.attention.proj)
                &&& norm_moves(read, o, a.ln2, b.ln2)
                &&& linear_moves(read, o, a.feed_forward.fc1, b.feed_forward.fc1)
                &&& linear_moves(read, o, a.feed_forward.fc2, b.feed_forward.fc2)
            },
        norm_moves(read, o, before.ln_f, after.ln_f),
        linear_moves(read, o, before.lm_head, after.lm_head),
        (read.value)(later.beta1_pow) == (read.value)(o.beta1_pow) * (read.value)(o.beta1),
        (read.value)(later.beta2_pow) == (read.value)(o.beta2_pow) * (read.value)(o.beta2),
{
    let step = choose|step: AdamStep<T>| #[trigger]
        next_step_gives(o, later, step) && model_stepped(step, before, after);
    let (token, position) = (before.token_embedding, before.position_embedding);
    let p1 = choose|plain: AdamStep<T>| #[trigger]
        undecayed(step, plain) && matrix_step_gives(plain, token, after.token_embedding);
    lemma_matrix_moves(read, o, later, step, p1, token, after.token_embedding);
    let p2 = choose|plain: AdamStep<T>| #[trigger]
        undecayed(step, plain) && matrix_step_gives(plain, position, after.position_embedding);
    lemma_matrix_moves(read, o, later, step, p2, position, after.position_embedding);
    assert forall|l: int|
        #![trigger after.blocks@[l]]
        0 <= l < before.blocks@.len() implies {
        let (a, b) = (before.blocks@[l], after.blocks@[l]);
        &&& norm_moves(read, o, a.ln1, b.ln1)
        &&& linear_moves(read, o, a.attention.qkv, b.attention.qkv)
        &&& linear_moves(read, o, a.attention.proj, b.attention.proj)
        &&& norm_moves(read, o, a.ln2, b.ln2)
        &&& linear_moves(read, o, a.feed_forward.fc1, b.feed_forward.fc1)
        &&& linear_moves(read, o, a.feed_forward.fc2, b.feed_forward.fc2)
    } by {
        let (a, b) = (before.blocks@[l], after.blocks@[l]);
        assert(block_step_gives(step, a, b));
        lemma_norm_moves(read, o, later, step, a.ln1, b.ln1);
        lemma_linear_moves(read, o, later, step, a.attention.qkv, b.attention.qkv);
        lemma_linear_moves(read, o, later, step, a.attention.proj, b.attention.proj);
        lemma_norm_moves(read, o, later, step, a.ln2, b.ln2);
        lemma_linear_moves(read, o, later, step, a.feed_forward.fc1, b.feed_forward.fc1);
        lemma_linear_moves(read, o, later, step, a.feed_forward.fc2, b.feed_forward.fc2);
    }
    lemma_norm_moves(read, o, later, step, before.ln_f, after.ln_f);
    lemma_linear_moves(read, o, later, step, before.lm_head, after.lm_head);
}

} // verus!
