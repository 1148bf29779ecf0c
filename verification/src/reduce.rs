//! Sums, products of matrices, and the softmax.

use crate::parallel::par_map;
use crate::scalar::{
    count_gives, exp_gives, larger_gives, minus_gives, over_gives, plus_gives, times_gives,
    zero_gives, Real,
};
use crate::tensor::{tabulate, Tensor2};
use vstd::prelude::*;

verus! {

/// `r` is the sum of `items`, added up from the first to the last, starting at zero.
pub open spec fn sum_gives<T: Real>(items: Seq<T>, r: T) -> bool
    decreases items.len(),
{
    if items.len() == 0 {
        zero_gives(r)
    } else {
        exists|acc: T|
            sum_gives(items.drop_last(), acc) && #[trigger] plus_gives(acc, items.last(), r)
    }
}

/// `r` is the inner product of `a` and `b`, added up from the first to the last, starting at
/// zero.
pub open spec fn dot_gives<T: Real>(a: Seq<T>, b: Seq<T>, r: T) -> bool
    decreases a.len(),
{
    if a.len() == 0 {
        zero_gives(r)
    } else {
        exists|acc: T, product: T|
            dot_gives(a.drop_last(), b.drop_last(), acc) && #[trigger] times_gives(
                a.last(),
                b.last(),
                product,
            ) && #[trigger] plus_gives(acc, product, r)
    }
}

/// `r` is the largest of `items`, compared from the first to the last; zero if there is none.
pub open spec fn max_gives<T: Real>(items: Seq<T>, r: T) -> bool
    decreases items.len(),
{
    if items.len() == 0 {
        zero_gives(r)
    } else if items.len() == 1 {
        r == items[0]
    } else {
        exists|acc: T|
            max_gives(items.drop_last(), acc) && #[trigger] larger_gives(acc, items.last(), r)
    }
}

/// `r` is the exponential of `x` less `max`.
pub open spec fn shifted_exp_gives<T: Real>(x: T, max: T, r: T) -> bool {
    exists|shifted: T| #[trigger] minus_gives(x, max, shifted) && exp_gives(shifted, r)
}

/// `powers` holds the exponentials of `items`, each less the largest item.
pub open spec fn powers_give<T: Real>(items: Seq<T>, powers: Seq<T>) -> bool {
    exists|max: T| #[trigger]
        max_gives(items, max) && powers.len() == items.len() && forall|i: int|
            0 <= i < items.len() ==> shifted_exp_gives(items[i], max, #[trigger] powers[i])
}

/// `probs` is the softmax of `items`: the shifted exponentials, each over their sum.
pub open spec fn softmax_gives<T: Real>(items: Seq<T>, probs: Seq<T>) -> bool {
    exists|powers: Seq<T>, total: T| #[trigger]
        powers_give(items, powers) && #[trigger] sum_gives(powers, total) && probs.len()
            == items.len() && forall|i: int|
            0 <= i < items.len() ==> over_gives(powers[i], total, #[trigger] probs[i])
}

/// One more item.
pub proof fn lemma_sum_push<T: Real>(items: Seq<T>, acc: T, x: T, r: T)
    requires
        sum_gives(items, acc),
        plus_gives(acc, x, r),
    ensures
        sum_gives(items.push(x), r),
{
    assert(items.push(x).drop_last() =~= items);
    assert(items.push(x).last() == x);
}

/// One more product.
pub proof fn lemma_dot_push<T: Real>(a: Seq<T>, b: Seq<T>, acc: T, x: T, y: T, product: T, r: T)
    requires
        a.len() == b.len(),
        dot_gives(a, b, acc),
        times_gives(x, y, product),
        plus_gives(acc, product, r),
    ensures
        dot_gives(a.push(x), b.push(y), r),
{
    assert(a.push(x).drop_last() =~= a);
    assert(b.push(y).drop_last() =~= b);
    assert(a.push(x).last() == x);
    assert(b.push(y).last() == y);
}

/// The sum of `items`.
pub fn sum<T: Real>(items: &Vec<T>) -> (total: T)
    ensures
        sum_gives(items@, total),
{
    let mut total = T::zero();
    let mut i: usize = 0;
    assert(items@.take(0) =~= Seq::empty());
    while i < items.len()
        invariant
            i <= items@.len(),
            sum_gives(items@.take(i as int), total),
        decreases items@.len() - i,
    {
        let next = total.plus(items[i]);
        proof {
            lemma_sum_push(items@.take(i as int), total, items@[i as int], next);
            assert(items@.take(i + 1) =~= items@.take(i as int).push(items@[i as int]));
        }
        total = next;
        i = i + 1;
    }
    assert(items@.take(i as int) =~= items@);
    total
}

/// The sum of column `c`.
pub fn column_sum<T: Real>(matrix: &Tensor2<T>, c: usize) -> (total: T)
    requires
        matrix.wf(),
        c < matrix.cols,
    ensures
        sum_gives(matrix.col(c as int), total),
{
    let mut total = T::zero();
    let mut i: usize = 0;
    let ghost items = matrix.col(c as int);
    assert(items.take(0) =~= Seq::empty());
    while i < matrix.rows
        invariant
            matrix.wf(),
            c < matrix.cols,
            i <= matrix.rows,
            items == matrix.col(c as int),
            sum_gives(items.take(i as int), total),
        decreases matrix.rows - i,
    {
        let next = total.plus(matrix.get(i, c));
        proof {
            lemma_sum_push(items.take(i as int), total, items[i as int], next);
            assert(items.take(i + 1) =~= items.take(i as int).push(items[i as int]));
        }
        total = next;
        i = i + 1;
    }
    assert(items.take(i as int) =~= items);
    total
}

/// The inner product of `xs` and `ys`, whose items `pair_at` gives.
fn dot_by<T: Real, F: Fn(usize) -> (T, T)>(
    Ghost(xs): Ghost<Seq<T>>,
    Ghost(ys): Ghost<Seq<T>>,
    count: usize,
    pair_at: F,
) -> (r: T)
    requires
        xs.len() == count,
        ys.len() == count,
        forall|k: usize| k < count ==> #[trigger] call_requires(pair_at, (k,)),
        forall|k: usize, pair: (T, T)|
            k < count && #[trigger] call_ensures(pair_at, (k,), pair) ==> pair.0 == xs[k as int]
                && pair.1 == ys[k as int],
    ensures
        dot_gives(xs, ys, r),
{
    let mut acc = T::zero();
    let mut k: usize = 0;
    assert(xs.take(0) =~= Seq::empty());
    while k < count
        invariant
            k <= count,
            xs.len() == count,
            ys.len() == count,
            forall|k: usize| k < count ==> #[trigger] call_requires(pair_at, (k,)),
            forall|k: usize, pair: (T, T)|
                k < count && #[trigger] call_ensures(pair_at, (k,), pair) ==> pair.0 == xs[k as int]
                    && pair.1 == ys[k as int],
            dot_gives(xs.take(k as int), ys.take(k as int), acc),
        decreases count - k,
    {
        let (x, y) = pair_at(k);
        let product = x.times(y);
        let next = acc.plus(product);
        proof {
            lemma_dot_push(xs.take(k as int), ys.take(k as int), acc, x, y, product, next);
            assert(xs.take(k + 1) =~= xs.take(k as int).push(x));
            assert(ys.take(k + 1) =~= ys.take(k as int).push(y));
        }
        acc = next;
        k = k + 1;
    }
    assert(xs.take(k as int) =~= xs);
    assert(ys.take(k as int) =~= ys);
    acc
}

/// The inner product of row `i` of `a` and column `j` of `b`.
pub fn row_dot_col<T: Real>(a: &Tensor2<T>, i: usize, b: &Tensor2<T>, j: usize) -> (r: T)
    requires
        a.wf(),
        b.wf(),
        a.cols == b.rows,
        i < a.rows,
        j < b.cols,
    ensures
        dot_gives(a.row(i as int), b.col(j as int), r),
{
    dot_by(Ghost(a.row(i as int)), Ghost(b.col(j as int)), a.cols, |k: usize| -> (pair: (T, T))
        requires
            a.wf(),
            b.wf(),
            a.cols == b.rows,
            i < a.rows,
            j < b.cols,
            k < a.cols,
        ensures
            pair.0 == a.at(i as int, k as int),
            pair.1 == b.at(k as int, j as int),
        { (a.get(i, k), b.get(k, j)) })
}

/// The inner product of row `i` of `a` and row `j` of `b`.
pub fn row_dot_row<T: Real>(a: &Tensor2<T>, i: usize, b: &Tensor2<T>, j: usize) -> (r: T)
    requires
        a.wf(),
        b.wf(),
        a.cols == b.cols,
        i < a.rows,
        j < b.rows,
    ensures
        dot_gives(a.row(i as int), b.row(j as int), r),
{
    dot_by(Ghost(a.row(i as int)), Ghost(b.row(j as int)), a.cols, |k: usize| -> (pair: (T, T))
        requires
            a.wf(),
            b.wf(),
            a.cols == b.cols,
            i < a.rows,
            j < b.rows,
            k < a.cols,
        ensures
            pair.0 == a.at(i as int, k as int),
            pair.1 == b.at(j as int, k as int),
        { (a.get(i, k), b.get(j, k)) })
}

/// The inner product of column `i` of `a` and column `j` of `b`.
pub fn col_dot_col<T: Real>(a: &Tensor2<T>, i: usize, b: &Tensor2<T>, j: usize) -> (r: T)
    requires
        a.wf(),
        b.wf(),
        a.rows == b.rows,
        i < a.cols,
        j < b.cols,
    ensures
        dot_gives(a.col(i as int), b.col(j as int), r),
{
    dot_by(Ghost(a.col(i as int)), Ghost(b.col(j as int)), a.rows, |k: usize| -> (pair: (T, T))
        requires
            a.wf(),
            b.wf(),
            a.rows == b.rows,
            i < a.cols,
            j < b.cols,
            k < a.rows,
        ensures
            pair.0 == a.at(k as int, i as int),
            pair.1 == b.at(k as int, j as int),
        { (a.get(k, i), b.get(k, j)) })
}

/// `product` is the matrix product of `a` and `b`.
pub open spec fn matmul_gives<T: Real>(a: Tensor2<T>, b: Tensor2<T>, product: Tensor2<T>) -> bool {
    product.has_shape(a.rows as int, b.cols as int) && forall|i: int, j: int|
        0 <= i < a.rows && 0 <= j < b.cols ==> dot_gives(
            a.row(i),
            b.col(j),
            #[trigger] product.at(i, j),
        )
}

/// `product` is the matrix product of `a` and the transpose of `b`.
pub open spec fn matmul_transposed_gives<T: Real>(
    a: Tensor2<T>,
    b: Tensor2<T>,
    product: Tensor2<T>,
) -> bool {
    product.has_shape(a.rows as int, b.rows as int) && forall|i: int, j: int|
        0 <= i < a.rows && 0 <= j < b.rows ==> dot_gives(
            a.row(i),
            b.row(j),
            #[trigger] product.at(i, j),
        )
}

/// `product` is the matrix product of the transpose of `a` and `b`.
pub open spec fn transposed_matmul_gives<T: Real>(
    a: Tensor2<T>,
    b: Tensor2<T>,
    product: Tensor2<T>,
) -> bool {
    product.has_shape(a.cols as int, b.cols as int) && forall|i: int, j: int|
        0 <= i < a.cols && 0 <= j < b.cols ==> dot_gives(
            a.col(i),
            b.col(j),
            #[trigger] product.at(i, j),
        )
}

/// The matrix product of `a` and `b`.
pub fn matmul<T: Real>(a: &Tensor2<T>, b: &Tensor2<T>) -> (product: Tensor2<T>)
    requires
        a.wf(),
        b.wf(),
        a.cols == b.rows,
    ensures
        matmul_gives(*a, *b, product),
{
    let rows = par_map(a.rows, |i: usize| -> (row: Vec<T>)
        requires
            i < a.rows,
            a.wf(),
            b.wf(),
            a.cols == b.rows,
        ensures
            row@.len() == b.cols,
            forall|j: int|
                0 <= j < b.cols ==> dot_gives(a.row(i as int), b.col(j), #[trigger] row@[j]),
        {
            tabulate(b.cols, |j: usize| -> (r: T)
                requires
                    i < a.rows,
                    j < b.cols,
                    a.wf(),
                    b.wf(),
                    a.cols == b.rows,
                ensures
                    dot_gives(a.row(i as int), b.col(j as int), r),
                { row_dot_col(a, i, b, j) })
        });
    Tensor2::from_rows(rows, b.cols)
}

/// The matrix product of `a` and the transpose of `b`.
pub fn matmul_transposed<T: Real>(a: &Tensor2<T>, b: &Tensor2<T>) -> (product: Tensor2<T>)
    requires
        a.wf(),
        b.wf(),
        a.cols == b.cols,
    ensures
        matmul_transposed_gives(*a, *b, product),
{
    let rows = par_map(a.rows, |i: usize| -> (row: Vec<T>)
        requires
            i < a.rows,
            a.wf(),
            b.wf(),
            a.cols == b.cols,
        ensures
            row@.len() == b.rows,
            forall|j: int|
                0 <= j < b.rows ==> dot_gives(a.row(i as int), b.row(j), #[trigger] row@[j]),
        {
            tabulate(b.rows, |j: usize| -> (r: T)
                requires
                    i < a.rows,
                    j < b.rows,
                    a.wf(),
                    b.wf(),
                    a.cols == b.cols,
                ensures
                    dot_gives(a.row(i as int), b.row(j as int), r),
                { row_dot_row(a, i, b, j) })
        });
    Tensor2::from_rows(rows, b.rows)
}

/// The matrix product of the transpose of `a` and `b`.
pub fn transposed_matmul<T: Real>(a: &Tensor2<T>, b: &Tensor2<T>) -> (product: Tensor2<T>)
    requires
        a.wf(),
        b.wf(),
        a.rows == b.rows,
    ensures
        transposed_matmul_gives(*a, *b, product),
{
    let rows = par_map(a.cols, |i: usize| -> (row: Vec<T>)
        requires
            i < a.cols,
            a.wf(),
            b.wf(),
            a.rows == b.rows,
        ensures
            row@.len() == b.cols,
            forall|j: int|
                0 <= j < b.cols ==> dot_gives(a.col(i as int), b.col(j), #[trigger] row@[j]),
        {
            tabulate(b.cols, |j: usize| -> (r: T)
                requires
                    i < a.cols,
                    j < b.cols,
                    a.wf(),
                    b.wf(),
                    a.rows == b.rows,
                ensures
                    dot_gives(a.col(i as int), b.col(j as int), r),
                { col_dot_col(a, i, b, j) })
        });
    Tensor2::from_rows(rows, b.cols)
}

/// The largest of `items`.
fn largest<T: Real>(items: &Vec<T>) -> (max: T)
    ensures
        max_gives(items@, max),
{
    if items.len() == 0 {
        return T::zero();
    }
    let mut max = items[0];
    let mut i: usize = 1;
    while i < items.len()
        invariant
            1 <= i <= items@.len(),
            max_gives(items@.take(i as int), max),
        decreases items@.len() - i,
    {
        let next = max.larger(items[i]);
        proof {
            assert(items@.take(i + 1).drop_last() =~= items@.take(i as int));
            assert(items@.take(i + 1).last() == items@[i as int]);
        }
        max = next;
        i = i + 1;
    }
    assert(items@.take(i as int) =~= items@);
    max
}

/// Replaces the numbers by their softmax.
pub fn softmax_slice<T: Real>(logits: &mut Vec<T>)
    ensures
        softmax_gives(old(logits)@, final(logits)@),
{
    let max = largest(logits);
    let ghost items = logits@;
    let mut i: usize = 0;
    while i < logits.len()
        invariant
            i <= logits@.len(),
            logits@.len() == items.len(),
            forall|k: int| 0 <= k < i ==> shifted_exp_gives(items[k], max, #[trigger] logits@[k]),
            forall|k: int| i <= k < items.len() ==> #[trigger] logits@[k] == items[k],
        decreases logits@.len() - i,
    {
        logits[i] = logits[i].minus(max).exp();
        i = i + 1;
    }
    let ghost powers = logits@;
    assert(powers_give(items, powers));
    let total = sum(logits);
    i = 0;
    while i < logits.len()
        invariant
            i <= logits@.len(),
            logits@.len() == powers.len(),
            forall|k: int| 0 <= k < i ==> over_gives(powers[k], total, #[trigger] logits@[k]),
            forall|k: int| i <= k < powers.len() ==> #[trigger] logits@[k] == powers[k],
        decreases logits@.len() - i,
    {
        logits[i] = logits[i].over(total);
        i = i + 1;
    }
}

/// `r` is the mean of `items`.
pub open spec fn mean_gives<T: Real>(items: Seq<T>, r: T) -> bool {
    exists|total: T, count: T| #[trigger]
        sum_gives(items, total) && count_gives(items.len() as usize, count)
            && #[trigger] over_gives(total, count, r)
}

/// The mean of `items`.
pub fn mean_of<T: Real>(items: &Vec<T>) -> (r: T)
    ensures
        mean_gives(items@, r),
{
    sum(items).over(T::from_count(items.len()))
}

} // verus!
