//! Operations that combine two tensors entry by entry.

use crate::scalar::{plus_gives, times_gives, Real};
use crate::tensor::{lemma_index_in_range, Tensor2, Tensor3};
use vstd::prelude::*;

verus! {

/// Every item of `r` is the sum of the items of `a` and `b` at its place.
pub open spec fn items_plus_give<T: Real>(a: Seq<T>, b: Seq<T>, r: Seq<T>) -> bool {
    a.len() == r.len() && b.len() == r.len() && forall|i: int|
        0 <= i < r.len() ==> plus_gives(a[i], b[i], #[trigger] r[i])
}

/// Every item of `r` is the product of the items of `a` and `b` at its place.
pub open spec fn items_times_give<T: Real>(a: Seq<T>, b: Seq<T>, r: Seq<T>) -> bool {
    a.len() == r.len() && b.len() == r.len() && forall|i: int|
        0 <= i < r.len() ==> times_gives(a[i], b[i], #[trigger] r[i])
}

/// `r` is the sum of two stacks of the same shape.
pub open spec fn plus_tensor_gives<T: Real>(a: Tensor3<T>, b: Tensor3<T>, r: Tensor3<T>) -> bool {
    r.wf() && r.same_shape(a) && items_plus_give(a.flat.data@, b.flat.data@, r.flat.data@)
}

/// `r` is the product, entry by entry, of two stacks of the same shape.
pub open spec fn times_tensor_gives<T: Real>(a: Tensor3<T>, b: Tensor3<T>, r: Tensor3<T>) -> bool {
    r.wf() && r.same_shape(a) && items_times_give(a.flat.data@, b.flat.data@, r.flat.data@)
}

/// The sums of the items of `a` and `b`.
pub fn plus_items<T: Real>(a: &Vec<T>, b: &Vec<T>) -> (r: Vec<T>)
    requires
        a@.len() == b@.len(),
    ensures
        items_plus_give(a@, b@, r@),
{
    let mut r: Vec<T> = Vec::new();
    let mut i: usize = 0;
    while i < a.len()
        invariant
            i <= a@.len(),
            a@.len() == b@.len(),
            r@.len() == i,
            forall|k: int| 0 <= k < i ==> plus_gives(a@[k], b@[k], #[trigger] r@[k]),
        decreases a@.len() - i,
    {
        let item = a[i].plus(b[i]);
        r.push(item);
        i = i + 1;
    }
    r
}

/// The products of the items of `a` and `b`.
pub fn times_items<T: Real>(a: &Vec<T>, b: &Vec<T>) -> (r: Vec<T>)
    requires
        a@.len() == b@.len(),
    ensures
        items_times_give(a@, b@, r@),
{
    let mut r: Vec<T> = Vec::new();
    let mut i: usize = 0;
    while i < a.len()
        invariant
            i <= a@.len(),
            a@.len() == b@.len(),
            r@.len() == i,
            forall|k: int| 0 <= k < i ==> times_gives(a@[k], b@[k], #[trigger] r@[k]),
        decreases a@.len() - i,
    {
        let item = a[i].times(b[i]);
        r.push(item);
        i = i + 1;
    }
    r
}

/// The sum of two matrices of the same shape.
pub fn plus_matrix<T: Real>(a: &Tensor2<T>, b: &Tensor2<T>) -> (r: Tensor2<T>)
    requires
        a.wf(),
        b.wf(),
        a.rows == b.rows,
        a.cols == b.cols,
    ensures
        r.has_shape(a.rows as int, a.cols as int),
        items_plus_give(a.data@, b.data@, r.data@),
        forall|i: int, j: int|
            0 <= i < a.rows && 0 <= j < a.cols ==> plus_gives(
                a.at(i, j),
                b.at(i, j),
                #[trigger] r.at(i, j),
            ),
{
    let r = Tensor2 { rows: a.rows, cols: a.cols, data: plus_items(&a.data, &b.data) };
    proof {
        assert forall|i: int, j: int| 0 <= i < a.rows && 0 <= j < a.cols implies plus_gives(
            a.at(i, j),
            b.at(i, j),
            #[trigger] r.at(i, j),
        ) by {
            lemma_index_in_range(i, a.rows as int, j, a.cols as int);
        }
    }
    r
}

/// The sum of two stacks of the same shape.
pub fn plus_tensor<T: Real>(a: &Tensor3<T>, b: &Tensor3<T>) -> (r: Tensor3<T>)
    requires
        a.wf(),
        b.wf(),
        a.same_shape(*b),
    ensures
        plus_tensor_gives(*a, *b, r),
{
    Tensor3 { outer: a.outer, inner: a.inner, flat: plus_matrix(&a.flat, &b.flat) }
}

/// The product, entry by entry, of two stacks of the same shape.
pub fn times_tensor<T: Real>(a: &Tensor3<T>, b: &Tensor3<T>) -> (r: Tensor3<T>)
    requires
        a.wf(),
        b.wf(),
        a.same_shape(*b),
    ensures
        times_tensor_gives(*a, *b, r),
{
    let flat = Tensor2 {
        rows: a.flat.rows,
        cols: a.flat.cols,
        data: times_items(&a.flat.data, &b.flat.data),
    };
    Tensor3 { outer: a.outer, inner: a.inner, flat }
}

} // verus!
