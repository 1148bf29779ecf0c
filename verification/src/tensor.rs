//! Matrices and stacks of matrices, stored row after row.

use vstd::prelude::*;

verus! {

/// Position `(r, c)` of a table with `rows` rows of `cols` entries lies within the table.
pub proof fn lemma_index_in_range(r: int, rows: int, c: int, cols: int)
    requires
        0 <= r < rows,
        0 <= c < cols,
    ensures
        0 <= r * cols,
        0 <= r * cols + c < rows * cols,
        r * cols + cols <= rows * cols,
{
    assert(0 <= r * cols && r * cols + cols <= rows * cols) by (nonlinear_arith)
        requires
            0 <= r < rows,
            0 <= c < cols,
    ;
}

/// Two positions of a table that have the same index are the same position.
pub proof fn lemma_index_injective(r1: int, c1: int, r2: int, c2: int, cols: int)
    requires
        0 <= c1 < cols,
        0 <= c2 < cols,
        r1 * cols + c1 == r2 * cols + c2,
    ensures
        r1 == r2,
        c1 == c2,
{
    assert(r1 == r2) by (nonlinear_arith)
        requires
            0 <= c1 < cols,
            0 <= c2 < cols,
            r1 * cols + c1 == r2 * cols + c2,
    ;
}

/// The quotient and the remainder of an index by the row length are its row and its column.
pub proof fn lemma_index_split(r: int, c: int, cols: int)
    requires
        0 <= r,
        0 <= c < cols,
    ensures
        (r * cols + c) / cols == r,
        (r * cols + c) % cols == c,
{
    vstd::arithmetic::div_mod::lemma_fundamental_div_mod_converse(r * cols + c, cols, r, c);
}

/// An index is made of the row and the column that division by the row length gives.
pub proof fn lemma_split_index(i: int, rows: int, cols: int)
    requires
        0 <= i < rows * cols,
        0 <= rows,
        0 < cols,
    ensures
        0 <= i / cols < rows,
        0 <= i % cols < cols,
        (i / cols) * cols + i % cols == i,
{
    vstd::arithmetic::div_mod::lemma_fundamental_div_mod(i, cols);
    assert((i / cols) * cols == cols * (i / cols)) by (nonlinear_arith);
    assert(0 <= i / cols < rows) by (nonlinear_arith)
        requires
            0 <= i < rows * cols,
            0 < cols,
            0 <= i % cols < cols,
            (i / cols) * cols + i % cols == i,
    ;
}

/// A copy of `items`.
pub fn copy_vec<T: Copy>(items: &Vec<T>) -> (copy: Vec<T>)
    ensures
        copy@ == items@,
{
    let mut copy: Vec<T> = Vec::new();
    let mut i: usize = 0;
    while i < items.len()
        invariant
            i <= items@.len(),
            copy@ == items@.take(i as int),
        decreases items@.len() - i,
    {
        copy.push(items[i]);
        i = i + 1;
        assert(items@.take(i as int) =~= items@.take(i - 1).push(items@[i - 1]));
    }
    assert(items@.take(i as int) =~= items@);
    copy
}

/// `count` copies of `value`.
pub fn filled_vec<T: Copy>(count: usize, value: T) -> (items: Vec<T>)
    ensures
        items@ == Seq::new(count as nat, |i: int| value),
{
    let mut items: Vec<T> = Vec::new();
    let mut i: usize = 0;
    while i < count
        invariant
            i <= count,
            items@ =~= Seq::new(i as nat, |k: int| value),
        decreases count - i,
    {
        items.push(value);
        i = i + 1;
    }
    items
}

/// The list whose element `i` is what `f` returned for `i`.
pub fn tabulate<R, F: Fn(usize) -> R>(count: usize, f: F) -> (items: Vec<R>)
    requires
        forall|i: usize| i < count ==> #[trigger] call_requires(f, (i,)),
    ensures
        items@.len() == count,
        forall|i: int| 0 <= i < count ==> call_ensures(f, (i as usize,), #[trigger] items@[i]),
{
    let mut items: Vec<R> = Vec::new();
    let mut i: usize = 0;
    while i < count
        invariant
            i <= count,
            items@.len() == i,
            forall|k: usize| k < count ==> #[trigger] call_requires(f, (k,)),
            forall|k: int| 0 <= k < i ==> call_ensures(f, (k as usize,), #[trigger] items@[k]),
        decreases count - i,
    {
        let item = f(i);
        items.push(item);
        i = i + 1;
    }
    items
}

/// The parts laid one behind the other.
pub fn concat_parts<T: Copy>(parts: &Vec<Vec<T>>, size: usize) -> (items: Vec<T>)
    requires
        forall|i: int| 0 <= i < parts@.len() ==> (#[trigger] parts@[i])@.len() == size,
    ensures
        items@.len() == parts@.len() * size,
        forall|i: int, x: int|
            0 <= i < parts@.len() && 0 <= x < size ==> #[trigger] items@[i * size + x]
                == parts@[i]@[x],
{
    let mut items: Vec<T> = Vec::new();
    let mut i: usize = 0;
    assert(0 * size == 0) by (nonlinear_arith);
    while i < parts.len()
        invariant
            i <= parts@.len(),
            items@.len() == i * size,
            forall|k: int| 0 <= k < parts@.len() ==> (#[trigger] parts@[k])@.len() == size,
            forall|k: int, x: int|
                0 <= k < i && 0 <= x < size ==> #[trigger] items@[k * size + x] == parts@[k]@[x],
        decreases parts@.len() - i,
    {
        let part = &parts[i];
        let ghost before = items@;
        let mut x: usize = 0;
        while x < size
            invariant
                x <= size,
                part@.len() == size,
                items@ == before + part@.take(x as int),
            decreases size - x,
        {
            items.push(part[x]);
            x = x + 1;
            assert(part@.take(x as int) =~= part@.take(x - 1).push(part@[x - 1]));
        }
        assert((i + 1) * size == i * size + size) by (nonlinear_arith);
        assert forall|k: int, y: int| 0 <= k < i + 1 && 0 <= y < size implies #[trigger] items@[k
            * size + y] == parts@[k]@[y] by {
            if k < i {
                lemma_index_in_range(k, i as int, y, size as int);
                assert(before[k * size + y] == parts@[k]@[y]);
            }
        }
        i = i + 1;
    }
    items
}

/// A matrix.
pub struct Tensor2<T> {
    pub rows: usize,
    pub cols: usize,
    pub data: Vec<T>,
}

impl<T> Tensor2<T> {
    /// The data holds exactly the entries of the matrix.
    pub open spec fn wf(self) -> bool {
        self.data@.len() == self.rows * self.cols
    }

    /// The matrix has this shape, and data to go with it.
    pub open spec fn has_shape(self, rows: int, cols: int) -> bool {
        self.wf() && self.rows == rows && self.cols == cols
    }

    /// The entry in row `r` and column `c`.
    pub open spec fn at(self, r: int, c: int) -> T {
        self.data@[r * self.cols + c]
    }

    /// Row `r`.
    pub open spec fn row(self, r: int) -> Seq<T> {
        Seq::new(self.cols as nat, |c: int| self.at(r, c))
    }

    /// Column `c`.
    pub open spec fn col(self, c: int) -> Seq<T> {
        Seq::new(self.rows as nat, |r: int| self.at(r, c))
    }

    /// The two matrices have the same shape and the same entries.
    pub open spec fn same(self, other: Tensor2<T>) -> bool {
        self.rows == other.rows && self.cols == other.cols && self.data@ == other.data@
    }
}

impl<T: Copy> Tensor2<T> {
    /// The entry in row `r` and column `c`.
    pub fn get(&self, r: usize, c: usize) -> (value: T)
        requires
            self.wf(),
            r < self.rows,
            c < self.cols,
        ensures
            value == self.at(r as int, c as int),
    {
        proof {
            lemma_index_in_range(r as int, self.rows as int, c as int, self.cols as int);
            assert(self.data@.len() == self.data.len());
        }
        self.data[r * self.cols + c]
    }

    /// Replaces the entry in row `r` and column `c`.
    pub fn set(&mut self, r: usize, c: usize, value: T)
        requires
            old(self).wf(),
            r < old(self).rows,
            c < old(self).cols,
        ensures
            final(self).has_shape(old(self).rows as int, old(self).cols as int),
            final(self).at(r as int, c as int) == value,
            forall|r2: int, c2: int|
                0 <= r2 < old(self).rows && 0 <= c2 < old(self).cols && (r2 != r || c2 != c)
                    ==> #[trigger] final(self).at(r2, c2) == old(self).at(r2, c2),
    {
        proof {
            lemma_index_in_range(r as int, self.rows as int, c as int, self.cols as int);
            assert(self.data@.len() == self.data.len());
        }
        let i: usize = r * self.cols + c;
        self.data[i] = value;
        proof {
            assert forall|r2: int, c2: int|
                0 <= r2 < self.rows && 0 <= c2 < self.cols && (r2 != r || c2
                    != c) implies #[trigger] self.at(r2, c2) == old(self).at(r2, c2) by {
                lemma_index_in_range(r2, self.rows as int, c2, self.cols as int);
                if r2 * self.cols + c2 == i {
                    lemma_index_injective(r2, c2, r as int, c as int, self.cols as int);
                }
            }
        }
    }

    /// The matrix with the given rows.
    pub fn from_rows(parts: Vec<Vec<T>>, cols: usize) -> (matrix: Tensor2<T>)
        requires
            forall|r: int| 0 <= r < parts@.len() ==> (#[trigger] parts@[r])@.len() == cols,
        ensures
            matrix.has_shape(parts@.len() as int, cols as int),
            forall|r: int, c: int|
                0 <= r < parts@.len() && 0 <= c < cols ==> #[trigger] matrix.at(r, c)
                    == parts@[r]@[c],
            forall|r: int| 0 <= r < parts@.len() ==> #[trigger] matrix.row(r) == parts@[r]@,
    {
        let matrix = Tensor2 { rows: parts.len(), cols, data: concat_parts(&parts, cols) };
        proof {
            assert forall|r: int| 0 <= r < parts@.len() implies #[trigger] matrix.row(r)
                == parts@[r]@ by {
                assert forall|c: int| 0 <= c < cols implies matrix.at(r, c) == parts@[r]@[c] by {
                    assert(matrix.data@[r * cols + c] == parts@[r]@[c]);
                }
                assert(matrix.row(r) =~= parts@[r]@);
            }
            assert forall|r: int, c: int|
                0 <= r < parts@.len() && 0 <= c < cols implies #[trigger] matrix.at(r, c)
                == parts@[r]@[c] by {
                assert(matrix.row(r)[c] == parts@[r]@[c]);
            }
        }
        matrix
    }

    /// The matrix whose entries are all `value`.
    pub fn filled(rows: usize, cols: usize, value: T) -> (matrix: Tensor2<T>)
        requires
            rows * cols <= usize::MAX,
        ensures
            matrix.has_shape(rows as int, cols as int),
            forall|i: int| 0 <= i < rows * cols ==> #[trigger] matrix.data@[i] == value,
    {
        Tensor2 { rows, cols, data: filled_vec(rows * cols, value) }
    }

    /// A copy of row `r`.
    pub fn row_vec(&self, r: usize) -> (row: Vec<T>)
        requires
            self.wf(),
            r < self.rows,
        ensures
            row@ == self.row(r as int),
    {
        let row = tabulate(self.cols, |c: usize| -> (value: T)
            requires
                self.wf(),
                r < self.rows,
                c < self.cols,
            ensures
                value == self.at(r as int, c as int),
            { self.get(r, c) });
        assert(row@ =~= self.row(r as int));
        row
    }

    /// A copy of the matrix.
    pub fn duplicate(&self) -> (copy: Tensor2<T>)
        ensures
            copy.same(*self),
            self.wf() ==> copy.wf(),
    {
        Tensor2 { rows: self.rows, cols: self.cols, data: copy_vec(&self.data) }
    }

    /// The columns `start..start + count`.
    pub fn columns(&self, start: usize, count: usize) -> (part: Tensor2<T>)
        requires
            self.wf(),
            start + count <= self.cols,
        ensures
            part.has_shape(self.rows as int, count as int),
            forall|r: int, c: int|
                0 <= r < self.rows && 0 <= c < count ==> #[trigger] part.at(r, c) == self.at(
                    r,
                    start + c,
                ),
    {
        let parts = tabulate(self.rows, |r: usize| -> (row: Vec<T>)
            requires
                r < self.rows,
                self.wf(),
                start + count <= self.cols,
            ensures
                row@.len() == count,
                forall|c: int|
                    0 <= c < count ==> #[trigger] row@[c] == self.at(r as int, start + c),
            {
                tabulate(count, |c: usize| -> (value: T)
                    requires
                        r < self.rows,
                        c < count,
                        self.wf(),
                        start + count <= self.cols,
                    ensures
                        value == self.at(r as int, start + c),
                    { self.get(r, start + c) })
            });
        let part = Tensor2::from_rows(parts, count);
        part
    }
}

/// A stack of `outer` matrices of the same shape, kept as one matrix: row `j` of matrix `i` is
/// row `i * inner + j` of `flat`.
pub struct Tensor3<T> {
    pub outer: usize,
    pub inner: usize,
    pub flat: Tensor2<T>,
}

impl<T> Tensor3<T> {
    /// The rows of all matrices are there.
    pub open spec fn wf(self) -> bool {
        self.flat.wf() && self.flat.rows == self.outer * self.inner
    }

    /// The stack has this shape, and data to go with it.
    pub open spec fn has_shape(self, outer: int, inner: int, width: int) -> bool {
        self.wf() && self.outer == outer && self.inner == inner && self.flat.cols == width
    }

    /// The two stacks have the same shape.
    pub open spec fn same_shape<U>(self, other: Tensor3<U>) -> bool {
        self.outer == other.outer && self.inner == other.inner && self.flat.cols == other.flat.cols
    }

    /// Entry `k` of row `j` of matrix `i`.
    pub open spec fn cell(self, i: int, j: int, k: int) -> T {
        self.flat.at(i * self.inner + j, k)
    }

    /// Row `j` of matrix `i`.
    pub open spec fn row(self, i: int, j: int) -> Seq<T> {
        self.flat.row(i * self.inner + j)
    }

    /// Column `k` of matrix `i`.
    pub open spec fn col(self, i: int, k: int) -> Seq<T> {
        Seq::new(self.inner as nat, |j: int| self.cell(i, j, k))
    }

    /// The two stacks have the same shape and the same entries.
    pub open spec fn same(self, other: Tensor3<T>) -> bool {
        self.outer == other.outer && self.inner == other.inner && self.flat.same(other.flat)
    }
}

/// Index `k` of row `j` of matrix `i`, counted from the start of matrix `i`.
proof fn lemma_slab_index(i: int, j: int, k: int, inner: int, width: int)
    ensures
        (i * inner + j) * width + k == i * (inner * width) + (j * width + k),
{
    assert((i * inner + j) * width == i * (inner * width) + j * width) by (nonlinear_arith);
}

impl<T: Copy> Tensor3<T> {
    /// Entry `k` of row `j` of matrix `i`.
    pub fn get(&self, i: usize, j: usize, k: usize) -> (value: T)
        requires
            self.wf(),
            i < self.outer,
            j < self.inner,
            k < self.flat.cols,
        ensures
            value == self.cell(i as int, j as int, k as int),
    {
        proof {
            lemma_index_in_range(i as int, self.outer as int, j as int, self.inner as int);
        }
        self.flat.get(i * self.inner + j, k)
    }

    /// A copy of the stack.
    pub fn duplicate(&self) -> (copy: Tensor3<T>)
        ensures
            copy.same(*self),
            self.wf() ==> copy.wf(),
    {
        Tensor3 { outer: self.outer, inner: self.inner, flat: self.flat.duplicate() }
    }

    /// A copy of matrix `i`.
    pub fn slab(&self, i: usize) -> (matrix: Tensor2<T>)
        requires
            self.wf(),
            i < self.outer,
        ensures
            matrix.has_shape(self.inner as int, self.flat.cols as int),
            forall|j: int, k: int|
                0 <= j < self.inner && 0 <= k < self.flat.cols ==> #[trigger] matrix.at(j, k)
                    == self.cell(i as int, j, k),
            forall|j: int|
                0 <= j < self.inner ==> #[trigger] matrix.row(j) == self.row(i as int, j),
            forall|k: int|
                0 <= k < self.flat.cols ==> #[trigger] matrix.col(k) == self.col(i as int, k),
    {
        let parts = tabulate(self.inner, |j: usize| -> (row: Vec<T>)
            requires
                self.wf(),
                i < self.outer,
                j < self.inner,
            ensures
                row@ == self.row(i as int, j as int),
            {
                let row = tabulate(self.flat.cols, |k: usize| -> (value: T)
                    requires
                        self.wf(),
                        i < self.outer,
                        j < self.inner,
                        k < self.flat.cols,
                    ensures
                        value == self.cell(i as int, j as int, k as int),
                    { self.get(i, j, k) });
                assert(row@ =~= self.row(i as int, j as int));
                row
            });
        let matrix = Tensor2::from_rows(parts, self.flat.cols);
        proof {
            assert forall|j: int, k: int|
                0 <= j < self.inner && 0 <= k < self.flat.cols implies #[trigger] matrix.at(j, k)
                == self.cell(i as int, j, k) by {
                assert(matrix.row(j)[k] == self.row(i as int, j)[k]);
            }
            assert forall|k: int| 0 <= k < self.flat.cols implies #[trigger] matrix.col(k)
                == self.col(i as int, k) by {
                assert(matrix.col(k) =~= self.col(i as int, k));
            }
        }
        matrix
    }

    /// The stack of the given matrices.
    pub fn stack(slabs: Vec<Tensor2<T>>, inner: usize, width: usize) -> (stack: Tensor3<T>)
        requires
            slabs@.len() * inner <= usize::MAX,
            forall|i: int|
                0 <= i < slabs@.len() ==> (#[trigger] slabs@[i]).has_shape(
                    inner as int,
                    width as int,
                ),
        ensures
            stack.has_shape(slabs@.len() as int, inner as int, width as int),
            forall|i: int, j: int, k: int|
                0 <= i < slabs@.len() && 0 <= j < inner && 0 <= k < width
                    ==> #[trigger] stack.cell(i, j, k) == slabs@[i].at(j, k),
            forall|i: int, j: int|
                0 <= i < slabs@.len() && 0 <= j < inner ==> #[trigger] stack.row(i, j)
                    == slabs@[i].row(j),
    {
        let outer: usize = slabs.len();
        let ghost size: int = inner * width;
        let mut data: Vec<T> = Vec::new();
        let mut i: usize = 0;
        assert(0 * size == 0) by (nonlinear_arith);
        while i < outer
            invariant
                i <= outer,
                outer == slabs@.len(),
                size == inner * width,
                data@.len() == i * size,
                forall|a: int|
                    0 <= a < slabs@.len() ==> (#[trigger] slabs@[a]).has_shape(
                        inner as int,
                        width as int,
                    ),
                forall|a: int, x: int|
                    0 <= a < i && 0 <= x < size ==> #[trigger] data@[a * size + x]
                        == slabs@[a].data@[x],
            decreases outer - i,
        {
            let part = &slabs[i].data;
            let ghost before = data@;
            let mut x: usize = 0;
            while x < part.len()
                invariant
                    x <= part@.len(),
                    part@.len() == size,
                    data@ == before + part@.take(x as int),
                decreases part@.len() - x,
            {
                data.push(part[x]);
                x = x + 1;
                assert(part@.take(x as int) =~= part@.take(x - 1).push(part@[x - 1]));
            }
            assert((i + 1) * size == i * size + size) by (nonlinear_arith);
            assert forall|a: int, y: int|
                0 <= a < i + 1 && 0 <= y < size implies #[trigger] data@[a * size + y]
                == slabs@[a].data@[y] by {
                if a < i {
                    lemma_index_in_range(a, i as int, y, size);
                    assert(before[a * size + y] == slabs@[a].data@[y]);
                }
            }
            i = i + 1;
        }
        let stack = Tensor3 { outer, inner, flat: Tensor2 { rows: outer * inner, cols: width, data } };
        proof {
            lemma_slab_index(outer as int, 0, 0, inner as int, width as int);
            assert(stack.wf());
            assert forall|a: int, j: int, k: int|
                0 <= a < slabs@.len() && 0 <= j < inner && 0 <= k < width implies #[trigger]
                stack.cell(a, j, k) == slabs@[a].at(j, k) by {
                lemma_slab_index(a, j, k, inner as int, width as int);
                lemma_index_in_range(j, inner as int, k, width as int);
                assert(data@[a * size + (j * width + k)] == slabs@[a].data@[j * width + k]);
            }
            assert forall|a: int, j: int|
                0 <= a < slabs@.len() && 0 <= j < inner implies #[trigger] stack.row(a, j)
                == slabs@[a].row(j) by {
                assert forall|k: int| 0 <= k < width implies stack.row(a, j)[k]
                    == slabs@[a].row(j)[k] by {
                    assert(stack.cell(a, j, k) == slabs@[a].at(j, k));
                }
                assert(stack.row(a, j) =~= slabs@[a].row(j));
            }
        }
        stack
    }
}

} // verus!
