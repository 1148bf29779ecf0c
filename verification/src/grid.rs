//! Tables of tokens and tables of flags, held in `ndarray` arrays.

use crate::tensor::lemma_index_in_range;
use ndarray::Array2;
use vstd::prelude::*;

verus! {

/// A table of tokens: an `ndarray::Array2<usize>`.
#[verifier::external_body]
pub struct TokenArray(Array2<usize>);

/// The number of rows and of columns of a token table.
pub uninterp spec fn token_dim(a: TokenArray) -> (nat, nat);

/// The entries of a token table, row after row.
pub uninterp spec fn token_items(a: TokenArray) -> Seq<usize>;

/// A table of flags: an `ndarray::Array2<bool>`.
#[verifier::external_body]
pub struct FlagArray(Array2<bool>);

/// The number of rows and of columns of a flag table.
pub uninterp spec fn flag_dim(a: FlagArray) -> (nat, nat);

/// The entries of a flag table, row after row.
pub uninterp spec fn flag_items(a: FlagArray) -> Seq<bool>;

/// `ndarray` accepts the shape for `len` items: the items fill it exactly, and the product of
/// the lengths that are not zero does not exceed `isize::MAX`.
pub open spec fn shape_accepted(rows: int, cols: int, len: int) -> bool {
    &&& len == rows * cols
    &&& (if rows == 0 {
        1
    } else {
        rows
    }) * (if cols == 0 {
        1
    } else {
        cols
    }) <= isize::MAX
}

/// `Array2::from_shape_vec` on a row-major shape.
///
/// The call succeeds exactly where the items fill the shape and the product of the lengths that
/// are not zero does not exceed `isize::MAX`; the array then has that shape and, row after row,
/// those items.
#[verifier::external_body]
fn tokens_from_shape_vec(rows: usize, cols: usize, items: Vec<usize>) -> (table: Option<TokenArray>)
    ensures
        table is Some <==> shape_accepted(rows as int, cols as int, items@.len() as int),
        table matches Some(a) ==> token_dim(a) == (rows as nat, cols as nat) && token_items(a)
            == items@,
{
    Array2::from_shape_vec((rows, cols), items).ok().map(TokenArray)
}

/// `Array2::dim`: the number of rows and of columns. An array holds one entry for each position.
#[verifier::external_body]
fn tokens_dim(a: &TokenArray) -> (dim: (usize, usize))
    ensures
        dim.0 == token_dim(*a).0,
        dim.1 == token_dim(*a).1,
        token_items(*a).len() == dim.0 * dim.1,
        dim.0 * dim.1 <= isize::MAX,
{
    a.0.dim()
}

/// Indexing an `Array2` by row and column, which panics outside the array.
#[verifier::external_body]
fn tokens_get(a: &TokenArray, r: usize, c: usize) -> (token: usize)
    requires
        r < token_dim(*a).0,
        c < token_dim(*a).1,
    ensures
        token == token_items(*a)[r * token_dim(*a).1 + c],
{
    a.0[[r, c]]
}

/// `Array2::clone`: an array of the same shape with the same entries.
#[verifier::external_body]
fn tokens_clone(a: &TokenArray) -> (copy: TokenArray)
    ensures
        token_dim(copy) == token_dim(*a),
        token_items(copy) == token_items(*a),
{
    TokenArray(a.0.clone())
}

/// `Array2::from_shape_vec` on a row-major shape, for flags.
///
/// The call succeeds exactly where the items fill the shape and the product of the lengths that
/// are not zero does not exceed `isize::MAX`; the array then has that shape and, row after row,
/// those items.
#[verifier::external_body]
fn flags_from_shape_vec(rows: usize, cols: usize, items: Vec<bool>) -> (table: Option<FlagArray>)
    ensures
        table is Some <==> shape_accepted(rows as int, cols as int, items@.len() as int),
        table matches Some(a) ==> flag_dim(a) == (rows as nat, cols as nat) && flag_items(a)
            == items@,
{
    Array2::from_shape_vec((rows, cols), items).ok().map(FlagArray)
}

/// Indexing an `Array2` of flags by row and column, which panics outside the array.
#[verifier::external_body]
fn flags_get(a: &FlagArray, r: usize, c: usize) -> (flag: bool)
    requires
        r < flag_dim(*a).0,
        c < flag_dim(*a).1,
    ensures
        flag == flag_items(*a)[r * flag_dim(*a).1 + c],
{
    a.0[[r, c]]
}

impl TokenArray {
    /// The number of rows.
    pub open spec fn rows(self) -> int {
        token_dim(self).0 as int
    }

    /// The number of columns.
    pub open spec fn cols(self) -> int {
        token_dim(self).1 as int
    }

    /// The token in row `r` and column `c`.
    pub open spec fn at(self, r: int, c: int) -> usize {
        token_items(self)[r * self.cols() + c]
    }

    /// Every token lies below `bound`.
    pub open spec fn all_below(self, bound: int) -> bool {
        forall|r: int, c: int|
            0 <= r < self.rows() && 0 <= c < self.cols() ==> (#[trigger] self.at(r, c)) < bound
    }

    /// The two tables have the same shape and the same tokens.
    pub open spec fn same(self, other: TokenArray) -> bool {
        token_dim(self) == token_dim(other) && token_items(self) == token_items(other)
    }

    /// The table of `rows` rows of `cols` tokens whose tokens, row after row, are `items`;
    /// `None` where the items do not fill it, or it is too large for an array.
    pub fn from_shape_vec(rows: usize, cols: usize, items: Vec<usize>) -> (table: Option<TokenArray>)
        ensures
            table is Some <==> shape_accepted(rows as int, cols as int, items@.len() as int),
            table matches Some(a) ==> a.rows() == rows && a.cols() == cols && token_items(a)
                == items@,
    {
        tokens_from_shape_vec(rows, cols, items)
    }

    /// The number of rows and of columns.
    pub fn dim(&self) -> (dim: (usize, usize))
        ensures
            dim.0 == self.rows(),
            dim.1 == self.cols(),
            token_items(*self).len() == dim.0 * dim.1,
            dim.0 * dim.1 <= isize::MAX,
    {
        tokens_dim(self)
    }

    /// The token in row `r` and column `c`.
    pub fn get(&self, r: usize, c: usize) -> (token: usize)
        requires
            r < self.rows(),
            c < self.cols(),
        ensures
            token == self.at(r as int, c as int),
    {
        tokens_get(self, r, c)
    }

    /// A copy of the table.
    pub fn duplicate(&self) -> (copy: TokenArray)
        ensures
            copy.same(*self),
    {
        tokens_clone(self)
    }
}

impl FlagArray {
    /// The table is square with this side, and a flag is set exactly where the column lies
    /// behind the row.
    pub open spec fn is_causal(self, side: int) -> bool {
        &&& flag_dim(self) == (side as nat, side as nat)
        &&& forall|i: int, j: int|
            0 <= i < side && 0 <= j < side ==> #[trigger] flag_items(self)[i * side + j] == (j > i)
    }

    /// The flag in row `r` and column `c`.
    pub fn get(&self, r: usize, c: usize) -> (flag: bool)
        requires
            r < flag_dim(*self).0,
            c < flag_dim(*self).1,
        ensures
            flag == flag_items(*self)[r * flag_dim(*self).1 + c],
    {
        flags_get(self, r, c)
    }

    /// The square table of this side in which a flag is set exactly where the column lies behind
    /// the row.
    pub fn causal(side: usize) -> (mask: FlagArray)
        requires
            side * side <= isize::MAX,
        ensures
            mask.is_causal(side as int),
    {
        let mut items: Vec<bool> = Vec::new();
        let mut i: usize = 0;
        assert(0 * side == 0) by (nonlinear_arith);
        while i < side
            invariant
                i <= side,
                items@.len() == i * side,
                forall|a: int, b: int|
                    0 <= a < i && 0 <= b < side ==> #[trigger] items@[a * side + b] == (b > a),
            decreases side - i,
        {
            let ghost before = items@;
            let mut j: usize = 0;
            while j < side
                invariant
                    i < side,
                    j <= side,
                    items@.len() == before.len() + j,
                    forall|x: int| 0 <= x < before.len() ==> items@[x] == before[x],
                    forall|b: int| 0 <= b < j ==> #[trigger] items@[before.len() + b] == (b > i),
                decreases side - j,
            {
                items.push(j > i);
                j = j + 1;
            }
            assert((i + 1) * side == i * side + side) by (nonlinear_arith);
            assert forall|a: int, b: int|
                0 <= a < i + 1 && 0 <= b < side implies #[trigger] items@[a
                * side + b] == (b > a) by {
                if a < i {
                    lemma_index_in_range(a, i as int, b, side as int);
                    assert(before[a * side + b] == (b > a));
                } else {
                    assert(items@[before.len() + b] == (b > i));
                }
            }
            i = i + 1;
        }
        let table = flags_from_shape_vec(side, side, items);
        table.unwrap()
    }
}

} // verus!
