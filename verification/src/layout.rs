//! Standard (row-major) layout of an \((n_x, n_y)\) grid.
//!
//! A contiguous grid stores entry \((r, c)\) at offset \(r\,n_y + c\). Rows are
//! contiguous and can be transformed in place; a column is strided, so the 2D
//! transforms copy it into a scratch buffer of length \(n_x\), transform the
//! buffer, and write it back.

use vstd::prelude::*;
use vstd::arithmetic::div_mod::*;
use vstd::arithmetic::mul::*;

verus! {

/// Entry \((r, c)\) of a row-major grid with `ny` columns.
pub open spec fn grid_at<T>(data: Seq<T>, ny: int, r: int, c: int) -> T {
    data[r * ny + c]
}

/// Column `col` of a row-major grid with `ny` columns and `data.len() / ny` rows.
pub open spec fn column_of<T>(data: Seq<T>, ny: int, col: int) -> Seq<T> {
    Seq::new((data.len() / (ny as nat)) as nat, |r: int| data[r * ny + col])
}

/// The grid with column `col` replaced by `column` and every other entry kept.
pub open spec fn with_column<T>(data: Seq<T>, ny: int, col: int, column: Seq<T>) -> Seq<T> {
    Seq::new(data.len(), |k: int| if k % ny == col { column[k / ny] } else { data[k] })
}

/// Offset `r * ny + c` splits back into row `r` and column `c`.
pub proof fn lemma_offset_split(r: int, c: int, ny: int)
    requires
        0 <= r,
        0 <= c < ny,
    ensures
        (r * ny + c) / ny == r,
        (r * ny + c) % ny == c,
{
    lemma_fundamental_div_mod_converse(r * ny + c, ny, r, c);
}

/// Offsets of entries in the first `nx` rows stay below `nx * ny`.
pub proof fn lemma_offset_bound(r: int, c: int, nx: int, ny: int)
    requires
        0 <= r < nx,
        0 <= c < ny,
    ensures
        0 <= r * ny + c < nx * ny,
{
    lemma_mul_inequality(r + 1, nx, ny);
    lemma_mul_nonnegative(r, ny);
    assert((r + 1) * ny == r * ny + ny) by (nonlinear_arith);
}

/// An offset below `nx * ny` lies in one of the first `nx` rows.
pub proof fn lemma_offset_row_bound(k: int, nx: int, ny: int)
    requires
        0 <= k < nx * ny,
        ny > 0,
    ensures
        0 <= k / ny < nx,
        0 <= k % ny < ny,
{
    lemma_fundamental_div_mod(k, ny);
    lemma_mod_bound(k, ny);
    lemma_div_pos_is_pos(k, ny);
    if k / ny >= nx {
        lemma_mul_inequality(nx, k / ny, ny);
        lemma_mul_is_commutative(ny, k / ny);
    }
}

/// Copies column `col` of the row-major grid `data` (with `ny` columns) into
/// `column`, whose length is the number of rows.
pub fn gather_column<T: Copy>(data: &[T], ny: usize, col: usize, column: &mut [T])
    requires
        col < ny,
        data@.len() == old(column)@.len() * ny,
    ensures
        final(column)@.len() == old(column)@.len(),
        forall|r: int| 0 <= r < old(column)@.len() ==> #[trigger] final(column)@[r] == grid_at(data@, ny as int, r, col as int),
        final(column)@ == column_of(data@, ny as int, col as int),
{
    let nx = column.len();
    let total = data.len();
    let ghost old_column = column@;
    let mut r: usize = 0;
    while r < nx
        invariant
            nx == column@.len(),
            nx == old_column.len(),
            total == data@.len(),
            r <= nx,
            col < ny,
            data@.len() == nx * ny,
            forall|k: int| 0 <= k < r ==> #[trigger] column@[k] == grid_at(data@, ny as int, k, col as int),
        decreases nx - r,
    {
        proof {
            lemma_offset_bound(r as int, col as int, nx as int, ny as int);
        }
        column[r] = data[r * ny + col];
        r = r + 1;
    }
    proof {
        assert(data@.len() / (ny as nat) == nx) by {
            lemma_div_multiples_vanish(nx as int, ny as int);
            lemma_mul_is_commutative(nx as int, ny as int);
        }
        assert(column@ =~= column_of(data@, ny as int, col as int));
    }
}

/// Writes `column` into column `col` of the row-major grid `data` (with `ny`
/// columns), leaving every other column unchanged.
pub fn scatter_column<T: Copy>(data: &mut [T], ny: usize, col: usize, column: &[T])
    requires
        col < ny,
        old(data)@.len() == column@.len() * ny,
    ensures
        final(data)@.len() == old(data)@.len(),
        forall|r: int, c: int|
            0 <= r < column@.len() && 0 <= c < ny ==> #[trigger] grid_at(final(data)@, ny as int, r, c) == if c == col {
                column@[r]
            } else {
                grid_at(old(data)@, ny as int, r, c)
            },
        final(data)@ == with_column(old(data)@, ny as int, col as int, column@),
{
    let nx = column.len();
    let total = data.len();
    let ghost old_data = data@;
    let mut r: usize = 0;
    while r < nx
        invariant
            nx == column@.len(),
            total == data@.len(),
            r <= nx,
            col < ny,
            data@.len() == nx * ny,
            old_data.len() == nx * ny,
            forall|k: int|
                0 <= k < nx * ny ==> #[trigger] data@[k] == if k % (ny as int) == col && k / (ny as int) < r {
                    column@[k / (ny as int)]
                } else {
                    old_data[k]
                },
        decreases nx - r,
    {
        proof {
            lemma_offset_bound(r as int, col as int, nx as int, ny as int);
            lemma_offset_split(r as int, col as int, ny as int);
        }
        let ghost before = data@;
        data[r * ny + col] = column[r];
        proof {
            assert forall|k: int| 0 <= k < nx * ny implies #[trigger] data@[k] == if k % (ny as int) == col && k
                / (ny as int) < r + 1 {
                column@[k / (ny as int)]
            } else {
                old_data[k]
            } by {
                if k == r * ny + col {
                } else {
                    assert(before[k] == data@[k]);
                    if k % (ny as int) == col && k / (ny as int) == r {
                        lemma_fundamental_div_mod(k, ny as int);
                        assert(k == (ny as int) * (k / (ny as int)) + k % (ny as int));
                        lemma_mul_is_commutative(ny as int, r as int);
                    }
                }
            }
        }
        r = r + 1;
    }
    proof {
        assert forall|k: int| 0 <= k < nx * ny implies #[trigger] data@[k] == with_column(
            old_data,
            ny as int,
            col as int,
            column@,
        )[k] by {
            lemma_offset_row_bound(k, nx as int, ny as int);
        }
        assert(data@ =~= with_column(old_data, ny as int, col as int, column@));
        assert forall|r: int, c: int| 0 <= r < column@.len() && 0 <= c < ny implies #[trigger] grid_at(
            data@,
            ny as int,
            r,
            c,
        ) == if c == col {
            column@[r]
        } else {
            grid_at(old_data, ny as int, r, c)
        } by {
            lemma_offset_bound(r, c, nx as int, ny as int);
            lemma_offset_split(r, c, ny as int);
        }
    }
}

/// Gathering a column and scattering it straight back leaves the grid as it was.
pub proof fn lemma_scatter_gathered_column<T>(data: Seq<T>, nx: int, ny: int, col: int)
    requires
        0 <= col < ny,
        0 <= nx,
        data.len() == nx * ny,
    ensures
        with_column(data, ny, col, column_of(data, ny, col)) == data,
{
    let column = column_of(data, ny, col);
    lemma_div_multiples_vanish(nx, ny);
    lemma_mul_is_commutative(nx, ny);
    assert forall|k: int| 0 <= k < data.len() && k % ny == col implies #[trigger] column[k / ny] == data[k] by {
        lemma_offset_row_bound(k, nx, ny);
        lemma_fundamental_div_mod(k, ny);
        lemma_mul_is_commutative(ny, k / ny);
    }
    assert(with_column(data, ny, col, column) =~= data);
}

/// Reading back a column that was just written gives what was written.
pub proof fn lemma_gather_scattered_column<T>(data: Seq<T>, ny: int, col: int, column: Seq<T>)
    requires
        0 <= col < ny,
        data.len() == column.len() * ny,
    ensures
        column_of(with_column(data, ny, col, column), ny, col) == column,
{
    let updated = with_column(data, ny, col, column);
    lemma_div_multiples_vanish(column.len() as int, ny);
    lemma_mul_is_commutative(column.len() as int, ny);
    assert forall|r: int| 0 <= r < column.len() implies #[trigger] column_of(updated, ny, col)[r] == column[r] by {
        lemma_offset_bound(r, col, column.len() as int, ny);
        lemma_offset_split(r, col, ny);
    }
    assert(column_of(updated, ny, col) =~= column);
}

/// Writing one column leaves every other column untouched.
pub proof fn lemma_scatter_keeps_other_columns<T>(
    data: Seq<T>,
    ny: int,
    col: int,
    other: int,
    column: Seq<T>,
)
    requires
        0 <= col < ny,
        0 <= other < ny,
        other != col,
        data.len() == column.len() * ny,
    ensures
        column_of(with_column(data, ny, col, column), ny, other) == column_of(data, ny, other),
{
    let updated = with_column(data, ny, col, column);
    assert forall|r: int| 0 <= r < column_of(data, ny, other).len() implies #[trigger] column_of(updated, ny, other)[r]
        == column_of(data, ny, other)[r] by {
        lemma_div_multiples_vanish(column.len() as int, ny);
        lemma_mul_is_commutative(column.len() as int, ny);
        lemma_offset_bound(r, other, column.len() as int, ny);
        lemma_offset_split(r, other, ny);
    }
    assert(column_of(updated, ny, other) =~= column_of(data, ny, other));
}

} // verus!
