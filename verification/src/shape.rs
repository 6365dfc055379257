//! Sizes of flat row-major matrices.

use vstd::prelude::*;

verus! {

/// Whether `len` elements are exactly a matrix of `rows` rows and `columns` columns.
pub fn is_matrix(len: usize, rows: usize, columns: usize) -> (r: bool)
    ensures
        r == (len == rows * columns),
{
    match rows.checked_mul(columns) {
        Some(expected) => len == expected,
        None => false,
    }
}

/// A matrix without empty axes has no more rows, and no more columns, than elements.
pub proof fn lemma_matrix_bounds(len: int, rows: int, columns: int)
    requires
        len == rows * columns,
        rows > 0,
        columns > 0,
    ensures
        rows <= len,
        columns <= len,
{
    assert(rows <= rows * columns) by (nonlinear_arith)
        requires
            rows > 0,
            columns > 0,
    ;
    assert(columns <= rows * columns) by (nonlinear_arith)
        requires
            rows > 0,
            columns > 0,
    ;
}

/// The element at `row`, `column` of a matrix with `columns` columns lies inside it.
pub proof fn lemma_matrix_index(rows: int, columns: int, row: int, column: int)
    requires
        0 <= row < rows,
        0 <= column < columns,
    ensures
        0 <= row * columns + column < rows * columns,
        0 <= row * columns,
        row * columns + columns == (row + 1) * columns,
        (row + 1) * columns <= rows * columns,
{
    assert(0 <= row * columns) by (nonlinear_arith)
        requires
            0 <= row,
            0 <= columns,
    ;
    assert(row * columns + columns == (row + 1) * columns) by (nonlinear_arith);
    assert((row + 1) * columns <= rows * columns) by (nonlinear_arith)
        requires
            row + 1 <= rows,
            0 <= columns,
    ;
}

/// The position of an element says its row and column.
pub proof fn lemma_matrix_position(columns: int, row: int, column: int)
    requires
        0 <= row,
        0 <= column < columns,
    ensures
        (row * columns + column) / columns == row,
        (row * columns + column) % columns == column,
{
    vstd::arithmetic::div_mod::lemma_fundamental_div_mod_converse(
        row * columns + column,
        columns,
        row,
        column,
    );
}

} // verus!
