//! Moving the elements of flat row-major matrices.

use vstd::prelude::*;
use crate::float::Float32;
#[allow(unused_imports)]
use crate::shape::{lemma_matrix_index, lemma_matrix_position};

verus! {

/// `len` zeros.
pub fn zeros(len: usize) -> (r: Vec<Float32>)
    ensures
        r@ == Seq::new(len as nat, |i: int| Float32 { bits: 0 }),
{
    let mut r: Vec<Float32> = Vec::new();
    let mut i: usize = 0;
    while i < len
        invariant
            i <= len,
            r@ == Seq::new(i as nat, |j: int| Float32 { bits: 0 }),
        decreases len - i,
    {
        r.push(Float32::zero());
        i += 1;
        assert(r@ =~= Seq::new(i as nat, |j: int| Float32 { bits: 0 }));
    }
    r
}

/// A copy of `values`.
pub fn copied(values: &[Float32]) -> (r: Vec<Float32>)
    ensures
        r@ == values@,
{
    let mut r: Vec<Float32> = Vec::new();
    let mut i: usize = 0;
    while i < values.len()
        invariant
            i <= values@.len(),
            r@ == values@.take(i as int),
        decreases values@.len() - i,
    {
        r.push(values[i]);
        i += 1;
        assert(r@ =~= values@.take(i as int));
    }
    assert(r@ =~= values@);
    r
}

/// Element `row`, `column` of a matrix with `columns` columns.
pub open spec fn entry(matrix: Seq<Float32>, columns: int, row: int, column: int) -> Float32 {
    matrix[row * columns + column]
}

/// The values at the places `order`.
pub open spec fn gathered(values: Seq<Float32>, order: Seq<usize>) -> Seq<Float32> {
    Seq::new(order.len(), |i: int| values[order[i] as int])
}

/// The values at the places `order`.
pub fn gather(values: &[Float32], order: &[usize]) -> (r: Vec<Float32>)
    requires
        forall|i: int| 0 <= i < order@.len() ==> #[trigger] order@[i] < values@.len(),
    ensures
        r@ == gathered(values@, order@),
{
    let mut r: Vec<Float32> = Vec::new();
    let mut i: usize = 0;
    while i < order.len()
        invariant
            i <= order@.len(),
            forall|j: int| 0 <= j < order@.len() ==> #[trigger] order@[j] < values@.len(),
            r@.len() == i,
            forall|j: int| 0 <= j < i ==> #[trigger] r@[j] == values@[order@[j] as int],
        decreases order@.len() - i,
    {
        r.push(values[order[i]]);
        i += 1;
    }
    assert(r@ =~= gathered(values@, order@));
    r
}

/// The columns `order` of a matrix of `rows` rows and `columns` columns.
pub open spec fn columns_of(
    matrix: Seq<Float32>,
    rows: int,
    columns: int,
    order: Seq<usize>,
) -> Seq<Float32> {
    Seq::new(
        (rows * order.len()) as nat,
        |i: int|
            entry(matrix, columns, i / (order.len() as int), order[i % (order.len() as int)] as int),
    )
}

/// The columns `order` of a matrix of `rows` rows and `columns` columns.
pub fn pick_columns(matrix: &[Float32], rows: usize, columns: usize, order: &[usize]) -> (r: Vec<
    Float32,
>)
    requires
        matrix@.len() == rows * columns,
        order@.len() <= columns,
        forall|i: int| 0 <= i < order@.len() ==> #[trigger] order@[i] < columns,
    ensures
        r@ == columns_of(matrix@, rows as int, columns as int, order@),
{
    let len: usize = matrix.len();
    let width: usize = order.len();
    let ghost whole = columns_of(matrix@, rows as int, columns as int, order@);
    let mut r: Vec<Float32> = Vec::new();
    let mut row: usize = 0;
    assert(r@ =~= whole.take(0));
    while row < rows
        invariant
            row <= rows,
            len == matrix@.len(),
            len == rows * columns,
            width == order@.len(),
            forall|i: int| 0 <= i < order@.len() ==> #[trigger] order@[i] < columns,
            whole == columns_of(matrix@, rows as int, columns as int, order@),
            r@ == whole.take(row * width),
        decreases rows - row,
    {
        let mut j: usize = 0;
        while j < width
            invariant
                row < rows,
                j <= width,
                len == matrix@.len(),
                len == rows * columns,
                width == order@.len(),
                forall|i: int| 0 <= i < order@.len() ==> #[trigger] order@[i] < columns,
                whole == columns_of(matrix@, rows as int, columns as int, order@),
                r@ == whole.take(row * width + j),
            decreases width - j,
        {
            let column: usize = order[j];
            proof {
                lemma_matrix_index(rows as int, columns as int, row as int, column as int);
                lemma_matrix_index(rows as int, width as int, row as int, j as int);
                lemma_matrix_position(width as int, row as int, j as int);
            }
            let value: Float32 = matrix[row * columns + column];
            r.push(value);
            assert(whole[row * width + j] == value);
            j += 1;
            assert(r@ =~= whole.take(row * width + j));
        }
        row += 1;
        assert((row - 1) * width + width == row * width) by (nonlinear_arith);
    }
    assert(r@ =~= whole);
    r
}

/// The columns of a matrix, each as a row, last column first.
pub open spec fn reversed_columns(matrix: Seq<Float32>, rows: int, columns: int) -> Seq<Float32> {
    Seq::new(
        (columns * rows) as nat,
        |i: int| entry(matrix, columns, i % rows, columns - 1 - i / rows),
    )
}

/// The columns of a matrix, each as a row, last column first.
pub fn reverse_columns(matrix: &[Float32], rows: usize, columns: usize) -> (r: Vec<Float32>)
    requires
        matrix@.len() == rows * columns,
    ensures
        r@ == reversed_columns(matrix@, rows as int, columns as int),
{
    let len: usize = matrix.len();
    let ghost whole = reversed_columns(matrix@, rows as int, columns as int);
    let mut r: Vec<Float32> = Vec::new();
    let mut j: usize = 0;
    assert(r@ =~= whole.take(0));
    while j < columns
        invariant
            j <= columns,
            len == matrix@.len(),
            len == rows * columns,
            whole == reversed_columns(matrix@, rows as int, columns as int),
            r@ == whole.take(j * rows),
        decreases columns - j,
    {
        let mut i: usize = 0;
        while i < rows
            invariant
                j < columns,
                i <= rows,
                len == matrix@.len(),
                len == rows * columns,
                whole == reversed_columns(matrix@, rows as int, columns as int),
                r@ == whole.take(j * rows + i),
            decreases rows - i,
        {
            let column: usize = columns - 1 - j;
            proof {
                lemma_matrix_index(rows as int, columns as int, i as int, column as int);
                lemma_matrix_index(columns as int, rows as int, j as int, i as int);
                lemma_matrix_position(rows as int, j as int, i as int);
            }
            let value: Float32 = matrix[i * columns + column];
            r.push(value);
            assert(whole[j * rows + i] == value);
            i += 1;
            assert(r@ =~= whole.take(j * rows + i));
        }
        j += 1;
        assert((j - 1) * rows + rows == j * rows) by (nonlinear_arith);
    }
    assert(r@ =~= whole);
    r
}

/// The columns of a matrix, each as a row.
pub open spec fn transposed(matrix: Seq<Float32>, rows: int, columns: int) -> Seq<Float32> {
    Seq::new(
        (columns * rows) as nat,
        |e: int| entry(matrix, columns, e % rows, e / rows),
    )
}

/// The columns of a matrix, each as a row.
pub fn transpose(matrix: &[Float32], rows: usize, columns: usize) -> (r: Vec<Float32>)
    requires
        matrix@.len() == rows * columns,
    ensures
        r@ == transposed(matrix@, rows as int, columns as int),
{
    let len: usize = matrix.len();
    let ghost whole = transposed(matrix@, rows as int, columns as int);
    let mut r: Vec<Float32> = Vec::new();
    let mut j: usize = 0;
    assert(r@ =~= whole.take(0));
    while j < columns
        invariant
            j <= columns,
            len == matrix@.len(),
            len == rows * columns,
            whole == transposed(matrix@, rows as int, columns as int),
            r@ == whole.take(j * rows),
        decreases columns - j,
    {
        let mut i: usize = 0;
        while i < rows
            invariant
                j < columns,
                i <= rows,
                len == matrix@.len(),
                len == rows * columns,
                whole == transposed(matrix@, rows as int, columns as int),
                r@ == whole.take(j * rows + i),
            decreases rows - i,
        {
            proof {
                lemma_matrix_index(rows as int, columns as int, i as int, j as int);
                lemma_matrix_index(columns as int, rows as int, j as int, i as int);
                lemma_matrix_position(rows as int, j as int, i as int);
            }
            let value: Float32 = matrix[i * columns + j];
            r.push(value);
            assert(whole[j * rows + i] == value);
            i += 1;
            assert(r@ =~= whole.take(j * rows + i));
        }
        j += 1;
        assert((j - 1) * rows + rows == j * rows) by (nonlinear_arith);
    }
    assert(r@ =~= whole);
    r
}

/// A matrix that is transposed twice is as it was.
pub proof fn lemma_transpose_twice(matrix: Seq<Float32>, rows: int, columns: int)
    requires
        rows >= 0,
        columns >= 0,
        matrix.len() == rows * columns,
    ensures
        transposed(transposed(matrix, rows, columns), columns, rows) == matrix,
{
    let once = transposed(matrix, rows, columns);
    let twice = transposed(once, columns, rows);
    assert forall|e: int| 0 <= e < matrix.len() implies twice[e] == matrix[e] by {
        lemma_element_place(rows, columns, e);
        let row = e / columns;
        let column = e % columns;
        lemma_matrix_index(columns, rows, column, row);
        lemma_matrix_position(rows, column, row);
        assert(once[column * rows + row] == matrix[row * columns + column]);
    }
    assert(columns * rows == rows * columns) by (nonlinear_arith);
    assert(twice =~= matrix);
}

/// The rows `order` of a matrix with `columns` columns.
pub open spec fn rows_of(matrix: Seq<Float32>, columns: int, order: Seq<usize>) -> Seq<Float32> {
    Seq::new(
        (order.len() * columns) as nat,
        |i: int| entry(matrix, columns, order[i / columns] as int, i % columns),
    )
}

/// The rows `order` of a matrix of `rows` rows and `columns` columns.
pub fn pick_rows(matrix: &[Float32], rows: usize, columns: usize, order: &[usize]) -> (r: Vec<
    Float32,
>)
    requires
        matrix@.len() == rows * columns,
        forall|i: int| 0 <= i < order@.len() ==> #[trigger] order@[i] < rows,
    ensures
        r@ == rows_of(matrix@, columns as int, order@),
{
    let len: usize = matrix.len();
    let ghost whole = rows_of(matrix@, columns as int, order@);
    let mut r: Vec<Float32> = Vec::new();
    let mut i: usize = 0;
    assert(r@ =~= whole.take(0));
    while i < order.len()
        invariant
            i <= order@.len(),
            len == matrix@.len(),
            len == rows * columns,
            forall|k: int| 0 <= k < order@.len() ==> #[trigger] order@[k] < rows,
            whole == rows_of(matrix@, columns as int, order@),
            r@ == whole.take(i * columns),
        decreases order@.len() - i,
    {
        let row: usize = order[i];
        let mut column: usize = 0;
        while column < columns
            invariant
                i < order@.len(),
                row == order@[i as int],
                row < rows,
                column <= columns,
                len == matrix@.len(),
                len == rows * columns,
                whole == rows_of(matrix@, columns as int, order@),
                r@ == whole.take(i * columns + column),
            decreases columns - column,
        {
            proof {
                lemma_matrix_index(rows as int, columns as int, row as int, column as int);
                lemma_matrix_index(
                    order@.len() as int,
                    columns as int,
                    i as int,
                    column as int,
                );
                lemma_matrix_position(columns as int, i as int, column as int);
            }
            let value: Float32 = matrix[row * columns + column];
            r.push(value);
            assert(whole[i * columns + column] == value);
            column += 1;
            assert(r@ =~= whole.take(i * columns + column));
        }
        i += 1;
        assert((i - 1) * columns + columns == i * columns) by (nonlinear_arith);
    }
    assert(r@ =~= whole);
    r
}

/// The rows of two lists one after the other are the rows of both lists together.
pub proof fn lemma_rows_concat(
    matrix: Seq<Float32>,
    columns: int,
    first: Seq<usize>,
    second: Seq<usize>,
)
    requires
        columns > 0,
    ensures
        rows_of(matrix, columns, first + second) == rows_of(matrix, columns, first) + rows_of(
            matrix,
            columns,
            second,
        ),
{
    let both = rows_of(matrix, columns, first + second);
    let a = first.len() as int;
    let b = second.len() as int;
    assert((a + b) * columns == a * columns + b * columns) by (nonlinear_arith);
    assert(a * columns >= 0 && b * columns >= 0) by (nonlinear_arith)
        requires
            a >= 0,
            b >= 0,
            columns > 0,
    ;
    assert forall|i: int| 0 <= i < (a + b) * columns implies both[i] == (rows_of(
        matrix,
        columns,
        first,
    ) + rows_of(matrix, columns, second))[i] by {
        let row = i / columns;
        let column = i % columns;
        vstd::arithmetic::div_mod::lemma_fundamental_div_mod(i, columns);
        assert(columns * row == row * columns) by (nonlinear_arith);
        if i < a * columns {
            assert(0 <= row < a) by (nonlinear_arith)
                requires
                    0 <= i < a * columns,
                    i == row * columns + column,
                    0 <= column < columns,
            ;
        } else {
            assert(a <= row) by (nonlinear_arith)
                requires
                    a * columns <= i,
                    i == row * columns + column,
                    0 <= column < columns,
            ;
            assert(row < a + b) by (nonlinear_arith)
                requires
                    i < (a + b) * columns,
                    i == row * columns + column,
                    0 <= column < columns,
            ;
            assert((row - a) * columns == row * columns - a * columns) by (nonlinear_arith);
            lemma_matrix_position(columns, row - a, column);
            assert((i - a * columns) / columns == row - a);
            assert((i - a * columns) % columns == column);
        }
    }
    assert(both =~= rows_of(matrix, columns, first) + rows_of(matrix, columns, second));
}

/// Whether `order` lists the places of `values` by ascending value, equal values by place.
pub open spec fn ascending(values: Seq<Float32>, order: Seq<usize>) -> bool {
    &&& order.len() == values.len()
    &&& forall|i: int| 0 <= i < order.len() ==> #[trigger] order[i] < values.len()
    &&& forall|i: int, j: int|
        0 <= i < j < order.len() ==> precedes(
            values,
            #[trigger] order[i] as int,
            #[trigger] order[j] as int,
        )
}

/// Whether place `a` comes before place `b` by value, and by number where the values are
/// equal.
pub open spec fn precedes(values: Seq<Float32>, a: int, b: int) -> bool {
    ||| values[a].key() < values[b].key()
    ||| values[a].key() == values[b].key() && a < b
}

/// The places of `values` by ascending value, equal values by place. The values are numbers,
/// unless there is but one.
pub fn ascending_order(values: &[Float32]) -> (r: Vec<usize>)
    requires
        values@.len() <= 1 || forall|i: int|
            0 <= i < values@.len() ==> !(#[trigger] values@[i]).nan(),
    ensures
        ascending(values@, r@),
{
    let mut order: Vec<usize> = Vec::new();
    let mut i: usize = 0;
    while i < values.len()
        invariant
            i <= values@.len(),
            values@.len() <= 1 || forall|k: int|
                0 <= k < values@.len() ==> !(#[trigger] values@[k]).nan(),
            order@.len() == i,
            forall|k: int| 0 <= k < order@.len() ==> #[trigger] order@[k] < i,
            forall|a: int, b: int|
                0 <= a < b < order@.len() ==> precedes(
                    values@,
                    #[trigger] order@[a] as int,
                    #[trigger] order@[b] as int,
                ),
        decreases values@.len() - i,
    {
        let mut at: usize = i;
        while at > 0 && values[i].less(values[order[at - 1]])
            invariant
                at <= i,
                i < values@.len(),
                order@.len() == i,
                values@.len() <= 1 || forall|k: int|
                    0 <= k < values@.len() ==> !(#[trigger] values@[k]).nan(),
                forall|k: int| 0 <= k < order@.len() ==> #[trigger] order@[k] < i,
                forall|k: int|
                    at <= k < i ==> values@[i as int].key() < values@[
                    #[trigger] order@[k] as int].key(),
            decreases at,
        {
            at -= 1;
        }
        let ghost before = order@;
        order.insert(at, i);
        proof {
            assert(order@ =~= before.take(at as int).push(i) + before.skip(at as int));
            assert forall|k: int| 0 <= k < order@.len() implies #[trigger] order@[k] < i + 1 by {
                if k < at {
                    assert(order@[k] == before[k]);
                } else if k > at {
                    assert(order@[k] == before[k - 1]);
                }
            }
            assert forall|a: int, b: int| 0 <= a < b < order@.len() implies precedes(
                values@,
                #[trigger] order@[a] as int,
                #[trigger] order@[b] as int,
            ) by {
                let x = if a < at {
                    a
                } else {
                    a - 1
                };
                let y = if b < at {
                    b
                } else {
                    b - 1
                };
                if a == at {
                    assert(order@[b] == before[y]);
                } else if b == at {
                    assert(order@[a] == before[x]);
                    assert(before[at - 1] == order@[at - 1]);
                    if at > 0 {
                        assert(x <= at - 1);
                        if x < at - 1 {
                            assert(precedes(values@, before[x] as int, before[at - 1] as int));
                        }
                    }
                } else {
                    assert(order@[a] == before[x] && order@[b] == before[y]);
                    assert(precedes(values@, before[x] as int, before[y] as int));
                }
            }
        }
        i += 1;
    }
    order
}

/// Values listed in ascending order never decrease.
pub proof fn lemma_ascending_values(values: Seq<Float32>, order: Seq<usize>, a: int, b: int)
    requires
        ascending(values, order),
        forall|i: int| 0 <= i < values.len() ==> !(#[trigger] values[i]).nan(),
        0 <= a <= b < order.len(),
    ensures
        gathered(values, order)[a].le(gathered(values, order)[b]),
{
    if a < b {
        assert(precedes(values, order[a] as int, order[b] as int));
    }
}

/// The largest `k` of the values that ascend, largest first.
pub open spec fn leading(values: Seq<Float32>, k: int) -> Seq<Float32> {
    Seq::new(k as nat, |j: int| values[values.len() - 1 - j])
}

/// The largest `k` of the values that ascend, largest first.
pub fn take_leading(values: &[Float32], k: usize) -> (r: Vec<Float32>)
    requires
        k <= values@.len(),
    ensures
        r@ == leading(values@, k as int),
{
    let m: usize = values.len();
    let mut r: Vec<Float32> = Vec::new();
    let mut j: usize = 0;
    while j < k
        invariant
            j <= k <= m,
            m == values@.len(),
            r@ == leading(values@, j as int),
        decreases k - j,
    {
        r.push(values[m - 1 - j]);
        j += 1;
        assert(r@ =~= leading(values@, j as int));
    }
    r
}

/// The row that stands at `row` once rows `a` and `b` have changed places.
pub open spec fn exchanged(row: int, a: int, b: int) -> int {
    if row == a {
        b
    } else if row == b {
        a
    } else {
        row
    }
}

/// A matrix with `columns` columns in which rows `a` and `b` have changed places.
pub open spec fn with_rows_exchanged(matrix: Seq<Float32>, columns: int, a: int, b: int) -> Seq<
    Float32,
> {
    Seq::new(
        matrix.len(),
        |e: int| entry(matrix, columns, exchanged(e / columns, a, b), e % columns),
    )
}

/// Lets rows `a` and `b` of a matrix change places.
pub fn exchange_rows(matrix: &mut Vec<Float32>, rows: usize, columns: usize, a: usize, b: usize)
    requires
        old(matrix)@.len() == rows * columns,
        a < rows,
        b < rows,
    ensures
        final(matrix)@ == with_rows_exchanged(old(matrix)@, columns as int, a as int, b as int),
{
    let ghost before = matrix@;
    let len: usize = matrix.len();
    let mut c: usize = 0;
    while c < columns
        invariant
            c <= columns,
            a < rows,
            b < rows,
            len == rows * columns,
            before.len() == len,
            matrix@.len() == len,
            forall|row: int, column: int|
                #![trigger entry(before, columns as int, row, column)]
                0 <= row < rows && 0 <= column < columns ==> entry(
                    matrix@,
                    columns as int,
                    row,
                    column,
                ) == entry(
                    before,
                    columns as int,
                    if column < c {
                        exchanged(row, a as int, b as int)
                    } else {
                        row
                    },
                    column,
                ),
        decreases columns - c,
    {
        proof {
            lemma_matrix_index(rows as int, columns as int, a as int, c as int);
            lemma_matrix_index(rows as int, columns as int, b as int, c as int);
        }
        let ghost halfway = matrix@;
        let first: Float32 = matrix[a * columns + c];
        let second: Float32 = matrix[b * columns + c];
        matrix.set(a * columns + c, second);
        matrix.set(b * columns + c, first);
        proof {
            assert(first == entry(before, columns as int, a as int, c as int));
            assert(second == entry(before, columns as int, b as int, c as int));
            assert forall|row: int, column: int|
                #![trigger entry(before, columns as int, row, column)]
                0 <= row < rows && 0 <= column < columns implies entry(
                matrix@,
                columns as int,
                row,
                column,
            ) == entry(
                before,
                columns as int,
                if column < c + 1 {
                    exchanged(row, a as int, b as int)
                } else {
                    row
                },
                column,
            ) by {
                lemma_matrix_index(rows as int, columns as int, row, column);
                lemma_matrix_position(columns as int, row, column);
                lemma_matrix_position(columns as int, a as int, c as int);
                lemma_matrix_position(columns as int, b as int, c as int);
                assert(entry(halfway, columns as int, row, column) == entry(
                    before,
                    columns as int,
                    if column < c {
                        exchanged(row, a as int, b as int)
                    } else {
                        row
                    },
                    column,
                ));
            }
        }
        c += 1;
    }
    proof {
        let after = with_rows_exchanged(before, columns as int, a as int, b as int);
        assert forall|e: int| 0 <= e < len implies matrix@[e] == after[e] by {
            lemma_element_place(rows as int, columns as int, e);
            assert(entry(before, columns as int, e / columns as int, e % columns as int)
                == before[e]);
        }
        assert(matrix@ =~= after);
    }
}

/// The row and column of an element say its position.
proof fn lemma_element_place(rows: int, columns: int, e: int)
    requires
        columns >= 0,
        0 <= e < rows * columns,
    ensures
        columns > 0,
        0 <= e / columns < rows,
        0 <= e % columns < columns,
        e == (e / columns) * columns + e % columns,
{
    assert(columns > 0) by (nonlinear_arith)
        requires
            0 <= e < rows * columns,
            columns >= 0,
    ;
    let row = e / columns;
    let column = e % columns;
    vstd::arithmetic::div_mod::lemma_fundamental_div_mod(e, columns);
    assert(columns * row == row * columns) by (nonlinear_arith);
    assert(0 <= row < rows) by (nonlinear_arith)
        requires
            e == row * columns + column,
            0 <= column < columns,
            0 <= e < rows * columns,
    ;
}

/// Rows that change places twice are where they were.
pub proof fn lemma_exchange_twice(matrix: Seq<Float32>, rows: int, columns: int, a: int, b: int)
    requires
        columns >= 0,
        matrix.len() == rows * columns,
        0 <= a < rows,
        0 <= b < rows,
    ensures
        with_rows_exchanged(with_rows_exchanged(matrix, columns, a, b), columns, a, b) == matrix,
{
    let once = with_rows_exchanged(matrix, columns, a, b);
    let twice = with_rows_exchanged(once, columns, a, b);
    assert forall|e: int| 0 <= e < matrix.len() implies twice[e] == matrix[e] by {
        lemma_element_place(rows, columns, e);
        let row = exchanged(e / columns, a, b);
        lemma_matrix_index(rows, columns, row, e % columns);
        lemma_matrix_position(columns, row, e % columns);
        assert(once[row * columns + e % columns] == matrix[e]);
    }
    assert(twice =~= matrix);
}

/// Element `(column, row)` of a transposed matrix is element `(row, column)` of the matrix.
pub proof fn lemma_transposed_element(
    matrix: Seq<Float32>,
    rows: int,
    columns: int,
    row: int,
    column: int,
)
    requires
        matrix.len() == rows * columns,
        0 <= row < rows,
        0 <= column < columns,
    ensures
        transposed(matrix, rows, columns).len() == matrix.len(),
        transposed(matrix, rows, columns)[column * rows + row] == matrix[row * columns + column],
{
    lemma_matrix_index(columns, rows, column, row);
    lemma_matrix_position(rows, column, row);
    assert(rows * columns == columns * rows) by (nonlinear_arith);
}

/// Row `a` of the picked rows is row `order[a]` of the matrix.
pub proof fn lemma_picked_row(
    matrix: Seq<Float32>,
    columns: int,
    order: Seq<usize>,
    a: int,
    column: int,
)
    requires
        0 <= a < order.len(),
        0 <= column < columns,
    ensures
        rows_of(matrix, columns, order).len() == order.len() * columns,
        rows_of(matrix, columns, order)[a * columns + column] == matrix[order[a] * columns
            + column],
{
    lemma_matrix_index(order.len() as int, columns, a, column);
    lemma_matrix_position(columns, a, column);
}

/// Column `a` of the picked columns is column `order[a]` of the matrix.
pub proof fn lemma_picked_column(
    matrix: Seq<Float32>,
    rows: int,
    columns: int,
    order: Seq<usize>,
    row: int,
    a: int,
)
    requires
        0 <= row < rows,
        0 <= a < order.len(),
    ensures
        columns_of(matrix, rows, columns, order).len() == rows * order.len(),
        columns_of(matrix, rows, columns, order)[row * order.len() + a] == matrix[row * columns
            + order[a]],
{
    lemma_matrix_index(rows, order.len() as int, row, a);
    lemma_matrix_position(order.len() as int, row, a);
}

/// Row `j` of the reversed columns is the column that comes `j` before the last.
pub proof fn lemma_reversed_column(
    matrix: Seq<Float32>,
    rows: int,
    columns: int,
    row: int,
    j: int,
)
    requires
        0 <= row < rows,
        0 <= j < columns,
    ensures
        reversed_columns(matrix, rows, columns).len() == columns * rows,
        reversed_columns(matrix, rows, columns)[j * rows + row] == matrix[row * columns + (columns
            - 1 - j)],
{
    lemma_matrix_index(columns, rows, j, row);
    lemma_matrix_position(rows, j, row);
}

/// Exchanging rows `a` and `b` puts each in the place of the other and leaves the rest.
pub proof fn lemma_exchanged_rows(
    matrix: Seq<Float32>,
    rows: int,
    columns: int,
    a: int,
    b: int,
    row: int,
    column: int,
)
    requires
        matrix.len() == rows * columns,
        0 <= a < rows,
        0 <= b < rows,
        0 <= row < rows,
        0 <= column < columns,
    ensures
        ({
            let r = with_rows_exchanged(matrix, columns, a, b);
            &&& r.len() == matrix.len()
            &&& r[a * columns + column] == matrix[b * columns + column]
            &&& r[b * columns + column] == matrix[a * columns + column]
            &&& row != a && row != b ==> r[row * columns + column] == matrix[row * columns
                + column]
        }),
{
    lemma_matrix_index(rows, columns, row, column);
    lemma_matrix_position(columns, row, column);
    lemma_matrix_index(rows, columns, a, column);
    lemma_matrix_position(columns, a, column);
    lemma_matrix_index(rows, columns, b, column);
    lemma_matrix_position(columns, b, column);
}

/// The leading values are the last ones, the last one first.
pub proof fn lemma_leading_values(values: Seq<Float32>, k: int, j: int)
    requires
        0 <= j < k <= values.len(),
    ensures
        leading(values, k).len() == k,
        leading(values, k)[j] == values[values.len() - 1 - j],
{
}

/// An ascending order names every place once, puts no number before a smaller one, and keeps
/// the order of equal numbers.
pub proof fn lemma_ascending_is_sorted(values: Seq<Float32>, order: Seq<usize>, a: int, b: int)
    requires
        ascending(values, order),
        0 <= a < b < order.len(),
        !values[order[a] as int].nan(),
        !values[order[b] as int].nan(),
    ensures
        order.len() == values.len(),
        order[a] < values.len(),
        order[a] != order[b],
        values[order[a] as int].le(values[order[b] as int]),
        !values[order[a] as int].lt(values[order[b] as int]) ==> order[a] < order[b],
        gathered(values, order)[a] == values[order[a] as int],
        gathered(values, order).len() == order.len(),
{
}

} // verus!
