//! Uniform sampling of a rectangular region, row by row.

use vstd::prelude::*;
use crate::ops::single_valued_binary;
use crate::point::ComplexPoint;

verus! {

/// Position of the cell in row `row`, column `col` of a row-major grid whose
/// rows hold `height` cells each.
pub open spec fn cell_index(height: int, row: int, col: int) -> int {
    row * height + col
}

/// What the sampler guarantees of the cell in row `row`, column `col`.
///
/// * Its real coordinate is that of the first cell of its row.
/// * The first cell of a row has imaginary coordinate `left`; every later
///   cell's imaginary coordinate is what `plus` returned for its left
///   neighbour's and `imag_step`.
/// * The real coordinate of the first row is what `plus` returned for `top`
///   and `real_step` (the first row does not sit on `top` itself); that of a
///   later row is what `plus` returned for the previous row's and `real_step`.
pub open spec fn cell_follows<T, A: Fn(T, T) -> T>(
    plus: A,
    top: T,
    left: T,
    real_step: T,
    imag_step: T,
    height: int,
    grid: Seq<ComplexPoint<T>>,
    row: int,
    col: int,
) -> bool {
    let here = grid[cell_index(height, row, col)];
    let row_head = grid[cell_index(height, row, 0)];
    &&& here.re == row_head.re
    &&& col == 0 ==> here.im == left
    &&& col > 0 ==> call_ensures(
        plus,
        (grid[cell_index(height, row, col - 1)].im, imag_step),
        here.im,
    )
    &&& col == 0 && row == 0 ==> call_ensures(plus, (top, real_step), here.re)
    &&& col == 0 && row > 0 ==> call_ensures(
        plus,
        (grid[cell_index(height, row - 1, 0)].re, real_step),
        here.re,
    )
}

/// `grid` is a sample grid of `width` rows of `height` cells: it has exactly
/// `width * height` cells, laid out row after row, and every cell follows
/// from its neighbours as [`cell_follows`] says.
pub open spec fn is_sample_grid<T, A: Fn(T, T) -> T>(
    plus: A,
    top: T,
    left: T,
    real_step: T,
    imag_step: T,
    width: int,
    height: int,
    grid: Seq<ComplexPoint<T>>,
) -> bool {
    &&& grid.len() == width * height
    &&& forall|row: int, col: int|
        0 <= row < width && 0 <= col < height ==> #[trigger] cell_follows(
            plus,
            top,
            left,
            real_step,
            imag_step,
            height,
            grid,
            row,
            col,
        )
}

/// Every cell of a `width` by `height` grid has its own place below
/// `width * height`, and places grow with the row, then with the column.
pub proof fn lemma_cell_index_in_range(width: int, height: int, row: int, col: int)
    requires
        0 <= row < width,
        0 <= col < height,
    ensures
        0 <= cell_index(height, row, col) < width * height,
        cell_index(height, row, col) < cell_index(height, row + 1, 0),
        cell_index(height, row + 1, 0) <= width * height,
        cell_index(height, row, 0) <= cell_index(height, row, col),
{
    assert(0 <= row * height) by (nonlinear_arith)
        requires
            0 <= row,
            0 <= height,
    ;
    assert((row + 1) * height == row * height + height) by (nonlinear_arith);
    assert((row + 1) * height <= width * height) by (nonlinear_arith)
        requires
            row + 1 <= width,
            0 <= height,
    ;
}

/// The shape of a sample grid, read off [`is_sample_grid`]: the column count
/// can be recovered from the length, a grid without columns is empty, and the
/// first row starts at `left` and lies, all of it, one `real_step` past `top`.
pub proof fn lemma_grid_shape<T, A: Fn(T, T) -> T>(
    plus: A,
    top: T,
    left: T,
    real_step: T,
    imag_step: T,
    width: int,
    height: int,
    grid: Seq<ComplexPoint<T>>,
)
    requires
        0 <= width,
        0 <= height,
        is_sample_grid(plus, top, left, real_step, imag_step, width, height, grid),
    ensures
        height == 0 ==> grid.len() == 0,
        width > 0 ==> grid.len() as int / width == height,
        width > 0 && height > 0 ==> grid[0].im == left,
        forall|col: int|
            width > 0 && 0 <= col < height ==> grid[col].re == grid[0].re && call_ensures(
                plus,
                (top, real_step),
                #[trigger] grid[col].re,
            ),
{
    if height == 0 {
        assert(width * height == 0) by (nonlinear_arith)
            requires
                height == 0,
        ;
    }
    if width > 0 {
        assert((width * height) / width == height) by (nonlinear_arith)
            requires
                width > 0,
        ;
        assert forall|col: int| 0 <= col < height implies grid[col].re == grid[0].re
            && call_ensures(plus, (top, real_step), #[trigger] grid[col].re) by {
            assert(cell_follows(plus, top, left, real_step, imag_step, height, grid, 0, col));
            assert(cell_follows(plus, top, left, real_step, imag_step, height, grid, 0, 0));
        }
        if height > 0 {
            assert(cell_follows(plus, top, left, real_step, imag_step, height, grid, 0, 0));
        }
    }
}

/// Samples a region of the plane on a grid of `width` rows of `height` points.
///
/// The real coordinate starts at `top` and is advanced by `real_step` before
/// each row is laid down, so the first row lies one step past `top`. Within a
/// row the imaginary coordinate starts at `left` and is advanced by
/// `imag_step` after each point. The points come back row after row.
///
/// `plus` is the addition of the coordinate type; the grid is described by
/// what `plus` is specified to return.
pub fn generate_input_set<T: Copy, A: Fn(T, T) -> T>(
    top: T,
    left: T,
    real_step: T,
    imag_step: T,
    width: u64,
    height: u64,
    plus: A,
) -> (grid: Vec<ComplexPoint<T>>)
    requires
        forall|a: T, b: T| call_requires(plus, (a, b)),
        width * height <= usize::MAX,
    ensures
        is_sample_grid(plus, top, left, real_step, imag_step, width as int, height as int, grid@),
        grid@.len() == width * height,
        height == 0 ==> grid@.len() == 0,
        width > 0 ==> grid@.len() as int / (width as int) == height,
        width > 0 && height > 0 ==> grid@[0].im == left,
        forall|col: int|
            width > 0 && 0 <= col < height ==> grid@[col].re == grid@[0].re && call_ensures(
                plus,
                (top, real_step),
                #[trigger] grid@[col].re,
            ),
{
    let mut output: Vec<ComplexPoint<T>> = Vec::new();
    let mut re_now = top;
    let mut x: u64 = 0;
    while x < width
        invariant
            forall|a: T, b: T| call_requires(plus, (a, b)),
            x <= width,
            is_sample_grid(plus, top, left, real_step, imag_step, x as int, height as int, output@),
            height > 0 && x == 0 ==> re_now == top,
            height > 0 && x > 0 ==> re_now == output@[cell_index(height as int, x - 1, 0)].re,
        decreases width - x,
    {
        re_now = plus(re_now, real_step);
        let mut im_now = left;
        let mut y: u64 = 0;
        while y < height
            invariant
                forall|a: T, b: T| call_requires(plus, (a, b)),
                x < width,
                y <= height,
                output@.len() == x * height + y,
                forall|row: int, col: int|
                    0 <= row < x && 0 <= col < height ==> #[trigger] cell_follows(
                        plus,
                        top,
                        left,
                        real_step,
                        imag_step,
                        height as int,
                        output@,
                        row,
                        col,
                    ),
                forall|col: int|
                    0 <= col < y ==> #[trigger] cell_follows(
                        plus,
                        top,
                        left,
                        real_step,
                        imag_step,
                        height as int,
                        output@,
                        x as int,
                        col,
                    ),
                height > 0 && x == 0 ==> call_ensures(plus, (top, real_step), re_now),
                height > 0 && x > 0 ==> call_ensures(
                    plus,
                    (output@[cell_index(height as int, x - 1, 0)].re, real_step),
                    re_now,
                ),
                y > 0 ==> re_now == output@[cell_index(height as int, x as int, 0)].re,
                y == 0 ==> im_now == left,
                y > 0 ==> call_ensures(
                    plus,
                    (output@[cell_index(height as int, x as int, y - 1)].im, imag_step),
                    im_now,
                ),
            decreases height - y,
        {
            let ghost before = output@;
            proof {
                lemma_cell_index_in_range(width as int, height as int, x as int, y as int);
                lemma_cell_index_in_range(width as int, height as int, x as int, 0);
                if x > 0 {
                    lemma_cell_index_in_range(x as int, height as int, x - 1, 0);
                }
                if y > 0 {
                    lemma_cell_index_in_range(width as int, height as int, x as int, y - 1);
                }
            }
            output.push(ComplexPoint { re: re_now, im: im_now });
            proof {
                assert forall|row: int, col: int|
                    0 <= row < x && 0 <= col < height implies #[trigger] cell_follows(
                    plus,
                    top,
                    left,
                    real_step,
                    imag_step,
                    height as int,
                    output@,
                    row,
                    col,
                ) by {
                    lemma_cell_index_in_range(x as int, height as int, row, col);
                    lemma_cell_index_in_range(x as int, height as int, row, 0);
                    if row > 0 {
                        lemma_cell_index_in_range(x as int, height as int, row - 1, 0);
                    }
                    if col > 0 {
                        lemma_cell_index_in_range(x as int, height as int, row, col - 1);
                    }
                    assert(cell_follows(
                        plus,
                        top,
                        left,
                        real_step,
                        imag_step,
                        height as int,
                        before,
                        row,
                        col,
                    ));
                }
                assert forall|col: int| 0 <= col <= y implies #[trigger] cell_follows(
                    plus,
                    top,
                    left,
                    real_step,
                    imag_step,
                    height as int,
                    output@,
                    x as int,
                    col,
                ) by {
                    if x > 0 {
                        lemma_cell_index_in_range(x as int, height as int, x - 1, 0);
                    }
                    if col < y {
                        assert(cell_follows(
                            plus,
                            top,
                            left,
                            real_step,
                            imag_step,
                            height as int,
                            before,
                            x as int,
                            col,
                        ));
                    }
                }
            }
            im_now = plus(im_now, imag_step);
            y += 1;
        }
        proof {
            assert((x + 1) * height == x * height + height) by (nonlinear_arith);
            if height > 0 {
                lemma_cell_index_in_range(width as int, height as int, x as int, 0);
            }
        }
        x += 1;
    }
    proof {
        lemma_grid_shape(plus, top, left, real_step, imag_step, width as int, height as int, output@);
    }
    output
}

/// Two sample grids of the same region under single-valued addition hold the
/// same point in every cell.
pub proof fn lemma_cells_agree<T, A: Fn(T, T) -> T>(
    plus: A,
    top: T,
    left: T,
    real_step: T,
    imag_step: T,
    width: int,
    height: int,
    first: Seq<ComplexPoint<T>>,
    second: Seq<ComplexPoint<T>>,
    row: int,
    col: int,
)
    requires
        single_valued_binary(plus),
        is_sample_grid(plus, top, left, real_step, imag_step, width, height, first),
        is_sample_grid(plus, top, left, real_step, imag_step, width, height, second),
        0 <= row < width,
        0 <= col < height,
    ensures
        first[cell_index(height, row, col)] == second[cell_index(height, row, col)],
    decreases row, col,
{
    assert(cell_follows(plus, top, left, real_step, imag_step, height, first, row, col));
    assert(cell_follows(plus, top, left, real_step, imag_step, height, second, row, col));
    if col > 0 {
        lemma_cells_agree(
            plus,
            top,
            left,
            real_step,
            imag_step,
            width,
            height,
            first,
            second,
            row,
            col - 1,
        );
        lemma_cells_agree(plus, top, left, real_step, imag_step, width, height, first, second, row, 0);
    } else if row > 0 {
        lemma_cells_agree(
            plus,
            top,
            left,
            real_step,
            imag_step,
            width,
            height,
            first,
            second,
            row - 1,
            0,
        );
    }
}

/// Sampling is deterministic: under single-valued addition a region has
/// exactly one sample grid of a given width and height.
pub proof fn lemma_sample_grid_unique<T, A: Fn(T, T) -> T>(
    plus: A,
    top: T,
    left: T,
    real_step: T,
    imag_step: T,
    width: int,
    height: int,
    first: Seq<ComplexPoint<T>>,
    second: Seq<ComplexPoint<T>>,
)
    requires
        single_valued_binary(plus),
        0 <= width,
        0 <= height,
        is_sample_grid(plus, top, left, real_step, imag_step, width, height, first),
        is_sample_grid(plus, top, left, real_step, imag_step, width, height, second),
    ensures
        first == second,
{
    assert forall|at: int| 0 <= at < first.len() implies first[at] == second[at] by {
        let row = at / height;
        let col = at % height;
        assert(height > 0 && 0 <= row < width && 0 <= col < height && at == row * height + col)
            by (nonlinear_arith)
            requires
                0 <= at < width * height,
                0 <= width,
                0 <= height,
                row == at / height,
                col == at % height,
        ;
        lemma_cells_agree(
            plus,
            top,
            left,
            real_step,
            imag_step,
            width,
            height,
            first,
            second,
            row,
            col,
        );
    }
    assert(first =~= second);
}

} // verus!
