//! Row-major grids: point counts, the memory budgets that bound them, and turning a north-up
//! grid into the south-up row order of S-102.

use vstd::prelude::*;

verus! {

/// Bytes that one exported point takes in memory, as the size estimates count it.
pub const BYTES_PER_POINT: usize = 16;

/// Memory, in MiB, that a resolution offered for export may need at most.
pub const OPTION_BUDGET_MIB: usize = 3000;

/// Memory, in MiB, above which an export is refused.
pub const EXPORT_LIMIT_MIB: usize = 4096;

/// `width * height`, saturated at `usize::MAX` (what `usize::saturating_mul` gives).
pub open spec fn saturated_count(width: usize, height: usize) -> int {
    if width * height > usize::MAX {
        usize::MAX as int
    } else {
        width * height
    }
}

/// `count` points take at most `mib` MiB.
pub open spec fn fits_in_mib(count: int, mib: int) -> bool {
    BYTES_PER_POINT * count <= mib * 1048576
}

/// The number of points of a `width` by `height` grid, saturated at `usize::MAX`.
pub fn point_count(width: usize, height: usize) -> (n: usize)
    ensures
        n == saturated_count(width, height),
{
    match width.checked_mul(height) {
        Some(n) => n,
        None => usize::MAX,
    }
}

/// Whether a `width` by `height` export grid is small enough to be offered as a resolution.
pub fn fits_option_budget(width: usize, height: usize) -> (b: bool)
    ensures
        b == fits_in_mib(saturated_count(width, height), OPTION_BUDGET_MIB as int),
{
    let n = point_count(width, height);
    n <= 196608000
}

/// Why an export was refused: its grid would take more than the export limit.
#[derive(Debug, Clone, Copy)]
pub struct ExportTooLarge {
    /// Points of the grid, saturated at `usize::MAX`.
    pub points: usize,
}

/// The number of points of a `width` by `height` export grid, or the refusal when they would
/// take more than `EXPORT_LIMIT_MIB`.
pub fn check_export_size(width: usize, height: usize) -> (r: Result<usize, ExportTooLarge>)
    ensures
        r matches Ok(n) ==> n == saturated_count(width, height) && fits_in_mib(
            n as int,
            EXPORT_LIMIT_MIB as int,
        ),
        r matches Err(e) ==> e.points == saturated_count(width, height) && !fits_in_mib(
            e.points as int,
            EXPORT_LIMIT_MIB as int,
        ),
{
    let n = point_count(width, height);
    if n > 268435456 {
        Err(ExportTooLarge { points: n })
    } else {
        Ok(n)
    }
}

/// Every grid small enough to be offered as a resolution is small enough to be exported.
pub proof fn lemma_offered_sizes_can_be_exported(width: usize, height: usize)
    ensures
        fits_in_mib(saturated_count(width, height), OPTION_BUDGET_MIB as int) ==> fits_in_mib(
            saturated_count(width, height),
            EXPORT_LIMIT_MIB as int,
        ),
{
}

/// The element at row `r`, column `c` of a row-major grid of the given width.
pub open spec fn at<T>(s: Seq<T>, width: int, r: int, c: int) -> T {
    s[r * width + c]
}

proof fn lemma_cell_bounds(r: int, c: int, width: int, height: int)
    requires
        0 <= r < height,
        0 <= c < width,
    ensures
        0 <= r * width + c < (r + 1) * width <= height * width,
        (r + 1) * width == r * width + width,
{
    assert(0 <= r * width + c < (r + 1) * width <= height * width) by (nonlinear_arith)
        requires
            0 <= r < height,
            0 <= c < width,
    ;
    assert((r + 1) * width == r * width + width) by (nonlinear_arith);
}

proof fn lemma_row_bounds(r: int, width: int, height: int)
    requires
        0 <= r < height,
        0 <= width,
    ensures
        0 <= r * width,
        (r + 1) * width == r * width + width,
        (r + 1) * width <= height * width,
        height * width == width * height,
{
    assert(0 <= r * width) by (nonlinear_arith)
        requires
            0 <= r,
            0 <= width,
    ;
    assert((r + 1) * width == r * width + width) by (nonlinear_arith);
    assert((r + 1) * width <= height * width) by (nonlinear_arith)
        requires
            r < height,
            0 <= width,
    ;
    assert(height * width == width * height) by (nonlinear_arith);
}

/// The first `width * height` elements of `data` with the order of the rows reversed: row `r`
/// of the result is row `height - 1 - r` of `data`.
pub fn flip_rows<T: Copy>(data: &Vec<T>, width: usize, height: usize) -> (out: Vec<T>)
    requires
        width * height <= data.len(),
    ensures
        out.len() == width * height,
        forall|r: int, c: int|
            0 <= r < height && 0 <= c < width ==> #[trigger] at(out@, width as int, r, c) == at(
                data@,
                width as int,
                height - 1 - r,
                c,
            ),
{
    let mut out: Vec<T> = Vec::new();
    let mut row: usize = 0;
    while row < height
        invariant
            0 <= row <= height,
            width * height <= data.len(),
            out.len() == row * width,
            forall|r: int, c: int|
                0 <= r < row && 0 <= c < width ==> #[trigger] at(out@, width as int, r, c) == at(
                    data@,
                    width as int,
                    height - 1 - r,
                    c,
                ),
        decreases height - row,
    {
        let src_row = height - 1 - row;
        proof {
            lemma_row_bounds(src_row as int, width as int, height as int);
            lemma_row_bounds(row as int, width as int, height as int);
        }
        let offset = src_row * width;
        let mut col: usize = 0;
        while col < width
            invariant
                0 <= row < height,
                0 <= col <= width,
                src_row == height - 1 - row,
                offset == src_row * width,
                offset + width <= width * height <= data.len(),
                out.len() == row * width + col,
                forall|r: int, c: int|
                    0 <= r < row && 0 <= c < width ==> #[trigger] at(out@, width as int, r, c)
                        == at(data@, width as int, height - 1 - r, c),
                forall|c: int|
                    0 <= c < col ==> #[trigger] at(out@, width as int, row as int, c) == at(
                        data@,
                        width as int,
                        src_row as int,
                        c,
                    ),
            decreases width - col,
        {
            let ghost before = out@;
            out.push(data[offset + col]);
            proof {
                assert forall|r: int, c: int|
                    0 <= r < row && 0 <= c < width implies #[trigger] at(out@, width as int, r, c)
                    == at(data@, width as int, height - 1 - r, c) by {
                    lemma_cell_bounds(r, c, width as int, row as int);
                    assert(at(out@, width as int, r, c) == at(before, width as int, r, c));
                }
                assert forall|c: int| 0 <= c < col + 1 implies #[trigger] at(
                    out@,
                    width as int,
                    row as int,
                    c,
                ) == at(data@, width as int, src_row as int, c) by {
                    if c < col {
                        assert(at(out@, width as int, row as int, c) == at(
                            before,
                            width as int,
                            row as int,
                            c,
                        ));
                    }
                }
            }
            col = col + 1;
        }
        proof {
            lemma_row_bounds(row as int, width as int, height as int);
        }
        row = row + 1;
    }
    assert(height * width == width * height) by (nonlinear_arith);
    out
}

/// Reversing the rows twice gives back the grid: a `flip_rows` of the result of a `flip_rows`
/// (as their contracts describe them) is the first `width * height` elements of the input.
pub proof fn lemma_flip_rows_twice<T>(
    data: Seq<T>,
    once: Seq<T>,
    twice: Seq<T>,
    width: int,
    height: int,
)
    requires
        0 <= width,
        0 <= height,
        width * height <= data.len(),
        once.len() == width * height,
        twice.len() == width * height,
        forall|r: int, c: int|
            0 <= r < height && 0 <= c < width ==> #[trigger] at(once, width, r, c) == at(
                data,
                width,
                height - 1 - r,
                c,
            ),
        forall|r: int, c: int|
            0 <= r < height && 0 <= c < width ==> #[trigger] at(twice, width, r, c) == at(
                once,
                width,
                height - 1 - r,
                c,
            ),
    ensures
        twice == data.take(width * height),
{
    assert forall|k: int| 0 <= k < width * height implies twice[k] == data[k] by {
        assert(width > 0) by (nonlinear_arith)
            requires
                0 <= k < width * height,
                0 <= height,
                0 <= width,
        ;
        let r = k / width;
        let c = k % width;
        vstd::arithmetic::div_mod::lemma_fundamental_div_mod(k, width);
        assert(k == r * width + c) by (nonlinear_arith)
            requires
                k == width * (k / width) + k % width,
                r == k / width,
                c == k % width,
        ;
        assert(0 <= c < width);
        assert(0 <= r < height) by (nonlinear_arith)
            requires
                k == r * width + c,
                0 <= c < width,
                0 <= k < width * height,
                0 < width,
        ;
        assert(at(twice, width, r, c) == twice[k]);
        assert(at(once, width, height - 1 - r, c) == at(data, width, r, c));
    }
    assert(twice =~= data.take(width * height));
}

} // verus!
