//! Marching squares over a classified depth grid: which cell edges each contour segment joins.
//!
//! Each grid vertex is classified against the target depth; for each cell of four valid
//! vertices the classes of its corners select the segments that cross it, each segment given
//! by the two cell edges it joins. Where on an edge a segment ends is a matter of the depth
//! values and is left to the caller.

use vstd::prelude::*;

verus! {

/// How a grid vertex stands against the target depth.
#[derive(PartialEq, Eq, Structural, Clone, Copy, Debug)]
pub enum VertexClass {
    /// No usable value at this vertex.
    Invalid,
    /// A value below the target.
    Below,
    /// A value at or above the target.
    Above,
}

/// A side of a grid cell whose corners are, in order, top-left (0), top-right (1),
/// bottom-right (2) and bottom-left (3).
#[derive(PartialEq, Eq, Structural, Clone, Copy, Debug)]
pub enum CellEdge {
    /// From corner 0 to corner 1.
    Top,
    /// From corner 1 to corner 2.
    Right,
    /// From corner 3 to corner 2.
    Bottom,
    /// From corner 0 to corner 3.
    Left,
}

/// A contour segment inside the cell whose top-left corner is at `row`, `col`.
#[derive(PartialEq, Eq, Structural, Clone, Copy, Debug)]
pub struct EdgeSegment {
    pub row: usize,
    pub col: usize,
    pub from: CellEdge,
    pub to: CellEdge,
}

/// The marching-squares case of a cell: bit `i` is set when corner `i` is at or above target.
pub open spec fn case_key(a0: bool, a1: bool, a2: bool, a3: bool) -> int {
    (if a0 { 1int } else { 0 }) + (if a1 { 2int } else { 0 }) + (if a2 { 4int } else { 0 }) + (
    if a3 { 8int } else { 0 })
}

/// The segments of a case, each as the pair of edges it joins, in the order they are emitted.
/// The two saddle cases, 5 and 10, have two segments each.
pub open spec fn case_edges(key: int) -> Seq<(CellEdge, CellEdge)> {
    if key == 1 || key == 14 {
        seq![(CellEdge::Left, CellEdge::Top)]
    } else if key == 2 || key == 13 {
        seq![(CellEdge::Top, CellEdge::Right)]
    } else if key == 3 || key == 12 {
        seq![(CellEdge::Left, CellEdge::Right)]
    } else if key == 4 || key == 11 {
        seq![(CellEdge::Right, CellEdge::Bottom)]
    } else if key == 5 {
        seq![(CellEdge::Left, CellEdge::Top), (CellEdge::Right, CellEdge::Bottom)]
    } else if key == 6 || key == 9 {
        seq![(CellEdge::Top, CellEdge::Bottom)]
    } else if key == 7 || key == 8 {
        seq![(CellEdge::Left, CellEdge::Bottom)]
    } else if key == 10 {
        seq![(CellEdge::Top, CellEdge::Right), (CellEdge::Left, CellEdge::Bottom)]
    } else {
        seq![]
    }
}

/// The segments of a case placed in the cell at `row`, `col`.
pub open spec fn placed(edges: Seq<(CellEdge, CellEdge)>, row: int, col: int) -> Seq<EdgeSegment> {
    edges.map_values(
        |e: (CellEdge, CellEdge)| EdgeSegment { row: row as usize, col: col as usize, from: e.0, to: e.1 },
    )
}

/// The four corners of the cell at `row`, `col` of a grid of the given width, in corner order.
pub open spec fn corners(cls: Seq<VertexClass>, width: int, row: int, col: int) -> (
    VertexClass,
    VertexClass,
    VertexClass,
    VertexClass,
) {
    (
        cls[row * width + col],
        cls[row * width + col + 1],
        cls[(row + 1) * width + col + 1],
        cls[(row + 1) * width + col],
    )
}

/// All four corners of the cell have a usable value.
pub open spec fn cell_valid(cls: Seq<VertexClass>, width: int, row: int, col: int) -> bool {
    let (v0, v1, v2, v3) = corners(cls, width, row, col);
    !(v0 is Invalid) && !(v1 is Invalid) && !(v2 is Invalid) && !(v3 is Invalid)
}

/// The edge pairs of the cell at `row`, `col`: none when a corner is invalid, else those of its
/// case.
pub open spec fn cell_edges(cls: Seq<VertexClass>, width: int, row: int, col: int) -> Seq<
    (CellEdge, CellEdge),
> {
    let (v0, v1, v2, v3) = corners(cls, width, row, col);
    if cell_valid(cls, width, row, col) {
        case_edges(case_key(v0 is Above, v1 is Above, v2 is Above, v3 is Above))
    } else {
        seq![]
    }
}

/// The segments of the cell at `row`, `col` of a grid of the given width.
pub open spec fn cell_segments(cls: Seq<VertexClass>, width: int, row: int, col: int) -> Seq<
    EdgeSegment,
> {
    placed(cell_edges(cls, width, row, col), row, col)
}

/// The segments of the first `n` cells of row `row`, left to right.
pub open spec fn row_segments(cls: Seq<VertexClass>, width: int, row: int, n: nat) -> Seq<
    EdgeSegment,
>
    decreases n,
{
    if n == 0 {
        seq![]
    } else {
        row_segments(cls, width, row, (n - 1) as nat) + cell_segments(cls, width, row, n - 1)
    }
}

/// The segments of the cells of the first `n` cell rows, row by row.
pub open spec fn grid_segments(cls: Seq<VertexClass>, width: int, n: nat) -> Seq<EdgeSegment>
    decreases n,
{
    if n == 0 {
        seq![]
    } else {
        grid_segments(cls, width, (n - 1) as nat) + row_segments(
            cls,
            width,
            n - 1,
            (width - 1) as nat,
        )
    }
}

/// All the segments of a `width` by `height` grid of classes, cell by cell in row-major order;
/// none when the grid has fewer than two rows or columns or `cls` is shorter than the grid.
pub open spec fn contour_segments_of(cls: Seq<VertexClass>, width: int, height: int) -> Seq<
    EdgeSegment,
> {
    if width < 2 || height < 2 || cls.len() < width * height {
        seq![]
    } else {
        grid_segments(cls, width, (height - 1) as nat)
    }
}

fn push_case(out: &mut Vec<EdgeSegment>, row: usize, col: usize, key: u8)
    requires
        key < 16,
    ensures
        final(out)@ == old(out)@ + placed(case_edges(key as int), row as int, col as int),
{
    let ghost start = out@;
    let l = CellEdge::Left;
    let t = CellEdge::Top;
    let r = CellEdge::Right;
    let b = CellEdge::Bottom;
    if key == 1 || key == 14 {
        out.push(EdgeSegment { row, col, from: l, to: t });
    } else if key == 2 || key == 13 {
        out.push(EdgeSegment { row, col, from: t, to: r });
    } else if key == 3 || key == 12 {
        out.push(EdgeSegment { row, col, from: l, to: r });
    } else if key == 4 || key == 11 {
        out.push(EdgeSegment { row, col, from: r, to: b });
    } else if key == 5 {
        out.push(EdgeSegment { row, col, from: l, to: t });
        out.push(EdgeSegment { row, col, from: r, to: b });
    } else if key == 6 || key == 9 {
        out.push(EdgeSegment { row, col, from: t, to: b });
    } else if key == 7 || key == 8 {
        out.push(EdgeSegment { row, col, from: l, to: b });
    } else if key == 10 {
        out.push(EdgeSegment { row, col, from: t, to: r });
        out.push(EdgeSegment { row, col, from: l, to: b });
    }
    assert(out@ =~= start + placed(case_edges(key as int), row as int, col as int));
}

proof fn lemma_cell_indices(row: int, col: int, width: int, height: int)
    requires
        0 <= row,
        row + 1 < height,
        0 <= col,
        col + 1 < width,
    ensures
        0 <= row * width,
        (row + 1) * width == row * width + width,
        (row + 1) * width + col + 1 < height * width,
        height * width == width * height,
{
    assert(height * width == width * height) by (nonlinear_arith);
    assert(0 <= row * width) by (nonlinear_arith)
        requires
            0 <= row,
            0 <= width,
    ;
    assert((row + 1) * width == row * width + width) by (nonlinear_arith);
    assert((row + 2) * width <= height * width) by (nonlinear_arith)
        requires
            row + 2 <= height,
            0 <= width,
    ;
    assert((row + 2) * width == (row + 1) * width + width) by (nonlinear_arith);
}

/// The contour segments of a grid of vertex classes (see `contour_segments_of`).
pub fn contour_segments(classes: &Vec<VertexClass>, width: usize, height: usize) -> (out: Vec<
    EdgeSegment,
>)
    ensures
        out@ == contour_segments_of(classes@, width as int, height as int),
{
    let mut out: Vec<EdgeSegment> = Vec::new();
    if width < 2 || height < 2 {
        return out;
    }
    match width.checked_mul(height) {
        None => {
            assert(classes.len() < width * height);
            return out;
        },
        Some(n) => {
            if classes.len() < n {
                return out;
            }
        },
    }
    let mut row: usize = 0;
    while row < height - 1
        invariant
            2 <= width,
            2 <= height,
            width * height <= classes.len(),
            row <= height - 1,
            out@ == grid_segments(classes@, width as int, row as nat),
        decreases height - 1 - row,
    {
        let ghost before_row = out@;
        let mut col: usize = 0;
        while col < width - 1
            invariant
                2 <= width,
                2 <= height,
                width * height <= classes.len(),
                row < height - 1,
                col <= width - 1,
                out@ == before_row + row_segments(classes@, width as int, row as int, col as nat),
            decreases width - 1 - col,
        {
            proof {
                lemma_cell_indices(row as int, col as int, width as int, height as int);
            }
            let i0 = row * width + col;
            let i1 = row * width + (col + 1);
            let i2 = (row + 1) * width + (col + 1);
            let i3 = (row + 1) * width + col;
            let c0 = classes[i0];
            let c1 = classes[i1];
            let c2 = classes[i2];
            let c3 = classes[i3];
            let ghost before_cell = out@;
            if c0 != VertexClass::Invalid && c1 != VertexClass::Invalid && c2
                != VertexClass::Invalid && c3 != VertexClass::Invalid {
                let key: u8 = (if c0 == VertexClass::Above {
                    1u8
                } else {
                    0u8
                }) + (if c1 == VertexClass::Above {
                    2u8
                } else {
                    0u8
                }) + (if c2 == VertexClass::Above {
                    4u8
                } else {
                    0u8
                }) + (if c3 == VertexClass::Above {
                    8u8
                } else {
                    0u8
                });
                push_case(&mut out, row, col, key);
            }
            assert(out@ == before_cell + cell_segments(
                classes@,
                width as int,
                row as int,
                col as int,
            ));
            col = col + 1;
        }
        row = row + 1;
    }
    out
}

/// The edge `e` of a cell is crossed: its two corners stand on different sides of the target
/// (`a0`..`a3` tell, corner by corner, whether it is at or above the target).
pub open spec fn crossed(e: CellEdge, a0: bool, a1: bool, a2: bool, a3: bool) -> bool {
    match e {
        CellEdge::Top => a0 != a1,
        CellEdge::Right => a1 != a2,
        CellEdge::Bottom => a3 != a2,
        CellEdge::Left => a0 != a3,
    }
}

/// How many segment ends of `segs` lie on the edge `e`.
pub open spec fn edge_uses(segs: Seq<(CellEdge, CellEdge)>, e: CellEdge) -> nat
    decreases segs.len(),
{
    if segs.len() == 0 {
        0
    } else {
        edge_uses(segs.drop_last(), e) + (if segs.last().0 == e {
            1nat
        } else {
            0
        }) + (if segs.last().1 == e {
            1nat
        } else {
            0
        })
    }
}

/// In a cell of four valid corners, the contour ends exactly once on every crossed edge and
/// never on another, and no segment begins and ends on the same edge.
pub proof fn lemma_segments_end_on_crossed_edges(a0: bool, a1: bool, a2: bool, a3: bool, e: CellEdge)
    ensures
        edge_uses(case_edges(case_key(a0, a1, a2, a3)), e) == (if crossed(e, a0, a1, a2, a3) {
            1nat
        } else {
            0
        }),
        forall|i: int|
            0 <= i < case_edges(case_key(a0, a1, a2, a3)).len() ==> (#[trigger] case_edges(
                case_key(a0, a1, a2, a3),
            )[i]).0 != case_edges(case_key(a0, a1, a2, a3))[i].1,
{
    reveal_with_fuel(edge_uses, 3);
    let k = case_key(a0, a1, a2, a3);
    let segs = case_edges(k);
    if segs.len() == 2 {
        assert(segs.drop_last().drop_last().len() == 0);
    } else if segs.len() == 1 {
        assert(segs.drop_last().len() == 0);
    }
}

/// Swapping above and below leaves the segments of a cell unchanged, except in the two saddle
/// cases, where the pairing of the four crossed edges depends on which corners are above.
pub proof fn lemma_complement_same_segments(a0: bool, a1: bool, a2: bool, a3: bool)
    requires
        case_key(a0, a1, a2, a3) != 5,
        case_key(a0, a1, a2, a3) != 10,
    ensures
        case_edges(case_key(!a0, !a1, !a2, !a3)) == case_edges(case_key(a0, a1, a2, a3)),
{
}

/// Neighbouring cells with valid corners agree on their shared edge: the contour ends on the
/// right edge of a cell exactly when it ends on the left edge of the next cell in the row, and on
/// the bottom edge exactly when it ends on the top edge of the cell below.
pub proof fn lemma_neighbours_agree(cls: Seq<VertexClass>, width: int, row: int, col: int)
    ensures
        cell_valid(cls, width, row, col) && cell_valid(cls, width, row, col + 1) ==> edge_uses(
            cell_edges(cls, width, row, col),
            CellEdge::Right,
        ) == edge_uses(cell_edges(cls, width, row, col + 1), CellEdge::Left),
        cell_valid(cls, width, row, col) && cell_valid(cls, width, row + 1, col) ==> edge_uses(
            cell_edges(cls, width, row, col),
            CellEdge::Bottom,
        ) == edge_uses(cell_edges(cls, width, row + 1, col), CellEdge::Top),
{
    let (v0, v1, v2, v3) = corners(cls, width, row, col);
    let (r0, r1, r2, r3) = corners(cls, width, row, col + 1);
    let (d0, d1, d2, d3) = corners(cls, width, row + 1, col);
    lemma_segments_end_on_crossed_edges(
        v0 is Above,
        v1 is Above,
        v2 is Above,
        v3 is Above,
        CellEdge::Right,
    );
    lemma_segments_end_on_crossed_edges(
        v0 is Above,
        v1 is Above,
        v2 is Above,
        v3 is Above,
        CellEdge::Bottom,
    );
    lemma_segments_end_on_crossed_edges(
        r0 is Above,
        r1 is Above,
        r2 is Above,
        r3 is Above,
        CellEdge::Left,
    );
    lemma_segments_end_on_crossed_edges(
        d0 is Above,
        d1 is Above,
        d2 is Above,
        d3 is Above,
        CellEdge::Top,
    );
    assert((row + 1) * width + col + 1 == (row + 1) * width + (col + 1));
    assert(row * width + col + 1 == row * width + (col + 1));
}

/// The position of an edge when going round a cell from the left: Left, Top, Right, Bottom.
pub open spec fn edge_rank(e: CellEdge) -> int {
    match e {
        CellEdge::Left => 0,
        CellEdge::Top => 1,
        CellEdge::Right => 2,
        CellEdge::Bottom => 3,
    }
}

/// The corner at which the two edges meet (0 top-left, 1 top-right, 2 bottom-right,
/// 3 bottom-left), or 4 when they are opposite edges.
pub open spec fn meeting_corner(a: CellEdge, b: CellEdge) -> int {
    if (a == CellEdge::Left && b == CellEdge::Top) || (a == CellEdge::Top && b == CellEdge::Left) {
        0
    } else if (a == CellEdge::Top && b == CellEdge::Right) || (a == CellEdge::Right && b
        == CellEdge::Top) {
        1
    } else if (a == CellEdge::Right && b == CellEdge::Bottom) || (a == CellEdge::Bottom && b
        == CellEdge::Right) {
        2
    } else if (a == CellEdge::Left && b == CellEdge::Bottom) || (a == CellEdge::Bottom && b
        == CellEdge::Left) {
        3
    } else {
        4
    }
}

/// All four edges of the cell are crossed: its corners alternate above and below (a saddle).
pub open spec fn is_saddle(a0: bool, a1: bool, a2: bool, a3: bool) -> bool {
    a0 != a1 && a1 != a2 && a2 != a3 && a3 != a0
}

/// Whether corner `k` (0 to 3) is at or above the target.
pub open spec fn corner_above(k: int, a0: bool, a1: bool, a2: bool, a3: bool) -> bool {
    if k == 0 {
        a0
    } else if k == 1 {
        a1
    } else if k == 2 {
        a2
    } else if k == 3 {
        a3
    } else {
        false
    }
}

/// `e` lies in a cell of a grid of the given width whose four corners all have a value, and
/// joins two different edges of it, each crossed by the contour.
pub open spec fn lies_on_crossings(cls: Seq<VertexClass>, width: int, e: EdgeSegment) -> bool {
    let r = e.row as int;
    let c = e.col as int;
    let a0 = cls[r * width + c];
    let a1 = cls[r * width + c + 1];
    let a2 = cls[(r + 1) * width + c + 1];
    let a3 = cls[(r + 1) * width + c];
    &&& !(a0 is Invalid) && !(a1 is Invalid) && !(a2 is Invalid) && !(a3 is Invalid)
    &&& e.from != e.to
    &&& crossed(e.from, a0 is Above, a1 is Above, a2 is Above, a3 is Above)
    &&& crossed(e.to, a0 is Above, a1 is Above, a2 is Above, a3 is Above)
    &&& edge_rank(e.from) < edge_rank(e.to)
    &&& is_saddle(a0 is Above, a1 is Above, a2 is Above, a3 is Above) ==> meeting_corner(
        e.from,
        e.to,
    ) < 4 && corner_above(
        meeting_corner(e.from, e.to),
        a0 is Above,
        a1 is Above,
        a2 is Above,
        a3 is Above,
    )
}

proof fn lemma_case_edges_cross(a0: bool, a1: bool, a2: bool, a3: bool)
    ensures
        forall|i: int|
            0 <= i < case_edges(case_key(a0, a1, a2, a3)).len() ==> {
                let p = #[trigger] case_edges(case_key(a0, a1, a2, a3))[i];
                &&& p.0 != p.1
                &&& crossed(p.0, a0, a1, a2, a3)
                &&& crossed(p.1, a0, a1, a2, a3)
                &&& edge_rank(p.0) < edge_rank(p.1)
                &&& is_saddle(a0, a1, a2, a3) ==> meeting_corner(p.0, p.1) < 4 && corner_above(
                    meeting_corner(p.0, p.1),
                    a0,
                    a1,
                    a2,
                    a3,
                )
            },
        forall|i: int, j: int|
            0 <= i < j < case_edges(case_key(a0, a1, a2, a3)).len() ==> meeting_corner(
                (#[trigger] case_edges(case_key(a0, a1, a2, a3))[i]).0,
                case_edges(case_key(a0, a1, a2, a3))[i].1,
            ) < meeting_corner(
                (#[trigger] case_edges(case_key(a0, a1, a2, a3))[j]).0,
                case_edges(case_key(a0, a1, a2, a3))[j].1,
            ),
{
}

proof fn lemma_cell_segments_ok(cls: Seq<VertexClass>, width: int, row: int, col: int)
    requires
        0 <= row <= usize::MAX,
        0 <= col <= usize::MAX,
    ensures
        forall|k: int|
            0 <= k < cell_segments(cls, width, row, col).len() ==> {
                let e = #[trigger] cell_segments(cls, width, row, col)[k];
                &&& e.row as int == row
                &&& e.col as int == col
                &&& lies_on_crossings(cls, width, e)
            },
{
    let (v0, v1, v2, v3) = corners(cls, width, row, col);
    lemma_case_edges_cross(v0 is Above, v1 is Above, v2 is Above, v3 is Above);
}

proof fn lemma_row_segments_ok(cls: Seq<VertexClass>, width: int, row: int, n: nat)
    requires
        0 <= row <= usize::MAX,
        n <= usize::MAX,
    ensures
        forall|k: int|
            0 <= k < row_segments(cls, width, row, n).len() ==> {
                let e = #[trigger] row_segments(cls, width, row, n)[k];
                &&& e.row as int == row
                &&& e.col < n
                &&& lies_on_crossings(cls, width, e)
            },
    decreases n,
{
    if n > 0 {
        let prev = row_segments(cls, width, row, (n - 1) as nat);
        let cell = cell_segments(cls, width, row, n - 1);
        lemma_row_segments_ok(cls, width, row, (n - 1) as nat);
        lemma_cell_segments_ok(cls, width, row, n - 1);
        assert forall|k: int| 0 <= k < row_segments(cls, width, row, n).len() implies {
            let e = #[trigger] row_segments(cls, width, row, n)[k];
            &&& e.row as int == row
            &&& e.col < n
            &&& lies_on_crossings(cls, width, e)
        } by {
            if k < prev.len() {
                assert(row_segments(cls, width, row, n)[k] == prev[k]);
            } else {
                assert(row_segments(cls, width, row, n)[k] == cell[k - prev.len()]);
            }
        }
    }
}

proof fn lemma_grid_segments_ok(cls: Seq<VertexClass>, width: int, n: nat)
    requires
        n <= usize::MAX,
        1 <= width <= usize::MAX,
    ensures
        forall|k: int|
            0 <= k < grid_segments(cls, width, n).len() ==> {
                let e = #[trigger] grid_segments(cls, width, n)[k];
                &&& e.row < n
                &&& e.col + 1 < width
                &&& lies_on_crossings(cls, width, e)
            },
    decreases n,
{
    if n > 0 {
        let prev = grid_segments(cls, width, (n - 1) as nat);
        let row = row_segments(cls, width, n - 1, (width - 1) as nat);
        lemma_grid_segments_ok(cls, width, (n - 1) as nat);
        lemma_row_segments_ok(cls, width, n - 1, (width - 1) as nat);
        assert forall|k: int| 0 <= k < grid_segments(cls, width, n).len() implies {
            let e = #[trigger] grid_segments(cls, width, n)[k];
            &&& e.row < n
            &&& e.col + 1 < width
            &&& lies_on_crossings(cls, width, e)
        } by {
            if k < prev.len() {
                assert(grid_segments(cls, width, n)[k] == prev[k]);
            } else {
                assert(grid_segments(cls, width, n)[k] == row[k - prev.len()]);
            }
        }
    }
}

/// A grid with fewer classes than vertices gives no segment. Every contour segment lies in a
/// cell of the grid whose four corners all have a value: a cell with a no-data corner gives no
/// segment. Each segment joins two different edges of its cell,
/// and on each of them one corner is at or above the target and the other below; it goes from
/// the earlier to the later edge in the order Left, Top, Right, Bottom; and in a saddle cell it
/// cuts off a corner that is at or above the target.
pub proof fn lemma_segments_only_in_valid_cells(cls: Seq<VertexClass>, width: usize, height: usize)
    ensures
        cls.len() < width * height ==> contour_segments_of(cls, width as int, height as int).len()
            == 0,
        forall|k: int|
            0 <= k < contour_segments_of(cls, width as int, height as int).len() ==> {
                let e = #[trigger] contour_segments_of(cls, width as int, height as int)[k];
                let r = e.row as int;
                let c = e.col as int;
                let w = width as int;
                &&& r + 1 < height
                &&& c + 1 < width
                &&& !(cls[r * w + c] is Invalid)
                &&& !(cls[r * w + c + 1] is Invalid)
                &&& !(cls[(r + 1) * w + c + 1] is Invalid)
                &&& !(cls[(r + 1) * w + c] is Invalid)
                &&& e.from != e.to
                &&& crossed(
                    e.from,
                    cls[r * w + c] is Above,
                    cls[r * w + c + 1] is Above,
                    cls[(r + 1) * w + c + 1] is Above,
                    cls[(r + 1) * w + c] is Above,
                )
                &&& crossed(
                    e.to,
                    cls[r * w + c] is Above,
                    cls[r * w + c + 1] is Above,
                    cls[(r + 1) * w + c + 1] is Above,
                    cls[(r + 1) * w + c] is Above,
                )
                &&& edge_rank(e.from) < edge_rank(e.to)
                &&& is_saddle(
                    cls[r * w + c] is Above,
                    cls[r * w + c + 1] is Above,
                    cls[(r + 1) * w + c + 1] is Above,
                    cls[(r + 1) * w + c] is Above,
                ) ==> meeting_corner(e.from, e.to) < 4 && corner_above(
                    meeting_corner(e.from, e.to),
                    cls[r * w + c] is Above,
                    cls[r * w + c + 1] is Above,
                    cls[(r + 1) * w + c + 1] is Above,
                    cls[(r + 1) * w + c] is Above,
                )
            },
{
    if !(width < 2 || height < 2 || cls.len() < width * height) {
        lemma_grid_segments_ok(cls, width as int, (height - 1) as nat);
    }
}

proof fn lemma_edge_used_somewhere(segs: Seq<(CellEdge, CellEdge)>, e: CellEdge)
    requires
        edge_uses(segs, e) > 0,
    ensures
        exists|i: int| 0 <= i < segs.len() && ((#[trigger] segs[i]).0 == e || segs[i].1 == e),
    decreases segs.len(),
{
    if segs.last().0 == e || segs.last().1 == e {
        assert(segs[segs.len() - 1] == segs.last());
    } else {
        lemma_edge_used_somewhere(segs.drop_last(), e);
        let i = choose|i: int|
            0 <= i < segs.drop_last().len() && ((#[trigger] segs.drop_last()[i]).0 == e
                || segs.drop_last()[i].1 == e);
        assert(segs[i] == segs.drop_last()[i]);
    }
}

proof fn lemma_cell_in_row(cls: Seq<VertexClass>, width: int, row: int, n: nat, col: int, i: int)
    requires
        0 <= col < n,
        0 <= i < cell_segments(cls, width, row, col).len(),
    ensures
        exists|k: int|
            0 <= k < row_segments(cls, width, row, n).len() && #[trigger] row_segments(
                cls,
                width,
                row,
                n,
            )[k] == cell_segments(cls, width, row, col)[i],
    decreases n,
{
    let prev = row_segments(cls, width, row, (n - 1) as nat);
    let whole = row_segments(cls, width, row, n);
    if col == n - 1 {
        assert(whole[prev.len() + i] == cell_segments(cls, width, row, col)[i]);
    } else {
        lemma_cell_in_row(cls, width, row, (n - 1) as nat, col, i);
        let k = choose|k: int|
            0 <= k < prev.len() && #[trigger] prev[k] == cell_segments(cls, width, row, col)[i];
        assert(whole[k] == prev[k]);
    }
}

proof fn lemma_cell_in_grid(cls: Seq<VertexClass>, width: int, n: nat, row: int, col: int, i: int)
    requires
        0 <= row < n,
        0 <= col < width - 1,
        0 <= i < cell_segments(cls, width, row, col).len(),
    ensures
        exists|k: int|
            0 <= k < grid_segments(cls, width, n).len() && #[trigger] grid_segments(cls, width, n)[k]
                == cell_segments(cls, width, row, col)[i],
    decreases n,
{
    let prev = grid_segments(cls, width, (n - 1) as nat);
    let whole = grid_segments(cls, width, n);
    if row == n - 1 {
        lemma_cell_in_row(cls, width, row, (width - 1) as nat, col, i);
        let rs = row_segments(cls, width, row, (width - 1) as nat);
        let k = choose|k: int|
            0 <= k < rs.len() && #[trigger] rs[k] == cell_segments(cls, width, row, col)[i];
        assert(whole[prev.len() + k] == rs[k]);
    } else {
        lemma_cell_in_grid(cls, width, (n - 1) as nat, row, col, i);
        let k = choose|k: int|
            0 <= k < prev.len() && #[trigger] prev[k] == cell_segments(cls, width, row, col)[i];
        assert(whole[k] == prev[k]);
    }
}

/// In a grid of at least two rows and columns with a class for every vertex, every edge that the
/// contour crosses in a cell whose four corners have a value carries a segment of that cell.
pub proof fn lemma_every_crossed_edge_has_a_segment(
    cls: Seq<VertexClass>,
    width: usize,
    height: usize,
    row: int,
    col: int,
    e: CellEdge,
)
    requires
        2 <= width,
        2 <= height,
        width * height <= cls.len(),
        0 <= row < height - 1,
        0 <= col < width - 1,
        !(cls[row * width + col] is Invalid),
        !(cls[row * width + col + 1] is Invalid),
        !(cls[(row + 1) * width + col + 1] is Invalid),
        !(cls[(row + 1) * width + col] is Invalid),
        crossed(
            e,
            cls[row * width + col] is Above,
            cls[row * width + col + 1] is Above,
            cls[(row + 1) * width + col + 1] is Above,
            cls[(row + 1) * width + col] is Above,
        ),
    ensures
        exists|k: int|
            0 <= k < contour_segments_of(cls, width as int, height as int).len() && {
                let s = #[trigger] contour_segments_of(cls, width as int, height as int)[k];
                s.row == row && s.col == col && (s.from == e || s.to == e)
            },
{
    let w = width as int;
    let (v0, v1, v2, v3) = corners(cls, w, row, col);
    lemma_segments_end_on_crossed_edges(v0 is Above, v1 is Above, v2 is Above, v3 is Above, e);
    let edges = cell_edges(cls, w, row, col);
    lemma_edge_used_somewhere(edges, e);
    let i = choose|i: int| 0 <= i < edges.len() && ((#[trigger] edges[i]).0 == e || edges[i].1 == e);
    lemma_cell_in_grid(cls, w, (height - 1) as nat, row, col, i);
    let segs = contour_segments_of(cls, w, height as int);
    let k = choose|k: int|
        0 <= k < segs.len() && #[trigger] segs[k] == cell_segments(cls, w, row, col)[i];
    assert(segs[k].from == e || segs[k].to == e);
}

/// `a` comes before `b` in row-major cell order; within one cell, the segment cutting off the
/// lower-numbered corner comes first.
pub open spec fn comes_before(a: EdgeSegment, b: EdgeSegment) -> bool {
    ||| a.row < b.row
    ||| a.row == b.row && a.col < b.col
    ||| a.row == b.row && a.col == b.col && meeting_corner(a.from, a.to) < meeting_corner(
        b.from,
        b.to,
    )
}

proof fn lemma_cell_segments_ordered(cls: Seq<VertexClass>, width: int, row: int, col: int)
    requires
        0 <= row <= usize::MAX,
        0 <= col <= usize::MAX,
    ensures
        forall|i: int, j: int|
            0 <= i < j < cell_segments(cls, width, row, col).len() ==> comes_before(
                #[trigger] cell_segments(cls, width, row, col)[i],
                #[trigger] cell_segments(cls, width, row, col)[j],
            ),
{
    let (v0, v1, v2, v3) = corners(cls, width, row, col);
    lemma_case_edges_cross(v0 is Above, v1 is Above, v2 is Above, v3 is Above);
    let edges = cell_edges(cls, width, row, col);
    let segs = cell_segments(cls, width, row, col);
    assert forall|i: int, j: int| 0 <= i < j < segs.len() implies comes_before(
        #[trigger] segs[i],
        #[trigger] segs[j],
    ) by {
        assert(segs[i].from == edges[i].0 && segs[i].to == edges[i].1);
        assert(segs[j].from == edges[j].0 && segs[j].to == edges[j].1);
    }
}

proof fn lemma_row_segments_ordered(cls: Seq<VertexClass>, width: int, row: int, n: nat)
    requires
        0 <= row <= usize::MAX,
        n <= usize::MAX,
    ensures
        forall|i: int, j: int|
            0 <= i < j < row_segments(cls, width, row, n).len() ==> comes_before(
                #[trigger] row_segments(cls, width, row, n)[i],
                #[trigger] row_segments(cls, width, row, n)[j],
            ),
    decreases n,
{
    if n > 0 {
        let prev = row_segments(cls, width, row, (n - 1) as nat);
        let cell = cell_segments(cls, width, row, n - 1);
        let whole = row_segments(cls, width, row, n);
        lemma_row_segments_ordered(cls, width, row, (n - 1) as nat);
        lemma_row_segments_ok(cls, width, row, (n - 1) as nat);
        lemma_cell_segments_ok(cls, width, row, n - 1);
        lemma_cell_segments_ordered(cls, width, row, n - 1);
        assert forall|i: int, j: int| 0 <= i < j < whole.len() implies comes_before(
            #[trigger] whole[i],
            #[trigger] whole[j],
        ) by {
            if j < prev.len() {
                assert(whole[i] == prev[i] && whole[j] == prev[j]);
            } else if i < prev.len() {
                assert(whole[i] == prev[i] && whole[j] == cell[j - prev.len()]);
                assert(prev[i].col < n - 1);
            } else {
                assert(whole[i] == cell[i - prev.len()] && whole[j] == cell[j - prev.len()]);
            }
        }
    }
}

proof fn lemma_grid_segments_ordered(cls: Seq<VertexClass>, width: int, n: nat)
    requires
        n <= usize::MAX,
        1 <= width <= usize::MAX,
    ensures
        forall|i: int, j: int|
            0 <= i < j < grid_segments(cls, width, n).len() ==> comes_before(
                #[trigger] grid_segments(cls, width, n)[i],
                #[trigger] grid_segments(cls, width, n)[j],
            ),
    decreases n,
{
    if n > 0 {
        let prev = grid_segments(cls, width, (n - 1) as nat);
        let rs = row_segments(cls, width, n - 1, (width - 1) as nat);
        let whole = grid_segments(cls, width, n);
        lemma_grid_segments_ordered(cls, width, (n - 1) as nat);
        lemma_grid_segments_ok(cls, width, (n - 1) as nat);
        lemma_row_segments_ok(cls, width, n - 1, (width - 1) as nat);
        lemma_row_segments_ordered(cls, width, n - 1, (width - 1) as nat);
        assert forall|i: int, j: int| 0 <= i < j < whole.len() implies comes_before(
            #[trigger] whole[i],
            #[trigger] whole[j],
        ) by {
            if j < prev.len() {
                assert(whole[i] == prev[i] && whole[j] == prev[j]);
            } else if i < prev.len() {
                assert(whole[i] == prev[i] && whole[j] == rs[j - prev.len()]);
                assert(prev[i].row < n - 1);
            } else {
                assert(whole[i] == rs[i - prev.len()] && whole[j] == rs[j - prev.len()]);
            }
        }
    }
}

/// The segments come cell by cell in row-major order: by row, then by column; within a (saddle)
/// cell, the segment around the lower-numbered corner first.
pub proof fn lemma_segments_in_row_major_order(cls: Seq<VertexClass>, width: usize, height: usize)
    ensures
        forall|i: int, j: int|
            0 <= i < j < contour_segments_of(cls, width as int, height as int).len() ==> {
                let a = #[trigger] contour_segments_of(cls, width as int, height as int)[i];
                let b = #[trigger] contour_segments_of(cls, width as int, height as int)[j];
                ||| a.row < b.row
                ||| a.row == b.row && a.col < b.col
                ||| a.row == b.row && a.col == b.col && meeting_corner(a.from, a.to)
                    < meeting_corner(b.from, b.to)
            },
{
    if !(width < 2 || height < 2 || cls.len() < width * height) {
        lemma_grid_segments_ordered(cls, width as int, (height - 1) as nat);
    }
}

} // verus!
