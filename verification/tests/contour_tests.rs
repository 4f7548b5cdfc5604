use vrbag_s102::contour::{contour_segments, CellEdge, EdgeSegment, VertexClass};

use CellEdge::{Bottom, Left, Right, Top};
use VertexClass::{Above, Below, Invalid};

fn seg(row: usize, col: usize, from: CellEdge, to: CellEdge) -> EdgeSegment {
    EdgeSegment { row, col, from, to }
}

// corners in grid order: top-left, top-right, bottom-left, bottom-right
fn one_cell(tl: VertexClass, tr: VertexClass, bl: VertexClass, br: VertexClass) -> Vec<EdgeSegment> {
    contour_segments(&vec![tl, tr, bl, br], 2, 2)
}

#[test]
fn uniform_cells_have_no_segment() {
    assert!(one_cell(Above, Above, Above, Above).is_empty());
    assert!(one_cell(Below, Below, Below, Below).is_empty());
}

#[test]
fn single_corner_cases() {
    assert_eq!(one_cell(Above, Below, Below, Below), vec![seg(0, 0, Left, Top)]);
    assert_eq!(one_cell(Below, Above, Below, Below), vec![seg(0, 0, Top, Right)]);
    assert_eq!(one_cell(Below, Below, Below, Above), vec![seg(0, 0, Right, Bottom)]);
    assert_eq!(one_cell(Below, Below, Above, Below), vec![seg(0, 0, Left, Bottom)]);
    assert_eq!(one_cell(Below, Above, Above, Above), vec![seg(0, 0, Left, Top)]);
}

#[test]
fn half_cells() {
    assert_eq!(one_cell(Above, Above, Below, Below), vec![seg(0, 0, Left, Right)]);
    assert_eq!(one_cell(Below, Above, Below, Above), vec![seg(0, 0, Top, Bottom)]);
}

#[test]
fn saddles_have_two_segments() {
    assert_eq!(
        one_cell(Above, Below, Below, Above),
        vec![seg(0, 0, Left, Top), seg(0, 0, Right, Bottom)]
    );
    assert_eq!(
        one_cell(Below, Above, Above, Below),
        vec![seg(0, 0, Top, Right), seg(0, 0, Left, Bottom)]
    );
}

#[test]
fn invalid_corner_skips_cell() {
    assert!(one_cell(Invalid, Above, Below, Below).is_empty());
}

#[test]
fn too_small_or_short_grids() {
    assert!(contour_segments(&vec![Above, Below], 1, 2).is_empty());
    assert!(contour_segments(&vec![Above, Below], 2, 1).is_empty());
    assert!(contour_segments(&vec![Above, Below, Below], 2, 2).is_empty());
    assert!(contour_segments(&vec![Above; 4], usize::MAX, 2).is_empty());
}

#[test]
fn cells_in_row_major_order() {
    // 3 x 3 vertices, only the centre above: every cell touches it.
    let cls = vec![Below, Below, Below, Below, Above, Below, Below, Below, Below];
    assert_eq!(
        contour_segments(&cls, 3, 3),
        vec![
            seg(0, 0, Right, Bottom),
            seg(0, 1, Left, Bottom),
            seg(1, 0, Top, Right),
            seg(1, 1, Left, Top),
        ]
    );
}
