use vrbag_s102::polyline::{chaikin_smooth, smooth, stitch};

type P = (i32, i32);

fn same(a: P, b: P) -> bool {
    a == b
}

fn cut(a: P, b: P) -> P {
    // a quarter of the way from a to b, on a grid scaled by 4
    ((3 * a.0 + b.0) / 4, (3 * a.1 + b.1) / 4)
}

#[test]
fn stitch_empty() {
    let lines = stitch(Vec::<(P, P)>::new(), &same);
    assert!(lines.is_empty());
}

#[test]
fn stitch_chains_from_the_last_segment() {
    let segs = vec![((1, 0), (2, 0)), ((5, 5), (6, 6)), ((0, 0), (1, 0))];
    let lines = stitch(segs, &same);
    assert_eq!(lines, vec![vec![(0, 0), (1, 0), (2, 0)], vec![(5, 5), (6, 6)]]);
}

#[test]
fn stitch_attaches_through_either_end() {
    // the second segment is met at its second end and is walked backwards
    let segs = vec![((8, 0), (4, 0)), ((0, 0), (4, 0))];
    let lines = stitch(segs, &same);
    assert_eq!(lines, vec![vec![(0, 0), (4, 0), (8, 0)]]);
}

#[test]
fn stitch_grows_only_at_the_end() {
    // (9,9)-(0,0) would attach at the start of the line, but lines only grow at their end
    let segs = vec![((9, 9), (0, 0)), ((0, 0), (1, 0))];
    let lines = stitch(segs, &same);
    assert_eq!(lines, vec![vec![(0, 0), (1, 0)], vec![(9, 9), (0, 0)]]);
}

#[test]
fn stitch_with_tolerance() {
    let close = |a: P, b: P| (a.0 - b.0).abs() <= 1 && (a.1 - b.1).abs() <= 1;
    let segs = vec![((11, 0), (20, 0)), ((0, 0), (10, 1))];
    let lines = stitch(segs, &close);
    assert_eq!(lines, vec![vec![(0, 0), (10, 1), (20, 0)]]);
}

#[test]
fn chaikin_short_lines_unchanged() {
    assert_eq!(chaikin_smooth(vec![(0, 0), (8, 8)], &cut), vec![(0, 0), (8, 8)]);
}

#[test]
fn chaikin_cuts_corners() {
    let out = chaikin_smooth(vec![(0, 0), (8, 0), (8, 8)], &cut);
    assert_eq!(out, vec![(0, 0), (2, 0), (6, 0), (8, 2), (8, 6), (8, 8)]);
}

#[test]
fn smooth_rounds() {
    let line = vec![(0, 0), (64, 0), (64, 64)];
    assert_eq!(smooth(line.clone(), 0, &cut), line);
    let twice = smooth(line.clone(), 2, &cut);
    assert_eq!(twice.len(), 12);
    assert_eq!(twice[0], (0, 0));
    assert_eq!(twice[11], (64, 64));
    assert_eq!(twice, chaikin_smooth(chaikin_smooth(line, &cut), &cut));
}

#[test]
fn stitch_last_segment_starts_the_line() {
    let segs = vec![((2, 0), (1, 0)), ((0, 0), (1, 0))];
    assert_eq!(stitch(segs, &same), vec![vec![(0, 0), (1, 0), (2, 0)]]);
}

#[test]
fn stitch_takes_first_attachable_segment() {
    // two segments start at (1,0); the one earlier in the list is taken
    let segs = vec![((1, 0), (5, 5)), ((1, 0), (7, 7)), ((0, 0), (1, 0))];
    assert_eq!(
        stitch(segs, &same),
        vec![vec![(0, 0), (1, 0), (5, 5)], vec![(1, 0), (7, 7)]]
    );
}

#[test]
fn stitch_saddle_segments_stay_apart() {
    // the two segments of a saddle cell share no point: two polylines, the later one first
    let segs = vec![((0, 2), (2, 0)), ((4, 2), (2, 4))];
    assert_eq!(
        stitch(segs, &same),
        vec![vec![(4, 2), (2, 4)], vec![(0, 2), (2, 0)]]
    );
}
