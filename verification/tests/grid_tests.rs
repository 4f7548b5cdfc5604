use vrbag_s102::grid::{check_export_size, fits_option_budget, flip_rows, point_count};

#[test]
fn counts_saturate() {
    assert_eq!(point_count(3, 4), 12);
    assert_eq!(point_count(0, 7), 0);
    assert_eq!(point_count(usize::MAX, 2), usize::MAX);
}

#[test]
fn option_budget_is_three_thousand_mib() {
    // 3000 MiB / 16 bytes = 196 608 000 points
    assert!(fits_option_budget(196608000, 1));
    assert!(!fits_option_budget(196608001, 1));
    assert!(fits_option_budget(14000, 14000));
    assert!(!fits_option_budget(14022, 14022));
    assert!(!fits_option_budget(usize::MAX, usize::MAX));
}

#[test]
fn export_limit_is_four_thousand_ninety_six_mib() {
    assert_eq!(check_export_size(16384, 16384).unwrap(), 268435456);
    let refused = check_export_size(16385, 16384).unwrap_err();
    assert_eq!(refused.points, 16385 * 16384);
    assert_eq!(check_export_size(usize::MAX, 3).unwrap_err().points, usize::MAX);
}

#[test]
fn flip_reverses_rows() {
    let data = vec![1, 2, 3, 4, 5, 6];
    assert_eq!(flip_rows(&data, 3, 2), vec![4, 5, 6, 1, 2, 3]);
    assert_eq!(flip_rows(&data, 2, 3), vec![5, 6, 3, 4, 1, 2]);
}

#[test]
fn flip_uses_only_the_grid() {
    let data = vec![1, 2, 3, 4, 5, 6, 7];
    assert_eq!(flip_rows(&data, 2, 2), vec![3, 4, 1, 2]);
    let empty: Vec<i32> = flip_rows(&data, 0, 5);
    assert!(empty.is_empty());
}

#[test]
fn flip_twice_is_identity() {
    let data: Vec<u32> = (0..20).collect();
    let once = flip_rows(&data, 5, 4);
    assert_eq!(flip_rows(&once, 5, 4), data);
}

#[test]
fn offered_grid_can_be_exported() {
    for (w, h) in [(14000, 14000), (196608000, 1), (1, 1), (12000, 16384)] {
        if fits_option_budget(w, h) {
            assert!(check_export_size(w, h).is_ok());
        }
    }
    assert!(fits_option_budget(12000, 16384));
}
