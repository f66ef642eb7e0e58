use gds_text::config::DesignRules;
use gds_text::fill::{compute_fill_cells, fill_step, FillConfig};

fn cfg(grid: u32, w: u32, h: u32) -> FillConfig {
    // A minimum width of one grid cell, so that one-cell fill is allowed.
    let rules = DesignRules { min_width_nm: grid, ..DesignRules::default() };
    FillConfig { grid_nm: grid, rules, canvas_width_px: w, canvas_height_px: h }
}

#[test]
fn pitch_is_spacing_plus_one() {
    assert_eq!(fill_step(&cfg(150, 10, 10)), 3);
    assert_eq!(fill_step(&cfg(100, 10, 10)), 3);
    assert_eq!(fill_step(&cfg(1000, 10, 10)), 2);
}

#[test]
fn all_candidates_sorted() {
    let r = compute_fill_cells(&cfg(150, 9, 6), &[], 100);
    assert_eq!(r, vec![(0, 0), (0, 3), (3, 0), (3, 3), (6, 0), (6, 3)]);
}

#[test]
fn zero_target_gives_no_fill() {
    assert!(compute_fill_cells(&cfg(150, 9, 6), &[], 0).is_empty());
}

#[test]
fn shuffled_choice_is_fixed() {
    assert_eq!(compute_fill_cells(&cfg(150, 9, 6), &[], 2), vec![(0, 0), (6, 0)]);
    assert_eq!(compute_fill_cells(&cfg(100, 10, 10), &[], 4), vec![(0, 6), (0, 9), (3, 6), (9, 6)]);
}

#[test]
fn fill_keeps_away_from_metal() {
    let r = compute_fill_cells(&cfg(150, 9, 6), &[(0, 0)], 100);
    assert_eq!(r, vec![(6, 0), (6, 3)]);
}

#[test]
fn larger_canvas_with_text() {
    let r = compute_fill_cells(&cfg(150, 30, 20), &[(10, 10)], 5);
    assert_eq!(r, vec![(3, 9), (12, 18), (15, 6), (27, 3), (27, 15)]);
}

#[test]
fn fill_cells_are_legal_distinct_and_spaced() {
    let used = vec![(10, 10), (11, 10), (12, 12)];
    let c = cfg(150, 40, 30);
    let r = compute_fill_cells(&c, &used, 1000);
    assert!(!r.is_empty());
    for (i, &(x, y)) in r.iter().enumerate() {
        assert!(x >= 0 && x < 40 && y >= 0 && y < 30);
        assert_eq!(x % 3, 0);
        assert_eq!(y % 3, 0);
        for &(ux, uy) in &used {
            assert!((x - ux).abs() > 3 || (y - uy).abs() > 3);
        }
        for &(x2, y2) in &r[i + 1..] {
            assert!((x, y) < (x2, y2));
            assert!((x - x2).abs() >= 3 || (y - y2).abs() >= 3);
        }
    }
}

#[test]
fn empty_canvas_has_no_fill() {
    assert!(compute_fill_cells(&cfg(150, 0, 0), &[], 10).is_empty());
}

#[test]
fn used_cells_off_canvas() {
    let c = cfg(150, 9, 6);
    assert_eq!(compute_fill_cells(&c, &[(-2, -2)], 100), vec![(0, 3), (3, 0), (3, 3), (6, 0), (6, 3)]);
    assert_eq!(compute_fill_cells(&c, &[(100, 100), (8, 5)], 100), vec![(0, 0), (0, 3), (3, 0), (3, 3), (6, 0)]);
    assert_eq!(compute_fill_cells(&c, &[(-100, 3)], 100), vec![(0, 0), (0, 3), (3, 0), (3, 3), (6, 0), (6, 3)]);
}

#[test]
fn no_fill_narrower_than_min_width() {
    // Default rules: 200 nm minimum width; a 150 nm cell is too narrow.
    let c = FillConfig { grid_nm: 150, rules: DesignRules::default(), canvas_width_px: 9, canvas_height_px: 6 };
    assert!(compute_fill_cells(&c, &[], 100).is_empty());
    let c = FillConfig { grid_nm: 150, rules: DesignRules::default(), canvas_width_px: 3, canvas_height_px: 3 };
    assert!(compute_fill_cells(&c, &[], 1).is_empty());
    // A 200 nm grid meets the rule exactly.
    let c = FillConfig { grid_nm: 200, rules: DesignRules::default(), canvas_width_px: 3, canvas_height_px: 3 };
    assert_eq!(compute_fill_cells(&c, &[], 1), vec![(2, 2)]);
}

#[test]
fn zero_target_does_not_read_the_configuration() {
    let c = FillConfig { grid_nm: 0, rules: DesignRules::default(), canvas_width_px: u32::MAX, canvas_height_px: 5 };
    assert!(compute_fill_cells(&c, &[(1, 1)], 0).is_empty());
}

#[test]
fn fill_depends_on_the_set_of_used_cells() {
    let c = cfg(150, 40, 30);
    let a = compute_fill_cells(&c, &[(10, 10), (20, 5), (10, 10)], 20);
    let b = compute_fill_cells(&c, &[(20, 5), (10, 10)], 20);
    assert_eq!(a, b);
    assert_eq!(a, compute_fill_cells(&c, &[(20, 5), (10, 10)], 20));
}
