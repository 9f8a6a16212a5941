use julia_fractal::color::wavelength_to_rgb;
use julia_fractal::render::{iteration_color, render_row};

#[test]
fn counts_spread_over_visible_range() {
    assert_eq!(iteration_color(0, 100), wavelength_to_rgb(380));
    assert_eq!(iteration_color(50, 100), wavelength_to_rgb(580));
    assert_eq!(iteration_color(99, 100), wavelength_to_rgb(776));
    assert_eq!(iteration_color(1, 3), wavelength_to_rgb(513));
    assert_eq!(iteration_color(0, 1), (0, 0, 0));
}

#[test]
fn row_names_each_column_once() {
    let row = render_row(3, &vec![0, 50, 99], 100);
    assert_eq!(row.len(), 3);
    assert_eq!(row[0], (0, 3, wavelength_to_rgb(380)));
    assert_eq!(row[1], (1, 3, wavelength_to_rgb(580)));
    assert_eq!(row[2], (2, 3, wavelength_to_rgb(776)));
}

#[test]
fn small_grid_counts_give_exact_colors() {
    // max_iter 10: count 9 is wavelength 740, count 0 is 380
    assert_eq!(iteration_color(9, 10), (71, 1, 59));
    assert_eq!(iteration_color(0, 10), (0, 0, 0));
}

#[test]
fn empty_row() {
    assert!(render_row(0, &vec![], 10).is_empty());
}
