use julia_fractal::escape::escape_count;

#[test]
fn start_outside_counts_zero() {
    assert_eq!(escape_count(Some(0), 100), 0);
}

#[test]
fn escape_counts_last_step_taken() {
    assert_eq!(escape_count(Some(1), 100), 0);
    assert_eq!(escape_count(Some(5), 100), 4);
    assert_eq!(escape_count(Some(99), 100), 98);
}

#[test]
fn bounded_orbit_counts_max_iter_minus_one() {
    assert_eq!(escape_count(None, 100), 99);
    assert_eq!(escape_count(None, 1), 0);
    assert_eq!(escape_count(None, 0), 0);
}

#[test]
fn count_stays_below_max_iter() {
    for max_iter in 1u32..20 {
        assert!(escape_count(None, max_iter) < max_iter);
        for t in 0..max_iter {
            assert!(escape_count(Some(t), max_iter) < max_iter);
        }
    }
}
