use julia_fractal::color::{color_blend_norm, hex_to_rgb, wavelength_to_rgb};

#[test]
fn hex_decodes_each_channel() {
    assert_eq!(hex_to_rgb("#05F2DB"), (5, 242, 219));
    assert_eq!(hex_to_rgb("#05f2db"), (5, 242, 219));
    assert_eq!(hex_to_rgb("#000000"), (0, 0, 0));
    assert_eq!(hex_to_rgb("#FFfF00"), (255, 255, 0));
    assert_eq!(hex_to_rgb("#3805F2"), (56, 5, 242));
}

#[test]
fn outside_visible_range_is_black() {
    for w in [0u32, 1, 200, 379, 780, 781, 1000, u32::MAX] {
        assert_eq!(wavelength_to_rgb(w), (0, 0, 0));
    }
}

#[test]
fn lower_bound_is_black() {
    assert_eq!(wavelength_to_rgb(380), (0, 0, 0));
}

#[test]
fn anchor_boundaries_give_anchor_colors() {
    assert_eq!(wavelength_to_rgb(439), hex_to_rgb("#05F2DB"));
    assert_eq!(wavelength_to_rgb(489), hex_to_rgb("#05C7F2"));
    assert_eq!(wavelength_to_rgb(509), hex_to_rgb("#3805F2"));
    assert_eq!(wavelength_to_rgb(579), hex_to_rgb("#7C05F2"));
    assert_eq!(wavelength_to_rgb(644), hex_to_rgb("#F205CB"));
    assert_eq!(wavelength_to_rgb(644), (242, 5, 203));
}

#[test]
fn rising_channels_round_down() {
    // 20 of 59 steps from black towards (5, 242, 219)
    assert_eq!(wavelength_to_rgb(400), (1, 82, 74));
}

#[test]
fn falling_channels_round_down() {
    // 56 of 136 steps from (242, 5, 203) towards black
    assert_eq!(wavelength_to_rgb(700), (142, 2, 119));
}

#[test]
fn blend_is_linear_per_channel() {
    assert_eq!(color_blend_norm(0, 10, 5, (0, 0, 0), (100, 200, 255)), (50, 100, 127));
    assert_eq!(color_blend_norm(0, 10, 0, (7, 8, 9), (100, 200, 255)), (7, 8, 9));
    assert_eq!(color_blend_norm(0, 10, 10, (7, 8, 9), (100, 200, 255)), (100, 200, 255));
    assert_eq!(color_blend_norm(10, 20, 13, (100, 50, 0), (0, 50, 100)), (70, 50, 30));
}

#[test]
fn channels_move_monotonically_within_a_band() {
    // band [509, 579): red rises 56 -> 124, green stays 5, blue stays 242
    let mut prev = wavelength_to_rgb(509);
    for w in 510..579 {
        let c = wavelength_to_rgb(w);
        assert!(c.0 >= prev.0);
        assert_eq!(c.1, 5);
        assert_eq!(c.2, 242);
        prev = c;
    }
    // band [644, 780): every channel falls towards black
    let mut prev = wavelength_to_rgb(644);
    for w in 645..780 {
        let c = wavelength_to_rgb(w);
        assert!(c.0 <= prev.0 && c.1 <= prev.1 && c.2 <= prev.2);
        prev = c;
    }
}
