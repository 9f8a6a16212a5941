use julia_fractal::frame::{FrameAssembler, FrameError};
use julia_fractal::render::render_row;

fn grid_pixels(width: u32, height: u32, max_iter: u32) -> Vec<(u32, u32, (u8, u8, u8))> {
    let mut all = Vec::new();
    for y in 0..height {
        let counts: Vec<u32> = (0..width).map(|x| (x * 7 + y * 3) % max_iter).collect();
        all.extend(render_row(y, &counts, max_iter));
    }
    all
}

#[test]
fn new_frame_is_empty_and_black() {
    let f = FrameAssembler::new(3, 2);
    assert_eq!(f.received(), 0);
    assert!(!f.is_complete());
    assert!(matches!(FrameAssembler::new(3, 2).finish(), Err(FrameError::Incomplete)));
}

#[test]
fn pixel_outside_frame_is_refused() {
    let mut f = FrameAssembler::new(2, 2);
    assert_eq!(f.accept(2, 0, (1, 2, 3)), Err(FrameError::OutOfBounds));
    assert_eq!(f.accept(0, 2, (1, 2, 3)), Err(FrameError::OutOfBounds));
    assert_eq!(f.received(), 0);
}

#[test]
fn pixel_received_twice_is_refused() {
    let mut f = FrameAssembler::new(2, 2);
    assert_eq!(f.accept(1, 1, (1, 2, 3)), Ok(()));
    assert_eq!(f.accept(1, 1, (9, 9, 9)), Err(FrameError::Duplicate));
    assert_eq!(f.received(), 1);
}

#[test]
fn frame_completes_after_every_pixel() {
    let mut f = FrameAssembler::new(2, 2);
    f.accept(0, 0, (1, 1, 1)).unwrap();
    f.accept(1, 0, (2, 2, 2)).unwrap();
    f.accept(0, 1, (3, 3, 3)).unwrap();
    assert!(!f.is_complete());
    f.accept(1, 1, (4, 4, 4)).unwrap();
    assert!(f.is_complete());
    let raster = f.finish().ok().unwrap();
    assert_eq!(raster.image.get_pixel(0, 0).0, [1, 1, 1]);
    assert_eq!(raster.image.get_pixel(1, 0).0, [2, 2, 2]);
    assert_eq!(raster.image.get_pixel(0, 1).0, [3, 3, 3]);
    assert_eq!(raster.image.get_pixel(1, 1).0, [4, 4, 4]);
}

#[test]
fn finished_raster_keeps_pixels_and_size() {
    let mut f = FrameAssembler::new(2, 1);
    f.accept(1, 0, (10, 20, 30)).unwrap();
    f.accept(0, 0, (0, 0, 0)).unwrap();
    let raster = f.finish().ok().unwrap();
    assert_eq!(raster.image.get_pixel(1, 0).0, [10, 20, 30]);
    assert_eq!(raster.image.dimensions(), (2, 1));
}

#[test]
fn whole_grid_received_exactly_once() {
    let pixels = grid_pixels(4, 4, 10);
    assert_eq!(pixels.len(), 16);
    let mut f = FrameAssembler::new(4, 4);
    for (x, y, c) in &pixels {
        assert_eq!(f.accept(*x, *y, *c), Ok(()));
    }
    assert_eq!(f.received(), 16);
    assert!(f.is_complete());
    for (x, y, c) in &pixels {
        assert_eq!(f.accept(*x, *y, *c), Err(FrameError::Duplicate));
    }
}

#[test]
fn arrival_order_does_not_change_frame() {
    let pixels = grid_pixels(4, 4, 10);
    let mut forward = FrameAssembler::new(4, 4);
    for (x, y, c) in &pixels {
        forward.accept(*x, *y, *c).unwrap();
    }
    let mut shuffled = FrameAssembler::new(4, 4);
    for k in 0..pixels.len() {
        let (x, y, c) = pixels[(k * 5 + 3) % pixels.len()];
        shuffled.accept(x, y, c).unwrap();
    }
    let a = forward.finish().ok().unwrap();
    let b = shuffled.finish().ok().unwrap();
    assert_eq!(a.image.as_raw(), b.image.as_raw());
}
