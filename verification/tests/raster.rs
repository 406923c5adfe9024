use rustmap::raster::{Raster, Rect};

fn numbered(width: usize, height: usize) -> Raster {
    let mut pixels = Vec::new();
    for y in 0..height {
        for x in 0..width {
            pixels.push(x as u8);
            pixels.push(y as u8);
            pixels.push((x + 10 * y) as u8);
        }
    }
    Raster::from_rgb(width, height, pixels).unwrap()
}

#[test]
fn new_raster_is_black() {
    let raster = Raster::new(3, 2).unwrap();
    assert_eq!(raster.width(), 3);
    assert_eq!(raster.height(), 2);
    assert_eq!(raster.pixels(), &vec![0u8; 18]);
    assert_eq!(raster.get_pixel(2, 1), Some((0, 0, 0)));
}

#[test]
fn new_raster_may_be_empty() {
    let raster = Raster::new(0, 5).unwrap();
    assert_eq!(raster.width(), 0);
    assert_eq!(raster.height(), 5);
    assert_eq!(raster.pixels().len(), 0);
    assert_eq!(raster.get_pixel(0, 0), None);
}

#[test]
fn new_raster_that_does_not_fit_is_refused() {
    assert_eq!(Raster::new(usize::MAX, 2), None);
    assert_eq!(Raster::new(usize::MAX / 2, 1), None);
}

#[test]
fn from_rgb_wants_three_bytes_a_pixel() {
    assert_eq!(Raster::from_rgb(2, 2, vec![0; 11]), None);
    assert_eq!(Raster::from_rgb(2, 2, vec![0; 13]), None);
    assert_eq!(Raster::from_rgb(usize::MAX, 2, vec![0; 6]), None);
    let raster = Raster::from_rgb(2, 2, vec![0; 12]).unwrap();
    assert_eq!(raster.width(), 2);
    assert_eq!(raster.height(), 2);
}

#[test]
fn from_rgb_reads_rows_one_after_the_other() {
    let raster = Raster::from_rgb(2, 2, vec![1, 2, 3, 4, 5, 6, 7, 8, 9, 10, 11, 12]).unwrap();
    assert_eq!(raster.get_pixel(0, 0), Some((1, 2, 3)));
    assert_eq!(raster.get_pixel(1, 0), Some((4, 5, 6)));
    assert_eq!(raster.get_pixel(0, 1), Some((7, 8, 9)));
    assert_eq!(raster.get_pixel(1, 1), Some((10, 11, 12)));
    assert_eq!(raster.get_pixel(2, 0), None);
    assert_eq!(raster.get_pixel(0, 2), None);
    assert_eq!(raster.pixels(), &vec![1, 2, 3, 4, 5, 6, 7, 8, 9, 10, 11, 12]);
}

#[test]
fn clone_shows_the_same_pixels() {
    let raster = numbered(4, 3);
    assert_eq!(raster.clone(), raster);
}

#[test]
fn clip_keeps_what_lies_on_the_raster() {
    let raster = numbered(10, 8);
    let inside = Rect { x: 2, y: 3, width: 4, height: 2 };
    assert_eq!(raster.clip(inside), inside);
    assert_eq!(
        raster.clip(Rect { x: 7, y: 6, width: 8, height: 8 }),
        Rect { x: 7, y: 6, width: 3, height: 2 }
    );
    assert_eq!(
        raster.clip(Rect { x: 12, y: 9, width: 8, height: 8 }),
        Rect { x: 10, y: 8, width: 0, height: 0 }
    );
    assert_eq!(
        raster.clip(Rect { x: 0, y: 0, width: usize::MAX, height: usize::MAX }),
        Rect { x: 0, y: 0, width: 10, height: 8 }
    );
}

#[test]
fn intersect_gives_the_shared_pixels() {
    let a = Rect { x: 0, y: 0, width: 10, height: 10 };
    let b = Rect { x: 5, y: 7, width: 10, height: 10 };
    assert_eq!(a.intersect(b), Rect { x: 5, y: 7, width: 5, height: 3 });
    assert_eq!(b.intersect(a), Rect { x: 5, y: 7, width: 5, height: 3 });
    let apart = Rect { x: 20, y: 0, width: 4, height: 4 };
    assert_eq!(a.intersect(apart).width, 0);
    let touching = Rect { x: 10, y: 0, width: 4, height: 4 };
    assert_eq!(a.intersect(touching), Rect { x: 10, y: 0, width: 0, height: 4 });
}

#[test]
fn sub_image_copies_the_area() {
    let raster = numbered(6, 5);
    let cut = raster.sub_image(Rect { x: 2, y: 1, width: 3, height: 2 }).unwrap();
    assert_eq!(cut.width(), 3);
    assert_eq!(cut.height(), 2);
    for dy in 0..2usize {
        for dx in 0..3usize {
            assert_eq!(cut.get_pixel(dx, dy), raster.get_pixel(2 + dx, 1 + dy));
        }
    }
    assert_eq!(cut.get_pixel(0, 0), Some((2, 1, 12)));
    assert_eq!(cut.get_pixel(2, 1), Some((4, 2, 24)));
}

#[test]
fn sub_image_of_the_whole_is_the_raster() {
    let raster = numbered(6, 5);
    assert_eq!(raster.sub_image(Rect { x: 0, y: 0, width: 6, height: 5 }), Some(raster.clone()));
}

#[test]
fn sub_image_beyond_the_raster_is_refused() {
    let raster = numbered(6, 5);
    assert_eq!(raster.sub_image(Rect { x: 4, y: 0, width: 3, height: 1 }), None);
    assert_eq!(raster.sub_image(Rect { x: 0, y: 4, width: 1, height: 2 }), None);
    assert_eq!(raster.sub_image(Rect { x: 7, y: 0, width: 0, height: 0 }), None);
    assert_eq!(raster.sub_image(Rect { x: 0, y: 0, width: usize::MAX, height: 1 }), None);
    let empty = raster.sub_image(Rect { x: 6, y: 5, width: 0, height: 0 }).unwrap();
    assert_eq!(empty.width(), 0);
    assert_eq!(empty.height(), 0);
}

#[test]
fn blit_draws_over_and_leaves_the_rest() {
    let mut canvas = Raster::new(5, 4).unwrap();
    let src = numbered(2, 2);
    canvas.blit(&src, 1, 2);
    for y in 0..4usize {
        for x in 0..5usize {
            let want = if (1..3).contains(&x) && (2..4).contains(&y) {
                src.get_pixel(x - 1, y - 2)
            } else {
                Some((0, 0, 0))
            };
            assert_eq!(canvas.get_pixel(x, y), want);
        }
    }
}

#[test]
fn blit_loses_what_falls_beside_the_raster() {
    let mut canvas = Raster::new(4, 3).unwrap();
    let src = numbered(3, 3);
    canvas.blit(&src, 2, 1);
    assert_eq!(canvas.width(), 4);
    assert_eq!(canvas.height(), 3);
    assert_eq!(canvas.get_pixel(1, 1), Some((0, 0, 0)));
    assert_eq!(canvas.get_pixel(2, 0), Some((0, 0, 0)));
    assert_eq!(canvas.get_pixel(2, 1), Some((0, 0, 0)));
    assert_eq!(canvas.get_pixel(3, 1), Some((1, 0, 1)));
    assert_eq!(canvas.get_pixel(2, 2), Some((0, 1, 10)));
    assert_eq!(canvas.get_pixel(3, 2), Some((1, 1, 11)));
}

#[test]
fn blit_beside_the_raster_changes_nothing() {
    let mut canvas = numbered(4, 3);
    let before = canvas.clone();
    let src = Raster::new(2, 2).unwrap();
    canvas.blit(&src, 4, 0);
    assert_eq!(canvas, before);
    canvas.blit(&src, 0, 3);
    assert_eq!(canvas, before);
    canvas.blit(&src, usize::MAX, usize::MAX);
    assert_eq!(canvas, before);
}

#[test]
fn from_strided_skips_padding_and_alpha() {
    // two rows of two RGBA pixels, ten bytes apart
    let bytes = vec![
        1, 2, 3, 255, 4, 5, 6, 255, 0, 0, //
        7, 8, 9, 255, 10, 11, 12, 255,
    ];
    let raster = Raster::from_strided(2, 2, 10, 4, &bytes).unwrap();
    assert_eq!(Some(raster), Raster::from_rgb(2, 2, vec![1, 2, 3, 4, 5, 6, 7, 8, 9, 10, 11, 12]));
}

#[test]
fn from_strided_takes_packed_rgb_as_it_is() {
    let bytes: Vec<u8> = (0..24).collect();
    assert_eq!(Raster::from_strided(4, 2, 12, 3, &bytes), Raster::from_rgb(4, 2, bytes.clone()));
}

#[test]
fn from_strided_wants_whole_rows_of_rgb() {
    let bytes = vec![0u8; 18];
    assert!(Raster::from_strided(2, 2, 10, 4, &bytes).is_some());
    assert_eq!(Raster::from_strided(2, 2, 10, 4, &bytes[..17]), None);
    assert_eq!(Raster::from_strided(2, 2, 7, 4, &bytes), None);
    assert_eq!(Raster::from_strided(2, 2, 10, 2, &bytes), None);
    assert_eq!(Raster::from_strided(2, 3, 10, 4, &bytes), None);
    assert_eq!(Raster::from_strided(usize::MAX, 2, usize::MAX, 3, &bytes), None);
    assert_eq!(Raster::from_strided(1, usize::MAX, 3, 3, &bytes), None);
}

#[test]
fn from_strided_of_no_pixels_needs_no_bytes() {
    let empty = Raster::from_strided(0, 5, 0, 3, &[]).unwrap();
    assert_eq!(empty.width(), 0);
    assert_eq!(empty.height(), 5);
    let empty = Raster::from_strided(5, 0, 100, 4, &[]).unwrap();
    assert_eq!(empty.width(), 5);
    assert_eq!(empty.height(), 0);
    assert_eq!(empty.pixels().len(), 0);
}
