use mandelbrot::convert::{read_image, transform, write_image, Image, Pixel};

#[test]
fn read_lays_pixels_out_row_by_row() {
    let data: Vec<u8> = vec![1, 2, 3, 4, 5, 6, 7, 8, 9, 10, 11, 12, 13, 14, 15, 16, 17, 18];
    let image = read_image(&(3, 2), &data).unwrap();
    let expected: Vec<Pixel> = vec![
        ((0, 0), (1, 2, 3)),
        ((1, 0), (4, 5, 6)),
        ((2, 0), (7, 8, 9)),
        ((0, 1), (10, 11, 12)),
        ((1, 1), (13, 14, 15)),
        ((2, 1), (16, 17, 18)),
    ];
    assert_eq!(image.bounds, (3, 2));
    assert_eq!(image.pixels, expected);
}

#[test]
fn read_of_a_single_column() {
    let data: Vec<u8> = vec![1, 1, 1, 2, 2, 2, 3, 3, 3];
    let image = read_image(&(1, 3), &data).unwrap();
    let expected: Vec<Pixel> =
        vec![((0, 0), (1, 1, 1)), ((0, 1), (2, 2, 2)), ((0, 2), (3, 3, 3))];
    assert_eq!(image.pixels, expected);
}

#[test]
fn read_refuses_a_short_buffer() {
    let data: Vec<u8> = vec![0; 11];
    assert!(read_image(&(2, 2), &data).is_none());
}

#[test]
fn read_refuses_a_long_buffer() {
    let data: Vec<u8> = vec![0; 15];
    assert!(read_image(&(2, 2), &data).is_none());
}

#[test]
fn read_refuses_one_byte_per_pixel() {
    let data: Vec<u8> = vec![0; 4];
    assert!(read_image(&(2, 2), &data).is_none());
}

#[test]
fn read_of_an_empty_frame() {
    let data: Vec<u8> = Vec::new();
    let flat = read_image(&(0, 5), &data).unwrap();
    assert_eq!(flat.bounds, (0, 5));
    assert!(flat.pixels.is_empty());
    let thin = read_image(&(5, 0), &data).unwrap();
    assert_eq!(thin.bounds, (5, 0));
    assert!(thin.pixels.is_empty());
    assert!(read_image(&(0, 0), &[1, 2, 3]).is_none());
}

#[test]
fn read_refuses_a_frame_too_large_to_count() {
    let data: Vec<u8> = Vec::new();
    assert!(read_image(&(usize::MAX, 2), &data).is_none());
    assert!(read_image(&(usize::MAX / 2, 2), &data).is_none());
}

#[test]
fn write_gives_the_colours_in_order() {
    let image = Image {
        bounds: (9, 9),
        pixels: vec![((5, 5), (1, 2, 3)), ((0, 0), (4, 5, 6)), ((5, 5), (7, 8, 9))],
    };
    assert_eq!(write_image(&image), vec![1, 2, 3, 4, 5, 6, 7, 8, 9]);
}

#[test]
fn write_of_no_pixels_is_empty() {
    let image = Image { bounds: (4, 4), pixels: Vec::new() };
    assert_eq!(write_image(&image), Vec::<u8>::new());
}

#[test]
fn write_after_read_gives_the_buffer_back() {
    let data: Vec<u8> = (0..48u8).collect();
    let image = read_image(&(4, 4), &data).unwrap();
    assert_eq!(write_image(&image), data);
}

#[test]
fn read_after_write_gives_the_pixels_back() {
    let pixels: Vec<Pixel> = vec![
        ((0, 0), (9, 8, 7)),
        ((1, 0), (6, 5, 4)),
        ((0, 1), (3, 2, 1)),
        ((1, 1), (0, 0, 0)),
    ];
    let image = Image { bounds: (2, 2), pixels: pixels.clone() };
    let back = read_image(&(2, 2), &write_image(&image)).unwrap();
    assert_eq!(back.bounds, (2, 2));
    assert_eq!(back.pixels, pixels);
}

#[test]
fn transform_finds_the_frame_and_sorts() {
    let moved: Vec<Pixel> = vec![
        ((4, 2), (1, 0, 0)),
        ((0, 0), (2, 0, 0)),
        ((1, 2), (3, 0, 0)),
        ((3, 1), (4, 0, 0)),
    ];
    let image = transform(&moved);
    let expected: Vec<Pixel> = vec![
        ((0, 0), (2, 0, 0)),
        ((3, 1), (4, 0, 0)),
        ((1, 2), (3, 0, 0)),
        ((4, 2), (1, 0, 0)),
    ];
    assert_eq!(image.bounds, (5, 3));
    assert_eq!(image.pixels, expected);
}

#[test]
fn transform_sorts_by_the_new_width() {
    // With the new width 7 the pixel (6, 0) comes before (0, 1); with any
    // width up to 6 it would come after it or beside it.
    let moved: Vec<Pixel> = vec![((0, 1), (1, 1, 1)), ((6, 0), (2, 2, 2))];
    let image = transform(&moved);
    assert_eq!(image.bounds, (7, 2));
    assert_eq!(image.pixels, vec![((6, 0), (2, 2, 2)), ((0, 1), (1, 1, 1))]);
}

#[test]
fn transform_keeps_every_pixel_inside_the_new_frame() {
    let moved: Vec<Pixel> = vec![
        ((12, 0), (0, 0, 0)),
        ((0, 30), (0, 0, 0)),
        ((12, 30), (0, 0, 0)),
        ((5, 5), (0, 0, 0)),
    ];
    let image = transform(&moved);
    assert_eq!(image.bounds, (13, 31));
    for (at, _) in &image.pixels {
        assert!(at.0 < image.bounds.0);
        assert!(at.1 < image.bounds.1);
    }
}

#[test]
fn transform_keeps_both_pixels_of_one_position() {
    let moved: Vec<Pixel> = vec![
        ((1, 1), (10, 10, 10)),
        ((0, 0), (20, 20, 20)),
        ((1, 1), (30, 30, 30)),
    ];
    let image = transform(&moved);
    let expected: Vec<Pixel> = vec![
        ((0, 0), (20, 20, 20)),
        ((1, 1), (10, 10, 10)),
        ((1, 1), (30, 30, 30)),
    ];
    assert_eq!(image.bounds, (2, 2));
    assert_eq!(image.pixels, expected);
}

#[test]
fn transform_of_nothing_is_an_empty_image() {
    let moved: Vec<Pixel> = Vec::new();
    let image = transform(&moved);
    assert_eq!(image.bounds, (0, 0));
    assert!(image.pixels.is_empty());
}

#[test]
fn transform_of_an_untouched_image_changes_nothing() {
    let data: Vec<u8> = (0..27u8).collect();
    let image = read_image(&(3, 3), &data).unwrap();
    let again = transform(&image.pixels);
    assert_eq!(again.bounds, image.bounds);
    assert_eq!(again.pixels, image.pixels);
}

#[test]
fn transform_twice_is_transform_once() {
    let moved: Vec<Pixel> = vec![
        ((2, 2), (1, 0, 0)),
        ((0, 1), (2, 0, 0)),
        ((2, 2), (3, 0, 0)),
        ((1, 0), (4, 0, 0)),
    ];
    let once = transform(&moved);
    let twice = transform(&once.pixels);
    assert_eq!(once.bounds, twice.bounds);
    assert_eq!(once.pixels, twice.pixels);
}

#[test]
fn black_square_keeps_its_pixels_and_colours() {
    // A black image of 2 by 2, whose four pixels were moved apart.
    let data: Vec<u8> = vec![0; 12];
    let image = read_image(&(2, 2), &data).unwrap();
    assert_eq!(image.pixels.len(), 4);
    let targets: Vec<(usize, usize)> = vec![(0, 0), (2, 0), (0, 1), (1, 2)];
    let moved: Vec<Pixel> =
        image.pixels.iter().zip(targets.iter()).map(|(pixel, at)| (*at, pixel.1)).collect();
    let result = transform(&moved);
    assert_eq!(result.bounds, (3, 3));
    assert_eq!(result.pixels.len(), 4);
    for (at, color) in &result.pixels {
        assert_eq!(*color, (0, 0, 0));
        assert!(at.0 < 3 && at.1 < 3);
    }
    assert_eq!(write_image(&result), data);
}

#[test]
fn transform_puts_a_scattered_frame_back() {
    let data: Vec<u8> = (0..60u8).collect();
    let image = read_image(&(5, 4), &data).unwrap();
    let mut scattered: Vec<Pixel> = image.pixels.clone();
    scattered.reverse();
    scattered.swap(3, 11);
    scattered.swap(0, 7);
    let result = transform(&scattered);
    assert_eq!(result.bounds, (5, 4));
    assert_eq!(result.pixels, image.pixels);
    assert_eq!(write_image(&result), data);
}
