use texture_dilate::{
    converge, copy_color_values, dilate, dilate_image, dilate_image_sub, dilate_region,
    try_dilate_image, try_dilate_image_sub, DilateError, DILATE_ALPHA_THRESHOLD, DILATE_ROUNDS,
};

fn pixel(buf: &[u8], bpp: usize, p: usize) -> Vec<u8> {
    buf[p * bpp..(p + 1) * bpp].to_vec()
}

fn one_pass(w: usize, h: usize, bpp: usize, src: &[u8]) -> Vec<u8> {
    let mut dest = vec![0xAAu8; src.len()];
    dilate(w, h, bpp, src, &mut dest, 10);
    dest
}

fn mixed_image(w: usize, h: usize) -> Vec<u8> {
    let mut buf = Vec::new();
    for p in 0..w * h {
        let alpha = match p % 5 {
            0 => 0,
            1 => 255,
            2 => 10,
            3 => 0,
            _ => 11,
        };
        buf.push((p * 37 % 251) as u8);
        buf.push((p * 91 % 241) as u8);
        buf.push((p * 13 % 239) as u8);
        buf.push(alpha);
    }
    buf
}

#[test]
fn default_configuration() {
    assert_eq!(DILATE_ALPHA_THRESHOLD, 10);
    assert_eq!(DILATE_ROUNDS, 5);
}

#[test]
fn two_pixel_scenario() {
    let src = vec![255u8, 0, 0, 255, 0, 0, 0, 0];
    let passed = one_pass(2, 1, 4, &src);
    assert_eq!(passed, vec![255, 0, 0, 255, 255, 0, 0, 255]);

    let mut merged = src.clone();
    copy_color_values(2, 1, 4, &passed, &mut merged);
    assert_eq!(merged, vec![255, 0, 0, 255, 255, 0, 0, 0]);

    let mut img = src.clone();
    dilate_image(&mut img, 2, 1, 4);
    assert_eq!(img, vec![255, 0, 0, 255, 255, 0, 0, 0]);
}

#[test]
fn opaque_image_is_left_unchanged() {
    let src: Vec<u8> = vec![
        1, 2, 3, 11, 40, 50, 60, 255, 7, 8, 9, 200, //
        0, 0, 0, 12, 99, 98, 97, 128, 5, 4, 3, 11,
    ];
    assert_eq!(one_pass(3, 2, 4, &src), src);
    for rounds in 0..4 {
        assert_eq!(converge(3, 2, 4, &src, 10, rounds), src);
    }
    let mut img = src.clone();
    dilate_image(&mut img, 3, 2, 4);
    assert_eq!(img, src);
    let mut img = src.clone();
    dilate_image_sub(&mut img, 3, 2, 4, 1, 0, 2, 2);
    assert_eq!(img, src);
}

#[test]
fn alpha_bytes_survive_dilation() {
    let (w, h) = (6, 5);
    let src = mixed_image(w, h);
    let mut img = src.clone();
    dilate_image(&mut img, w, h, 4);
    for p in 0..w * h {
        assert_eq!(img[p * 4 + 3], src[p * 4 + 3]);
    }
    let mut img = src.clone();
    dilate_image_sub(&mut img, w, h, 4, 1, 2, 4, 3);
    for p in 0..w * h {
        assert_eq!(img[p * 4 + 3], src[p * 4 + 3]);
    }
    let mut img = src.clone();
    dilate_region(&mut img, w, h, 4, 0, 0, w, h, 10, 9);
    for p in 0..w * h {
        assert_eq!(img[p * 4 + 3], src[p * 4 + 3]);
    }
}

#[test]
fn first_opaque_neighbor_in_scan_order_wins() {
    // 3 x 3, centre transparent; north, west, east and south all opaque.
    let mut src = vec![0u8; 9 * 4];
    let put = |buf: &mut Vec<u8>, p: usize, px: [u8; 4]| {
        buf[p * 4..p * 4 + 4].copy_from_slice(&px);
    };
    put(&mut src, 1, [10, 0, 0, 200]);
    put(&mut src, 3, [0, 20, 0, 200]);
    put(&mut src, 5, [0, 0, 30, 200]);
    put(&mut src, 7, [40, 40, 40, 200]);
    put(&mut src, 4, [9, 9, 9, 3]);
    assert_eq!(pixel(&one_pass(3, 3, 4, &src), 4, 4), vec![10, 0, 0, 255]);

    // Without the north neighbour, west wins.
    put(&mut src, 1, [10, 0, 0, 0]);
    assert_eq!(pixel(&one_pass(3, 3, 4, &src), 4, 4), vec![0, 20, 0, 255]);

    // Without north and west, east wins.
    put(&mut src, 3, [0, 20, 0, 10]);
    assert_eq!(pixel(&one_pass(3, 3, 4, &src), 4, 4), vec![0, 0, 30, 255]);

    // South alone.
    put(&mut src, 5, [0, 0, 30, 1]);
    assert_eq!(pixel(&one_pass(3, 3, 4, &src), 4, 4), vec![40, 40, 40, 255]);
}

#[test]
fn neighbors_are_clamped_at_the_corner() {
    // 2 x 2: the top-left pixel's north and west clamp to itself.
    let src = vec![
        1, 1, 1, 0, 50, 60, 70, 255, //
        80, 90, 100, 255, 5, 5, 5, 255,
    ];
    assert_eq!(pixel(&one_pass(2, 2, 4, &src), 4, 0), vec![50, 60, 70, 255]);

    // Bottom-right: east and south clamp to itself, north comes first.
    let src = vec![
        1, 1, 1, 255, 50, 60, 70, 255, //
        80, 90, 100, 255, 5, 5, 5, 0,
    ];
    assert_eq!(pixel(&one_pass(2, 2, 4, &src), 4, 3), vec![50, 60, 70, 255]);
}

#[test]
fn no_opaque_neighbor_clears_color() {
    let src = vec![10u8, 20, 30, 5, 40, 50, 60, 10, 70, 80, 90, 0];
    assert_eq!(one_pass(3, 1, 4, &src), vec![0, 0, 0, 5, 0, 0, 0, 10, 0, 0, 0, 0]);
}

#[test]
fn threshold_is_strict() {
    let at = vec![50u8, 60, 70, 10, 1, 2, 3, 0];
    assert_eq!(one_pass(2, 1, 4, &at), vec![0, 0, 0, 10, 0, 0, 0, 0]);
    let above = vec![50u8, 60, 70, 11, 1, 2, 3, 0];
    assert_eq!(one_pass(2, 1, 4, &above), vec![50, 60, 70, 11, 50, 60, 70, 255]);
}

#[test]
fn single_row_propagation_bound() {
    let w = 8;
    let mut src = vec![0u8; w * 4];
    src[0..4].copy_from_slice(&[10, 20, 30, 200]);

    let once = one_pass(w, 1, 4, &src);
    assert_eq!(pixel(&once, 4, 0), vec![10, 20, 30, 200]);
    assert_eq!(pixel(&once, 4, 1), vec![10, 20, 30, 255]);
    for p in 2..w {
        assert_eq!(pixel(&once, 4, p), vec![0, 0, 0, 0]);
    }

    // One round trip: three passes.
    let three = converge(w, 1, 4, &src, 10, 1);
    assert_eq!(pixel(&three, 4, 0), vec![10, 20, 30, 200]);
    for p in 1..=3 {
        assert_eq!(pixel(&three, 4, p), vec![10, 20, 30, 255]);
    }
    for p in 4..w {
        assert_eq!(pixel(&three, 4, p), vec![0, 0, 0, 0]);
    }

    // Two round trips: five passes.
    let five = converge(w, 1, 4, &src, 10, 2);
    for p in 1..=5 {
        assert_eq!(pixel(&five, 4, p), vec![10, 20, 30, 255]);
    }
    for p in 6..w {
        assert_eq!(pixel(&five, 4, p), vec![0, 0, 0, 0]);
    }
}

#[test]
fn eleven_passes_reach_eleven_pixels() {
    let w = 16;
    let mut img = vec![0u8; w * 4];
    img[0..4].copy_from_slice(&[10, 20, 30, 200]);
    dilate_image(&mut img, w, 1, 4);
    assert_eq!(pixel(&img, 4, 0), vec![10, 20, 30, 200]);
    for p in 1..=11 {
        assert_eq!(pixel(&img, 4, p), vec![10, 20, 30, 0]);
    }
    for p in 12..w {
        assert_eq!(pixel(&img, 4, p), vec![0, 0, 0, 0]);
    }
}

#[test]
fn converge_with_no_round_trip_is_one_pass() {
    let src = mixed_image(4, 4);
    assert_eq!(converge(4, 4, 4, &src, 10, 0), one_pass(4, 4, 4, &src));
    let twice = one_pass(4, 4, 4, &one_pass(4, 4, 4, &src));
    let thrice = one_pass(4, 4, 4, &twice);
    assert_eq!(converge(4, 4, 4, &src, 10, 1), thrice);
}

#[test]
fn merge_fills_only_fully_transparent_pixels() {
    let dilated = vec![1u8, 2, 3, 255, 4, 5, 6, 255, 7, 8, 9, 255];
    let mut orig = vec![0u8, 0, 0, 0, 50, 50, 50, 1, 60, 60, 60, 200];
    copy_color_values(3, 1, 4, &dilated, &mut orig);
    assert_eq!(orig, vec![1, 2, 3, 0, 50, 50, 50, 1, 60, 60, 60, 200]);
}

#[test]
fn region_and_full_image_agree() {
    let (w, h) = (5, 4);
    let src = mixed_image(w, h);
    let mut full = src.clone();
    dilate_image(&mut full, w, h, 4);
    let mut sub = src.clone();
    dilate_image_sub(&mut sub, w, h, 4, 0, 0, w, h);
    let mut configured = src.clone();
    dilate_region(&mut configured, w, h, 4, 0, 0, w, h, 10, 5);
    assert_eq!(full, sub);
    assert_eq!(full, configured);
    assert_ne!(full, src);
}

#[test]
fn region_dilation_stays_inside_the_rectangle() {
    // 4 x 4; the 2 x 2 rectangle at (1, 1) has one opaque red pixel.
    let (w, h) = (4, 4);
    let mut src = vec![0u8; w * h * 4];
    let at = |x: usize, y: usize| (y * w + x) * 4;
    src[at(1, 1)..at(1, 1) + 4].copy_from_slice(&[200, 0, 0, 255]);
    // An opaque blue pixel just outside the rectangle, to its west.
    src[at(0, 2)..at(0, 2) + 4].copy_from_slice(&[0, 0, 200, 255]);
    src[at(3, 3)..at(3, 3) + 4].copy_from_slice(&[9, 9, 9, 0]);
    let mut img = src.clone();
    dilate_image_sub(&mut img, w, h, 4, 1, 1, 2, 2);
    assert_eq!(img[at(1, 1)..at(1, 1) + 4], [200, 0, 0, 255]);
    assert_eq!(img[at(2, 1)..at(2, 1) + 4], [200, 0, 0, 0]);
    assert_eq!(img[at(1, 2)..at(1, 2) + 4], [200, 0, 0, 0]);
    assert_eq!(img[at(2, 2)..at(2, 2) + 4], [200, 0, 0, 0]);
    for y in 0..h {
        for x in 0..w {
            if !(1..3).contains(&x) || !(1..3).contains(&y) {
                assert_eq!(img[at(x, y)..at(x, y) + 4], src[at(x, y)..at(x, y) + 4]);
            }
        }
    }
}

#[test]
fn three_bytes_per_pixel_use_the_last_as_alpha() {
    let src = vec![9u8, 8, 200, 5, 6, 0];
    let mut dest = vec![0u8; 6];
    dilate(2, 1, 3, &src, &mut dest, 10);
    assert_eq!(dest, vec![9, 8, 200, 9, 8, 255]);
    let mut img = src.clone();
    dilate_image(&mut img, 2, 1, 3);
    assert_eq!(img, vec![9, 8, 200, 9, 8, 0]);
}

#[test]
fn empty_inputs_are_accepted() {
    let mut empty: Vec<u8> = Vec::new();
    dilate_image(&mut empty, 0, 0, 4);
    assert!(empty.is_empty());
    let mut img = mixed_image(3, 3);
    let before = img.clone();
    dilate_image_sub(&mut img, 3, 3, 4, 1, 1, 0, 2);
    assert_eq!(img, before);
    dilate_image_sub(&mut img, 3, 3, 4, 3, 3, 0, 0);
    assert_eq!(img, before);
}

#[test]
fn large_image_spreads_by_manhattan_distance() {
    let (w, h) = (512, 256);
    let mut img = vec![0u8; w * h * 4];
    let (cx, cy) = (200, 100);
    let at = |x: usize, y: usize| (y * w + x) * 4;
    img[at(cx, cy)..at(cx, cy) + 4].copy_from_slice(&[30, 60, 90, 255]);
    dilate_image(&mut img, w, h, 4);
    assert_eq!(img[at(cx, cy)..at(cx, cy) + 4], [30, 60, 90, 255]);
    assert_eq!(img[at(cx + 11, cy)..at(cx + 11, cy) + 4], [30, 60, 90, 0]);
    assert_eq!(img[at(cx + 12, cy)..at(cx + 12, cy) + 4], [0, 0, 0, 0]);
    assert_eq!(img[at(cx - 5, cy + 6)..at(cx - 5, cy + 6) + 4], [30, 60, 90, 0]);
    assert_eq!(img[at(cx - 6, cy + 6)..at(cx - 6, cy + 6) + 4], [0, 0, 0, 0]);
    assert_eq!(img[at(cx, cy - 11)..at(cx, cy - 11) + 4], [30, 60, 90, 0]);
}

#[test]
fn checked_entry_points_report_bad_arguments() {
    let src = mixed_image(3, 2);
    let mut img = src.clone();
    assert_eq!(
        try_dilate_image_sub(&mut img, 3, 2, 2, 0, 0, 1, 1),
        Err(DilateError::UnsupportedBpp)
    );
    assert_eq!(
        try_dilate_image_sub(&mut img, 3, 3, 4, 0, 0, 1, 1),
        Err(DilateError::InvalidBufferShape)
    );
    assert_eq!(
        try_dilate_image_sub(&mut img, usize::MAX, 2, 4, 0, 0, 1, 1),
        Err(DilateError::InvalidBufferShape)
    );
    assert_eq!(
        try_dilate_image_sub(&mut img, 3, 2, 4, 2, 0, 2, 1),
        Err(DilateError::RectangleOutOfBounds)
    );
    assert_eq!(
        try_dilate_image_sub(&mut img, 3, 2, 4, 0, 1, 1, 2),
        Err(DilateError::RectangleOutOfBounds)
    );
    assert_eq!(try_dilate_image(&mut img, 3, 2, 5), Err(DilateError::UnsupportedBpp));
    assert_eq!(try_dilate_image(&mut img, 2, 2, 4), Err(DilateError::InvalidBufferShape));
    assert_eq!(img, src);
}

#[test]
fn checked_entry_points_dilate_valid_arguments() {
    let src = mixed_image(5, 4);
    let mut expected = src.clone();
    dilate_image_sub(&mut expected, 5, 4, 4, 1, 1, 3, 2);
    let mut img = src.clone();
    assert_eq!(try_dilate_image_sub(&mut img, 5, 4, 4, 1, 1, 3, 2), Ok(()));
    assert_eq!(img, expected);

    let mut expected = src.clone();
    dilate_image(&mut expected, 5, 4, 4);
    let mut img = src.clone();
    assert_eq!(try_dilate_image(&mut img, 5, 4, 4), Ok(()));
    assert_eq!(img, expected);
    assert_ne!(img, src);
}
