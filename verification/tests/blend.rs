use pixelify::BoxBlur;
use pixelify::ImageBuf;

fn image_with(width: u32, height: u32, pixel: impl Fn(u32, u32) -> [u8; 4]) -> ImageBuf {
    let mut data = Vec::new();
    for y in 0..height {
        for x in 0..width {
            data.extend_from_slice(&pixel(x, y));
        }
    }
    ImageBuf::new(width, height, data).unwrap()
}

#[test]
fn image_buf_checks_length() {
    assert!(ImageBuf::new(2, 2, vec![0u8; 16]).is_some());
    assert!(ImageBuf::new(2, 2, vec![0u8; 15]).is_none());
    assert!(ImageBuf::new(2, 2, vec![0u8; 17]).is_none());
}

#[test]
fn uniform_block_keeps_its_color() {
    let mut img = image_with(4, 4, |_, _| [10, 20, 30, 255]);
    let before = img.bytes().clone();
    BoxBlur::blend_rectangle(&mut img, (2, 2), 2);
    assert_eq!(&before, img.bytes());
}

#[test]
fn block_mean_is_floored_channel_sum() {
    // Block [1, 3) x [1, 3) around anchor (2, 2) with stride 2.
    let mut img = image_with(4, 4, |x, y| match (x, y) {
        (1, 1) => [10, 20, 30, 40],
        (2, 1) => [20, 30, 40, 50],
        (1, 2) => [30, 40, 50, 61],
        (2, 2) => [40, 50, 60, 70],
        _ => [0, 0, 0, 0],
    });
    BoxBlur::blend_rectangle(&mut img, (2, 2), 2);
    // Sums 100, 140, 180, 221 over 4 pixels: means 25, 35, 45, 55 (floored).
    for &(x, y) in &[(1u32, 1u32), (2, 1), (1, 2), (2, 2)] {
        let o = 4 * (y as usize * 4 + x as usize);
        assert_eq!(&img.bytes()[o..o + 4], &[25, 35, 45, 55]);
    }
    // Pixels outside the block are untouched.
    assert_eq!(&img.bytes()[0..4], &[0, 0, 0, 0]);
    assert_eq!(&img.bytes()[4 * 15..], &[0, 0, 0, 0]);
}

#[test]
fn anchor_touching_last_column_is_skipped() {
    let mut img = image_with(4, 4, |x, y| [x as u8, y as u8, 7, 255]);
    let before = img.bytes().clone();
    BoxBlur::blend_rectangle(&mut img, (3, 2), 2);
    assert_eq!(&before, img.bytes());
}

#[test]
fn anchor_touching_last_row_is_skipped() {
    let mut img = image_with(4, 4, |x, y| [x as u8, y as u8, 7, 255]);
    let before = img.bytes().clone();
    BoxBlur::blend_rectangle(&mut img, (2, 3), 2);
    assert_eq!(&before, img.bytes());
}

#[test]
fn anchor_too_close_to_edge_is_skipped() {
    let mut img = image_with(8, 8, |x, y| [x as u8, y as u8, 9, 255]);
    let before = img.bytes().clone();
    // With stride 4 an anchor needs x >= 2 and y >= 2 for a symmetric block.
    BoxBlur::blend_rectangle(&mut img, (1, 4), 4);
    BoxBlur::blend_rectangle(&mut img, (4, 0), 4);
    assert_eq!(&before, img.bytes());
}

#[test]
fn pixelate_makes_every_eligible_block_uniform() {
    // Pixel (x, y) holds 10*x + y on all four channels. With scale 2 the
    // blocks are the 2 by 2 squares [2i-1, 2i+1) x [2j-1, 2j+1) for i, j in
    // 1..=4; each block's corner value v gives the sums 4*v + 22, so the
    // written mean is v + 5, and the outermost ring keeps its values.
    let mut img = image_with(10, 10, |x, y| {
        let v = (10 * x + y) as u8;
        [v, v, v, v]
    });
    assert_eq!(BoxBlur::pixelate(&mut img, 2), Ok(()));
    let expected = image_with(10, 10, |x, y| {
        let inside = (1..=8).contains(&x) && (1..=8).contains(&y);
        let v = if inside {
            let x0 = if x % 2 == 0 { x - 1 } else { x };
            let y0 = if y % 2 == 0 { y - 1 } else { y };
            (10 * x0 + y0 + 5) as u8
        } else {
            (10 * x + y) as u8
        };
        [v, v, v, v]
    });
    assert_eq!(expected.bytes(), img.bytes());
}

#[test]
fn overlapping_blocks_are_not_idempotent() {
    // Anchors closer together than the stride give overlapping blocks; the
    // later block overwrites part of the earlier one, so applying the same
    // pass twice keeps changing pixels. This is expected, not a bug.
    let mut img = image_with(6, 6, |x, y| {
        let v = ((x * 40 + y * 7) % 256) as u8;
        [v, v.wrapping_add(3), v.wrapping_add(5), 255]
    });
    BoxBlur::blend_rectangle(&mut img, (2, 2), 4);
    BoxBlur::blend_rectangle(&mut img, (3, 3), 4);
    let first_pass = img.bytes().clone();
    BoxBlur::blend_rectangle(&mut img, (2, 2), 4);
    BoxBlur::blend_rectangle(&mut img, (3, 3), 4);
    assert_ne!(&first_pass, img.bytes());
}
