use proxynexus::border::{apply_uniqueness_marker, create_bordered_base, BorderConfig, RgbImageData};

fn border_for_width(width: u32) -> u32 {
    (36.0 * (width as f32 / 744.0)).round() as u32
}

fn image(width: u32, height: u32) -> RgbImageData {
    let mut pixels = Vec::new();
    for y in 0..height {
        for x in 0..width {
            pixels.push((x * 10) as u8);
            pixels.push((y * 10) as u8);
            pixels.push(7);
        }
    }
    RgbImageData { width, height, pixels }
}

fn channel(img: &RgbImageData, x: u32, y: u32, c: u32) -> u8 {
    img.pixels[((y * img.width + x) * 3 + c) as usize]
}

#[test]
fn test_border_config_calculation() {
    let config = BorderConfig::with_border(744, 1039, border_for_width(744));
    assert_eq!(config.output_width, 816);
    assert_eq!(config.output_height, 1111);

    let config = BorderConfig::with_border(1461, 2076, border_for_width(1461));
    let expected_bleed_per_side = (36.0 * (1461.0 / 744.0_f32)).round() as u32;
    assert_eq!(config.output_width, 1461 + (expected_bleed_per_side * 2));
    assert_eq!(config.output_height, 2076 + (expected_bleed_per_side * 2));
}

#[test]
fn test_uniqueness_marker_bounds() {
    let mut img = RgbImageData { width: 10, height: 10, pixels: vec![0u8; 300] };
    apply_uniqueness_marker(&mut img, 0);
    apply_uniqueness_marker(&mut img, 5);
    apply_uniqueness_marker(&mut img, 100);
}

#[test]
fn bordered_base_repeats_edges() {
    let img = image(3, 2);
    let r = create_bordered_base(&img, 2);
    assert_eq!(r.width, 7);
    assert_eq!(r.height, 6);
    assert_eq!(r.pixels.len(), 7 * 6 * 3);
    // the centre is the image itself
    for y in 0..2 {
        for x in 0..3 {
            for c in 0..3 {
                assert_eq!(channel(&r, x + 2, y + 2, c), channel(&img, x, y, c));
            }
        }
    }
    // corners copy the nearest corner pixel
    assert_eq!(channel(&r, 0, 0, 0), channel(&img, 0, 0, 0));
    assert_eq!(channel(&r, 6, 5, 0), channel(&img, 2, 1, 0));
    assert_eq!(channel(&r, 6, 5, 1), channel(&img, 2, 1, 1));
    // a left border pixel copies the first pixel of its row
    assert_eq!(channel(&r, 1, 3, 1), channel(&img, 0, 1, 1));
}

#[test]
fn bordered_base_without_border_is_a_copy() {
    let img = image(4, 3);
    let r = create_bordered_base(&img, 0);
    assert_eq!(r, img);
}

#[test]
fn marker_changes_only_the_top_left_pixels() {
    let img = image(4, 4);
    let mut marked = img.clone();
    apply_uniqueness_marker(&mut marked, 3);
    // position 3 adds 219, 411 % 256 = 155 and 579 % 256 = 67
    assert_eq!(channel(&marked, 0, 0, 0), 219);
    assert_eq!(channel(&marked, 1, 0, 0), 10u8.wrapping_add(219));
    assert_eq!(channel(&marked, 1, 1, 1), 10u8.wrapping_add(155));
    assert_eq!(channel(&marked, 0, 1, 2), 7 + 67);
    for y in 0..4 {
        for x in 0..4 {
            if x >= 2 || y >= 2 {
                for c in 0..3 {
                    assert_eq!(channel(&marked, x, y, c), channel(&img, x, y, c));
                }
            }
        }
    }
}

#[test]
fn marker_on_a_one_pixel_image() {
    let mut img = RgbImageData { width: 1, height: 1, pixels: vec![250, 0, 0] };
    apply_uniqueness_marker(&mut img, 1);
    assert_eq!(img.pixels, vec![250u8.wrapping_add(73), 137, 193]);
}
