use dungeon_feature::sprite::error::SpriteGenError;
use dungeon_feature::sprite::postprocess::{
    center_square, color_distance_sq, crop_rgba8, estimate_background_color, finish_sprite,
    flood_fill_transparency, neighbors, postprocess_image, Rgba, SpriteImage, FLOOD_FILL_THRESHOLD_SQ,
    TARGET_SIZE,
};
use dungeon_feature::sprite::postprocess::{read_failure_error, ImageReadFailure};

const WHITE: Rgba = Rgba { r: 255, g: 255, b: 255, a: 255 };
const BLACK: Rgba = Rgba { r: 0, g: 0, b: 0, a: 255 };
const CLEAR: Rgba = Rgba { r: 0, g: 0, b: 0, a: 0 };

fn image_from(width: u32, height: u32, f: impl Fn(u32, u32) -> Rgba) -> SpriteImage {
    let mut pixels = Vec::new();
    for y in 0..height {
        for x in 0..width {
            pixels.push(f(x, y));
        }
    }
    SpriteImage { width, height, pixels }
}

fn png_bytes(width: u32, height: u32, color: [u8; 4]) -> Vec<u8> {
    let img = image::RgbaImage::from_pixel(width, height, image::Rgba(color));
    let mut buf = Vec::new();
    img.write_to(&mut std::io::Cursor::new(&mut buf), image::ImageFormat::Png).unwrap();
    buf
}

#[test]
fn squared_color_distance() {
    let a = Rgba { r: 10, g: 20, b: 30, a: 0 };
    let b = Rgba { r: 13, g: 16, b: 30, a: 255 };
    assert_eq!(color_distance_sq(&a, &b), 25);
    assert_eq!(color_distance_sq(&WHITE, &BLACK), 3 * 255 * 255);
}

#[test]
fn neighbours_stay_inside() {
    assert_eq!(neighbors(0, 0, 3, 3), vec![(1, 0), (0, 1)]);
    assert_eq!(neighbors(1, 1, 3, 3), vec![(0, 1), (2, 1), (1, 0), (1, 2)]);
    assert_eq!(neighbors(0, 0, 1, 1), vec![]);
}

#[test]
fn centred_square_crop() {
    assert_eq!(center_square(100, 60), (20, 0, 60));
    assert_eq!(center_square(60, 101), (0, 20, 60));
    assert_eq!(center_square(32, 32), (0, 0, 32));
}

#[test]
fn background_is_the_mean_edge_colour() {
    let img = image_from(3, 3, |x, y| if x == 1 && y == 1 { BLACK } else { Rgba { r: 200, g: 100, b: 0, a: 7 } });
    assert_eq!(estimate_background_color(&img), Rgba { r: 200, g: 100, b: 0, a: 255 });
    let img = image_from(2, 1, |x, _| if x == 0 { Rgba { r: 0, g: 0, b: 0, a: 0 } } else { Rgba { r: 3, g: 5, b: 9, a: 0 } });
    assert_eq!(estimate_background_color(&img), Rgba { r: 1, g: 2, b: 4, a: 255 });
    let empty = SpriteImage { width: 0, height: 0, pixels: vec![] };
    assert_eq!(estimate_background_color(&empty), WHITE);
}

#[test]
fn fill_clears_the_outside_but_not_an_enclosed_hole() {
    // white everywhere, a black ring around (2, 2)
    let img = image_from(5, 5, |x, y| {
        let ring = (1..=3).contains(&x) && (1..=3).contains(&y) && !(x == 2 && y == 2);
        if ring { BLACK } else { WHITE }
    });
    let out = flood_fill_transparency(img, FLOOD_FILL_THRESHOLD_SQ);
    assert_eq!(out.width, 5);
    assert_eq!(out.height, 5);
    for y in 0..5u32 {
        for x in 0..5u32 {
            let p = out.pixels[(y * 5 + x) as usize];
            let ring = (1..=3).contains(&x) && (1..=3).contains(&y) && !(x == 2 && y == 2);
            if x == 2 && y == 2 {
                assert_eq!(p, WHITE);
            } else if ring {
                assert_eq!(p, BLACK);
            } else {
                assert_eq!(p, CLEAR);
            }
        }
    }
}

#[test]
fn fill_follows_background_pixels_connected_to_the_edge() {
    // black frame, white inside; black at (1, 1) and (1, 2) touches the frame,
    // the black pixel at (3, 3) is walled in by white
    let black_at = |x: u32, y: u32| {
        x == 0 || y == 0 || x == 6 || y == 6 || (x == 1 && (y == 1 || y == 2)) || (x == 3 && y == 3)
    };
    let img = image_from(7, 7, |x, y| if black_at(x, y) { BLACK } else { WHITE });
    let out = flood_fill_transparency(img.clone(), 900);
    let at = |x: u32, y: u32| out.pixels[(y * 7 + x) as usize];
    assert_eq!(at(0, 0), CLEAR);
    assert_eq!(at(6, 3), CLEAR);
    assert_eq!(at(1, 1), CLEAR);
    assert_eq!(at(1, 2), CLEAR);
    assert_eq!(at(3, 3), BLACK);
    assert_eq!(at(2, 2), WHITE);
    assert_eq!(at(5, 5), WHITE);
    // a threshold of zero keeps everything
    let kept = flood_fill_transparency(img.clone(), 0);
    assert_eq!(kept.pixels, img.pixels);
}

#[test]
fn rgba_bytes_round_trip() {
    let img = image_from(2, 2, |x, y| Rgba { r: x as u8, g: y as u8, b: 7, a: 9 });
    let bytes = img.to_rgba_bytes();
    assert_eq!(bytes, vec![0, 0, 7, 9, 1, 0, 7, 9, 0, 1, 7, 9, 1, 1, 7, 9]);
    let back = SpriteImage::from_rgba_bytes(2, 2, &bytes).unwrap();
    assert_eq!(back.pixels, img.pixels);
    assert!(SpriteImage::from_rgba_bytes(2, 2, &bytes[..15]).is_none());
}

#[test]
fn postprocess_scales_and_clears_a_plain_image() {
    let png = png_bytes(64, 48, [10, 200, 30, 255]);
    let sprite = postprocess_image(&png).unwrap();
    assert_eq!(sprite.width, TARGET_SIZE);
    assert_eq!(sprite.height, TARGET_SIZE);
    assert_eq!(sprite.pixels.len(), 32 * 32);
    assert!(sprite.pixels.iter().all(|p| *p == CLEAR));
}

#[test]
fn postprocess_rejects_garbage() {
    match postprocess_image(b"definitely not an image") {
        Err(SpriteGenError::ImageProcessing(m)) => {
            assert!(m.starts_with("decode failed: ") || m.starts_with("format detection failed: "));
        },
        other => panic!("unexpected {:?}", other.map(|s| s.width)),
    }
}

#[test]
fn crop_takes_the_requested_square() {
    // a 3 by 2 picture whose pixel (x, y) has bytes [x, y, 9, 255]
    let mut px = Vec::new();
    for y in 0..2u8 {
        for x in 0..3u8 {
            px.extend_from_slice(&[x, y, 9, 255]);
        }
    }
    let cropped = crop_rgba8(3, 2, &px, 1, 0, 2);
    assert_eq!(cropped, vec![1, 0, 9, 255, 2, 0, 9, 255, 1, 1, 9, 255, 2, 1, 9, 255]);
    assert!(crop_rgba8(3, 2, &px, 0, 0, 0).is_empty());
}

#[test]
fn finish_sprite_keeps_an_enclosed_centre() {
    // 5 by 3: the centred square is columns 1..4; its centre pixel is red
    let mut px = Vec::new();
    for y in 0..3u32 {
        for x in 0..5u32 {
            if x == 2 && y == 1 {
                px.extend_from_slice(&[255, 0, 0, 255]);
            } else {
                px.extend_from_slice(&[255, 255, 255, 255]);
            }
        }
    }
    let sprite = finish_sprite(5, 3, &px);
    assert_eq!(sprite.width, 32);
    assert_eq!(sprite.height, 32);
    assert_eq!(sprite.pixels[16 * 32 + 16], Rgba { r: 255, g: 0, b: 0, a: 255 });
    assert_eq!(sprite.pixels[0], CLEAR);
    assert_eq!(sprite.pixels[31 * 32 + 31], CLEAR);
    let red = sprite.pixels.iter().filter(|p| p.r == 255 && p.g == 0).count();
    assert!(red > 0 && red < 32 * 32);
}

#[test]
fn read_failures_are_reported_with_their_step() {
    match read_failure_error(&ImageReadFailure::Format("no magic".to_string())) {
        SpriteGenError::ImageProcessing(m) => assert_eq!(m, "format detection failed: no magic"),
        _ => panic!("wrong error"),
    }
    match read_failure_error(&ImageReadFailure::Decode("bad chunk".to_string())) {
        SpriteGenError::ImageProcessing(m) => assert_eq!(m, "decode failed: bad chunk"),
        _ => panic!("wrong error"),
    }
}
