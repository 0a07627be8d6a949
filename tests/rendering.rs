use image::{DynamicImage, ImageFormat, Rgb, RgbImage};
use image_to_ascii::config::Config;
use image_to_ascii::error::Error;
use image_to_ascii::glyph::Symbols;
use image_to_ascii::pipeline::{decode_image, get_new_dimensions, load_outcome, render_image, resize_image};
use image_to_ascii::render::render;

fn config(scale: &str) -> Config {
    let values = vec![".".to_string(), "path/to/image".to_string(), scale.to_string()];
    Config::build(&values[..]).unwrap()
}

fn square(side: u32, shade: u8) -> DynamicImage {
    DynamicImage::ImageRgb8(RgbImage::from_pixel(side, side, Rgb([shade, shade, shade])))
}

fn png_bytes(image: &DynamicImage) -> Vec<u8> {
    let mut cursor = std::io::Cursor::new(Vec::new());
    image.write_to(&mut cursor, ImageFormat::Png).unwrap();
    cursor.into_inner()
}

#[test]
fn ok_get_new_dimensions() {
    let config = config("0.5");
    let image = square(400, 90);
    assert_eq!(get_new_dimensions(&image, &config), (200, 200));
}

#[test]
fn err_get_new_dimensions() {
    let config = config("0.5");
    let image = square(400, 90);
    assert_ne!(get_new_dimensions(&image, &config), (800, 800));
}

#[test]
fn new_dimensions_use_each_side() {
    let image = DynamicImage::ImageRgb8(RgbImage::new(300, 120));
    assert_eq!(get_new_dimensions(&image, &config("0.25")), (75, 30));
}

#[test]
fn ok_resize_image() {
    let resized = resize_image(square(400, 10), &config("0.5")).unwrap();
    assert_eq!(resized.width(), 400);
    assert_eq!(resized.height(), 200);
}

#[test]
fn err_resize_image() {
    let resized = resize_image(square(400, 10), &config("0.5")).unwrap();
    assert_ne!(resized.width(), 800);
    assert_ne!(resized.height(), 400);
}

#[test]
fn resize_rejects_degenerate_target() {
    assert!(matches!(resize_image(square(400, 10), &config("0.001")), Err(Error::DegenerateImage)));
}

#[test]
fn ok_load_image() {
    let bytes = png_bytes(&square(400, 200));
    let image = decode_image(&bytes).unwrap();
    assert_eq!((image.width(), image.height()), (400, 400));
}

#[test]
fn err_load_image() {
    assert!(matches!(decode_image(b"duckduckgo"), Err(Error::ImageLoad)));
    assert!(matches!(decode_image(&[]), Err(Error::ImageLoad)));
}

#[test]
fn render_small_grid() {
    let luma = vec![0u8, 255, 128, 64];
    let out = render(&luma, 2, 2, &Symbols::new(), false);
    assert_eq!(out, vec![' ', '\u{25A0}', '\n', '\u{25A9}', '\u{25A7}', '\n']);
    let inverted = render(&luma, 2, 2, &Symbols::new(), true);
    assert_eq!(inverted, vec!['\u{25A0}', ' ', '\n', '\u{25A5}', '\u{25A6}', '\n']);
}

#[test]
fn render_end_to_end_shape() {
    let image = decode_image(&png_bytes(&square(400, 255))).unwrap();
    let out: String = render_image(image, &config("0.5"), &Symbols::new()).unwrap().into_iter().collect();
    let lines: Vec<&str> = out.split_terminator('\n').collect();
    assert_eq!(lines.len(), 200);
    assert!(out.ends_with('\n'));
    for line in lines {
        assert_eq!(line.chars().count(), 400);
        assert!(line.chars().all(|c| c == '\u{25A0}'));
    }
}

#[test]
fn render_dark_image_is_blank() {
    let out = render_image(square(40, 0), &config("0.5"), &Symbols::new()).unwrap();
    assert_eq!(out.len(), 41 * 20);
    assert!(out.iter().all(|c| *c == ' ' || *c == '\n'));
}

#[test]
fn render_twice_is_identical() {
    let bytes = png_bytes(&DynamicImage::ImageRgb8(RgbImage::from_fn(64, 48, |x, y| {
        Rgb([(x * 4) as u8, (y * 5) as u8, ((x + y) * 2) as u8])
    })));
    let first = render_image(decode_image(&bytes).unwrap(), &config("0.5"), &Symbols::new()).unwrap();
    let second = render_image(decode_image(&bytes).unwrap(), &config("0.5"), &Symbols::new()).unwrap();
    assert_eq!(first, second);
}

#[test]
fn render_image_reports_degenerate() {
    assert!(matches!(
        render_image(square(3, 0), &config("0.1"), &Symbols::new()),
        Err(Error::DegenerateImage)
    ));
}

#[test]
fn load_outcome_passes_image_on() {
    let loaded = load_outcome(Ok(square(12, 7))).unwrap();
    assert_eq!((loaded.width(), loaded.height()), (12, 12));
    assert!(matches!(load_outcome(image::load_from_memory(b"not an image")), Err(Error::ImageLoad)));
}
