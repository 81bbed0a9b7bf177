use eonsort::raw::{preview_bytes, MIN_PREVIEW_BYTES};

fn jpeg(width: u32, height: u32) -> Vec<u8> {
    let mut pixels = image::RgbImage::new(width, height);
    let mut noise: u32 = 0x1234_5678;
    for pixel in pixels.pixels_mut() {
        noise = noise.wrapping_mul(1_664_525).wrapping_add(1_013_904_223);
        *pixel = image::Rgb([(noise >> 16) as u8, (noise >> 8) as u8, noise as u8]);
    }
    let mut out = Vec::new();
    image::DynamicImage::ImageRgb8(pixels)
        .write_to(&mut std::io::Cursor::new(&mut out), image::ImageFormat::Jpeg)
        .unwrap();
    out
}

fn pretend_raw(previews: &[Vec<u8>]) -> Vec<u8> {
    let mut body = Vec::new();
    body.extend_from_slice(b"II\x2a\x00");
    body.extend_from_slice(&[0u8; 64]);
    for preview in previews {
        body.extend_from_slice(preview);
        body.extend_from_slice(&[0u8; 32]);
    }
    body
}

fn size_of(bytes: &[u8]) -> (u32, u32) {
    let found = image::load_from_memory_with_format(bytes, image::ImageFormat::Jpeg).unwrap();
    (found.width(), found.height())
}

#[test]
fn the_raw_bytes_of_the_preview_come_back_as_a_jpeg() {
    let bytes = preview_bytes(&pretend_raw(&[jpeg(160, 120)])).unwrap();
    assert_eq!(&bytes[0..3], &[0xFF, 0xD8, 0xFF]);
    assert_eq!(&bytes[bytes.len() - 2..], &[0xFF, 0xD9]);
    assert_eq!(size_of(&bytes), (160, 120));
}

#[test]
fn prefers_the_biggest_preview_over_the_thumbnail() {
    let bytes = preview_bytes(&pretend_raw(&[jpeg(64, 48), jpeg(320, 240)])).unwrap();
    assert_eq!(size_of(&bytes), (320, 240));
}

#[test]
fn the_order_the_previews_sit_in_does_not_matter() {
    let bytes = preview_bytes(&pretend_raw(&[jpeg(320, 240), jpeg(64, 48)])).unwrap();
    assert_eq!(size_of(&bytes), (320, 240));
}

#[test]
fn a_raw_with_nothing_embedded_yields_nothing() {
    assert!(preview_bytes(&pretend_raw(&[])).is_none());
}

#[test]
fn a_scrap_too_small_to_be_a_preview_is_ignored() {
    let mut body = pretend_raw(&[]);
    body.extend_from_slice(&[0xFF, 0xD8, 0xFF, 0xE0, 0x00, 0x10, 0xFF, 0xD9]);
    assert!(preview_bytes(&body).is_none());
}

#[test]
fn a_preview_that_never_ends_is_not_mistaken_for_one() {
    let mut body = pretend_raw(&[]);
    body.extend_from_slice(&[0xFF, 0xD8, 0xFF]);
    body.extend_from_slice(&vec![0x11; MIN_PREVIEW_BYTES * 2]);
    assert!(preview_bytes(&body).is_none());
}

#[test]
fn of_two_previews_as_long_the_first_is_taken() {
    let mut first = vec![0xFF, 0xD8, 0xFF];
    first.extend_from_slice(&vec![0x01; MIN_PREVIEW_BYTES]);
    first.extend_from_slice(&[0xFF, 0xD9]);
    let mut second = vec![0xFF, 0xD8, 0xFF];
    second.extend_from_slice(&vec![0x02; MIN_PREVIEW_BYTES]);
    second.extend_from_slice(&[0xFF, 0xD9]);
    let bytes = preview_bytes(&pretend_raw(&[first.clone(), second])).unwrap();
    assert_eq!(bytes, first);
}
