use eonsort::moment::Moment;
use eonsort::providers::exif::{detect, wants_exif};
use eonsort::providers::Provider;

const IFD0_OFFSET: u32 = 8;
const EXIF_IFD_OFFSET: u32 = 26;
const TEXT_OFFSET: u32 = 44;

fn tiff_with_date_time_original(value: &str) -> Vec<u8> {
    let mut out = Vec::new();
    out.extend_from_slice(b"II\x2a\x00");
    out.extend_from_slice(&IFD0_OFFSET.to_le_bytes());

    out.extend_from_slice(&1u16.to_le_bytes());
    out.extend_from_slice(&0x8769u16.to_le_bytes());
    out.extend_from_slice(&4u16.to_le_bytes());
    out.extend_from_slice(&1u32.to_le_bytes());
    out.extend_from_slice(&EXIF_IFD_OFFSET.to_le_bytes());
    out.extend_from_slice(&0u32.to_le_bytes());

    let text = format!("{value}\0");
    out.extend_from_slice(&1u16.to_le_bytes());
    out.extend_from_slice(&0x9003u16.to_le_bytes());
    out.extend_from_slice(&2u16.to_le_bytes());
    out.extend_from_slice(&(text.len() as u32).to_le_bytes());
    out.extend_from_slice(&TEXT_OFFSET.to_le_bytes());
    out.extend_from_slice(&0u32.to_le_bytes());

    assert_eq!(out.len() as u32, TEXT_OFFSET);
    out.extend_from_slice(text.as_bytes());
    out
}

#[test]
fn reads_date_time_original() {
    assert!(wants_exif("/photos/shot.tif"));
    let found = detect(&tiff_with_date_time_original("2011:05:06 07:08:09")).unwrap();
    assert_eq!(found.provider, Provider::Exif);
    assert_eq!(found.info.as_deref(), Some("DateTimeOriginal"));
    assert_eq!(found.taken, Moment { year: 2011, month: 5, day: 6, hour: 7, minute: 8, second: 9 });
}

#[test]
fn skips_files_without_an_image_extension() {
    assert!(!wants_exif("/photos/shot.txt"));
    assert!(!wants_exif("/photos/shot"));
    assert!(wants_exif("/photos/SHOT.JPG"));
    assert!(wants_exif("/photos/shot.cr3"));
}

#[test]
fn returns_none_for_an_image_without_exif() {
    assert!(detect(b"not really a jpeg").is_none());
}

#[test]
fn a_date_that_does_not_read_gives_nothing() {
    assert!(detect(&tiff_with_date_time_original("sometime")).is_none());
}
