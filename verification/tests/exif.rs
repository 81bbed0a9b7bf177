use eonsort::exif_write::{
    exif_range, find_entry, header, read_u16, set_location, set_orientation, set_taken, Fix, Order, Reading, Taken,
    DATE_LEN, ENTRY_SIZE, EXIF_PREFIX, SECONDS_SCALE, TAG_DATE_TIME_ORIGINAL, TAG_EXIF_IFD, TAG_GPS_IFD,
    TAG_GPS_LATITUDE, TAG_GPS_LATITUDE_REF, TAG_GPS_LONGITUDE, TAG_GPS_LONGITUDE_REF, TAG_ORIENTATION, TIFF_MAGIC,
    TYPE_ASCII, TYPE_RATIONAL, TYPE_SHORT,
};

const TAG_PIXEL_X: u16 = 0xA002;
const TAG_PIXEL_Y: u16 = 0xA003;
const TYPE_LONG: u16 = 4;

fn plain_jpeg(width: u32, height: u32) -> Vec<u8> {
    let mut pixels = image::RgbImage::new(width, height);
    for (x, y, pixel) in pixels.enumerate_pixels_mut() {
        *pixel = image::Rgb([(x % 256) as u8, (y % 256) as u8, 90]);
    }
    let mut out = Vec::new();
    image::DynamicImage::ImageRgb8(pixels)
        .write_to(&mut std::io::Cursor::new(&mut out), image::ImageFormat::Jpeg)
        .unwrap();
    out
}

fn jpeg_with_exif(width: u32, height: u32, orientation: u16) -> Vec<u8> {
    let jpeg = plain_jpeg(width, height);

    let ifd0_entries: u16 = 3;
    let ifd0_end = 8 + 2 + usize::from(ifd0_entries) * ENTRY_SIZE + 4;
    let make_at = ifd0_end;
    let sub_ifd_at = make_at + 8;

    let mut tiff = Vec::new();
    tiff.extend_from_slice(b"MM");
    tiff.extend_from_slice(&TIFF_MAGIC.to_be_bytes());
    tiff.extend_from_slice(&8u32.to_be_bytes());
    tiff.extend_from_slice(&ifd0_entries.to_be_bytes());

    tiff.extend_from_slice(&0x010Fu16.to_be_bytes());
    tiff.extend_from_slice(&2u16.to_be_bytes());
    tiff.extend_from_slice(&8u32.to_be_bytes());
    tiff.extend_from_slice(&(make_at as u32).to_be_bytes());

    tiff.extend_from_slice(&TAG_ORIENTATION.to_be_bytes());
    tiff.extend_from_slice(&TYPE_SHORT.to_be_bytes());
    tiff.extend_from_slice(&1u32.to_be_bytes());
    tiff.extend_from_slice(&orientation.to_be_bytes());
    tiff.extend_from_slice(&[0, 0]);

    tiff.extend_from_slice(&TAG_EXIF_IFD.to_be_bytes());
    tiff.extend_from_slice(&TYPE_LONG.to_be_bytes());
    tiff.extend_from_slice(&1u32.to_be_bytes());
    tiff.extend_from_slice(&(sub_ifd_at as u32).to_be_bytes());

    tiff.extend_from_slice(&0u32.to_be_bytes());
    tiff.extend_from_slice(b"eonsort\0");

    tiff.extend_from_slice(&3u16.to_be_bytes());

    tiff.extend_from_slice(&TAG_PIXEL_X.to_be_bytes());
    tiff.extend_from_slice(&TYPE_LONG.to_be_bytes());
    tiff.extend_from_slice(&1u32.to_be_bytes());
    tiff.extend_from_slice(&width.to_be_bytes());

    tiff.extend_from_slice(&TAG_PIXEL_Y.to_be_bytes());
    tiff.extend_from_slice(&TYPE_LONG.to_be_bytes());
    tiff.extend_from_slice(&1u32.to_be_bytes());
    tiff.extend_from_slice(&height.to_be_bytes());

    let date_at = sub_ifd_at + 2 + 3 * ENTRY_SIZE + 4;
    tiff.extend_from_slice(&TAG_DATE_TIME_ORIGINAL.to_be_bytes());
    tiff.extend_from_slice(&TYPE_ASCII.to_be_bytes());
    tiff.extend_from_slice(&(DATE_LEN as u32).to_be_bytes());
    tiff.extend_from_slice(&(date_at as u32).to_be_bytes());

    tiff.extend_from_slice(&0u32.to_be_bytes());
    tiff.extend_from_slice(b"2003:01:01 00:00:12\0");

    let mut app1 = Vec::new();
    app1.extend_from_slice(&EXIF_PREFIX);
    app1.extend_from_slice(&tiff);

    let mut out = Vec::new();
    out.extend_from_slice(&jpeg[0..2]);
    out.extend_from_slice(&[0xFF, 0xE1]);
    out.extend_from_slice(&((app1.len() + 2) as u16).to_be_bytes());
    out.extend_from_slice(&app1);
    out.extend_from_slice(&jpeg[2..]);
    out
}

fn read_back(jpeg: &[u8]) -> Option<(u16, u32, u32, String)> {
    let mut cursor = std::io::Cursor::new(jpeg);
    let exif = exif::Reader::new().read_from_container(&mut cursor).ok()?;
    let field = |tag| exif.get_field(tag, exif::In::PRIMARY).and_then(|f| f.value.get_uint(0));
    Some((
        field(exif::Tag::Orientation)? as u16,
        field(exif::Tag::PixelXDimension)?,
        field(exif::Tag::PixelYDimension)?,
        exif.get_field(exif::Tag::Make, exif::In::PRIMARY)?
            .display_value()
            .to_string(),
    ))
}

#[test]
fn the_fixture_is_readable_by_a_real_exif_parser() {
    let jpeg = jpeg_with_exif(64, 32, 6);
    assert_eq!(read_back(&jpeg), Some((6, 64, 32, "\"eonsort\"".to_string())));
}

#[test]
fn setting_the_orientation_leaves_everything_else_alone() {
    let mut jpeg = jpeg_with_exif(64, 32, 6);
    let before = jpeg.len();

    assert!(set_orientation(&mut jpeg, 1));

    assert_eq!(jpeg.len(), before);
    assert_eq!(read_back(&jpeg), Some((1, 64, 32, "\"eonsort\"".to_string())));
}

#[test]
fn bytes_that_are_not_a_jpeg_are_refused() {
    let mut nonsense = b"not a jpeg at all".to_vec();
    assert!(!set_orientation(&mut nonsense, 1));

    let mut truncated = vec![0xFF, 0xD8, 0xFF];
    assert!(!set_orientation(&mut truncated, 1));

    let mut empty: Vec<u8> = Vec::new();
    assert!(!set_orientation(&mut empty, 1));
}

#[test]
fn the_orientation_entry_is_found_before_it_is_patched() {
    let mut jpeg = jpeg_with_exif(64, 32, 8);
    let (start, end) = exif_range(&jpeg).unwrap();

    let tiff = &jpeg[start..end];
    let (order, ifd0) = header(tiff).unwrap();
    assert!(order == Order::Big);
    let entry = find_entry(tiff, order, ifd0, TAG_ORIENTATION).unwrap();
    assert_eq!(read_u16(tiff, entry + 8, order), Some(8));

    assert!(set_orientation(&mut jpeg, 1));
    assert_eq!(read_back(&jpeg).unwrap().0, 1);
}

#[test]
fn an_orientation_written_reads_back_through_the_library_too() {
    let mut jpeg = jpeg_with_exif(40, 20, 3);
    assert!(set_orientation(&mut jpeg, 7));
    let (start, end) = exif_range(&jpeg).unwrap();
    let tiff = &jpeg[start..end];
    let (order, ifd0) = header(tiff).unwrap();
    let entry = find_entry(tiff, order, ifd0, TAG_ORIENTATION).unwrap();
    assert_eq!(read_u16(tiff, entry + 8, order), Some(7));
}

#[test]
fn the_orientation_of_a_file_without_exif_reads_as_upright() {
    assert_eq!(eonsort::rotate::read_orientation(&plain_jpeg(16, 16)), 1);
    assert_eq!(eonsort::rotate::read_orientation(b""), 1);
}

#[test]
fn the_orientation_is_read_from_the_file() {
    assert_eq!(eonsort::rotate::read_orientation(&jpeg_with_exif(64, 32, 8)), 8);
}

/// A JPEG whose EXIF block has a GPS directory holding the two readings.
fn jpeg_with_gps(latitude: Reading, longitude: Reading) -> Vec<u8> {
    let jpeg = plain_jpeg(16, 16);

    let ifd0_at = 8usize;
    let ifd0_entries: u16 = 2;
    let make_at = ifd0_at + 2 + usize::from(ifd0_entries) * ENTRY_SIZE + 4;
    let gps_at = make_at + 8;
    let gps_entries: u16 = 4;
    let latitude_at = gps_at + 2 + usize::from(gps_entries) * ENTRY_SIZE + 4;
    let longitude_at = latitude_at + 24;

    let mut tiff = Vec::new();
    tiff.extend_from_slice(b"MM");
    tiff.extend_from_slice(&TIFF_MAGIC.to_be_bytes());
    tiff.extend_from_slice(&(ifd0_at as u32).to_be_bytes());

    tiff.extend_from_slice(&ifd0_entries.to_be_bytes());
    tiff.extend_from_slice(&0x010Fu16.to_be_bytes());
    tiff.extend_from_slice(&TYPE_ASCII.to_be_bytes());
    tiff.extend_from_slice(&8u32.to_be_bytes());
    tiff.extend_from_slice(&(make_at as u32).to_be_bytes());

    tiff.extend_from_slice(&TAG_GPS_IFD.to_be_bytes());
    tiff.extend_from_slice(&TYPE_LONG.to_be_bytes());
    tiff.extend_from_slice(&1u32.to_be_bytes());
    tiff.extend_from_slice(&(gps_at as u32).to_be_bytes());
    tiff.extend_from_slice(&0u32.to_be_bytes());

    tiff.extend_from_slice(b"eonsort\0");

    let reference = |letter: u8| vec![letter, 0, 0, 0];

    tiff.extend_from_slice(&gps_entries.to_be_bytes());
    tiff.extend_from_slice(&TAG_GPS_LATITUDE_REF.to_be_bytes());
    tiff.extend_from_slice(&TYPE_ASCII.to_be_bytes());
    tiff.extend_from_slice(&2u32.to_be_bytes());
    tiff.extend_from_slice(&reference(if latitude.negative { b'S' } else { b'N' }));

    tiff.extend_from_slice(&TAG_GPS_LATITUDE.to_be_bytes());
    tiff.extend_from_slice(&TYPE_RATIONAL.to_be_bytes());
    tiff.extend_from_slice(&3u32.to_be_bytes());
    tiff.extend_from_slice(&(latitude_at as u32).to_be_bytes());

    tiff.extend_from_slice(&TAG_GPS_LONGITUDE_REF.to_be_bytes());
    tiff.extend_from_slice(&TYPE_ASCII.to_be_bytes());
    tiff.extend_from_slice(&2u32.to_be_bytes());
    tiff.extend_from_slice(&reference(if longitude.negative { b'W' } else { b'E' }));

    tiff.extend_from_slice(&TAG_GPS_LONGITUDE.to_be_bytes());
    tiff.extend_from_slice(&TYPE_RATIONAL.to_be_bytes());
    tiff.extend_from_slice(&3u32.to_be_bytes());
    tiff.extend_from_slice(&(longitude_at as u32).to_be_bytes());
    tiff.extend_from_slice(&0u32.to_be_bytes());

    for r in [latitude, longitude] {
        for (num, denom) in [(r.degrees, 1u32), (r.minutes, 1), (r.seconds, SECONDS_SCALE)] {
            tiff.extend_from_slice(&num.to_be_bytes());
            tiff.extend_from_slice(&denom.to_be_bytes());
        }
    }

    let mut app1 = Vec::new();
    app1.extend_from_slice(&EXIF_PREFIX);
    app1.extend_from_slice(&tiff);

    let mut out = Vec::new();
    out.extend_from_slice(&jpeg[0..2]);
    out.extend_from_slice(&[0xFF, 0xE1]);
    out.extend_from_slice(&((app1.len() + 2) as u16).to_be_bytes());
    out.extend_from_slice(&app1);
    out.extend_from_slice(&jpeg[2..]);
    out
}

fn date_of(jpeg: &[u8]) -> Option<String> {
    let mut cursor = std::io::Cursor::new(jpeg);
    let exif = exif::Reader::new().read_from_container(&mut cursor).ok()?;
    Some(exif.get_field(exif::Tag::DateTimeOriginal, exif::In::PRIMARY)?.display_value().to_string())
}

/// The latitude and longitude a real EXIF parser reads from the GPS block, in degrees.
fn location_of(jpeg: &[u8]) -> Option<(f64, f64)> {
    let mut cursor = std::io::Cursor::new(jpeg);
    let exif = exif::Reader::new().read_from_container(&mut cursor).ok()?;
    let coordinate = |tag, reference, negative: u8| -> Option<f64> {
        let parts = match &exif.get_field(tag, exif::In::PRIMARY)?.value {
            exif::Value::Rational(v) if v.len() == 3 => v.clone(),
            _ => return None,
        };
        let magnitude = parts[0].to_f64() + parts[1].to_f64() / 60.0 + parts[2].to_f64() / 3600.0;
        let letter = match &exif.get_field(reference, exif::In::PRIMARY)?.value {
            exif::Value::Ascii(v) => *v.first()?.first()?,
            _ => return None,
        };
        Some(if letter == negative { -magnitude } else { magnitude })
    };
    Some((
        coordinate(exif::Tag::GPSLatitude, exif::Tag::GPSLatitudeRef, b'S')?,
        coordinate(exif::Tag::GPSLongitude, exif::Tag::GPSLongitudeRef, b'W')?,
    ))
}

fn at(year: i32, month: u32, day: u32, hour: u32, minute: u32, second: u32) -> Taken {
    Taken { year, month, day, hour, minute, second }
}

fn reading(degrees: u32, minutes: u32, seconds: u32, negative: bool) -> Reading {
    Reading { degrees, minutes, seconds, negative }
}

/// 48.137 N, 11.576 E: 48 degrees 8 minutes 13.2 seconds, 11 degrees 34 minutes 33.6 seconds.
fn munich() -> Fix {
    Fix { latitude: reading(48, 8, 132_000, false), longitude: reading(11, 34, 336_000, false) }
}

#[test]
fn stamping_the_taken_date_leaves_the_file_the_same_length() {
    let mut jpeg = jpeg_with_exif(64, 32, 1);
    let before = jpeg.len();

    assert!(set_taken(&mut jpeg, &at(2019, 5, 14, 9, 22, 3)));

    assert_eq!(jpeg.len(), before);
    assert_eq!(date_of(&jpeg).as_deref(), Some("2019-05-14 09:22:03"));
    assert_eq!(read_back(&jpeg), Some((1, 64, 32, "\"eonsort\"".to_string())));
}

#[test]
fn a_jpeg_without_exif_takes_no_date() {
    let mut jpeg = plain_jpeg(16, 16);
    assert!(!set_taken(&mut jpeg, &at(2019, 5, 14, 9, 22, 3)));
}

#[test]
fn bytes_that_are_not_a_jpeg_take_no_date() {
    let mut rubbish = b"not a jpeg at all".to_vec();
    assert!(!set_taken(&mut rubbish, &at(2019, 5, 14, 9, 22, 3)));
}

#[test]
fn a_year_that_does_not_fit_the_stamp_is_not_written() {
    let mut jpeg = jpeg_with_exif(64, 32, 1);
    let before = jpeg.clone();
    assert!(!set_taken(&mut jpeg, &at(12019, 5, 14, 9, 22, 3)));
    assert_eq!(jpeg, before);
}

#[test]
fn a_jpeg_without_exif_is_left_untouched() {
    let mut jpeg = plain_jpeg(16, 16);
    let before = jpeg.clone();

    assert!(!set_orientation(&mut jpeg, 1));
    assert_eq!(jpeg, before);
}

#[test]
fn writes_a_reading_into_a_gps_block_that_is_already_there() {
    let zero = reading(0, 0, 0, false);
    let mut jpeg = jpeg_with_gps(zero, zero);
    let before = jpeg.len();

    assert!(set_location(&mut jpeg, &munich()));

    assert_eq!(jpeg.len(), before);
    let (latitude, longitude) = location_of(&jpeg).unwrap();
    assert!((latitude - 48.137).abs() < 0.0001, "{latitude}");
    assert!((longitude - 11.576).abs() < 0.0001, "{longitude}");
}

#[test]
fn a_southern_western_reading_flips_both_reference_letters() {
    let one = reading(1, 0, 0, false);
    let mut jpeg = jpeg_with_gps(one, one);
    // -22.906, -43.172: 22 degrees 54 minutes 21.6 seconds south, 43 degrees 10 minutes 19.2 seconds west.
    let rio = Fix { latitude: reading(22, 54, 216_000, true), longitude: reading(43, 10, 192_000, true) };
    assert!(set_location(&mut jpeg, &rio));

    let (latitude, longitude) = location_of(&jpeg).unwrap();
    assert!((latitude + 22.906).abs() < 0.0001, "{latitude}");
    assert!((longitude + 43.172).abs() < 0.0001, "{longitude}");
}

#[test]
fn a_jpeg_with_no_gps_block_takes_no_reading() {
    let mut jpeg = jpeg_with_exif(16, 16, 1);
    assert!(!set_location(&mut jpeg, &munich()));
}

#[test]
fn stamping_a_reading_leaves_the_date_and_orientation_alone() {
    let mut jpeg = jpeg_with_exif(64, 32, 6);
    assert!(!set_location(&mut jpeg, &munich()));
    assert_eq!(read_back(&jpeg).unwrap().0, 6);
    assert_eq!(date_of(&jpeg).as_deref(), Some("2003-01-01 00:00:12"));
}
