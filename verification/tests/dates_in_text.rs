use eonsort::dateparse::parse_date;
use eonsort::moment::Moment;
use eonsort::providers::filename::detect;
use eonsort::providers::Provider;

fn dt(year: i32, month: u32, day: u32, hour: u32, minute: u32, second: u32) -> Moment {
    Moment { year, month, day, hour, minute, second }
}

#[test]
fn parses_iso_datetime() {
    assert_eq!(parse_date("2023-05-06 12:34:56"), Some(dt(2023, 5, 6, 12, 34, 56)));
    assert_eq!(parse_date("2023-05-06T12:34:56"), Some(dt(2023, 5, 6, 12, 34, 56)));
}

#[test]
fn parses_exif_colon_datetime() {
    assert_eq!(parse_date("2019:11:02 08:15:30"), Some(dt(2019, 11, 2, 8, 15, 30)));
}

#[test]
fn parses_compact_filename_datetime() {
    assert_eq!(parse_date("IMG_20230506_123456.jpg"), Some(dt(2023, 5, 6, 12, 34, 56)));
    assert_eq!(parse_date("VID-20230506-123456.mp4"), Some(dt(2023, 5, 6, 12, 34, 56)));
    assert_eq!(parse_date("20230506123456.jpg"), Some(dt(2023, 5, 6, 12, 34, 56)));
}

#[test]
fn parses_screenshot_with_at_separator() {
    assert_eq!(parse_date("Screenshot 2021-07-04 at 09.05.01.png"), Some(dt(2021, 7, 4, 9, 5, 1)));
}

#[test]
fn parses_date_only_variants() {
    assert_eq!(parse_date("IMG_20230506.jpg"), Some(dt(2023, 5, 6, 0, 0, 0)));
    assert_eq!(parse_date("scan 2023-05-06.pdf"), Some(dt(2023, 5, 6, 0, 0, 0)));
    assert_eq!(parse_date("scan 2023_05_06.pdf"), Some(dt(2023, 5, 6, 0, 0, 0)));
    assert_eq!(parse_date("scan 2023.05.06.pdf"), Some(dt(2023, 5, 6, 0, 0, 0)));
}

#[test]
fn parses_european_date() {
    assert_eq!(parse_date("Rechnung 06.05.2023.pdf"), Some(dt(2023, 5, 6, 0, 0, 0)));
    assert_eq!(parse_date("Rechnung 06-05-2023.pdf"), Some(dt(2023, 5, 6, 0, 0, 0)));
}

#[test]
fn prefers_datetime_over_date_only() {
    assert_eq!(parse_date("2023-05-06 report 2020-01-01 11:22:33"), Some(dt(2020, 1, 1, 11, 22, 33)));
}

#[test]
fn rejects_invalid_and_absent_dates() {
    assert_eq!(parse_date(""), None);
    assert_eq!(parse_date("holiday-photo.jpg"), None);
    assert_eq!(parse_date("20230230.jpg"), None);
    assert_eq!(parse_date("20231345.jpg"), None);
    assert_eq!(parse_date("1234567890.log"), None);
}

#[test]
fn ignores_digits_glued_to_a_candidate() {
    assert_eq!(parse_date("991220230506.bin"), None);
}

#[test]
fn rejects_year_out_of_range() {
    assert_eq!(parse_date("1850-05-06 12:00:00"), None);
    assert_eq!(parse_date("1969-12-31 23:59:59"), None);
}

#[test]
fn a_leap_day_is_read_only_in_a_leap_year() {
    assert_eq!(parse_date("20240229.jpg"), Some(dt(2024, 2, 29, 0, 0, 0)));
    assert_eq!(parse_date("20230229.jpg"), None);
    assert_eq!(parse_date("21000229.jpg"), None);
}

#[test]
fn a_rejected_reading_does_not_hide_a_later_one() {
    assert_eq!(parse_date("20230230 and 20230301"), Some(dt(2023, 3, 1, 0, 0, 0)));
}

#[test]
fn reads_date_from_file_name_only() {
    let found = detect("/archive/2019/IMG_20230506_123456.jpg").unwrap();
    assert_eq!(found.taken, dt(2023, 5, 6, 12, 34, 56));
    assert_eq!(found.provider, Provider::Filename);
    assert_eq!(found.info.as_deref(), Some("IMG_20230506_123456.jpg"));
}

#[test]
fn ignores_dates_that_only_appear_in_parent_directories() {
    assert!(detect("/archive/2023-05-06/holiday.jpg").is_none());
}
