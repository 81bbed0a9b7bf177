use eonsort::moment::Moment;
use eonsort::providers::xmp::{stamped, taken_from};

fn at(y: i32, m: u32, d: u32, hh: u32, mm: u32, ss: u32) -> Moment {
    Moment { year: y, month: m, day: d, hour: hh, minute: mm, second: ss }
}

fn attribute_form(field: &str, value: &str) -> String {
    format!(
        r#"<?xpacket begin="" id="W5M0MpCehiHzreSzNTczkc9d"?>
<x:xmpmeta xmlns:x="adobe:ns:meta/">
 <rdf:RDF xmlns:rdf="http://www.w3.org/1999/02/22-rdf-syntax-ns#">
  <rdf:Description rdf:about=""
    xmlns:xmp="http://ns.adobe.com/xap/1.0/"
    xmlns:exif="http://ns.adobe.com/exif/1.0/"
    {field}="{value}"/>
 </rdf:RDF>
</x:xmpmeta>"#
    )
}

#[test]
fn reads_the_sidecar_lightroom_writes_next_to_a_raw() {
    let raw = attribute_form("exif:DateTimeOriginal", "2019-05-14T09:22:03+02:00");
    let (field, taken) = taken_from(&raw).unwrap();
    assert_eq!(taken, at(2019, 5, 14, 9, 22, 3));
    assert_eq!(field, "exif:DateTimeOriginal");
}

#[test]
fn reads_the_sidecar_darktable_writes_next_to_a_raw() {
    let raw = attribute_form("xmp:CreateDate", "2019-05-14T09:22:03");
    assert_eq!(taken_from(&raw).unwrap().1, at(2019, 5, 14, 9, 22, 3));
}

#[test]
fn reads_a_date_written_as_its_own_element() {
    let raw = r#"<rdf:Description>
            <xmp:CreateDate>2021-07-04T11:30:00Z</xmp:CreateDate>
        </rdf:Description>"#;

    assert_eq!(taken_from(raw).unwrap().1, at(2021, 7, 4, 11, 30, 0));
}

#[test]
fn the_capture_date_wins_over_the_date_the_file_was_last_edited() {
    let raw = r#"<rdf:Description
            xmp:ModifyDate="2024-02-02T08:00:00"
            exif:DateTimeOriginal="2019-05-14T09:22:03"/>"#;

    let (field, taken) = taken_from(raw).unwrap();
    assert_eq!(field, "exif:DateTimeOriginal");
    assert_eq!(taken, at(2019, 5, 14, 9, 22, 3));
}

#[test]
fn takes_a_date_with_no_time_at_midnight() {
    let raw = r#"<rdf:Description photoshop:DateCreated="2019-05-14"/>"#;
    assert_eq!(taken_from(raw).unwrap().1, at(2019, 5, 14, 0, 0, 0));
}

#[test]
fn keeps_the_wall_clock_time_an_offset_was_written_against() {
    let raw = r#"<rdf:Description xmp:CreateDate="2019-05-14T09:22:03-07:00"/>"#;
    assert_eq!(taken_from(raw).unwrap().1, at(2019, 5, 14, 9, 22, 3));
}

#[test]
fn says_nothing_for_a_sidecar_that_carries_no_date() {
    assert!(taken_from(r#"<rdf:Description xmp:Rating="5"/>"#).is_none());
    assert!(taken_from("not xmp at all").is_none());
    assert!(taken_from(r#"<rdf:Description xmp:CreateDate="whenever"/>"#).is_none());
}

#[test]
fn field_names_are_matched_in_either_case_and_values_are_trimmed() {
    let raw = r#"<rdf:Description XMP:CREATEDATE = "  2020-01-02 03:04:05  "/>"#;
    assert_eq!(taken_from(raw), Some(("xmp:CreateDate", at(2020, 1, 2, 3, 4, 5))));
}

#[test]
fn an_element_that_is_never_closed_gives_nothing() {
    assert!(taken_from("<xmp:CreateDate>2021-07-04T11:30:00</xmp:Other>").is_none());
}

#[test]
fn a_date_with_minutes_only_is_read() {
    assert_eq!(stamped("2019-05-14T09:22"), Some(at(2019, 5, 14, 9, 22, 0)));
    assert_eq!(stamped("2019-05-14T09:22:03.250"), Some(at(2019, 5, 14, 9, 22, 3)));
    assert_eq!(stamped("14.05.2019"), None);
}
