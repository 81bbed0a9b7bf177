use chrono::{Datelike, Duration, NaiveDate, NaiveDateTime, Timelike};
use eonsort::model::PlanEntry;
use eonsort::moment::Moment;
use eonsort::offset::{covering, propose, Shape, MIN_FILES, MIN_SECONDS};
use eonsort::providers::{Detection, Provider};

fn at(y: i32, m: u32, d: u32, hh: u32, mm: u32, ss: u32) -> NaiveDateTime {
    NaiveDate::from_ymd_opt(y, m, d).unwrap().and_hms_opt(hh, mm, ss).unwrap()
}

fn moment(t: NaiveDateTime) -> Moment {
    Moment {
        year: t.year(),
        month: t.month(),
        day: t.day(),
        hour: t.hour(),
        minute: t.minute(),
        second: t.second(),
    }
}

fn entry(name: &str, chosen: NaiveDateTime, reference: (Provider, NaiveDateTime)) -> PlanEntry {
    PlanEntry {
        source: format!("/src/{name}"),
        taken: moment(chosen),
        provider: Provider::Exif,
        candidates: vec![
            Detection { provider: Provider::Exif, info: None, taken: moment(chosen) },
            Detection { provider: reference.0, info: None, taken: moment(reference.1) },
        ],
        ..PlanEntry::default()
    }
}

fn run(count: usize, drift: Duration) -> Vec<PlanEntry> {
    (0..count)
        .map(|index| {
            let truth = at(2019, 7, 4, 10, 0, 0) + Duration::minutes(index as i64);
            entry(&format!("IMG_{index:04}.jpg"), truth + drift, (Provider::Filename, truth))
        })
        .collect()
}

#[test]
fn finds_one_offset_shared_by_a_whole_run() {
    let entries = run(20, Duration::hours(5) + Duration::minutes(32));
    let offsets = propose(&entries);

    assert_eq!(offsets.len(), 1);
    assert_eq!(offsets[0].files(), 20);
    assert_eq!(offsets[0].seconds, 5 * 3_600 + 32 * 60);
    assert_eq!(offsets[0].reference, Provider::Filename);
}

#[test]
fn a_whole_hour_offset_reads_as_a_time_zone() {
    let entries = run(10, Duration::hours(-2));
    let offsets = propose(&entries);

    assert_eq!(offsets[0].shape, Shape::Timezone { hours: -2 });
    assert!(offsets[0].describe().contains("time zone"));
    assert!(offsets[0].describe().contains("2 hours behind"));
}

#[test]
fn an_arbitrary_offset_reads_as_drift() {
    let entries = run(10, Duration::hours(5) + Duration::minutes(32));
    assert_eq!(propose(&entries)[0].shape, Shape::Drift);
}

#[test]
fn a_handful_of_files_is_not_enough_to_call_it_systematic() {
    let entries = run(MIN_FILES - 1, Duration::hours(3));
    assert!(propose(&entries).is_empty());
}

#[test]
fn small_disagreements_are_left_alone() {
    let entries = run(30, Duration::seconds(MIN_SECONDS - 1));
    assert!(propose(&entries).is_empty());
}

#[test]
fn clocks_a_second_or_two_apart_still_count_as_the_same_offset() {
    let base = at(2019, 7, 4, 10, 0, 0);
    let entries: Vec<PlanEntry> = (0..12)
        .map(|index| {
            let wobble = Duration::seconds(i64::from(index % 3));
            entry(&format!("IMG_{index:04}.jpg"), base + Duration::hours(3) + wobble, (Provider::Filename, base))
        })
        .collect();

    let offsets = propose(&entries);
    assert_eq!(offsets.len(), 1);
    assert_eq!(offsets[0].files(), 12);
}

#[test]
fn two_cameras_with_two_different_offsets_stay_apart() {
    let mut entries = run(8, Duration::hours(3));
    entries.extend((0..9).map(|index| {
        let truth = at(2020, 1, 1, 9, 0, 0) + Duration::minutes(index);
        entry(&format!("DSC_{index:04}.jpg"), truth - Duration::hours(7), (Provider::Filename, truth))
    }));

    let offsets = propose(&entries);
    assert_eq!(offsets.len(), 2);
    assert_eq!(offsets[0].files(), 9);
    assert_eq!(offsets[0].seconds, -7 * 3_600);
    assert_eq!(offsets[1].files(), 8);
    assert_eq!(offsets[1].seconds, 3 * 3_600);
}

#[test]
fn the_offset_reports_the_stretch_of_time_it_covers() {
    let entries = run(10, Duration::hours(4));
    let span = propose(&entries)[0].span.unwrap();
    assert_eq!(span.0, moment(at(2019, 7, 4, 14, 0, 0)));
    assert_eq!(span.1, moment(at(2019, 7, 4, 14, 9, 0)));
}

#[test]
fn the_correction_is_the_opposite_of_the_offset() {
    let entries = run(10, Duration::hours(5));
    let told = propose(&entries)[0].describe();
    assert!(told.contains("-5h"), "{told}");
}

#[test]
fn a_file_can_be_looked_up_by_the_offset_that_covers_it() {
    let entries = run(10, Duration::hours(4));
    let offsets = propose(&entries);

    assert!(covering(&offsets, "/src/IMG_0003.jpg").is_some());
    assert!(covering(&offsets, "/src/nowhere.jpg").is_none());
}

#[test]
fn the_chosen_provider_is_never_its_own_reference() {
    let entries = run(10, Duration::hours(4));
    assert!(propose(&entries).iter().all(|offset| offset.reference != Provider::Exif));
}

#[test]
fn an_offset_lists_each_file_once_in_order() {
    let mut entries = run(6, Duration::hours(2));
    entries.reverse();
    let offsets = propose(&entries);
    let expected: Vec<String> = (0..6).map(|i| format!("/src/IMG_{i:04}.jpg")).collect();
    assert_eq!(offsets[0].sources, expected);
    assert_eq!(
        offsets[0].describe(),
        "6 files read exactly 2 hours ahead of from filename, which is the shape of a time zone; correcting them means -2h"
    );
}
