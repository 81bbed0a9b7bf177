use eonsort::moment::Moment;
use eonsort::providers::{Detection, Provider};
use eonsort::suspect::{
    confidence, cross_file_flags, date_flags, is_camera_epoch, spread, Confidence, EntryFacts,
    Flag, Severity,
};

fn at(year: i32, month: u32, day: u32, hour: u32, minute: u32, second: u32) -> Moment {
    Moment { year, month, day, hour, minute, second }
}

fn detection(provider: Provider, taken: Moment) -> Detection {
    Detection { provider, info: None, taken }
}

fn facts(paths: &[String], takens: &[Moment], provider: Provider, written: Option<Moment>) -> Vec<EntryFacts> {
    paths
        .iter()
        .zip(takens)
        .map(|(source, &taken)| EntryFacts { source: source.clone(), taken, provider, filesystem: written })
        .collect()
}

#[test]
fn recognises_the_common_camera_reset_dates() {
    for year in [1970, 1980, 2000, 2002, 2003, 2004, 2007, 2010, 2015, 2016] {
        assert!(is_camera_epoch(&at(year, 1, 1, 0, 0, 0)), "{year}-01-01 00:00:00 should look like a reset");
    }
    assert!(is_camera_epoch(&at(2003, 1, 1, 0, 0, 42)));
}

#[test]
fn a_real_new_year_photo_is_not_a_reset_date() {
    assert!(!is_camera_epoch(&at(2019, 1, 1, 14, 32, 10)));
    assert!(!is_camera_epoch(&at(2019, 1, 1, 0, 2, 0)));
    assert!(!is_camera_epoch(&at(2019, 7, 4, 0, 0, 0)));
}

#[test]
fn flags_a_date_in_the_future() {
    let now = at(2026, 8, 6, 12, 0, 0);
    assert!(date_flags(&at(2030, 1, 5, 9, 0, 0), None, &now).contains(&Flag::FutureDate));
    assert!(!date_flags(&at(2020, 1, 5, 9, 0, 0), None, &now).contains(&Flag::FutureDate));
}

#[test]
fn flags_a_date_later_than_the_file_was_written() {
    let now = at(2026, 8, 6, 12, 0, 0);
    let written = at(2019, 7, 4, 10, 0, 0);
    let flags = date_flags(&at(2019, 8, 1, 10, 0, 0), Some(written), &now);
    assert!(flags.contains(&Flag::TakenAfterFileWrite));
}

#[test]
fn tolerates_timezone_sized_differences_against_the_write_time() {
    let now = at(2026, 8, 6, 12, 0, 0);
    let written = at(2019, 7, 4, 10, 0, 0);
    let flags = date_flags(&at(2019, 7, 5, 20, 0, 0), Some(written), &now);
    assert!(!flags.contains(&Flag::TakenAfterFileWrite));
}

#[test]
fn the_flags_of_a_date_come_in_a_fixed_order() {
    let now = at(2002, 8, 6, 12, 0, 0);
    let written = at(2000, 7, 4, 10, 0, 0);
    let flags = date_flags(&at(2003, 1, 1, 0, 0, 5), Some(written), &now);
    assert_eq!(flags, vec![Flag::CameraEpoch, Flag::FutureDate, Flag::TakenAfterFileWrite]);
}

#[test]
fn reports_the_spread_between_disagreeing_providers() {
    let candidates = vec![
        detection(Provider::Exif, at(2003, 1, 1, 0, 0, 0)),
        detection(Provider::Filesystem, at(2019, 7, 4, 10, 0, 0)),
    ];
    assert!(matches!(spread(&candidates), Some(Flag::ProviderSpread { days }) if days > 5000));

    let close = vec![
        detection(Provider::Exif, at(2019, 7, 4, 10, 0, 0)),
        detection(Provider::Filesystem, at(2019, 7, 4, 11, 0, 0)),
    ];
    assert!(spread(&close).is_none());
}

#[test]
fn the_spread_counts_whole_days() {
    let candidates = vec![
        detection(Provider::Exif, at(2019, 1, 1, 10, 0, 0)),
        detection(Provider::Filename, at(2019, 12, 31, 9, 0, 0)),
        detection(Provider::Filesystem, at(2019, 6, 1, 0, 0, 0)),
    ];
    assert_eq!(spread(&candidates), Some(Flag::ProviderSpread { days: 363 }));
    assert_eq!(spread(&Vec::new()), None);
}

#[test]
fn confidence_is_low_for_any_hard_flag() {
    let candidates = vec![detection(Provider::Exif, at(2003, 1, 1, 0, 0, 0))];
    assert_eq!(confidence(&candidates, &vec![Flag::CameraEpoch]), Confidence::Low);
}

#[test]
fn confidence_is_high_when_two_providers_corroborate() {
    let candidates = vec![
        detection(Provider::Exif, at(2019, 7, 4, 10, 0, 0)),
        detection(Provider::Filename, at(2019, 7, 4, 10, 0, 0)),
    ];
    assert_eq!(confidence(&candidates, &Vec::new()), Confidence::High);
}

#[test]
fn confidence_is_medium_for_a_lone_provider_or_a_wide_spread() {
    let lone = vec![detection(Provider::Filesystem, at(2019, 7, 4, 10, 0, 0))];
    assert_eq!(confidence(&lone, &Vec::new()), Confidence::Medium);

    let wide = vec![
        detection(Provider::Exif, at(2019, 7, 4, 10, 0, 0)),
        detection(Provider::Filesystem, at(2023, 1, 1, 0, 0, 0)),
    ];
    let flags = vec![Flag::ProviderSpread { days: 1277 }];
    assert_eq!(confidence(&wide, &flags), Confidence::Medium);
}

#[test]
fn only_a_spread_between_sources_is_soft() {
    assert_eq!(Flag::ProviderSpread { days: 200 }.severity(), Severity::Soft);
    assert_eq!(Flag::CameraEpoch.severity(), Severity::Hard);
    assert_eq!(Flag::SequenceOutlier.severity(), Severity::Hard);
}

#[test]
fn a_flag_is_put_in_words() {
    assert_eq!(Flag::FutureDate.describe(), "lies in the future");
    assert_eq!(Flag::ProviderSpread { days: 412 }.describe(), "sources disagree by 412 days");
    assert_eq!(
        Flag::IdenticalTimestampCluster { files: 7 }.describe(),
        "shared to the second with 7 files"
    );
    assert_eq!(
        Flag::FarFromNeighbours { years: 15 }.describe(),
        "15 years away from the rest of its folder"
    );
    assert_eq!(
        Flag::ClockResetRun { anchor: at(2003, 1, 1, 9, 5, 0), files: 6 }.describe(),
        "part of a 6-file run counting up from 2003-01-01 09:05"
    );
}

fn trip(prefix: &str, count: u32, first: u32) -> Vec<String> {
    (0..count).map(|i| format!("{prefix}{:04}.jpg", first + i)).collect()
}

#[test]
fn flags_a_whole_run_counting_up_from_a_reset_date() {
    let paths = trip("/trip/IMG_", 6, 100);
    let takens: Vec<Moment> = (0..6).map(|i| at(2003, 1, 1, 9, i * 3, 0)).collect();
    let entries = facts(&paths, &takens, Provider::Exif, Some(at(2019, 7, 4, 10, 0, 0)));

    let flags = cross_file_flags(&entries);
    for per_entry in &flags {
        assert!(per_entry.iter().any(|f| matches!(f, Flag::ClockResetRun { files: 6, .. })));
    }
}

#[test]
fn a_new_year_folder_whose_files_were_written_then_is_left_alone() {
    let paths = trip("/party/IMG_", 6, 100);
    let takens: Vec<Moment> = (0..6).map(|i| at(2019, 1, 1, 0, i * 3, 0)).collect();
    let entries = facts(&paths, &takens, Provider::Exif, Some(at(2019, 1, 1, 2, 0, 0)));

    let flags = cross_file_flags(&entries);
    assert!(flags.iter().all(|f| !f.iter().any(|x| matches!(x, Flag::ClockResetRun { .. }))));
}

#[test]
fn a_correctly_dated_file_in_the_folder_does_not_hide_the_run() {
    let mut paths = trip("/trip/IMG_", 6, 100);
    let mut takens: Vec<Moment> = (0..6).map(|i| at(2003, 1, 1, 9, i * 7, 0)).collect();
    paths.push("/trip/IMG_0200.jpg".to_string());
    takens.push(at(2019, 7, 4, 10, 11, 12));

    let entries = facts(&paths, &takens, Provider::Filename, Some(at(2019, 7, 4, 18, 30, 0)));

    let flags = cross_file_flags(&entries);
    for stuck in &flags[..6] {
        assert!(stuck.iter().any(|f| matches!(f, Flag::ClockResetRun { files: 6, .. })));
    }
    assert!(!flags[6].iter().any(|f| matches!(f, Flag::ClockResetRun { .. })));
}

#[test]
fn a_correctly_dated_folder_is_left_alone() {
    let paths = trip("/trip/IMG_", 6, 100);
    let takens: Vec<Moment> = (0..6).map(|i| at(2019, 7, 4, 10, i * 3, 0)).collect();
    let entries = facts(&paths, &takens, Provider::Exif, Some(at(2019, 7, 4, 10, 0, 0)));

    assert!(cross_file_flags(&entries).iter().all(|f| f.is_empty()));
}

#[test]
fn flags_files_frozen_on_one_identical_timestamp() {
    let paths: Vec<String> = (0..5).map(|i| format!("/dump/a{i}.jpg")).collect();
    let takens = vec![at(2015, 1, 1, 0, 0, 0); 5];
    let entries = facts(&paths, &takens, Provider::Media, None);

    let flags = cross_file_flags(&entries);
    assert!(flags
        .iter()
        .all(|f| f.iter().any(|x| matches!(x, Flag::IdenticalTimestampCluster { files: 5 }))));
}

#[test]
fn flags_a_single_file_stranded_far_from_its_folder() {
    let paths: Vec<String> = (0..6).map(|i| format!("/trip/scan{i}.tif")).collect();
    let mut takens: Vec<Moment> = (0..6).map(|i| at(2019, 7, 4, 10, i * 3, 0)).collect();
    takens[3] = at(2004, 6, 1, 8, 0, 0);

    let mut entries = facts(&paths, &takens, Provider::Exif, None);
    for entry in entries.iter_mut() {
        entry.filesystem = Some(at(2019, 7, 4, 10, 0, 0));
    }

    let flags = cross_file_flags(&entries);
    assert!(flags[3].iter().any(|f| matches!(f, Flag::FarFromNeighbours { .. })));
    assert!(flags[0].iter().all(|f| !matches!(f, Flag::FarFromNeighbours { .. })));
    assert_eq!(flags[3], vec![Flag::FarFromNeighbours { years: 15 }]);
}

#[test]
fn flags_a_file_that_breaks_the_camera_counter_order() {
    let paths: Vec<String> = (0..7).map(|i| format!("/cam/DSC_{:04}.jpg", 200 + i)).collect();
    let mut takens: Vec<Moment> = (0..7).map(|i| at(2019, 7, 4, 10, i * 5, 0)).collect();
    takens[0] = at(2019, 7, 4, 23, 0, 0);

    let entries = facts(&paths, &takens, Provider::Exif, None);
    let flags = cross_file_flags(&entries);
    assert!(flags[0].contains(&Flag::SequenceOutlier));
    assert!(!flags[3].contains(&Flag::SequenceOutlier));
}

#[test]
fn does_not_read_a_timestamp_in_a_file_name_as_a_camera_counter() {
    let paths: Vec<String> = [
        "/cam/IMG_20190704_101112.jpg",
        "/cam/IMG_20190704_183000.jpg",
        "/cam/IMG_20190704_183700.jpg",
        "/cam/IMG_20190704_184400.jpg",
        "/cam/IMG_20190704_185100.jpg",
        "/cam/IMG_20190704_185800.jpg",
    ]
    .iter()
    .map(|p| p.to_string())
    .collect();
    let takens = vec![
        at(2019, 7, 4, 10, 11, 12),
        at(2019, 7, 4, 18, 30, 0),
        at(2019, 7, 4, 18, 37, 0),
        at(2019, 7, 4, 18, 44, 0),
        at(2019, 7, 4, 18, 51, 0),
        at(2019, 7, 4, 18, 58, 0),
    ];

    let entries = facts(&paths, &takens, Provider::Filename, None);
    let flags = cross_file_flags(&entries);
    assert!(flags.iter().all(|f| !f.contains(&Flag::SequenceOutlier)));
}

#[test]
fn folders_are_judged_apart() {
    let mut paths: Vec<String> = (0..5).map(|i| format!("/one/a{i}.jpg")).collect();
    paths.extend((0..4).map(|i| format!("/two/b{i}.jpg")));
    let takens = vec![at(2015, 6, 1, 0, 0, 0); 9];
    let entries = facts(&paths, &takens, Provider::Media, None);

    let flags = cross_file_flags(&entries);
    for f in &flags[..5] {
        assert_eq!(f, &vec![Flag::IdenticalTimestampCluster { files: 5 }]);
    }
    for f in &flags[5..] {
        assert!(f.is_empty());
    }
}
