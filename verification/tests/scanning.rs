use eonsort::model::{PlanEntry, PlanHeader, PlanRecord, DEFAULT_FOLDER_PATTERN, PLAN_VERSION};
use eonsort::moment::Moment;
use eonsort::naming::DEFAULT_NAME_PATTERN;
use eonsort::plan::{flag_across_folders, Plan};
use eonsort::providers::{DetectOptions, Detection, Provider, Strategy};
use eonsort::suspect::Flag;
use eonsort::scan::{analyse, compatible, is_temp_artifact, NO_DATE};

fn at(y: i32, m: u32, d: u32) -> Moment {
    Moment { year: y, month: m, day: d, hour: 12, minute: 0, second: 0 }
}

fn header() -> PlanHeader {
    PlanHeader {
        version: PLAN_VERSION,
        created_at: at(2024, 1, 1),
        sources: vec!["/src".to_string()],
        destination: Some("/out".to_string()),
        folder_pattern: DEFAULT_FOLDER_PATTERN.to_string(),
        name_pattern: DEFAULT_NAME_PATTERN.to_string(),
        detect: DetectOptions::default(),
    }
}

#[test]
fn a_copy_still_being_written_is_left_alone() {
    assert!(is_temp_artifact("/out/2019/07/a.jpg.eonsort-part"));
    assert!(is_temp_artifact("/out/2019/07/a.EONSORT-PART"));
    assert!(!is_temp_artifact("/out/2019/07/a.jpg"));
    assert!(!is_temp_artifact("/out/2019/07/eonsort-part"));
}

#[test]
fn a_plan_made_the_same_way_is_carried_on() {
    let mut later = header();
    later.created_at = at(2025, 6, 1);
    assert!(compatible(&header(), &later));
}

#[test]
fn a_plan_made_another_way_starts_over() {
    let mut other = header();
    other.folder_pattern = "%Y".to_string();
    assert!(!compatible(&header(), &other));

    let mut other = header();
    other.detect.strategy = Strategy::Oldest;
    assert!(!compatible(&header(), &other));

    let mut other = header();
    other.sources.push("/more".to_string());
    assert!(!compatible(&header(), &other));

    let mut other = header();
    other.destination = None;
    assert!(!compatible(&header(), &other));
}

#[test]
fn a_file_without_a_date_is_passed_over() {
    match analyse("/src/notes.bin", 4, None, "/out", DEFAULT_FOLDER_PATTERN, DEFAULT_NAME_PATTERN) {
        PlanRecord::Skipped(s) => {
            assert_eq!(s.source, "/src/notes.bin");
            assert_eq!(s.reason, NO_DATE);
        }
        other => panic!("expected a skipped file, got {other:?}"),
    }
}

#[test]
fn a_dated_file_is_planned_into_its_month() {
    let found = Detection { provider: Provider::Filename, info: Some("IMG_20230506".to_string()), taken: at(2023, 5, 6) };
    match analyse("/src/IMG_20230506.jpg", 10, Some(found), "/out", DEFAULT_FOLDER_PATTERN, DEFAULT_NAME_PATTERN) {
        PlanRecord::Entry(e) => {
            assert_eq!(e.destination, "/out/2023/05/IMG_20230506.jpg");
            assert_eq!(e.taken, at(2023, 5, 6));
            assert_eq!(e.provider, Provider::Filename);
            assert_eq!(e.size, 10);
        }
        other => panic!("expected an entry, got {other:?}"),
    }
}

#[test]
fn a_file_no_pattern_can_place_is_passed_over_with_the_reason() {
    let found = Detection { provider: Provider::Exif, info: None, taken: at(2023, 5, 6) };
    match analyse("/src/a.jpg", 10, Some(found), "/out", "%Y/{nonsense}", DEFAULT_NAME_PATTERN) {
        PlanRecord::Skipped(s) => assert_eq!(s.reason, "invalid folder pattern: %Y/{nonsense}"),
        other => panic!("expected a skipped file, got {other:?}"),
    }
}

#[test]
fn a_name_pattern_shapes_the_planned_file_name() {
    let found = Detection { provider: Provider::Exif, info: None, taken: at(2023, 5, 6) };
    match analyse("/src/IMG_0042.JPG", 10, Some(found), "/out", DEFAULT_FOLDER_PATTERN, "%Y%m%d-{original_stem}") {
        PlanRecord::Entry(e) => assert_eq!(e.destination, "/out/2023/05/20230506-IMG_0042.JPG"),
        other => panic!("expected an entry, got {other:?}"),
    }
}

#[test]
fn a_name_pattern_no_file_can_take_is_passed_over_with_the_reason() {
    let found = Detection { provider: Provider::Exif, info: None, taken: at(2023, 5, 6) };
    match analyse("/src/a.jpg", 10, Some(found), "/out", DEFAULT_FOLDER_PATTERN, "{nonsense}") {
        PlanRecord::Skipped(s) => assert_eq!(s.reason, "invalid folder pattern: {nonsense}"),
        other => panic!("expected a skipped file, got {other:?}"),
    }
}

#[test]
fn the_doubts_across_files_are_added_to_each_entry() {
    let written = at(2019, 7, 4);
    let entries: Vec<PlanEntry> = (0..6u32)
        .map(|i| PlanEntry {
            source: format!("/trip/IMG_{:04}.jpg", 100 + i),
            taken: Moment { year: 2003, month: 1, day: 1, hour: 9, minute: i * 3, second: 0 },
            provider: Provider::Exif,
            candidates: vec![Detection { provider: Provider::Filesystem, info: None, taken: written }],
            flags: vec![Flag::SequenceOutlier],
            ..PlanEntry::default()
        })
        .collect();
    let mut plan = Plan { header: header(), entries, skipped: Vec::new() };

    flag_across_folders(&mut plan);

    for entry in &plan.entries {
        assert_eq!(entry.flags[0], Flag::SequenceOutlier);
        assert!(entry.flags.iter().any(|f| matches!(f, Flag::ClockResetRun { files: 6, .. })));
    }
}
