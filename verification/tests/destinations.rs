use eonsort::companion::pair;
use eonsort::geocode::Place;
use eonsort::model::{
    destination_for, destination_with_facts, destination_with_subject, pattern_needs_subject,
    validate_folder_pattern, validate_name_pattern, PlanEntry, PlanHeader, DEFAULT_FOLDER_PATTERN,
};
use eonsort::moment::Moment;
use eonsort::naming::{Facts, DEFAULT_NAME_PATTERN};
use eonsort::providers::{DetectOptions, Detection, Provider};
use eonsort::suspect::Flag;
use std::path::Path;

fn taken() -> Moment {
    Moment { year: 2023, month: 5, day: 6, hour: 1, minute: 2, second: 3 }
}

fn joined(parts: &[&str]) -> String {
    let mut path = Path::new(parts[0]).to_path_buf();
    for part in &parts[1..] {
        path = path.join(part);
    }
    path.to_string_lossy().into_owned()
}

#[test]
fn builds_year_month_destination() {
    let dest = destination_for("/src/holiday.jpg", &taken(), "/out", DEFAULT_FOLDER_PATTERN).unwrap();
    assert_eq!(dest, joined(&["/out", "2023", "05", "holiday.jpg"]));
}

#[test]
fn honours_a_custom_folder_pattern() {
    let dest = destination_for("/src/holiday.jpg", &taken(), "/out", "%Y/%Y-%m-%d").unwrap();
    assert_eq!(dest, joined(&["/out", "2023", "2023-05-06", "holiday.jpg"]));
}

#[test]
fn puts_the_subject_into_the_folder_when_the_pattern_asks_for_it() {
    let dest = destination_with_subject("/src/holiday.jpg", &taken(), Some("Beach Sunset"), "/out", "%Y/{subject}").unwrap();
    assert_eq!(dest, joined(&["/out", "2023", "beach-sunset", "holiday.jpg"]));
}

#[test]
fn falls_back_to_a_named_folder_when_the_model_had_no_subject() {
    let dest = destination_with_subject("/src/holiday.jpg", &taken(), None, "/out", "%Y/{subject}").unwrap();
    assert!(Path::new(&dest).ends_with("2023/unsorted/holiday.jpg"));
}

#[test]
fn a_pattern_without_the_token_ignores_the_subject_entirely() {
    let with = destination_with_subject("/src/a.jpg", &taken(), Some("beach"), "/out", DEFAULT_FOLDER_PATTERN).unwrap();
    let without = destination_for("/src/a.jpg", &taken(), "/out", DEFAULT_FOLDER_PATTERN).unwrap();
    assert_eq!(with, without);
    assert!(!pattern_needs_subject(DEFAULT_FOLDER_PATTERN));
    assert!(pattern_needs_subject("%Y/{subject}"));
}

#[test]
fn validates_a_pattern_that_contains_the_subject_token() {
    assert!(validate_folder_pattern("%Y/{subject}").is_ok());
    assert!(validate_folder_pattern("{subject}").is_ok());
    assert!(validate_folder_pattern("%Q/{subject}").is_err());
}

#[test]
fn rejects_an_unparseable_folder_pattern() {
    assert!(validate_folder_pattern("%Q").is_err());
    assert!(validate_folder_pattern("").is_err());
    assert!(validate_folder_pattern("%Y/%m").is_ok());
}

#[test]
fn a_name_pattern_renames_the_copy_without_moving_it() {
    let facts = Facts::for_source("/src/IMG_3900.jpg");
    let dest = destination_with_facts(
        &taken(),
        &facts,
        "/out",
        DEFAULT_FOLDER_PATTERN,
        "%Y-%m-%d_%H-%M-%S-{original_stem}",
    )
    .unwrap();
    assert_eq!(dest, joined(&["/out", "2023", "05", "2023-05-06_01-02-03-IMG_3900.jpg"]));
}

#[test]
fn a_place_can_be_part_of_the_folder_it_lands_in() {
    let facts = Facts::for_source("/src/a.jpg").with_place(Place {
        city: Some("Munich".to_string()),
        country: Some("Germany".to_string()),
        ..Place::default()
    });
    let dest = destination_with_facts(&taken(), &facts, "/out", "%Y/{city|country}", DEFAULT_NAME_PATTERN).unwrap();
    assert_eq!(dest, joined(&["/out", "2023", "Munich", "a.jpg"]));
}

#[test]
fn a_pattern_asking_for_a_place_nobody_knows_still_lands_somewhere() {
    let facts = Facts::for_source("/src/a.jpg");
    let dest = destination_with_facts(
        &taken(),
        &facts,
        "/out",
        "%Y/{city|\"nowhere in particular\"}",
        DEFAULT_NAME_PATTERN,
    )
    .unwrap();
    assert!(Path::new(&dest).ends_with("nowhere in particular/a.jpg"), "{dest:?}");
}

#[test]
fn an_entry_carries_the_facts_needed_to_rebuild_its_path() {
    let entry = PlanEntry {
        source: "/src/a.jpg".to_string(),
        subject: Some("Beach Sunset".to_string()),
        place: Place { city: Some("Munich".to_string()), ..Place::default() },
        ..PlanEntry::default()
    };

    let facts = entry.facts();
    assert_eq!(facts.original_name.as_deref(), Some("a.jpg"));
    assert_eq!(facts.subject.as_deref(), Some("Beach Sunset"));
    assert_eq!(facts.place.city.as_deref(), Some("Munich"));
}

#[test]
fn a_name_pattern_is_held_to_the_same_standard_as_a_folder_one() {
    assert!(validate_name_pattern("{original_stem}").is_ok());
    assert!(validate_name_pattern("%Y-{original_stem}").is_ok());
    assert!(validate_name_pattern("{nonsense}").is_err());
    assert!(validate_name_pattern("").is_err());
}

#[test]
fn separators_of_either_kind_make_folders_and_empty_ones_vanish() {
    let dest = destination_for("/src/a.jpg", &taken(), "/out", "//%Y\\\\%m/").unwrap();
    assert_eq!(dest, joined(&["/out", "2023", "05", "a.jpg"]));
}

#[test]
fn an_unknown_strftime_item_in_the_name_pattern_is_an_error() {
    assert!(destination_with_facts(&taken(), &Facts::for_source("/src/a.jpg"), "/out", "%Y", "%Q").is_err());
}

#[test]
fn a_plan_places_an_entry_under_its_own_root_and_patterns() {
    let header = PlanHeader {
        version: 4,
        created_at: taken(),
        sources: vec!["/src".to_string()],
        destination: Some("/out".to_string()),
        folder_pattern: "%Y".to_string(),
        name_pattern: DEFAULT_NAME_PATTERN.to_string(),
        detect: DetectOptions::default(),
    };
    let entry = PlanEntry { source: "/src/b.png".to_string(), ..PlanEntry::default() };
    assert_eq!(header.root(), "/out");
    assert_eq!(header.destination_of(&entry, &taken()).unwrap(), joined(&["/out", "2023", "b.png"]));
}

#[test]
fn an_entry_finds_the_date_its_file_system_gave() {
    let written = Moment { year: 2021, month: 2, day: 3, hour: 4, minute: 5, second: 6 };
    let entry = PlanEntry {
        candidates: vec![
            Detection { provider: Provider::Exif, info: None, taken: taken() },
            Detection { provider: Provider::Filesystem, info: None, taken: written },
        ],
        ..PlanEntry::default()
    };
    assert_eq!(entry.filesystem_time(), Some(written));
    assert_eq!(entry.candidate(Provider::Exif).map(|c| c.taken), Some(taken()));
    assert!(entry.candidate(Provider::Vision).is_none());
}

fn at(year: i32, month: u32, day: u32, hour: u32) -> Moment {
    Moment { year, month, day, hour, minute: 0, second: 0 }
}

fn entry(source: &str, taken: Moment, provider: Provider) -> PlanEntry {
    PlanEntry {
        source: source.to_string(),
        destination: "/out/old/x".to_string(),
        taken,
        provider,
        size: 1,
        ..PlanEntry::default()
    }
}

fn run(entries: &mut Vec<PlanEntry>) -> usize {
    pair(entries, "/out", "%Y/%m").unwrap()
}

#[test]
fn a_live_photo_video_follows_its_picture() {
    let mut entries = vec![
        entry("/src/IMG_1234.HEIC", at(2019, 5, 14, 9), Provider::Exif),
        entry("/src/IMG_1234.MOV", at(2023, 1, 1, 3), Provider::Filesystem),
    ];

    assert_eq!(run(&mut entries), 1);
    assert_eq!(entries[1].taken, at(2019, 5, 14, 9));
    assert_eq!(entries[1].provider, Provider::Exif);
    assert_eq!(entries[1].provider_info.as_deref(), Some("beside IMG_1234.HEIC"));
    assert_eq!(entries[1].destination, "/out/2019/05/IMG_1234.MOV");
}

#[test]
fn a_sidecar_never_sets_the_date_for_the_picture() {
    let mut entries = vec![
        entry("/src/IMG_1234.JPG", at(2019, 5, 14, 9), Provider::Exif),
        entry("/src/IMG_1234.JPG.xmp", at(2024, 2, 2, 2), Provider::Filesystem),
        entry("/src/IMG_1234.AAE", at(2024, 2, 2, 2), Provider::Filesystem),
    ];

    assert_eq!(run(&mut entries), 2);
    assert_eq!(entries[0].taken, at(2019, 5, 14, 9));
    assert_eq!(entries[1].taken, at(2019, 5, 14, 9));
    assert_eq!(entries[2].taken, at(2019, 5, 14, 9));
}

#[test]
fn a_takeout_sidecar_lands_with_the_picture_it_describes() {
    let mut entries = vec![
        entry("/src/IMG_1234.JPG", at(2019, 5, 14, 9), Provider::Exif),
        entry("/src/IMG_1234.JPG.json", at(2024, 2, 2, 2), Provider::Filesystem),
    ];

    assert_eq!(run(&mut entries), 1);
    assert_eq!(entries[1].destination, "/out/2019/05/IMG_1234.JPG.json");
}

#[test]
fn the_flags_of_a_re_dated_companion_are_dropped() {
    let mut entries = vec![
        entry("/src/IMG_1234.HEIC", at(2019, 5, 14, 9), Provider::Exif),
        entry("/src/IMG_1234.MOV", at(2003, 1, 1, 0), Provider::Media),
    ];
    entries[1].flags.push(Flag::CameraEpoch);

    run(&mut entries);
    assert!(entries[1].flags.is_empty());
}

#[test]
fn files_that_only_share_a_folder_are_left_alone() {
    let mut entries = vec![
        entry("/src/IMG_1234.JPG", at(2019, 5, 14, 9), Provider::Exif),
        entry("/src/IMG_9999.JPG", at(2021, 7, 4, 9), Provider::Exif),
    ];

    assert_eq!(run(&mut entries), 0);
    assert_eq!(entries[1].taken, at(2021, 7, 4, 9));
}

#[test]
fn a_numbered_copy_is_its_own_file() {
    let mut entries = vec![
        entry("/src/IMG_1234.JPG", at(2019, 5, 14, 9), Provider::Exif),
        entry("/src/IMG_1234(1).JPG", at(2021, 7, 4, 9), Provider::Exif),
    ];

    assert_eq!(run(&mut entries), 0);
}

#[test]
fn a_pair_that_already_agrees_is_not_touched() {
    let shared = at(2019, 5, 14, 9);
    let mut entries = vec![
        entry("/src/IMG_1234.HEIC", shared, Provider::Exif),
        entry("/src/IMG_1234.MOV", shared, Provider::Media),
    ];

    assert_eq!(run(&mut entries), 0);
    assert_eq!(entries[1].destination, "/out/old/x");
}

#[test]
fn a_raw_and_its_jpeg_end_up_on_one_date() {
    let mut entries = vec![
        entry("/src/DSC0001.JPG", at(2020, 3, 14, 9), Provider::Filename),
        entry("/src/DSC0001.CR2", at(2020, 3, 14, 8), Provider::Exif),
    ];

    assert_eq!(run(&mut entries), 1);
    assert_eq!(entries[0].taken, at(2020, 3, 14, 8));
    assert_eq!(entries[1].taken, at(2020, 3, 14, 8));
}

#[test]
fn a_group_of_sidecars_alone_has_no_master() {
    let mut entries = vec![
        entry("/src/IMG_1.JPG.xmp", at(2019, 5, 14, 9), Provider::Filesystem),
        entry("/src/IMG_1.AAE", at(2020, 5, 14, 9), Provider::Filesystem),
    ];
    assert_eq!(run(&mut entries), 0);
}

#[test]
fn a_bad_pattern_is_reported_when_a_companion_must_move() {
    let mut entries = vec![
        entry("/src/IMG_1.JPG", at(2019, 5, 14, 9), Provider::Exif),
        entry("/src/IMG_1.MOV", at(2020, 5, 14, 9), Provider::Filesystem),
    ];
    assert!(pair(&mut entries, "/out", "%Q").is_err());
}
