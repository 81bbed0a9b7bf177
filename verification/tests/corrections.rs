use eonsort::error::Error;
use eonsort::model::{PlanEntry, PlanHeader, PlanRecord, SkippedEntry, DEFAULT_FOLDER_PATTERN, PLAN_VERSION};
use eonsort::moment::Moment;
use eonsort::naming::DEFAULT_NAME_PATTERN;
use eonsort::overrides::{
    apply, apply_rotations, load_plan, DateOverride, OverrideOrigin, Overrides, RotationOverride, Rotations,
};
use eonsort::plan::{default_plan_name, Plan, PlanReader};
use eonsort::providers::{DetectOptions, Provider};
use eonsort::rotate::Transform;

fn at(y: i32, m: u32, d: u32) -> Moment {
    Moment { year: y, month: m, day: d, hour: 1, minute: 2, second: 3 }
}

fn header() -> PlanHeader {
    PlanHeader {
        version: PLAN_VERSION,
        created_at: at(2026, 8, 6),
        sources: vec!["/src".to_string()],
        destination: Some("/out".to_string()),
        folder_pattern: DEFAULT_FOLDER_PATTERN.to_string(),
        name_pattern: DEFAULT_NAME_PATTERN.to_string(),
        detect: DetectOptions::default(),
    }
}

fn holiday() -> PlanEntry {
    PlanEntry {
        source: "/src/holiday.jpg".to_string(),
        destination: "/out/2003/01/holiday.jpg".to_string(),
        taken: at(2003, 1, 1),
        provider: Provider::Exif,
        provider_info: None,
        size: 10,
        ..PlanEntry::default()
    }
}

fn plan() -> Plan {
    Plan { header: header(), entries: vec![holiday()], skipped: Vec::new() }
}

fn manual(taken: Moment) -> DateOverride {
    DateOverride { taken, origin: OverrideOrigin::Manual, at: at(2026, 8, 6) }
}

fn turn(transform: Transform) -> RotationOverride {
    RotationOverride { transform, reencode: false, at: at(2026, 8, 6) }
}

#[test]
fn apply_rewrites_both_the_date_and_the_destination() {
    let mut plan = plan();
    let mut overrides = Overrides::default();
    overrides.set("/src/holiday.jpg".to_string(), manual(at(2019, 7, 4)));

    apply(&mut plan, &overrides).unwrap();

    assert_eq!(plan.entries[0].taken, at(2019, 7, 4));
    assert!(plan.entries[0].destination.ends_with("2019/07/holiday.jpg"));
}

#[test]
fn apply_ignores_paths_that_are_not_in_the_plan() {
    let mut plan = plan();
    let mut overrides = Overrides::default();
    overrides.set("/src/missing.jpg".to_string(), manual(at(2019, 7, 4)));

    apply(&mut plan, &overrides).unwrap();
    assert_eq!(plan.entries[0].taken, at(2003, 1, 1));
}

#[test]
fn applying_a_turn_leaves_the_destination_where_it_was() {
    let mut plan = plan();
    let before = plan.entries[0].destination.clone();

    let mut rotations = Rotations::default();
    rotations.set("/src/holiday.jpg".to_string(), turn(Transform::Rotate180));

    apply_rotations(&mut plan, &rotations);

    assert_eq!(plan.entries[0].rotate, Transform::Rotate180);
    assert_eq!(plan.entries[0].destination, before);
}

#[test]
fn a_turn_for_a_file_outside_the_plan_is_ignored() {
    let mut plan = plan();
    let mut rotations = Rotations::default();
    rotations.set("/src/missing.jpg".to_string(), turn(Transform::Rotate90));

    apply_rotations(&mut plan, &rotations);

    assert_eq!(plan.entries[0].rotate, Transform::Identity);
}

fn entry(name: &str) -> PlanEntry {
    PlanEntry {
        source: format!("/src/{name}"),
        destination: format!("/out/2019/07/{name}"),
        taken: at(2019, 7, 4),
        size: 10,
        ..PlanEntry::default()
    }
}

#[test]
fn excluded_files_drop_out_of_a_loaded_plan() {
    let whole = Plan { header: header(), entries: vec![entry("keep.jpg"), entry("drop.jpg")], skipped: Vec::new() };
    let none = load_plan(whole, &Overrides::default(), &Rotations::default(), &Vec::new()).unwrap();
    assert_eq!(none.entries.len(), 2);

    let again = Plan { header: header(), entries: vec![entry("keep.jpg"), entry("drop.jpg")], skipped: Vec::new() };
    let excluded = vec!["/src/drop.jpg".to_string()];
    let plan = load_plan(again, &Overrides::default(), &Rotations::default(), &excluded).unwrap();
    assert_eq!(plan.entries.len(), 1);
    assert!(plan.entries[0].source.ends_with("keep.jpg"));
}

#[test]
fn a_loaded_plan_takes_both_its_corrected_dates_and_its_turns() {
    let mut overrides = Overrides::default();
    overrides.set("/src/holiday.jpg".to_string(), manual(at(2019, 7, 4)));
    let mut rotations = Rotations::default();
    rotations.set("/src/holiday.jpg".to_string(), turn(Transform::Rotate90));

    let plan = load_plan(plan(), &overrides, &rotations, &Vec::new()).unwrap();

    assert_eq!(plan.entries[0].taken, at(2019, 7, 4));
    assert_eq!(plan.entries[0].destination, "/out/2019/07/holiday.jpg");
    assert_eq!(plan.entries[0].rotate, Transform::Rotate90);
}

#[test]
fn a_correction_that_no_pattern_can_place_is_refused() {
    let mut broken = plan();
    broken.header.folder_pattern = "%Y/{nonsense}".to_string();
    let mut overrides = Overrides::default();
    overrides.set("/src/holiday.jpg".to_string(), manual(at(2019, 7, 4)));

    assert!(matches!(apply(&mut broken, &overrides), Err(Error::InvalidFolderPattern(_))));
}

#[test]
fn a_correction_can_be_replaced_and_cleared() {
    let mut overrides = Overrides::default();
    assert!(overrides.is_empty());
    overrides.set("/src/a.jpg".to_string(), manual(at(2019, 7, 4)));
    overrides.set("/src/a.jpg".to_string(), manual(at(2020, 1, 2)));
    assert_eq!(overrides.len(), 1);
    assert_eq!(overrides.get("/src/a.jpg").map(|o| o.taken), Some(at(2020, 1, 2)));
    assert!(overrides.clear("/src/a.jpg"));
    assert!(!overrides.clear("/src/a.jpg"));
    assert_eq!(overrides.get("/src/a.jpg"), None);
    assert!(overrides.is_empty());
}

#[test]
fn rejects_a_plan_without_a_header() {
    let mut reader = PlanReader::new();
    reader.take(PlanRecord::Entry(entry("a.jpg"))).unwrap();

    assert!(matches!(reader.finish(), Err(Error::MissingPlanHeader)));
}

#[test]
fn a_plan_from_a_later_version_is_refused() {
    let mut reader = PlanReader::new();
    let mut later = header();
    later.version = PLAN_VERSION + 1;
    assert!(matches!(
        reader.take(PlanRecord::Header(later)),
        Err(Error::UnsupportedPlanVersion(v)) if v == PLAN_VERSION + 1
    ));
}

#[test]
fn records_are_gathered_into_a_plan() {
    let mut reader = PlanReader::new();
    reader.take(PlanRecord::Header(header())).unwrap();
    reader.take(PlanRecord::Entry(entry("a.jpg"))).unwrap();
    reader
        .take(PlanRecord::Skipped(SkippedEntry { source: "/src/b.bin".to_string(), reason: "no date".to_string() }))
        .unwrap();
    reader.take(PlanRecord::Entry(entry("a.jpg"))).unwrap();
    let plan = reader.finish().unwrap();

    assert_eq!(plan.entries.len(), 2);
    assert_eq!(plan.skipped.len(), 1);
    assert_eq!(plan.total_bytes(), 20);
    assert_eq!(plan.analysed_sources().len(), 2);
}

#[test]
fn plan_names_are_stable_per_source_and_destination() {
    let sources = vec!["/a".to_string(), "/b".to_string()];
    assert_eq!(default_plan_name(&sources, "/out"), default_plan_name(&sources, "/out"));
    assert_ne!(default_plan_name(&sources, "/out"), default_plan_name(&sources, "/other"));
    let name = default_plan_name(&sources, "/out");
    assert!(name.starts_with("plan-") && name.ends_with(".jsonl"));
    assert_eq!(name.len(), "plan-".len() + 8 + ".jsonl".len());
}
