use eonsort::ai::prompt::Reading;
use eonsort::moment::Moment;
use eonsort::providers::vision::into_detection;
use eonsort::providers::{
    arrange, choose_detection, resolve_found, DetectContext, DetectOptions, Detection, Provider,
    Strategy,
};
use eonsort::suspect::Flag;

fn at(year: i32, month: u32, day: u32, hour: u32, minute: u32, second: u32) -> Moment {
    Moment { year, month, day, hour, minute, second }
}

fn detection(provider: Provider, taken: Moment) -> Detection {
    Detection { provider, info: None, taken }
}

fn context(filesystem_latest: Moment) -> DetectContext {
    DetectContext { filesystem_latest: Some(filesystem_latest), now: at(2026, 8, 6, 12, 0, 0) }
}

fn strategy(strategy: Strategy) -> DetectOptions {
    DetectOptions { providers: Provider::all().to_vec(), strategy }
}

#[test]
fn smart_rejects_a_camera_reset_date_in_favour_of_the_file_time() {
    let written = at(2019, 7, 4, 10, 0, 0);
    let candidates = vec![
        detection(Provider::Exif, at(2003, 1, 1, 0, 0, 0)),
        detection(Provider::Filesystem, written),
    ];

    let chosen = choose_detection(&candidates, &strategy(Strategy::Smart), &context(written)).unwrap();
    assert_eq!(chosen.provider, Provider::Filesystem);
    assert_eq!(chosen.taken, written);
}

#[test]
fn oldest_still_walks_into_the_camera_reset_date() {
    let written = at(2019, 7, 4, 10, 0, 0);
    let candidates = vec![
        detection(Provider::Exif, at(2003, 1, 1, 0, 0, 0)),
        detection(Provider::Filesystem, written),
    ];

    let chosen = choose_detection(&candidates, &strategy(Strategy::Oldest), &context(written)).unwrap();
    assert_eq!(chosen.provider, Provider::Exif);
}

#[test]
fn smart_keeps_a_believable_capture_date_older_than_the_file() {
    let written = at(2023, 1, 1, 0, 0, 0);
    let candidates = vec![
        detection(Provider::Exif, at(2019, 7, 4, 10, 0, 0)),
        detection(Provider::Filesystem, written),
    ];

    let chosen = choose_detection(&candidates, &strategy(Strategy::Smart), &context(written)).unwrap();
    assert_eq!(chosen.provider, Provider::Exif);
}

#[test]
fn smart_prefers_the_candidate_other_providers_corroborate() {
    let written = at(2019, 7, 4, 11, 0, 0);
    let candidates = vec![
        detection(Provider::Filename, at(2019, 7, 4, 10, 0, 0)),
        detection(Provider::Filesystem, written),
    ];

    let chosen = choose_detection(&candidates, &strategy(Strategy::Smart), &context(written)).unwrap();
    assert_eq!(chosen.provider, Provider::Filename);
}

#[test]
fn smart_still_returns_a_date_when_every_candidate_is_flagged() {
    let written = at(2019, 7, 4, 10, 0, 0);
    let candidates = vec![
        detection(Provider::Exif, at(2003, 1, 1, 0, 0, 0)),
        detection(Provider::Filename, at(2030, 1, 1, 0, 0, 0)),
    ];

    let chosen = choose_detection(&candidates, &strategy(Strategy::Smart), &context(written)).unwrap();
    assert_eq!(chosen.taken, at(2003, 1, 1, 0, 0, 0));
}

#[test]
fn priority_strategy_follows_provider_order() {
    let written = at(2019, 7, 4, 10, 0, 0);
    let candidates = vec![
        detection(Provider::Filename, at(2005, 1, 2, 3, 4, 5)),
        detection(Provider::Filesystem, written),
    ];
    let opts = DetectOptions { providers: vec![Provider::Filesystem, Provider::Filename], strategy: Strategy::Priority };
    let chosen = choose_detection(&candidates, &opts, &context(written)).unwrap();
    assert_eq!(chosen.provider, Provider::Filesystem);
}

#[test]
fn priority_takes_nothing_from_a_source_it_does_not_list() {
    let written = at(2019, 7, 4, 10, 0, 0);
    let candidates = vec![detection(Provider::Filesystem, written)];
    let opts = DetectOptions { providers: vec![Provider::Filename], strategy: Strategy::Priority };
    assert!(choose_detection(&candidates, &opts, &context(written)).is_none());
    assert!(choose_detection(&Vec::new(), &strategy(Strategy::Smart), &context(written)).is_none());
}

#[test]
fn sources_are_kept_once_each_in_their_order() {
    let found = vec![
        detection(Provider::Filesystem, at(2019, 7, 4, 10, 0, 0)),
        detection(Provider::Filename, at(2005, 1, 2, 3, 4, 5)),
        detection(Provider::Filesystem, at(2020, 1, 1, 0, 0, 0)),
    ];
    let arranged = arrange(&found);
    let providers: Vec<Provider> = arranged.iter().map(|c| c.provider).collect();
    assert_eq!(providers, vec![Provider::Filename, Provider::Filesystem]);
    assert_eq!(arranged[1].taken, at(2019, 7, 4, 10, 0, 0));
}

#[test]
fn resolve_reports_the_disagreement_between_providers() {
    let written = at(2024, 3, 9, 8, 0, 0);
    let found = vec![
        detection(Provider::Filename, at(2005, 1, 2, 3, 4, 5)),
        detection(Provider::Filesystem, written),
    ];
    let resolved = resolve_found(&found, &DetectOptions::default(), &context(written), None).unwrap();
    assert_eq!(resolved.candidates.len(), 2);
    assert_eq!(resolved.chosen.provider, Provider::Filename);
    assert!(resolved.flags.iter().any(|f| matches!(f, Flag::ProviderSpread { .. })));
}

fn reading(taken: Option<Moment>, confident: bool) -> Reading {
    Reading {
        taken,
        date_confident: confident,
        date_source: Some("receipt header".into()),
        subject: Some("receipt".into()),
        tags: vec!["paper".into()],
        caption: None,
    }
}

#[test]
fn builds_a_detection_from_a_reading() {
    let found = into_detection(&reading(Some(at(2019, 7, 4, 0, 0, 0)), true)).unwrap();
    assert_eq!(found.provider, Provider::Vision);
    assert_eq!(found.info.as_deref(), Some("receipt header"));
}

#[test]
fn a_reading_with_no_date_yields_no_detection() {
    assert!(into_detection(&reading(None, true)).is_none());
}
