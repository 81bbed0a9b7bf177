use eonsort::ai::{AiConfig, Api, Client};
use eonsort::imageio::is_heif;
use eonsort::inpaint::{content_type, edits_url, multipart, Edit, BOUNDARY};
use eonsort::offset::{humanise, Shape, HOUR_SLACK_SECONDS, MAX_ZONE_HOURS};
use eonsort::overrides::{excluded_path, overrides_path, rotations_path, OverrideOrigin};
use eonsort::providers::gps::{parse_offset, zone_offset};
use eonsort::providers::vision::readable;
use eonsort::providers::{windows, DetectOptions, Provider, Strategy};
use eonsort::raw::is_raw;
use eonsort::rotate::{lossless_extension, Transform};
use eonsort::scenes::scenes_path;
use eonsort::search::index_path;
use eonsort::similar::{band_of, hamming, hashable, Burst, LOOKALIKE_BANDS};
use eonsort::suspect::{counter, Confidence};
use eonsort::tags::{library_path, sidecar_path, store_path, Known};
use std::time::Duration;

#[test]
fn recognises_heif_by_extension() {
    assert!(is_heif("/photos/IMG_0001.HEIC"));
    assert!(is_heif("/photos/IMG_0001.heif"));
    assert!(is_heif("/photos/IMG_0001.hif"));
    assert!(!is_heif("/photos/IMG_0001.jpg"));
    assert!(!is_heif("/photos/IMG_0001"));
}

fn an_edit() -> Edit {
    Edit {
        endpoint: "http://localhost:8080".to_string(),
        key: "SECRET-REDACTED".to_string(),
        model: "gpt-image-1".to_string(),
        prompt: "fill it".to_string(),
        size: "1024x1024".to_string(),
        image: vec![1, 2, 3],
        mask: vec![4, 5, 6],
    }
}

#[test]
fn a_bare_host_gains_the_edits_path() {
    assert_eq!(edits_url("http://localhost:8080"), "http://localhost:8080/v1/images/edits");
}

#[test]
fn a_version_prefix_is_not_repeated() {
    assert_eq!(edits_url("https://api.openai.com/v1/"), "https://api.openai.com/v1/images/edits");
}

#[test]
fn a_complete_address_is_left_alone() {
    assert_eq!(edits_url("http://box/v1/images/edits"), "http://box/v1/images/edits");
    assert_eq!(edits_url("http://box/sdapi/v1/img2img"), "http://box/sdapi/v1/img2img");
}

#[test]
fn an_empty_address_falls_back_to_the_public_one() {
    assert_eq!(edits_url("   "), "https://api.openai.com/v1/images/edits");
}

#[test]
fn an_unset_size_is_left_out() {
    let mut edit = an_edit();
    edit.size = String::new();
    let text = String::from_utf8_lossy(&multipart(&edit)).into_owned();
    assert!(!text.contains("name=\"size\""));
}

#[test]
fn the_body_carries_both_pictures_and_closes_itself() {
    let body = multipart(&an_edit());
    let text = String::from_utf8_lossy(&body).into_owned();
    assert!(text.contains("name=\"image\"; filename=\"photo.png\""));
    assert!(text.contains("name=\"mask\"; filename=\"mask.png\""));
    assert!(text.contains("name=\"prompt\""));
    assert!(text.contains("fill it"));
    assert!(text.contains("name=\"size\""));
    assert!(text.ends_with(&format!("--{BOUNDARY}--\r\n")));
    assert_eq!(content_type(), format!("multipart/form-data; boundary={BOUNDARY}"));
}

#[test]
fn spells_out_a_shift_in_both_directions() {
    assert_eq!(humanise(90_061), "+1d 1h 1m 1s");
    assert_eq!(humanise(-3_600), "-1h");
    assert_eq!(humanise(0), "+0s");
}

#[test]
fn a_shape_is_only_a_time_zone_when_it_lands_near_the_hour() {
    assert_eq!(Shape::of(3_600), Shape::Timezone { hours: 1 });
    assert_eq!(Shape::of(3_600 + HOUR_SLACK_SECONDS), Shape::Timezone { hours: 1 });
    assert_eq!(Shape::of(3_600 + HOUR_SLACK_SECONDS + 1), Shape::Drift);
    assert_eq!(Shape::of((MAX_ZONE_HOURS + 1) * 3_600), Shape::Drift);
    assert_eq!(Shape::of(0), Shape::Drift);
}

#[test]
fn a_shape_behind_utc_keeps_its_sign() {
    assert_eq!(Shape::of(-2 * 3_600 - 30), Shape::Timezone { hours: -2 });
    assert_eq!(Shape::of(1_800), Shape::Drift);
    assert_eq!(Shape::of(i64::MIN), Shape::Drift);
}

#[test]
fn overrides_the_sidecar_sits_beside_the_plan() {
    assert_eq!(overrides_path("/plans/plan-abc.jsonl"), "/plans/plan-abc.overrides.json");
}

#[test]
fn the_other_sidecars_sit_beside_the_plan_too() {
    assert_eq!(rotations_path("/plans/plan-abc.jsonl"), "/plans/plan-abc.rotations.json");
    assert_eq!(excluded_path("/plans/plan-abc.jsonl"), "/plans/plan-abc.excluded.json");
    assert_eq!(index_path("/plans/plan-abc.jsonl"), "/plans/plan-abc.search.bin");
}

#[test]
fn describes_a_shift_in_both_directions() {
    assert_eq!(OverrideOrigin::Shift { seconds: 90_000 }.describe(), "shifted by +1d 1h 0m");
    assert_eq!(OverrideOrigin::Shift { seconds: -3_600 }.describe(), "shifted by -0d 1h 0m");
}

#[test]
fn describes_where_a_corrected_date_came_from() {
    assert_eq!(OverrideOrigin::Manual.describe(), "set by hand");
    assert_eq!(
        OverrideOrigin::Candidate { provider: Provider::Exif }.describe(),
        "taken from exif"
    );
}

#[test]
fn scenes_the_sidecar_sits_beside_the_plan() {
    assert_eq!(scenes_path("/plans/plan-abc.jsonl"), "/plans/plan-abc.scenes.json");
}

#[test]
fn reads_the_offsets_a_camera_writes() {
    assert_eq!(parse_offset("+02:00"), Some(120));
    assert_eq!(parse_offset("-05:30"), Some(-330));
    assert_eq!(parse_offset("+00:00"), Some(0));
    assert_eq!(parse_offset("02:00"), None);
    assert_eq!(parse_offset("+99:00"), None);
    assert_eq!(parse_offset(""), None);
}

#[test]
fn an_offset_reads_each_side_as_a_whole_number() {
    assert_eq!(parse_offset("+01:30:00"), None);
    assert_eq!(parse_offset("+1:5"), Some(65));
    assert_eq!(parse_offset("+:30"), None);
}

#[test]
fn only_looks_at_formats_the_model_can_decode() {
    assert!(readable("/a/scan.jpg"));
    assert!(readable("/a/scan.TIFF"));
    assert!(!readable("/a/clip.mp4"));
    assert!(!readable("/a/notes.txt"));
    assert!(!readable("/a/noextension"));
}

#[test]
fn windows_a_file_that_is_not_there_says_nothing() {
    assert!(windows::detect("Z:/nowhere/at/all.jpg").is_none());
}

#[test]
fn the_sources_are_trusted_in_order() {
    assert!(Provider::Exif.trust_rank() > Provider::Filename.trust_rank());
    assert!(Provider::Filename.trust_rank() > Provider::Vision.trust_rank());
    assert!(Provider::Vision.trust_rank() > Provider::Filesystem.trust_rank());
    assert!(Provider::Vision.needs_model());
    assert!(!Provider::Exif.needs_model());
    assert_eq!(Provider::Filesystem.label(), "filesystem");
    let options = DetectOptions::default();
    assert_eq!(options.providers.len(), 4);
    assert!(!options.providers.contains(&Provider::Vision));
    assert_eq!(options.strategy, Strategy::Smart);
    assert_eq!(Strategy::Oldest.label(), "oldest");
}

#[test]
fn knows_the_raw_formats_by_their_extension() {
    assert!(is_raw("/photos/IMG_1.CR2"));
    assert!(is_raw("/photos/IMG_1.nef"));
    assert!(is_raw("/photos/IMG_1.dng"));
    assert!(!is_raw("/photos/IMG_1.jpg"));
    assert!(!is_raw("/photos/IMG_1"));
}

#[test]
fn every_exif_orientation_maps_to_the_turn_that_rights_it() {
    let expected = [
        (1, Transform::Identity),
        (2, Transform::FlipH),
        (3, Transform::Rotate180),
        (4, Transform::FlipV),
        (5, Transform::Transpose),
        (6, Transform::Rotate90),
        (7, Transform::Transverse),
        (8, Transform::Rotate270),
    ];
    for (orientation, transform) in expected {
        assert_eq!(Transform::for_orientation(orientation), transform);
    }
}

#[test]
fn an_unknown_orientation_means_no_turn() {
    assert_eq!(Transform::for_orientation(0), Transform::Identity);
    assert_eq!(Transform::for_orientation(9), Transform::Identity);
    assert_eq!(Transform::for_orientation(65535), Transform::Identity);
}

#[test]
fn turning_right_four_times_comes_back_to_the_start() {
    for start in [Transform::Identity, Transform::Rotate90, Transform::FlipH, Transform::Transpose] {
        let mut turned = start;
        for _ in 0..4 {
            turned = turned.turn(1);
        }
        assert_eq!(turned, start);
    }
}

#[test]
fn turning_keeps_a_mirror_that_is_already_there() {
    assert_eq!(Transform::FlipH.turn(1), Transform::Transverse);
    assert_eq!(Transform::FlipH.turn(2), Transform::FlipV);
    assert_eq!(Transform::FlipH.turn(3), Transform::Transpose);
    assert_eq!(Transform::Transpose.turn(1), Transform::FlipH);
}

#[test]
fn turning_left_is_the_opposite_of_turning_right() {
    assert_eq!(Transform::Identity.turn(-1), Transform::Rotate270);
    assert_eq!(Transform::Identity.turn(1).turn(-1), Transform::Identity);
    assert_eq!(Transform::Rotate90.turn(-1), Transform::Identity);
}

#[test]
fn only_quarter_turns_swap_the_sides() {
    assert!(Transform::Rotate90.swaps_axes());
    assert!(Transform::Rotate270.swaps_axes());
    assert!(Transform::Transpose.swaps_axes());
    assert!(Transform::Transverse.swaps_axes());

    assert!(!Transform::Identity.swaps_axes());
    assert!(!Transform::Rotate180.swaps_axes());
    assert!(!Transform::FlipH.swaps_axes());
    assert!(!Transform::FlipV.swaps_axes());
}

#[test]
fn only_jpeg_files_take_the_lossless_path() {
    assert!(lossless_extension("a.jpg"));
    assert!(lossless_extension("a.JPEG"));
    assert!(lossless_extension("a.jpe"));
    assert!(!lossless_extension("a.png"));
    assert!(!lossless_extension("a.tiff"));
    assert!(!lossless_extension("a"));
}

#[test]
fn counts_differing_bits() {
    assert_eq!(hamming(0, 0), 0);
    assert_eq!(hamming(0b1011, 0b1001), 1);
    assert_eq!(hamming(u64::MAX, 0), 64);
}

#[test]
fn the_distance_is_the_same_both_ways() {
    let a = 0x0F0F_0F0F_0F0F_0F0Fu64;
    let b = 0x0F0F_0F0F_0F0F_0F0Bu64;
    assert_eq!(hamming(a, b), hamming(b, a));
    assert_eq!(hamming(a, b), 1);
    assert_eq!(hamming(a, a), 0);
}

#[test]
fn every_band_covers_the_hash_once() {
    let hash = 0x0123_4567_89AB_CDEFu64;
    let mut rebuilt = 0u64;
    for band in 0..LOOKALIKE_BANDS {
        rebuilt |= band_of(hash, band) << (band * (64 / LOOKALIKE_BANDS));
    }
    assert_eq!(rebuilt, hash);
}

#[test]
fn raw_files_are_hashable_now_that_their_previews_can_be_read() {
    assert!(hashable("/photos/IMG_1.CR2"));
    assert!(hashable("/photos/IMG_1.nef"));
    assert!(hashable("/photos/IMG_1.jpg"));
    assert!(!hashable("/photos/notes.txt"));
}

#[test]
fn a_burst_lists_the_shots_it_did_not_keep() {
    let burst = Burst {
        keeper: "/cam/b.jpg".to_string(),
        members: vec!["/cam/a.jpg".to_string(), "/cam/b.jpg".to_string(), "/cam/c.jpg".to_string()],
    };
    assert_eq!(burst.others(), vec!["/cam/a.jpg".to_string(), "/cam/c.jpg".to_string()]);
}

#[test]
fn reads_a_trailing_camera_counter() {
    assert_eq!(counter("/cam/DSC_0123.jpg"), Some(123));
    assert_eq!(counter("/cam/IMG_20230506_101112.jpg"), Some(101112));
    assert_eq!(counter("/cam/holiday.jpg"), None);
    assert_eq!(counter("/cam/a12.jpg"), None);
}

#[test]
fn a_counter_too_large_for_a_number_is_no_counter() {
    assert_eq!(counter("/cam/IMG_99999999999999999999999.jpg"), None);
    assert_eq!(counter("/cam/000.jpg"), Some(0));
}

#[test]
fn confidence_has_a_word_for_each_level() {
    assert_eq!(Confidence::Low.label(), "low");
    assert_eq!(Confidence::Medium.label(), "medium");
    assert_eq!(Confidence::High.label(), "high");
    assert!(Confidence::Low < Confidence::High);
}

#[test]
fn the_library_stands_apart_from_any_one_plan() {
    assert_eq!(library_path("/data"), "/data/sightings.db");
    assert_eq!(store_path("/plans/photos.jsonl"), "/plans/photos.tags.db");
    assert_eq!(sidecar_path("/plans/photos.jsonl"), "/plans/photos.tags.json");
}

#[test]
fn what_was_seen_is_remembered() {
    let mut known = Known::default();
    assert!(known.is_empty());
    known.saw("abc");
    assert!(known.looked("abc"));
    assert!(!known.looked_with("abc", "siglip"));
    known.saw_with("abc", "siglip");
    assert!(known.looked_with("abc", "siglip"));
    assert!(!known.looked_with("abc", "other"));
    known.saw_with("def", "siglip");
    assert_eq!(known.len(), 2);
    assert!(!known.rated("abc"));
    known.saw_rating("abc");
    assert!(known.rated("abc"));
    assert!(!known.faced("abc"));
    known.saw_faces("abc");
    known.saw_faces("abc");
    assert!(known.faced("abc"));
    assert_eq!(known.len(), 2);
}

#[test]
fn an_enabled_config_with_a_blank_endpoint_is_not_usable() {
    let config = AiConfig {
        enabled: true,
        endpoint: "   ".into(),
        ..AiConfig::default()
    };
    assert!(!config.usable());
}

#[test]
fn trims_a_trailing_slash_off_the_endpoint() {
    let config = AiConfig {
        endpoint: "http://localhost:11434/".into(),
        ..AiConfig::default()
    };
    assert_eq!(config.base(), "http://localhost:11434");
}

#[test]
fn keeps_the_timeout_inside_sane_bounds() {
    let quick = AiConfig {
        timeout_seconds: 0,
        ..AiConfig::default()
    };
    assert_eq!(quick.timeout(), Duration::from_secs(5));

    let forever = AiConfig {
        timeout_seconds: 99_999,
        ..AiConfig::default()
    };
    assert_eq!(forever.timeout(), Duration::from_secs(3600));
}

#[test]
fn a_client_keeps_the_configuration_it_was_given() {
    let config = AiConfig {
        enabled: true,
        api: Api::OpenAi,
        ..AiConfig::default()
    };
    let client = Client::new(config.clone());
    assert_eq!(client.config(), &config);
    assert!(client.config().usable());
    assert_eq!(Api::default().label(), "ollama");
}

#[test]
fn any_text_can_be_asked_for_a_zone_offset() {
    assert_eq!(zone_offset("+02:00"), Some(120));
    assert_eq!(zone_offset("-05:30"), Some(-330));
    assert_eq!(zone_offset("02:00"), None);
    assert_eq!(zone_offset("+15:00"), None);
    assert_eq!(zone_offset("-9223372036854775807:00"), None);
}
