use eonsort::catalog::{all_kinds, chosen, default_of, find, of, variants, Kind};
use eonsort::depth;
use eonsort::diffuse;
use eonsort::faces;
use eonsort::geocode;
use eonsort::quality;
use eonsort::sface;
use eonsort::tagging;
use eonsort::weights;
use std::path::Path;

#[test]
fn every_kind_offers_at_least_one_variant() {
    for kind in all_kinds() {
        assert!(!of(kind).is_empty(), "{} has none", kind.label());
    }
}

#[test]
fn no_two_variants_share_a_name() {
    let mut seen: Vec<&str> = variants().iter().map(|v| v.id).collect();
    seen.sort_unstable();
    let held = seen.len();
    seen.dedup();
    assert_eq!(seen.len(), held);
}

#[test]
fn every_variant_names_a_file_and_a_length() {
    for variant in &variants() {
        assert!(!variant.weights.is_empty(), "{} has no weights", variant.id);
        for weight in &variant.weights {
            assert!(!weight.file.is_empty());
            assert!(weight.bytes > 0, "{} has no length", weight.file);
            assert_eq!(weight.revision.len(), 40, "{} is not pinned", weight.file);
        }
    }
}

#[test]
fn falls_back_to_the_smallest_when_the_choice_is_unknown() {
    assert_eq!(chosen(Kind::Upright, None).id, "yolov8n");
    assert_eq!(chosen(Kind::Upright, Some("nonsense")).id, "yolov8n");
    assert_eq!(chosen(Kind::Upright, Some("yolov8m")).id, "yolov8m");
}

#[test]
fn a_variant_of_another_kind_is_not_taken() {
    let all = variants();
    let other = all.iter().find(|v| v.kind != Kind::Upright);
    if let Some(other) = other {
        assert_eq!(
            chosen(Kind::Upright, Some(other.id)).id,
            default_of(Kind::Upright).id
        );
    }
}

#[test]
fn every_variant_stamps_itself_differently() {
    let mut stamps: Vec<String> = variants().iter().map(|v| v.stamp()).collect();
    let held = stamps.len();
    stamps.sort();
    stamps.dedup();
    assert_eq!(stamps.len(), held, "two variants stamp the same");
}

#[test]
fn a_stamp_names_the_model_and_the_revision_it_came_from() {
    let stamp = find("yolov8m").unwrap().stamp();
    assert!(stamp.starts_with("yolov8m@"), "{stamp}");
    assert!(stamp.contains("be388c6fab95"), "{stamp}");
}

#[test]
fn the_variants_of_a_kind_grow_in_size() {
    let sizes: Vec<u64> = of(Kind::Upright)
        .iter()
        .map(|v| weights::total_bytes(&v.weights))
        .collect();
    let mut sorted = sizes.clone();
    sorted.sort_unstable();
    assert_eq!(sizes, sorted, "variants should be listed smallest first");
}

#[test]
fn the_weights_are_pinned_to_a_revision() {
    for weight in &depth::weights() {
        assert_eq!(weight.revision.len(), 40, "{}", weight.file);
        assert!(weight.file.ends_with(".safetensors"));
        assert!(weight.bytes > 1_000_000);
    }
    assert_eq!(depth::total_bytes(), 190_483_716);
}

#[test]
fn the_grid_keeps_the_shape_of_the_picture() {
    assert_eq!(depth::grid_size(3000, 2000, 300), (300, 200));
    assert_eq!(depth::grid_size(2000, 3000, 300), (200, 300));
    assert_eq!(depth::grid_size(1000, 1000, 256), (256, 256));
}

#[test]
fn the_grid_stays_inside_sane_bounds() {
    assert_eq!(depth::grid_size(1000, 1000, 0), (depth::MIN_EDGE, depth::MIN_EDGE));
    assert_eq!(depth::grid_size(1000, 1000, 99_999), (depth::MAX_EDGE, depth::MAX_EDGE));
    assert_eq!(depth::grid_size(0, 0, 128), (128, 128));

    let (width, height) = depth::grid_size(10_000, 3, 384);
    assert_eq!(width, 384);
    assert_eq!(height, 1);
}

#[test]
fn a_build_without_the_feature_says_so_rather_than_pretending() {
    let error = depth::estimate(".", "a.jpg", 256).unwrap_err();
    assert!(
        error.message().contains("without the depth model"),
        "{}",
        error.message()
    );
}

#[test]
fn the_weights_are_pinned_to_one_revision_each() {
    for weight in diffuse::weights().iter() {
        assert_eq!(weight.revision.len(), 40, "{}", weight.file);
        assert!(weight.bytes > 0, "{}", weight.file);
    }
}

#[test]
fn the_pieces_of_the_painter_are_all_there() {
    let files: Vec<&str> = diffuse::weights().iter().map(|weight| weight.file).collect();
    assert!(files.iter().any(|file| file.contains("text_encoder")));
    assert!(files.iter().any(|file| file.contains("vae")));
    assert!(files.iter().any(|file| file.contains("unet")));
    assert!(files.contains(&"tokenizer.json"));
}

#[test]
fn the_download_is_about_two_gigabytes() {
    let total = diffuse::total_bytes();
    assert!(total > 2_000_000_000, "{total}");
    assert!(total < 2_400_000_000, "{total}");
}

#[test]
fn a_step_count_is_kept_inside_what_is_worth_waiting_for() {
    assert_eq!(diffuse::steps_within(0), diffuse::MIN_STEPS);
    assert_eq!(diffuse::steps_within(999), diffuse::MAX_STEPS);
    assert_eq!(diffuse::steps_within(diffuse::STEPS), diffuse::STEPS);
}

#[test]
fn the_credit_is_there_when_the_detector_is() {
    assert!(!faces::built_in());
    if faces::built_in() {
        assert!(faces::CREDIT.contains("MIT"), "the credit must name the licence");
        assert!(faces::CREDIT.contains("Shiqi Yu"), "the credit must name the author");
    }
}

#[test]
fn without_the_detector_looking_says_so_rather_than_finding_nothing() {
    let err = faces::Finder::load("nowhere").unwrap_err().message();
    assert!(err.contains("without the face detector"), "{err}");
}

#[test]
fn longitude_cells_wrap_around_the_date_line() {
    assert_eq!(geocode::wrap_longitude(0), 0);
    assert_eq!(geocode::wrap_longitude(179), 179);
    assert_eq!(geocode::wrap_longitude(-180), -180);
    assert_eq!(geocode::wrap_longitude(180), -180);
    assert_eq!(geocode::wrap_longitude(-181), 179);
}

#[test]
fn the_gazetteer_lives_in_its_own_folder_under_the_models() {
    let dir = geocode::directory("/data/models");
    assert!(Path::new(&dir).ends_with("geonames"));
    assert_eq!(Path::new(&dir).parent().unwrap(), Path::new("/data/models"));
}

#[test]
fn every_download_names_a_geonames_file_and_a_size() {
    let all = geocode::downloads();
    for item in &all {
        assert!(item.url.starts_with("https://download.geonames.org/"), "{}", item.url);
        assert!(item.bytes > 0, "{}", item.file);
        assert!(!item.file.is_empty());
    }
    assert!(all.iter().any(|d| d.member.is_some()));
}

#[test]
fn the_source_of_the_place_names_is_credited() {
    assert!(geocode::CREDIT.contains("GeoNames"));
    assert!(geocode::CREDIT.contains("CC BY"));
}

#[test]
fn quality_the_credit_names_the_licence_and_the_author() {
    assert!(quality::CREDIT.contains("MIT"), "{}", quality::CREDIT);
    assert!(quality::CREDIT.contains("LAION"), "{}", quality::CREDIT);
    assert!(quality::CREDIT.contains("Kitada"), "{}", quality::CREDIT);
}

#[test]
fn the_weight_is_pinned_to_a_revision() {
    for weight in &quality::weights() {
        assert_eq!(weight.revision.len(), 40, "{}", weight.file);
        assert!(weight.bytes > 0, "{}", weight.file);
    }
}

#[test]
fn the_download_is_about_a_third_of_a_gigabyte() {
    let total = quality::total_bytes();
    assert!(total > 300 * 1024 * 1024, "{total}");
    assert!(total < 400 * 1024 * 1024, "{total}");
}

#[test]
fn the_ratings_that_used_to_be_tags_are_known_by_name() {
    assert!(quality::was_a_rating("a good picture"));
    assert!(quality::was_a_rating("a beautiful picture"));
    assert!(!quality::was_a_rating("a dog"));
}

#[test]
fn the_plan_walks_the_picture_down_to_seven_by_seven() {
    let mut side = sface::SIDE;
    for (_, _, stride) in sface::PLAN {
        side /= stride;
    }
    assert_eq!(side, 7, "the tail expects a seven by seven field");
    assert_eq!(sface::PLAN.last().unwrap().1, 1024, "the tail expects 1024 planes");
}

#[test]
fn the_credit_names_the_licence_and_the_authors() {
    assert!(sface::CREDIT.contains("Apache"), "{}", sface::CREDIT);
    assert!(sface::CREDIT.contains("Zhong Yaoyao"), "{}", sface::CREDIT);
}

#[test]
fn tagging_the_credit_names_the_licence_and_the_author() {
    assert!(tagging::CREDIT.contains("Apache"), "{}", tagging::CREDIT);
    assert!(tagging::CREDIT.contains("Google"), "{}", tagging::CREDIT);
    assert!(tagging::CREDIT.contains("SigLIP"), "{}", tagging::CREDIT);
}

#[test]
fn every_weight_is_pinned_to_a_revision() {
    for weight in &tagging::weights() {
        assert_eq!(weight.revision.len(), 40, "{}", weight.file);
        assert!(weight.bytes > 0, "{}", weight.file);
    }
}

#[test]
fn the_download_is_about_eight_hundred_megabytes() {
    let total = tagging::total_bytes();
    assert!(total > 700 * 1024 * 1024, "{total}");
    assert!(total < 900 * 1024 * 1024, "{total}");
}

#[test]
fn the_vocabulary_is_plain_lowercase_english() {
    for word in &tagging::VOCABULARY {
        assert!(!word.is_empty());
        assert_eq!(*word, word.to_lowercase(), "{word}");
    }
}

#[test]
fn no_word_is_offered_twice() {
    let mut seen = tagging::VOCABULARY.to_vec();
    seen.sort_unstable();
    let before = seen.len();
    seen.dedup();
    assert_eq!(seen.len(), before);
}

#[test]
fn the_stamp_names_the_model_and_the_revision_behind_it() {
    let stamp = tagging::stamp();
    assert!(stamp.starts_with("siglip-base-patch16-224@"), "{stamp}");
    assert!(stamp.contains("7fd15f0689c7"), "{stamp}");
    assert_eq!(stamp, tagging::stamp(), "the stamp must not wander between calls");
}

#[test]
fn every_word_still_reads_as_a_label_once_the_article_is_dropped() {
    for word in &tagging::VOCABULARY {
        let bare = word
            .strip_prefix("a ")
            .or_else(|| word.strip_prefix("an "))
            .or_else(|| word.strip_prefix("the "))
            .unwrap_or(word);
        assert!(!bare.trim().is_empty(), "{word}");
        assert!(!word.contains("  "), "{word}");
        assert_eq!(*word, word.trim(), "{word}");
        assert!(!word.ends_with('.') && !word.ends_with(','), "{word}");
    }
}

#[test]
fn the_vocabulary_reaches_past_the_handful_it_started_with() {
    assert!(tagging::VOCABULARY.len() > 200, "{}", tagging::VOCABULARY.len());
}

#[test]
fn the_everyday_subjects_of_a_photo_archive_are_all_in_there() {
    for wanted in [
        "a dog",
        "a cat",
        "a wedding",
        "a beach",
        "a pizza",
        "a screenshot",
        "a selfie",
        "a family",
        "a butterfly",
        "someone cooking",
        "a snowman",
        "an aerial view",
    ] {
        assert!(tagging::VOCABULARY.contains(&wanted), "{wanted} is missing");
    }
}

#[test]
fn the_vocabulary_stamp_is_sixteen_hex_digits_and_steady() {
    let stamp = tagging::vocabulary_stamp();
    assert_eq!(stamp.len(), 16);
    assert!(stamp.chars().all(|c| c.is_ascii_hexdigit() && !c.is_ascii_uppercase()));
    assert_eq!(stamp, tagging::vocabulary_stamp());
}

#[test]
fn the_vocabulary_cache_is_named_after_the_stamp() {
    let cache = tagging::vocabulary_cache("/models");
    assert_eq!(cache, format!("/models/vocabulary-{}.bin", tagging::vocabulary_stamp()));
}

#[test]
fn a_build_without_downloading_says_so_when_asked_for_place_names() {
    match geocode::download("/models") {
        Err(eonsort::error::Error::Download(m)) => assert_eq!(m, "this build was made without downloading"),
        other => panic!("expected a refused download, got {other:?}"),
    }
}
