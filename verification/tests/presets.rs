use eonsort::model::DEFAULT_FOLDER_PATTERN;
use eonsort::naming::{self, Token, DEFAULT_NAME_PATTERN};
use eonsort::presets::{by_name, names, presets};

#[test]
fn a_preset_can_be_looked_up_by_name_whatever_the_case() {
    assert_eq!(by_name("immich").unwrap().name, "immich");
    assert_eq!(by_name("IMMICH").unwrap().name, "immich");
    assert_eq!(by_name("  elodie  ").unwrap().name, "elodie");
    assert!(by_name("nothing of the sort").is_none());
}

#[test]
fn every_preset_has_a_name_of_its_own() {
    let mut seen = names();
    let before = seen.len();
    seen.sort();
    seen.dedup();
    assert_eq!(seen.len(), before);
}

#[test]
fn every_preset_says_what_it_is_for() {
    for preset in presets() {
        assert!(!preset.about.is_empty(), "{}", preset.name);
        assert!(preset.about.len() > 20, "{}", preset.name);
    }
}

#[test]
fn the_plain_preset_is_what_eonsort_already_did() {
    let plain = by_name("plain").unwrap();
    assert_eq!(plain.folder, DEFAULT_FOLDER_PATTERN);
    assert_eq!(plain.file, DEFAULT_NAME_PATTERN);
}

#[test]
fn the_presets_that_need_a_place_say_so_in_their_pattern() {
    assert!(naming::needs(by_name("place").unwrap().folder, Token::City));
    assert!(naming::needs(by_name("elodie").unwrap().folder, Token::City));
    assert!(!naming::needs(by_name("plain").unwrap().folder, Token::City));
}

#[test]
fn a_place_preset_still_builds_a_folder_when_nothing_is_known() {
    for name in ["place", "elodie"] {
        let preset = by_name(name).unwrap();
        let resolved = naming::resolve(preset.folder, &naming::Facts::default()).unwrap();
        assert!(!resolved.contains("{"), "{name}: {resolved}");
        assert!(!resolved.ends_with('/'), "{name}: {resolved}");
    }
}

#[test]
fn the_import_presets_put_the_date_at_the_front_of_the_name() {
    for name in ["immich", "elodie"] {
        let preset = by_name(name).unwrap();
        assert!(preset.file.starts_with('%'), "{name}: {}", preset.file);
        assert!(naming::needs(preset.file, Token::OriginalStem), "{name}");
    }
}
