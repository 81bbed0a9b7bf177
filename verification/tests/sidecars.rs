use eonsort::providers::takeout::{candidates, sidecar as takeout_sidecar, trimmed, NAME_LIMIT, SUPPLEMENT};
use eonsort::providers::xmp::sidecar as xmp_sidecar;

fn chars(s: &str) -> Vec<char> {
    s.chars().collect()
}

fn text(v: &[char]) -> String {
    v.iter().collect()
}

#[test]
fn reads_the_plain_sidecar_beside_the_picture() {
    let places = takeout_sidecar("/takeout/IMG_1234.JPG").unwrap();
    assert_eq!(places[0], "/takeout/IMG_1234.JPG.json");
}

#[test]
fn reads_the_supplemental_metadata_sidecar() {
    let places = takeout_sidecar("/takeout/IMG_1234.JPG").unwrap();
    assert!(places.contains(&"/takeout/IMG_1234.JPG.supplemental-metadata.json".to_string()));
}

#[test]
fn reads_a_sidecar_whose_name_google_cut_short() {
    let picture = "PXL_20230506_101112345.PORTRAIT.jpg";
    let cut = text(&trimmed(&chars(&format!("{picture}.{SUPPLEMENT}.json"))));
    assert_eq!(cut.len(), NAME_LIMIT);
    assert!(cut.ends_with(".json"));
    let places = takeout_sidecar(&format!("/takeout/{picture}")).unwrap();
    assert!(places.contains(&format!("/takeout/{cut}")));
}

#[test]
fn follows_the_sidecar_of_a_numbered_copy() {
    let found: Vec<String> = candidates(&chars("IMG_1234(1).JPG")).iter().map(|c| text(c)).collect();
    assert_eq!(found[0], "IMG_1234.JPG(1).json");
}

#[test]
fn an_edited_copy_falls_back_to_the_original_sidecar() {
    let found: Vec<String> = candidates(&chars("IMG_1234-edited.JPG")).iter().map(|c| text(c)).collect();
    assert!(found.contains(&"IMG_1234.JPG.json".to_string()));
    assert_eq!(found[0], "IMG_1234-edited.JPG.json");
}

#[test]
fn a_short_name_is_not_cut() {
    assert_eq!(text(&trimmed(&chars("a.jpg.json"))), "a.jpg.json");
}

#[test]
fn a_name_cut_short_never_splits_a_character() {
    let long = format!("{}.jpg.{SUPPLEMENT}.json", "é".repeat(30));
    let cut = text(&trimmed(&chars(&long)));
    assert!(cut.len() <= NAME_LIMIT);
    assert!(cut.ends_with(".json"));
}

#[test]
fn a_picture_path_without_a_name_has_no_sidecar() {
    assert!(takeout_sidecar("/").is_none());
    assert!(xmp_sidecar("/").is_none());
}

#[test]
fn the_xmp_sidecar_is_looked_for_under_both_names_and_both_cases() {
    let places = xmp_sidecar("/photos/IMG_1.CR2").unwrap();
    assert_eq!(
        places,
        vec![
            "/photos/IMG_1.CR2.xmp".to_string(),
            "/photos/IMG_1.CR2.XMP".to_string(),
            "/photos/IMG_1.xmp".to_string(),
            "/photos/IMG_1.XMP".to_string(),
        ]
    );
}
