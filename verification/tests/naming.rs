use eonsort::model::{duplicate_variant, folder_segment, UNKNOWN_SUBJECT};
use eonsort::geocode::Place;
use eonsort::naming::{
    all_tokens, file_name, is_default_name_pattern, needs, resolve, subject_token_is_legacy, validate, Facts,
    Token, DEFAULT_NAME_PATTERN, MAX_SEGMENT,
};

fn chars(s: &str) -> Vec<char> {
    s.chars().collect()
}

#[test]
fn a_subject_never_escapes_its_folder() {
    for hostile in ["../../etc", "C:\\Windows", "a/b", "...", "  ", "!!!", "con:/nul"] {
        let segment = folder_segment(hostile);
        assert!(!segment.contains(['/', '\\', ':']), "{hostile} -> {segment}");
        assert!(!segment.is_empty(), "{hostile}");
        assert_ne!(segment, "..", "{hostile}");
        assert!(!segment.starts_with('.'), "{hostile} -> {segment}");
    }
}

#[test]
fn subject_segments_are_lowercased_hyphenated_and_bounded() {
    assert_eq!(folder_segment("Beach Sunset"), "beach-sunset");
    assert_eq!(folder_segment("  spaced   out  "), "spaced-out");
    assert_eq!(folder_segment("Grandma's 80th!"), "grandma-s-80th");
    assert_eq!(folder_segment(&"x".repeat(200)).len(), 48);
}

#[test]
fn duplicate_variant_keeps_the_extension() {
    assert_eq!(duplicate_variant("/out/2023/05/a.jpg", 2), "/out/2023/05/a_dup_2.jpg");
    assert_eq!(duplicate_variant("/out/2023/05/README", 1), "/out/2023/05/README_dup_1");
}

#[test]
fn a_missing_subject_still_lands_in_the_named_folder() {
    let empty = Facts::default();
    assert_eq!(resolve("{subject}", &empty).unwrap(), UNKNOWN_SUBJECT);
}

#[test]
fn a_quoted_last_resort_ends_the_chain() {
    let empty = Facts::default();
    assert_eq!(resolve(r#"{city|country|"Beats me"}"#, &empty).unwrap(), "Beats me");
}

#[test]
fn a_chain_nothing_answers_leaves_an_empty_space() {
    let empty = Facts::default();
    assert_eq!(resolve("%Y/{city|country}", &empty).unwrap(), "%Y/");
}

#[test]
fn a_value_can_never_climb_out_of_its_folder() {
    let mut hostile = Facts::default();
    for attempt in ["../../etc", "C:\\Windows", "a/b", "..", ".", "..."] {
        hostile.place.city = Some(attempt.to_string());
        let resolved = resolve("{city}", &hostile).unwrap();
        assert!(!resolved.contains(['/', '\\', ':']), "{attempt} -> {resolved}");
        assert_ne!(resolved, "..", "{attempt}");
        assert_ne!(resolved, ".", "{attempt}");
    }

    hostile.place.city = Some("..".to_string());
    assert_eq!(resolve("%Y/{city}", &hostile).unwrap(), "%Y/");
}

#[test]
fn dots_left_over_after_the_length_bound_never_climb_out() {
    let mut hostile = Facts::default();
    let long_dots = format!("..{}x", " ".repeat(94));
    hostile.place.city = Some(long_dots);
    assert_eq!(resolve("{city}", &hostile).unwrap(), "");
    assert_eq!(resolve("%Y/{city}", &hostile).unwrap(), "%Y/");

    let long_word = format!("a..{}x", " ".repeat(93));
    hostile.place.city = Some(long_word);
    assert_eq!(resolve("{city}", &hostile).unwrap(), "a..");
}

#[test]
fn a_percent_in_a_value_is_never_read_as_a_date_field() {
    let mut sneaky = Facts::default();
    sneaky.place.city = Some("100%Real".to_string());
    assert_eq!(resolve("{city}", &sneaky).unwrap(), "100%%Real");
}

#[test]
fn a_value_is_held_to_a_sensible_length() {
    let mut long = Facts::default();
    long.place.city = Some("x".repeat(400));
    assert_eq!(resolve("{city}", &long).unwrap().len(), MAX_SEGMENT);
}

#[test]
fn an_empty_chain_is_refused() {
    assert!(validate("{}").is_err());
    assert!(validate("{city|}").is_err());
}

#[test]
fn every_documented_token_validates() {
    for token in all_tokens() {
        let pattern = format!("{{{}}}", token.label());
        assert!(validate(&pattern).is_ok(), "{pattern}");
    }
}

#[test]
fn a_pattern_says_which_tokens_it_needs() {
    assert!(needs("%Y/{city}", Token::City));
    assert!(needs("{city|country}", Token::Country));
    assert!(!needs("%Y/%m", Token::City));
    assert!(!needs("{subject}", Token::City));
    assert!(needs("{subject}", Token::Subject));
}

#[test]
fn a_name_pattern_that_resolves_to_nothing_falls_back_to_the_original() {
    let bare = Facts {
        original_name: Some("holiday.jpg".to_string()),
        ..Facts::default()
    };
    assert_eq!(file_name("{city}", &bare).unwrap(), "holiday.jpg");
}

#[test]
fn a_dotfile_is_not_mistaken_for_an_extension() {
    let hidden = Facts {
        original_name: Some(".gitignore".to_string()),
        ..Facts::default()
    };
    assert_eq!(file_name("{original_stem}", &hidden).unwrap(), ".gitignore");
}

#[test]
fn facts_read_the_name_off_the_source_path() {
    let facts = Facts::for_source("/src/holiday/IMG_1.jpg");
    assert_eq!(facts.original_name.as_deref(), Some("IMG_1.jpg"));
    assert_eq!(facts.value(Token::OriginalStem), Some(chars("IMG_1")));
    assert_eq!(facts.value(Token::Extension), Some(chars("jpg")));
}

#[test]
fn a_percent_survives_a_name_pattern_as_itself() {
    let odd = Facts {
        original_name: Some("50%.jpg".to_string()),
        ..Facts::default()
    };
    assert_eq!(file_name("{original_stem}", &odd).unwrap(), "50%.jpg");
}

#[test]
fn the_legacy_subject_token_is_recognised() {
    assert!(subject_token_is_legacy("%Y/{subject}"));
    assert!(!subject_token_is_legacy("%Y/%m"));
}

fn facts() -> Facts {
    Facts {
        subject: Some("Beach Sunset".to_string()),
        place: Place {
            city: Some("Munich".to_string()),
            region: Some("Bavaria".to_string()),
            country: Some("Germany".to_string()),
            country_code: Some("DE".to_string()),
        },
        camera_make: Some("Canon".to_string()),
        camera_model: Some("EOS 5D".to_string()),
        original_name: Some("IMG_3900.jpg".to_string()),
    }
}

#[test]
fn a_pattern_without_tokens_is_left_exactly_as_it_was() {
    assert_eq!(resolve("%Y/%m", &facts()).unwrap(), "%Y/%m");
}

#[test]
fn a_token_is_replaced_by_what_the_file_knows() {
    assert_eq!(resolve("%Y/{city}", &facts()).unwrap(), "%Y/Munich");
    assert_eq!(resolve("{country}", &facts()).unwrap(), "Germany");
    assert_eq!(resolve("{camera_model}", &facts()).unwrap(), "EOS 5D");
}

#[test]
fn the_subject_token_still_slugs_the_way_it_always_did() {
    assert_eq!(resolve("{subject}", &facts()).unwrap(), "beach-sunset");
}

#[test]
fn a_chain_walks_on_until_something_answers() {
    let mut thin = facts();
    thin.place.city = None;
    assert_eq!(resolve("{city|region|country}", &thin).unwrap(), "Bavaria");

    thin.place.region = None;
    assert_eq!(resolve("{city|region|country}", &thin).unwrap(), "Germany");
}

#[test]
fn a_blank_value_counts_as_no_answer() {
    let mut blank = facts();
    blank.place.city = Some("   ".to_string());
    assert_eq!(resolve("{city|country}", &blank).unwrap(), "Germany");
}

#[test]
fn an_unknown_token_is_refused_rather_than_left_in_the_path() {
    assert!(resolve("{nonsense}", &facts()).is_err());
    assert!(validate("{nonsense}").is_err());
}

#[test]
fn an_unclosed_token_is_refused() {
    assert!(resolve("%Y/{city", &facts()).is_err());
    assert!(validate("%Y/{city").is_err());
}

#[test]
fn the_default_name_pattern_keeps_the_name_the_file_arrived_with() {
    assert_eq!(file_name(DEFAULT_NAME_PATTERN, &facts()).unwrap(), "IMG_3900.jpg");
    assert!(is_default_name_pattern(DEFAULT_NAME_PATTERN));
}

#[test]
fn a_name_pattern_keeps_the_extension_without_being_told_to() {
    assert_eq!(file_name("{original_stem}-{city}", &facts()).unwrap(), "IMG_3900-Munich.jpg");
}

#[test]
fn a_name_pattern_that_names_the_extension_does_not_get_it_twice() {
    assert_eq!(file_name("{original_stem}.{ext}", &facts()).unwrap(), "IMG_3900.jpg");
}

#[test]
fn a_file_with_no_extension_keeps_none() {
    let mut plain = facts();
    plain.original_name = Some("README".to_string());
    assert_eq!(file_name("{original_stem}", &plain).unwrap(), "README");
}
