use eonsort::ai::prompt::{clean, extract_object, reading_from};
use eonsort::moment::Moment;

#[test]
fn digs_the_json_out_of_a_chatty_answer() {
    let answer = "Sure! Here is what I see:\n{\"subject\": \"Beach\", \"date\": null}\nHope that helps.";
    assert_eq!(extract_object(answer).as_deref(), Some("{\"subject\": \"Beach\", \"date\": null}"));
}

#[test]
fn handles_braces_inside_strings() {
    let answer = r#"{"caption": "a sign reading {open}", "subject": "sign"} trailing"#;
    assert_eq!(
        extract_object(answer).as_deref(),
        Some(r#"{"caption": "a sign reading {open}", "subject": "sign"}"#)
    );
    let escaped = r#"{"caption": "a \"quoted\" } brace"} rest"#;
    assert_eq!(extract_object(escaped).as_deref(), Some(r#"{"caption": "a \"quoted\" } brace"}"#));
}

#[test]
fn nested_objects_close_where_the_first_one_does() {
    assert_eq!(extract_object("x {\"a\": {\"b\": 1}} y {\"c\": 2}").as_deref(), Some("{\"a\": {\"b\": 1}}"));
}

#[test]
fn an_answer_with_no_json_has_no_object() {
    assert_eq!(extract_object("I cannot see any date in this image."), None);
    assert_eq!(extract_object("{\"date\": \"2019-07-04\""), None);
}

#[test]
fn a_blank_or_null_text_is_nothing() {
    assert_eq!(clean(&Some("  receipt header ".to_string())).as_deref(), Some("receipt header"));
    assert_eq!(clean(&Some("   ".to_string())), None);
    assert_eq!(clean(&Some(" NULL ".to_string())), None);
    assert_eq!(clean(&None), None);
}

fn text(s: &str) -> Option<String> {
    Some(s.to_string())
}

#[test]
fn reads_a_clean_answer() {
    let reading = reading_from(
        &text("2019-07-04"),
        &text("high"),
        &text("receipt header"),
        &text("Receipt"),
        &vec!["Paper".to_string(), "invoice".to_string()],
        &text("A receipt."),
    );
    assert_eq!(reading.taken, Some(Moment { year: 2019, month: 7, day: 4, hour: 0, minute: 0, second: 0 }));
    assert!(reading.date_confident);
    assert_eq!(reading.subject.as_deref(), Some("receipt"));
    assert_eq!(reading.tags, vec!["paper", "invoice"]);
    assert_eq!(reading.date_source.as_deref(), Some("receipt header"));
    assert_eq!(reading.caption.as_deref(), Some("A receipt."));
}

#[test]
fn treats_a_null_string_as_no_date() {
    for date in ["null", "NULL", "  ", ""] {
        let reading = reading_from(&text(date), &text("high"), &None, &None, &Vec::new(), &None);
        assert!(reading.taken.is_none(), "{date}");
    }
}

#[test]
fn rejects_a_date_the_shared_parser_will_not_accept() {
    let reading = reading_from(&text("sometime in the nineties"), &None, &None, &None, &Vec::new(), &None);
    assert!(reading.taken.is_none());
}

#[test]
fn low_confidence_is_reported_rather_than_dropped() {
    let reading = reading_from(&text("2019-07-04"), &text("low"), &None, &None, &Vec::new(), &None);
    assert!(reading.taken.is_some());
    assert!(!reading.date_confident);
}

#[test]
fn caps_the_tag_list() {
    let tags: Vec<String> = ["a", "b", "", "c", "d", "e", "f", "g"].iter().map(|t| t.to_string()).collect();
    let reading = reading_from(&None, &None, &None, &None, &tags, &None);
    assert_eq!(reading.tags, vec!["a", "b", "c", "d", "e"]);
}
