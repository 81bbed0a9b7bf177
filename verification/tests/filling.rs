use base64::Engine;
use eonsort::inpaint::{decode_reply, shorten};

fn message_of(body: &str) -> String {
    decode_reply(body).unwrap_err().message()
}

#[test]
fn the_openai_shape_is_understood() {
    let encoded = base64::engine::general_purpose::STANDARD.encode([9u8, 8, 7]);
    let body = format!("{{\"data\":[{{\"b64_json\":\"{encoded}\"}}]}}");
    assert_eq!(decode_reply(&body).unwrap(), vec![9, 8, 7]);
}

#[test]
fn the_diffusion_webui_shape_is_understood() {
    let encoded = base64::engine::general_purpose::STANDARD.encode([1u8]);
    let body = format!("{{\"images\":[\"{encoded}\"]}}");
    assert_eq!(decode_reply(&body).unwrap(), vec![1]);
}

#[test]
fn a_data_url_prefix_is_stripped() {
    let encoded = base64::engine::general_purpose::STANDARD.encode([2u8, 2]);
    let body = format!("{{\"images\":[\"data:image/png;base64,{encoded}\"]}}");
    assert_eq!(decode_reply(&body).unwrap(), vec![2, 2]);
}

#[test]
fn a_refusal_is_reported_with_its_reason() {
    let body = "{\"error\":{\"message\":\"mask must be the same size\"}}";
    let message = message_of(body);
    assert!(message.contains("mask must be the same size"), "{message}");
}

#[test]
fn prose_is_an_error_not_an_image() {
    assert!(decode_reply("I could not do that").is_err());
}

#[test]
fn an_answer_without_an_image_is_an_error() {
    let message = message_of("{\"data\":[]}");
    assert!(message.contains("no image"), "{message}");
}

#[test]
fn a_long_answer_is_shortened_for_the_message() {
    let long = "x".repeat(500);
    let message = message_of(&long);
    assert!(message.contains('…'));
    assert!(message.chars().count() < 300);
}

#[test]
fn an_error_without_a_message_is_quoted_as_it_stands() {
    assert_eq!(message_of("{\"error\":\"quota\"}"), "the filling service refused: quota");
    assert_eq!(message_of("{\"error\":{\"code\":7}}"), "the filling service refused: {\"code\":7}");
}

#[test]
fn a_picture_that_is_not_base64_is_reported() {
    assert!(message_of("{\"images\":[\"!!!\"]}").starts_with("the filled image was not readable: "));
}

#[test]
fn an_empty_reply_is_called_so() {
    let quoted: String = shorten("   ").into_iter().collect();
    assert_eq!(quoted, "an empty answer");
}
