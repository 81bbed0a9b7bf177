//! Filling in what a removed object hid, by asking an image editing service: the
//! address its edits are sent to and the body of the request.
use vstd::prelude::*;
use base64::Engine;
use crate::error::Error;
use crate::text::{matches_at, slice_chars, extend,
    chars_of, utf8, contains_seq, ends_with, ends_with_chars, extend_str, holds, is_char, put_bytes, put_text,
    spec_trim, string_of, strip_trailing, trim, trim_end_by,
};

verus! {

/// The boundary between the parts of a request body.
pub const BOUNDARY: &'static str = "eonsortinpaint7f3a9c1b";
pub const DEFAULT_MODEL: &'static str = "gpt-image-1";
pub const DEFAULT_PROMPT: &'static str = "continue the background that the removed object was hiding; match the surrounding lighting, colour and texture; add nothing new";
/// The largest reply read, in bytes.
pub const MAX_REPLY: u64 = 64 * 1024 * 1024;

/// One request to fill in part of a picture: where to send it, with which key and
/// model, what to ask, at what size, the picture and the mask of what to fill.
#[derive(Debug, Clone)]
pub struct Edit {
    pub endpoint: String,
    pub key: String,
    pub model: String,
    pub prompt: String,
    pub size: String,
    pub image: Vec<u8>,
    pub mask: Vec<u8>,
}

/// The address edits are sent to for the service at `endpoint`: the public service
/// when none is given; the address itself when it already names an edits path or a
/// Stable Diffusion API; else the address with `/images/edits` after a trailing
/// `/v1`, or `/v1/images/edits` after anything else. White space around it and
/// slashes at its end are dropped first.
pub open spec fn spec_edits_url(endpoint: Seq<char>) -> Seq<char> {
    let t = trim_end_by(spec_trim(endpoint), is_char('/'));
    if t.len() == 0 {
        "https://api.openai.com/v1/images/edits"@
    } else if holds(t, "/images/edits"@) || holds(t, "/sdapi/"@) {
        t
    } else if ends_with(t, "/v1"@) {
        t + "/images/edits"@
    } else {
        t + "/v1/images/edits"@
    }
}

/// The address edits are sent to for the service at `endpoint`.
pub fn edits_url(endpoint: &str) -> (r: String)
    ensures
        r@ == spec_edits_url(endpoint@),
{
    let raw = chars_of(endpoint);
    let t = strip_trailing(&trim(&raw), '/');
    if t.len() == 0 {
        return crate::text::owned("https://api.openai.com/v1/images/edits");
    }
    if contains_seq(&t, &chars_of("/images/edits")) || contains_seq(&t, &chars_of("/sdapi/")) {
        return string_of(&t);
    }
    let mut r = t.clone();
    if ends_with_chars(&t, &chars_of("/v1")) {
        extend_str(&mut r, "/images/edits");
    } else {
        extend_str(&mut r, "/v1/images/edits");
    }
    string_of(&r)
}

/// The content type of a request body.
pub fn content_type() -> (r: String)
    ensures
        r@ == "multipart/form-data; boundary="@ + BOUNDARY@,
{
    let mut v = chars_of("multipart/form-data; boundary=");
    extend_str(&mut v, BOUNDARY);
    string_of(&v)
}

/// The line that opens each part of a body.
pub open spec fn part_head() -> Seq<u8> {
    utf8("--"@) + utf8(BOUNDARY@) + utf8("\r\n"@)
}

/// A part holding the text field `name` with the value `value`.
pub open spec fn field_part(name: Seq<char>, value: Seq<char>) -> Seq<u8> {
    part_head() + utf8("Content-Disposition: form-data; name=\""@) + utf8(name)
        + utf8("\"\r\n\r\n"@) + utf8(value) + utf8("\r\n"@)
}

/// A part holding the PNG file `filename` under the field `name`.
pub open spec fn file_part(name: Seq<char>, filename: Seq<char>, bytes: Seq<u8>) -> Seq<u8> {
    part_head() + utf8("Content-Disposition: form-data; name=\""@) + utf8(name)
        + utf8("\"; filename=\""@) + utf8(filename) + utf8("\"\r\n"@)
        + utf8("Content-Type: image/png\r\n\r\n"@) + bytes + utf8("\r\n"@)
}

/// The body of the request for `edit`: its model, its prompt, one picture asked for
/// as base64, its size where one is set, then the picture and the mask, and the
/// closing boundary.
pub open spec fn spec_multipart(edit: Edit) -> Seq<u8> {
    field_part("model"@, edit.model@) + field_part("prompt"@, edit.prompt@) + field_part("n"@, "1"@)
        + field_part("response_format"@, "b64_json"@) + (if edit.size@.len() > 0 {
        field_part("size"@, edit.size@)
    } else {
        Seq::empty()
    }) + file_part("image"@, "photo.png"@, edit.image@) + file_part("mask"@, "mask.png"@, edit.mask@)
        + utf8("--"@) + utf8(BOUNDARY@) + utf8("--\r\n"@)
}

fn put_field(body: &mut Vec<u8>, name: &str, value: &str)
    ensures
        final(body)@ == old(body)@ + field_part(name@, value@),
{
    put_text(body, "--");
    put_text(body, BOUNDARY);
    put_text(body, "\r\n");
    put_text(body, "Content-Disposition: form-data; name=\"");
    put_text(body, name);
    put_text(body, "\"\r\n\r\n");
    put_text(body, value);
    put_text(body, "\r\n");
    assert(body@ =~= old(body)@ + field_part(name@, value@));
}

fn put_file(body: &mut Vec<u8>, name: &str, filename: &str, bytes: &Vec<u8>)
    ensures
        final(body)@ == old(body)@ + file_part(name@, filename@, bytes@),
{
    put_text(body, "--");
    put_text(body, BOUNDARY);
    put_text(body, "\r\n");
    put_text(body, "Content-Disposition: form-data; name=\"");
    put_text(body, name);
    put_text(body, "\"; filename=\"");
    put_text(body, filename);
    put_text(body, "\"\r\n");
    put_text(body, "Content-Type: image/png\r\n\r\n");
    put_bytes(body, bytes.as_slice());
    put_text(body, "\r\n");
    assert(body@ =~= old(body)@ + file_part(name@, filename@, bytes@));
}

/// The body of the request for `edit`.
pub fn multipart(edit: &Edit) -> (r: Vec<u8>)
    ensures
        r@ == spec_multipart(*edit),
{
    let mut body: Vec<u8> = Vec::new();
    put_field(&mut body, "model", edit.model.as_str());
    put_field(&mut body, "prompt", edit.prompt.as_str());
    put_field(&mut body, "n", "1");
    put_field(&mut body, "response_format", "b64_json");
    let ghost before_size = body@;
    if edit.size.as_str().unicode_len() > 0 {
        put_field(&mut body, "size", edit.size.as_str());
    }
    let ghost after_size = body@;
    assert(after_size =~= before_size + (if edit.size@.len() > 0 {
        field_part("size"@, edit.size@)
    } else {
        Seq::empty()
    }));
    put_file(&mut body, "image", "photo.png", &edit.image);
    put_file(&mut body, "mask", "mask.png", &edit.mask);
    put_text(&mut body, "--");
    put_text(&mut body, BOUNDARY);
    put_text(&mut body, "--\r\n");
    assert(body@ =~= spec_multipart(*edit));
    body
}

// ---------------------------------------------------------------------------
// The service's reply
// ---------------------------------------------------------------------------
/// A JSON value of a reply as its handling reads it: its text when it is a string,
/// and the JSON it is written as.
#[derive(Debug, Clone)]
pub struct Shown {
    pub text: Option<String>,
    pub json: String,
}

/// What a reply from the filling service holds, as far as its handling reads it:
/// its `error` member and that member's `message` member, where there are such, and
/// the texts at `data[0].b64_json` and at `images[0]`, where these are strings.
#[derive(Debug, Clone)]
pub struct Reply {
    pub error: Option<Shown>,
    pub error_message: Option<Shown>,
    pub data_image: Option<String>,
    pub first_image: Option<String>,
}

/// A JSON value as plain texts.
pub ghost struct ShownSpec {
    pub text: Option<Seq<char>>,
    pub json: Seq<char>,
}

/// A reply as plain texts.
pub ghost struct ReplySpec {
    pub error: Option<ShownSpec>,
    pub error_message: Option<ShownSpec>,
    pub data_image: Option<Seq<char>>,
    pub first_image: Option<Seq<char>>,
}

pub open spec fn opt_text(o: Option<String>) -> Option<Seq<char>> {
    match o {
        Some(s) => Some(s@),
        None => None,
    }
}

pub open spec fn shown_view(o: Option<Shown>) -> Option<ShownSpec> {
    match o {
        Some(s) => Some(ShownSpec { text: opt_text(s.text), json: s.json@ }),
        None => None,
    }
}

pub open spec fn reply_view(r: Reply) -> ReplySpec {
    ReplySpec {
        error: shown_view(r.error),
        error_message: shown_view(r.error_message),
        data_image: opt_text(r.data_image),
        first_image: opt_text(r.first_image),
    }
}

/// What `serde_json` reads of the reply `body`, nothing where it is not JSON.
pub uninterp spec fn reply_facts(body: Seq<char>) -> Option<ReplySpec>;

/// Calls `serde_json::from_str` into a `Value`, then `Value::get`, `as_str` and
/// `to_string` on the members a reply's handling reads. Which texts come out is named,
/// not written out.
#[verifier::external_body]
fn read_reply(body: &str) -> (r: Option<Reply>)
    ensures
        match r {
            Some(x) => reply_facts(body@) == Some(reply_view(x)),
            None => reply_facts(body@) is None,
        },
{
    let v: serde_json::Value = serde_json::from_str(body).ok()?;
    let shown = |x: &serde_json::Value| Shown { text: x.as_str().map(str::to_owned), json: x.to_string() };
    let error = v.get("error");
    Some(Reply {
        error: error.map(shown),
        error_message: error.and_then(|e| e.get("message")).map(shown),
        data_image: v.get("data").and_then(|d| d.get(0)).and_then(|f| f.get("b64_json")).and_then(|x| x.as_str()).map(str::to_owned),
        first_image: v.get("images").and_then(|i| i.get(0)).and_then(|x| x.as_str()).map(str::to_owned),
    })
}

/// What the standard BASE64 engine decodes of `text`: the bytes, or the text of its
/// error.
pub uninterp spec fn base64_standard(text: Seq<char>) -> Result<Seq<u8>, Seq<char>>;

/// Calls `Engine::decode` of `base64::engine::general_purpose::STANDARD`, the error
/// written out with `to_string`. Which bytes or error come out is named, not written
/// out.
#[verifier::external_body]
fn base64_decode(text: &str) -> (r: Result<Vec<u8>, String>)
    ensures
        match r {
            Ok(b) => base64_standard(text@) == Ok::<Seq<u8>, Seq<char>>(b@),
            Err(e) => base64_standard(text@) == Err::<Seq<u8>, Seq<char>>(e@),
        },
{
    base64::engine::general_purpose::STANDARD.decode(text).map_err(|e| e.to_string())
}

/// A reply as it is quoted in a message: trimmed, at most two hundred characters
/// and an ellipsis after them, or `an empty answer`.
pub open spec fn spec_shorten(text: Seq<char>) -> Seq<char> {
    let t = spec_trim(text);
    if t.len() == 0 {
        "an empty answer"@
    } else if t.len() > 200 {
        t.take(200) + seq!['\u{2026}']
    } else {
        t
    }
}

/// A reply as it is quoted in a message.
pub fn shorten(text: &str) -> (r: Vec<char>)
    ensures
        r@ == spec_shorten(text@),
{
    let t = trim(&chars_of(text));
    if t.len() == 0 {
        return chars_of("an empty answer");
    }
    if t.len() > 200 {
        let mut head = slice_chars(&t, 0, 200);
        assert(head@ =~= t@.take(200));
        head.push('\u{2026}');
        return head;
    }
    t
}

/// Why a reply was refused, where it says: its error's message if it has one, else
/// the error itself, as text if it is a string and as JSON otherwise.
pub open spec fn spec_refusal(r: ReplySpec) -> Option<Seq<char>> {
    match r.error {
        None => None,
        Some(e) => {
            let v = match r.error_message {
                Some(m) => m,
                None => e,
            };
            Some(match v.text {
                Some(t) => t,
                None => v.json,
            })
        },
    }
}

/// The picture a reply carries: `data[0].b64_json`, else `images[0]`.
pub open spec fn spec_encoded(r: ReplySpec) -> Option<Seq<char>> {
    match r.data_image {
        Some(t) => Some(t),
        None => r.first_image,
    }
}

/// Where the last `base64,` in `s` ends, if there is one.
pub open spec fn after_last_mark(s: Seq<char>, from: int) -> Option<int>
    decreases from + 1,
{
    if from < 0 {
        None
    } else if from + 7 <= s.len() && s.subrange(from, from + 7) == "base64,"@ {
        Some(from + 7)
    } else {
        after_last_mark(s, from - 1)
    }
}

/// The picture's text without a data-address head: what follows the last `base64,`,
/// trimmed.
pub open spec fn spec_cleaned(s: Seq<char>) -> Seq<char> {
    match after_last_mark(s, s.len() - 7) {
        Some(k) => spec_trim(s.skip(k)),
        None => spec_trim(s),
    }
}

/// Where the last `base64,` in `s` ends, if there is one.
fn last_mark(s: &Vec<char>) -> (r: Option<usize>)
    ensures
        match after_last_mark(s@, s@.len() - 7) {
            Some(k) => r == Some(k as usize) && 7 <= k <= s@.len(),
            None => r is None,
        },
{
    let mark = chars_of("base64,");
    proof {
        reveal_strlit("base64,");
    }
    if s.len() < 7 {
        return None;
    }
    let mut p: usize = s.len() - 6;
    while p > 0
        invariant
            s@.len() >= 7,
            p <= s@.len() - 6,
            mark@ == "base64,"@,
            after_last_mark(s@, s@.len() - 7) == after_last_mark(s@, p - 1),
        decreases p,
    {
        p = p - 1;
        if matches_at(s, p, &mark) {
            proof {
                reveal_strlit("base64,");
            }
            assert(mark@.len() == 7);
            assert(s@.subrange(p as int, p + 7) == "base64,"@);
            assert(after_last_mark(s@, p as int) == Some(p + 7));
            return Some(p + 7);
        }
    }
    None
}

/// The picture a reply carries, as text, or the refusal it holds, with the error
/// each case gives.
pub fn reply_image(reply: &Reply, body: &str) -> (r: Result<Vec<char>, Error>)
    ensures
        match spec_refusal(reply_view(*reply)) {
            Some(m) => r matches Err(Error::Ai(x)) && x@ == "the filling service refused: "@ + m,
            None => match spec_encoded(reply_view(*reply)) {
                Some(t) => r matches Ok(c) && c@ == spec_cleaned(t),
                None => r matches Err(Error::Ai(x)) && x@ == "the filling service returned no image: "@ + spec_shorten(body@),
            },
        },
{
    match &reply.error {
        Some(e) => {
            let v = match &reply.error_message {
                Some(m) => m,
                None => e,
            };
            let mut text = chars_of("the filling service refused: ");
            match &v.text {
                Some(t) => extend_str(&mut text, t.as_str()),
                None => extend_str(&mut text, v.json.as_str()),
            }
            return Err(Error::Ai(string_of(&text)));
        },
        None => {},
    }
    let encoded = match (&reply.data_image, &reply.first_image) {
        (Some(t), _) => t,
        (None, Some(t)) => t,
        (None, None) => {
            let mut text = chars_of("the filling service returned no image: ");
            extend(&mut text, &shorten(body));
            return Err(Error::Ai(string_of(&text)));
        },
    };
    let s = chars_of(encoded.as_str());
    let found = last_mark(&s);
    let tail = match found {
        Some(k) => {
            let rest = slice_chars(&s, k, s.len());
            assert(rest@ =~= s@.skip(k as int));
            rest
        },
        None => s,
    };
    Ok(trim(&tail))
}

/// The picture the filling service sent back in the reply `body`: a JSON reply that
/// carries no refusal and a picture, decoded from BASE64; an error that says why
/// otherwise, quoting the reply where it is no JSON or holds no picture.
pub fn decode_reply(body: &str) -> (r: Result<Vec<u8>, Error>)
    ensures
        match reply_facts(body@) {
            None => r matches Err(Error::Ai(x))
                && x@ == "the filling service answered with something other than JSON: "@ + spec_shorten(body@),
            Some(f) => match spec_refusal(f) {
                Some(m) => r matches Err(Error::Ai(x)) && x@ == "the filling service refused: "@ + m,
                None => match spec_encoded(f) {
                    None => r matches Err(Error::Ai(x)) && x@ == "the filling service returned no image: "@ + spec_shorten(body@),
                    Some(t) => match base64_standard(spec_cleaned(t)) {
                        Ok(b) => r matches Ok(v) && v@ == b,
                        Err(e) => r matches Err(Error::Ai(x)) && x@ == "the filled image was not readable: "@ + e,
                    },
                },
            },
        },
{
    let reply = match read_reply(body) {
        Some(x) => x,
        None => {
            let mut text = chars_of("the filling service answered with something other than JSON: ");
            extend(&mut text, &shorten(body));
            return Err(Error::Ai(string_of(&text)));
        },
    };
    let cleaned = match reply_image(&reply, body) {
        Ok(c) => c,
        Err(e) => return Err(e),
    };
    let text = string_of(&cleaned);
    match base64_decode(text.as_str()) {
        Ok(b) => Ok(b),
        Err(e) => {
            let mut m = chars_of("the filled image was not readable: ");
            extend_str(&mut m, e.as_str());
            Err(Error::Ai(string_of(&m)))
        },
    }
}

} // verus!
