use base64::engine::general_purpose::STANDARD;
use base64::{DecodeError, Engine};
use vstd::prelude::*;
use vstd::utf8::encode_utf8;
use crate::sprite::error::SpriteGenError;

verus! {

/// What base64's `STANDARD` engine (standard alphabet, padding required)
/// decodes `input` to, or `None` where it rejects the input.
pub uninterp spec fn base64_standard_decode(input: Seq<u8>) -> Option<Seq<u8>>;

/// `Engine::decode` of base64's `STANDARD` engine. Its result depends on
/// the input bytes alone and is stated through `base64_standard_decode`;
/// the error value itself is left opaque.
#[verifier::external_body]
fn base64_decode(input: &[u8]) -> (r: Result<Vec<u8>, DecodeError>)
    ensures
        match r {
            Ok(v) => base64_standard_decode(input@) == Some(v@),
            Err(_) => base64_standard_decode(input@) is None,
        },
{
    STANDARD.decode(input)
}

/// `r` is what decoding `input` as base64 gives: the bytes, or a
/// `Base64` error where the input is rejected.
pub open spec fn base64_outcome(input: Seq<u8>, r: Result<Vec<u8>, SpriteGenError>) -> bool {
    match r {
        Ok(v) => base64_standard_decode(input) == Some(v@),
        Err(e) => base64_standard_decode(input) is None && e is Base64,
    }
}

/// Decodes standard base64.
pub fn decode_base64(input: &[u8]) -> (r: Result<Vec<u8>, SpriteGenError>)
    ensures
        base64_outcome(input@, r),
{
    match base64_decode(input) {
        Ok(v) => Ok(v),
        Err(e) => Err(SpriteGenError::Base64(e)),
    }
}

/// The byte value of `,`.
pub const COMMA: u8 = 44;

/// `i` is the position of the first comma in `s`.
pub open spec fn is_first_comma(s: Seq<u8>, i: int) -> bool {
    &&& 0 <= i < s.len()
    &&& s[i] == COMMA
    &&& forall|j: int| 0 <= j < i ==> s[j] != COMMA
}

/// The payload of a data URL: the bytes after its first comma, or `None`
/// where it has no comma.
pub open spec fn spec_data_url_payload(url: Seq<u8>) -> Option<Seq<u8>> {
    if exists|i: int| is_first_comma(url, i) {
        let i = choose|i: int| is_first_comma(url, i);
        Some(url.subrange(i + 1, url.len() as int))
    } else {
        None
    }
}

/// The bytes after the first comma of `url`, if it has one.
pub fn data_url_payload(url: &[u8]) -> (r: Option<&[u8]>)
    ensures
        match spec_data_url_payload(url@) {
            Some(p) => r is Some && r->0@ == p,
            None => r is None,
        },
{
    let mut i: usize = 0;
    while i < url.len()
        invariant
            i <= url@.len(),
            forall|j: int| 0 <= j < i ==> url@[j] != COMMA,
        decreases url.len() - i,
    {
        if url[i] == COMMA {
            assert(is_first_comma(url@, i as int));
            proof {
                let k = choose|k: int| is_first_comma(url@, k);
                assert(k == i as int);
            }
            return Some(vstd::slice::slice_subrange(url, i + 1, url.len()));
        }
        i = i + 1;
    }
    None
}

/// `r` is what decoding the data URL `url` gives: `InvalidDataUrl` where it
/// has no comma, else the base64 decoding of what follows the first comma.
pub open spec fn data_url_outcome(url: Seq<u8>, r: Result<Vec<u8>, SpriteGenError>) -> bool {
    match spec_data_url_payload(url) {
        None => r matches Err(SpriteGenError::InvalidDataUrl),
        Some(p) => base64_outcome(p, r),
    }
}

/// Decodes a `data:<type>;base64,<payload>` URL to the payload's bytes.
pub fn decode_data_url(url: &str) -> (r: Result<Vec<u8>, SpriteGenError>)
    ensures
        data_url_outcome(encode_utf8(url@), r),
{
    let bytes = url.as_bytes();
    match data_url_payload(bytes) {
        None => Err(SpriteGenError::InvalidDataUrl),
        Some(p) => decode_base64(p),
    }
}

/// One part of a multimodal message: what the image extraction reads of it.
#[derive(Debug)]
pub struct ContentPart {
    /// The `image_url.url` string of the part, where it has one.
    pub image_url: Option<String>,
    /// The `b64_json` string of the part, where it has one.
    pub b64_json: Option<String>,
}

/// The `content` of a chat message: an array of parts, a string, or some
/// other JSON value.
#[derive(Debug)]
pub enum MessageContent {
    Parts(Vec<ContentPart>),
    Text(String),
    Other,
}

#[derive(Debug)]
pub struct ResponseMessage {
    pub content: Option<MessageContent>,
}

#[derive(Debug)]
pub struct Choice {
    pub message: Option<ResponseMessage>,
}

#[derive(Debug)]
pub struct ApiError {
    pub message: Option<String>,
}

/// A chat-completions answer of the image API.
#[derive(Debug)]
pub struct ChatResponse {
    pub choices: Option<Vec<Choice>>,
    pub error: Option<ApiError>,
}

/// How an image string is encoded.
#[derive(Debug, Clone, Copy, PartialEq, Eq, Structural)]
pub enum SourceKind {
    /// A `data:` URL with a base64 payload.
    DataUrl,
    /// Bare standard base64.
    Base64,
}

/// The image string of a part: its URL, else its base64 field.
pub open spec fn part_source(p: ContentPart) -> Option<(SourceKind, Seq<u8>)> {
    match p.image_url {
        Some(u) => Some((SourceKind::DataUrl, encode_utf8(u@))),
        None => match p.b64_json {
            Some(b) => Some((SourceKind::Base64, encode_utf8(b@))),
            None => None,
        },
    }
}

/// The image string of the first part, from position `i` on, that has one.
pub open spec fn parts_source(parts: Seq<ContentPart>, i: int) -> Option<(SourceKind, Seq<u8>)>
    decreases parts.len() - i,
{
    if 0 <= i < parts.len() {
        match part_source(parts[i]) {
            Some(src) => Some(src),
            None => parts_source(parts, i + 1),
        }
    } else {
        None
    }
}

/// `b` begins with the five bytes of `data:`.
pub open spec fn has_data_prefix(b: Seq<u8>) -> bool {
    b.len() >= 5 && b.take(5) == seq![100u8, 97u8, 116u8, 97u8, 58u8]
}

/// The image string of a message content: from its parts, or the string
/// itself, taken as a data URL where it begins with `data:`.
pub open spec fn content_source(c: MessageContent) -> Option<(SourceKind, Seq<u8>)> {
    match c {
        MessageContent::Parts(parts) => parts_source(parts@, 0),
        MessageContent::Text(s) => if has_data_prefix(encode_utf8(s@)) {
            Some((SourceKind::DataUrl, encode_utf8(s@)))
        } else {
            Some((SourceKind::Base64, encode_utf8(s@)))
        },
        MessageContent::Other => None,
    }
}

/// The image string of an answer: that of the content of the message of
/// its first choice.
pub open spec fn response_source(resp: ChatResponse) -> Option<(SourceKind, Seq<u8>)> {
    match resp.choices {
        None => None,
        Some(choices) => if choices@.len() == 0 {
            None
        } else {
            match choices@[0].message {
                None => None,
                Some(m) => match m.content {
                    None => None,
                    Some(c) => content_source(c),
                },
            }
        },
    }
}

/// `r` is what decoding the image string `src` gives, `NoImageInResponse`
/// where there is none.
pub open spec fn source_outcome(
    src: Option<(SourceKind, Seq<u8>)>,
    r: Result<Vec<u8>, SpriteGenError>,
) -> bool {
    match src {
        None => r matches Err(SpriteGenError::NoImageInResponse),
        Some((SourceKind::DataUrl, s)) => data_url_outcome(s, r),
        Some((SourceKind::Base64, s)) => base64_outcome(s, r),
    }
}

fn starts_with_data(b: &[u8]) -> (r: bool)
    ensures
        r == has_data_prefix(b@),
{
    if b.len() < 5 {
        return false;
    }
    let r = b[0] == 100u8 && b[1] == 97u8 && b[2] == 116u8 && b[3] == 97u8 && b[4] == 58u8;
    assert(r == (b@.take(5) =~= seq![100u8, 97u8, 116u8, 97u8, 58u8]));
    r
}

fn decode_parts(parts: &Vec<ContentPart>) -> (r: Result<Vec<u8>, SpriteGenError>)
    ensures
        source_outcome(parts_source(parts@, 0), r),
{
    let mut i: usize = 0;
    while i < parts.len()
        invariant
            i <= parts@.len(),
            parts_source(parts@, 0) == parts_source(parts@, i as int),
        decreases parts.len() - i,
    {
        let part = &parts[i];
        match &part.image_url {
            Some(url) => {
                return decode_data_url(url.as_str());
            },
            None => {},
        }
        match &part.b64_json {
            Some(b64) => {
                return decode_base64(b64.as_str().as_bytes());
            },
            None => {},
        }
        i = i + 1;
    }
    Err(SpriteGenError::NoImageInResponse)
}

/// The image bytes of an answer: the first choice's message content holds
/// either parts (the first with an `image_url` or a `b64_json` gives the
/// image) or a string (a `data:` URL, else bare base64).
pub fn extract_image_from_response(response: ChatResponse) -> (r: Result<Vec<u8>, SpriteGenError>)
    ensures
        source_outcome(response_source(response), r),
{
    let choices = match response.choices {
        Some(c) => c,
        None => {
            return Err(SpriteGenError::NoImageInResponse);
        },
    };
    if choices.len() == 0 {
        return Err(SpriteGenError::NoImageInResponse);
    }
    let message = match &choices[0].message {
        Some(m) => m,
        None => {
            return Err(SpriteGenError::NoImageInResponse);
        },
    };
    let content = match &message.content {
        Some(c) => c,
        None => {
            return Err(SpriteGenError::NoImageInResponse);
        },
    };
    match content {
        MessageContent::Parts(parts) => decode_parts(parts),
        MessageContent::Text(s) => {
            let b = s.as_str().as_bytes();
            if starts_with_data(b) {
                decode_data_url(s.as_str())
            } else {
                decode_base64(b)
            }
        },
        MessageContent::Other => Err(SpriteGenError::NoImageInResponse),
    }
}

/// The text of an error body: its message, or a fixed phrase without one.
pub open spec fn api_error_text(e: ApiError) -> Seq<char> {
    match e.message {
        Some(m) => m@,
        None => "unknown API error"@,
    }
}

/// What a successful (2xx) answer of the chat API gives: an error body
/// becomes an `Api` error with status 400, anything else goes to image
/// extraction.
pub fn interpret_chat_response(response: ChatResponse) -> (r: Result<Vec<u8>, SpriteGenError>)
    ensures
        match response.error {
            Some(e) => match r {
                Err(SpriteGenError::Api { status, message }) => status == 400 && message@ == api_error_text(e),
                _ => false,
            },
            None => source_outcome(response_source(response), r),
        },
{
    match response.error {
        Some(err) => {
            let message = match err.message {
                Some(m) => m,
                None => {
                    proof {
                        reveal_strlit("unknown API error");
                    }
                    String::from_str("unknown API error")
                },
            };
            Err(SpriteGenError::Api { status: 400, message })
        },
        None => extract_image_from_response(response),
    }
}

} // verus!
