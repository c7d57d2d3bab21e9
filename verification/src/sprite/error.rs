use base64::DecodeError;
use vstd::prelude::*;

verus! {

/// base64's decoding error, carried through as an opaque value.
#[verifier::external_type_specification]
#[verifier::external_body]
pub struct ExDecodeError(DecodeError);

/// Everything that can go wrong while producing a sprite.
#[derive(Debug)]
pub enum SpriteGenError {
    /// The environment variable that holds the API key is not set.
    MissingApiKey(&'static str),
    /// The image API answered with an error status or an error body.
    Api { status: u16, message: String },
    /// The API answer holds no image.
    NoImageInResponse,
    /// A `data:` URL without the comma that separates header and payload.
    InvalidDataUrl,
    /// The HTTP request itself failed; the text describes why.
    Http(String),
    /// An image payload is not valid standard base64.
    Base64(DecodeError),
    /// The image generation call failed; the text describes why.
    ImageGeneration(String),
    /// Decoding or transforming the image failed; the text describes why.
    ImageProcessing(String),
    /// No sprite of that name in the manifest.
    NotFound(String),
    /// A file could not be written; the text describes why.
    Io(String),
}

} // verus!
