//! What client and server send each other, and the base64 form in which file
//! contents travel.

use crate::merkle_tree::ProofListItem;
use base64::Engine;
use vstd::prelude::*;

verus! {

/// A file sent to the server: its name and its content in base64.
pub struct UploadRequest {
    pub filename: String,
    pub content: String,
}

/// The server's answer to an upload.
pub struct UploadResponse {
    pub message: String,
}

/// A file sent back by the server, with the audit path that proves it.
pub struct FileResponse {
    pub filename: String,
    pub content: Vec<u8>,
    pub merkle_proof: Vec<ProofListItem>,
}

impl FileResponse {
    /// The answer that carries the file `filename` with `content` and the
    /// audit path `merkle_proof`.
    pub fn new(filename: String, content: Vec<u8>, merkle_proof: Vec<ProofListItem>) -> (response:
        Self)
        ensures
            response.filename == filename,
            response.content == content,
            response.merkle_proof == merkle_proof,
    {
        FileResponse { filename, content, merkle_proof }
    }
}

/// The base64 character for `value`, which is below 64.
pub open spec fn base64_char(value: int) -> char {
    "ABCDEFGHIJKLMNOPQRSTUVWXYZabcdefghijklmnopqrstuvwxyz0123456789+/"@[value]
}

/// The standard base64 form of `data`, with padding: four characters for
/// every three bytes, six bits each, and `=` where the last group has no
/// bits left.
pub open spec fn base64_standard(data: Seq<u8>) -> Seq<char>
    decreases data.len(),
{
    if data.len() == 0 {
        seq![]
    } else if data.len() == 1 {
        seq![base64_char(data[0] as int / 4), base64_char((data[0] as int % 4) * 16), '=', '=']
    } else if data.len() == 2 {
        seq![
            base64_char(data[0] as int / 4),
            base64_char((data[0] as int % 4) * 16 + data[1] as int / 16),
            base64_char((data[1] as int % 16) * 4),
            '=',
        ]
    } else {
        seq![
            base64_char(data[0] as int / 4),
            base64_char((data[0] as int % 4) * 16 + data[1] as int / 16),
            base64_char((data[1] as int % 16) * 4 + data[2] as int / 64),
            base64_char(data[2] as int % 64),
        ] + base64_standard(data.skip(3))
    }
}

/// The bytes that `text` stands for in standard base64 with padding, or
/// `None` where it is not such a text: what the `STANDARD` engine of the
/// `base64` crate decodes it to. The function is named here, not defined.
pub uninterp spec fn base64_decoded(text: Seq<char>) -> Option<Seq<u8>>;

/// Whether `data` is short enough to have a base64 form in memory.
pub open spec fn encodable(data: Seq<u8>) -> bool {
    (data.len() / 3 + 1) * 4 <= isize::MAX
}

/// The error of the `base64` crate's decoder, `base64::DecodeError`. Nothing
/// is read from it.
#[verifier::external_type_specification]
#[verifier::external_body]
pub struct ExDecodeError(base64::DecodeError);

/// Encodes `data` with `Engine::encode` of the `base64` crate, on its
/// `STANDARD` engine.
///
/// Trusted, not proved: the result is the standard base64 form of `data`,
/// with padding. Inputs whose encoded length does not fit in memory are left
/// out: the encoder panics on them.
#[verifier::external_body]
fn base64_encode(data: &[u8]) -> (text: String)
    requires
        encodable(data@),
    ensures
        text@ == base64_standard(data@),
{
    base64::engine::general_purpose::STANDARD.encode(data)
}

/// Decodes `text` with `Engine::decode` of the `base64` crate, on its
/// `STANDARD` engine.
///
/// Trusted, not proved: whether the decoder takes a text, and the bytes that
/// it gives for it, depend on the text alone, so that the outcome has a name.
#[verifier::external_body]
fn base64_decode(text: &str) -> (bytes: Result<Vec<u8>, base64::DecodeError>)
    ensures
        match bytes {
            Ok(decoded) => base64_decoded(text@) == Some(decoded@),
            Err(_) => base64_decoded(text@) is None,
        },
{
    base64::engine::general_purpose::STANDARD.decode(text)
}

/// What a decoded content is, for each outcome of the decoder: the bytes
/// where it gave some, nothing where it failed.
pub fn content_from_decoder(outcome: Result<Vec<u8>, base64::DecodeError>) -> (content: Option<
    Vec<u8>,
>)
    ensures
        content is Some == outcome is Ok,
        content matches Some(bytes) ==> outcome matches Ok(decoded) && bytes == decoded,
{
    match outcome {
        Ok(decoded) => Some(decoded),
        Err(_) => None,
    }
}

impl UploadRequest {
    /// The request that uploads `content` under the name `filename`.
    pub fn for_file(filename: String, content: &Vec<u8>) -> (request: Self)
        requires
            encodable(content@),
        ensures
            request.filename == filename,
            request.content@ == base64_standard(content@),
    {
        UploadRequest { filename, content: base64_encode(content.as_slice()) }
    }

    /// The bytes of the uploaded file, or `None` where the content is not
    /// base64.
    pub fn decoded_content(&self) -> (content: Option<Vec<u8>>)
        ensures
            match content {
                Some(bytes) => base64_decoded(self.content@) == Some(bytes@),
                None => base64_decoded(self.content@) is None,
            },
    {
        content_from_decoder(base64_decode(self.content.as_str()))
    }
}

/// The message of a successful upload.
pub open spec fn uploaded_message() -> Seq<char> {
    "File uploaded succesfully"@
}

impl UploadResponse {
    /// The answer to a successful upload.
    pub fn uploaded() -> (response: Self)
        ensures
            response.message@ == uploaded_message(),
    {
        UploadResponse { message: "File uploaded succesfully".to_string() }
    }
}

} // verus!
