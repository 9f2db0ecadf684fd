//! What the server decides between its reads and its answers.

use crate::common::{base64_decoded, FileResponse, UploadRequest};
use crate::digest::sha256;
use crate::file_map::{content_of, has_name, FileMap};
use crate::merkle_tree::{root_of, steps_of, MerkleTree};
use vstd::prelude::*;
use vstd::string::StringExecFns;

verus! {

/// Why the server turned a request down.
#[derive(Clone, Copy, Debug, PartialEq, Eq, Structural)]
pub enum ServerError {
    /// The request is not as it should be.
    BadRequest,
    /// The server could not do its part.
    Internal,
}

impl ServerError {
    /// The HTTP status that answers a request turned down for this reason.
    pub fn status_code(&self) -> (code: u16)
        ensures
            code == match self {
                ServerError::BadRequest => 400u16,
                ServerError::Internal => 500u16,
            },
    {
        match self {
            ServerError::BadRequest => 400,
            ServerError::Internal => 500,
        }
    }
}

/// The bytes to store for an upload: the decoded content of the request. A
/// content that is not base64 makes a bad request.
pub fn decode_upload(body: &UploadRequest) -> (outcome: Result<Vec<u8>, ServerError>)
    ensures
        match outcome {
            Ok(bytes) => base64_decoded(body.content@) == Some(bytes@),
            Err(error) => error == ServerError::BadRequest && base64_decoded(body.content@)
                is None,
        },
{
    match body.decoded_content() {
        Some(bytes) => Ok(bytes),
        None => Err(ServerError::BadRequest),
    }
}

/// The place of the file `filename` in the directory `directory`.
pub fn file_path(directory: &str, filename: &str) -> (path: String)
    ensures
        path@ == directory@ + "/"@ + filename@,
{
    let mut path = String::from_str(directory);
    path.append("/");
    path.append(filename);
    path
}

/// The answer to a request for the file `filename`, whose bytes on disk are
/// `content`: the file with its audit path in the tree of `files`, the
/// server's files at this moment. Where the tree gives no path for that name
/// the server has failed.
pub fn prove_file(filename: String, content: Vec<u8>, files: &FileMap) -> (outcome: Result<
    FileResponse,
    ServerError,
>)
    ensures
        outcome matches Err(error) ==> error == ServerError::Internal,
        outcome is Ok <==> has_name(files@, filename@) && root_of(files@).audit_path(
            sha256(content_of(files@, filename@)),
        ).len() > 0,
        outcome matches Ok(response) ==> {
            &&& response.filename == filename
            &&& response.content == content
            &&& steps_of(response.merkle_proof@) == root_of(files@).audit_path(
                sha256(content_of(files@, filename@)),
            )
        },
{
    let merkle_tree = match MerkleTree::new(files) {
        Ok(tree) => tree,
        Err(_) => {
            assert(!has_name(files@, filename@));
            return Err(ServerError::Internal);
        },
    };
    match merkle_tree.generate_merkle_proof(filename.as_str(), files) {
        Some(proof_list) => Ok(FileResponse::new(filename, content, proof_list)),
        None => Err(ServerError::Internal),
    }
}

} // verus!
