//! What the client decides between its reads and its requests.

use crate::common::FileResponse;
use crate::file_map::FileMap;
use crate::merkle_tree::{root_of, steps_of, MerkleTree};
use crate::utils::{accepts, verify_merkle_proof};
use vstd::prelude::*;
use vstd::string::StringExecFns;

verus! {

/// Fewest files that the client uploads and builds a tree of.
pub const MIN_FILES: usize = 2;

/// Why the client gave up.
#[derive(Clone, Copy, Debug, PartialEq, Eq, Structural)]
pub enum ClientError {
    /// The client was given no directory of files.
    NoDirectory,
    /// The directory holds nothing.
    EmptyDirectory,
    /// The directory holds fewer than `MIN_FILES` files.
    NotEnoughFiles,
    /// There is no root digest to store.
    NoMerkleRoot,
    /// The server did not send the file.
    RequestFailed,
}

impl ClientError {
    /// The text of this error.
    pub open spec fn text(self) -> Seq<char> {
        match self {
            ClientError::NoDirectory => "Client has no set directory path"@,
            ClientError::EmptyDirectory => "The directory is empty"@,
            ClientError::NotEnoughFiles => "Not enough files to upload, must be > 2"@,
            ClientError::NoMerkleRoot => "Client has no merkle root to store"@,
            ClientError::RequestFailed => "Failed to retrieve file from server"@,
        }
    }

    /// The message that the client shows for this error.
    pub fn message(&self) -> (message: &'static str)
        ensures
            message@ == self.text(),
    {
        match self {
            ClientError::NoDirectory => "Client has no set directory path",
            ClientError::EmptyDirectory => "The directory is empty",
            ClientError::NotEnoughFiles => "Not enough files to upload, must be > 2",
            ClientError::NoMerkleRoot => "Client has no merkle root to store",
            ClientError::RequestFailed => "Failed to retrieve file from server",
        }
    }
}

/// Whether a directory with `entries` entries is uploaded: not an empty one,
/// and not one with fewer than `MIN_FILES` entries.
pub fn check_entry_count(entries: usize) -> (outcome: Result<(), ClientError>)
    ensures
        entries == 0 ==> outcome == Err::<(), _>(ClientError::EmptyDirectory),
        0 < entries < MIN_FILES ==> outcome == Err::<(), _>(ClientError::NotEnoughFiles),
        entries >= MIN_FILES ==> outcome is Ok,
{
    if entries == 0 {
        Err(ClientError::EmptyDirectory)
    } else if entries < MIN_FILES {
        Err(ClientError::NotEnoughFiles)
    } else {
        Ok(())
    }
}

/// The root digest that the client keeps for `files`: that of their tree,
/// where there are `MIN_FILES` files or more.
pub fn compute_merkle_root(files: &FileMap) -> (outcome: Result<Vec<u8>, ClientError>)
    ensures
        files@.len() < MIN_FILES ==> outcome == Err::<Vec<u8>, _>(ClientError::NotEnoughFiles),
        files@.len() >= MIN_FILES ==> outcome is Ok,
        outcome matches Ok(root) ==> root@ == root_of(files@).hash,
{
    if files.len() < MIN_FILES {
        return Err(ClientError::NotEnoughFiles);
    }
    match MerkleTree::new(files) {
        Ok(merkle_tree) => Ok(merkle_tree.root.hash),
        Err(_) => Err(ClientError::NotEnoughFiles),
    }
}

/// The root digest that is written to disk: the one that the client holds,
/// if it holds one.
pub fn root_to_store(merkle_root: &Option<Vec<u8>>) -> (outcome: Result<Vec<u8>, ClientError>)
    ensures
        merkle_root is None ==> outcome == Err::<Vec<u8>, _>(ClientError::NoMerkleRoot),
        merkle_root matches Some(root) ==> outcome matches Ok(stored) && stored@ == root@,
{
    match merkle_root {
        Some(root) => Ok(root.clone()),
        None => Err(ClientError::NoMerkleRoot),
    }
}

/// The address under which the server takes uploads.
pub fn upload_url(server_url: &str) -> (url: String)
    ensures
        url@ == server_url@ + "/upload"@,
{
    let mut url = String::from_str(server_url);
    url.append("/upload");
    url
}

/// The address under which the server gives out the file `filename`.
pub fn file_url(server_url: &str, filename: &str) -> (url: String)
    ensures
        url@ == server_url@ + "/file/"@ + filename@,
{
    let mut url = String::from_str(server_url);
    url.append("/file/");
    url.append(filename);
    url
}

/// Whether the file that the server sent is under the root digest that the
/// client kept: whether its audit path is accepted for its content.
pub fn response_is_valid(response: FileResponse, merkle_root: Vec<u8>) -> (valid: bool)
    ensures
        valid == accepts(steps_of(response.merkle_proof@), merkle_root@, response.content@),
{
    verify_merkle_proof(response.merkle_proof, merkle_root, response.content)
}

} // verus!
