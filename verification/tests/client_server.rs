use merkle_rs::client::{
    check_entry_count, compute_merkle_root, file_url, response_is_valid, root_to_store,
    upload_url, ClientError,
};
use merkle_rs::common::{FileResponse, UploadRequest};
use merkle_rs::file_map::FileMap;
use merkle_rs::merkle_tree::MerkleTree;
use merkle_rs::server::{decode_upload, file_path, prove_file, ServerError};

fn two_files() -> FileMap {
    let mut files = FileMap::new();
    files.insert("hello1.txt".to_string(), b"Hello World".to_vec()).unwrap();
    files.insert("hello2.txt".to_string(), b"Hello World".to_vec()).unwrap();
    files
}

#[test]
fn client_errors_have_their_messages() {
    assert_eq!(ClientError::NoDirectory.message(), "Client has no set directory path");
    assert_eq!(ClientError::EmptyDirectory.message(), "The directory is empty");
    assert_eq!(ClientError::NotEnoughFiles.message(), "Not enough files to upload, must be > 2");
    assert_eq!(ClientError::NoMerkleRoot.message(), "Client has no merkle root to store");
    assert_eq!(ClientError::RequestFailed.message(), "Failed to retrieve file from server");
}

#[test]
fn directories_of_fewer_than_two_entries_are_not_uploaded() {
    assert_eq!(check_entry_count(0), Err(ClientError::EmptyDirectory));
    assert_eq!(check_entry_count(1), Err(ClientError::NotEnoughFiles));
    assert_eq!(check_entry_count(2), Ok(()));
    assert_eq!(check_entry_count(1000), Ok(()));
}

#[test]
fn client_root_is_the_root_of_the_tree() {
    let files = two_files();
    assert_eq!(
        compute_merkle_root(&files),
        Ok(MerkleTree::new(&files).unwrap().get_root_hash())
    );
    let mut one = FileMap::new();
    assert_eq!(compute_merkle_root(&one), Err(ClientError::NotEnoughFiles));
    one.insert("a".to_string(), vec![1]).unwrap();
    assert_eq!(compute_merkle_root(&one), Err(ClientError::NotEnoughFiles));
}

#[test]
fn only_a_held_root_is_stored() {
    assert_eq!(root_to_store(&Some(vec![1, 2, 3, 4])), Ok(vec![1, 2, 3, 4]));
    assert_eq!(root_to_store(&None), Err(ClientError::NoMerkleRoot));
}

#[test]
fn addresses_are_built_from_the_server_address() {
    assert_eq!(upload_url("http://localhost:8000"), "http://localhost:8000/upload");
    assert_eq!(
        file_url("http://localhost:8000", "hello1.txt"),
        "http://localhost:8000/file/hello1.txt"
    );
    assert_eq!(file_url("", ""), "/file/");
}

#[test]
fn server_errors_have_their_status() {
    assert_eq!(ServerError::BadRequest.status_code(), 400);
    assert_eq!(ServerError::Internal.status_code(), 500);
}

#[test]
fn upload_with_bad_content_is_a_bad_request() {
    let good = UploadRequest::for_file("hello.txt".to_string(), &b"Hello World".to_vec());
    assert_eq!(decode_upload(&good), Ok(b"Hello World".to_vec()));
    let bad = UploadRequest { filename: "hello.txt".to_string(), content: "*".to_string() };
    assert_eq!(decode_upload(&bad), Err(ServerError::BadRequest));
}

#[test]
fn file_path_joins_with_a_slash() {
    assert_eq!(file_path("server_files", "hello1.txt"), "server_files/hello1.txt");
}

#[test]
fn served_file_is_accepted_by_the_client() {
    let files = two_files();
    let root = compute_merkle_root(&files).unwrap();
    let response =
        prove_file("hello1.txt".to_string(), b"Hello World".to_vec(), &files).ok().unwrap();
    assert_eq!(response.filename, "hello1.txt");
    assert_eq!(
        response.content,
        vec![72, 101, 108, 108, 111, 32, 87, 111, 114, 108, 100]
    );
    assert_eq!(response.merkle_proof.len(), 2);
    assert!(response_is_valid(response, root.clone()));

    let forged = prove_file("hello1.txt".to_string(), b"Hello World!".to_vec(), &files)
        .ok()
        .unwrap();
    assert!(!response_is_valid(forged, root));
}

#[test]
fn file_without_a_path_is_a_server_failure() {
    let files = two_files();
    assert_eq!(
        prove_file("absent.txt".to_string(), vec![], &files).err(),
        Some(ServerError::Internal)
    );
    assert_eq!(
        prove_file("a".to_string(), vec![], &FileMap::new()).err(),
        Some(ServerError::Internal)
    );
    let mut one = FileMap::new();
    one.insert("a".to_string(), vec![1]).unwrap();
    assert_eq!(prove_file("a".to_string(), vec![1], &one).err(), Some(ServerError::Internal));
}

#[test]
fn response_with_a_foreign_proof_is_invalid() {
    let files = two_files();
    let response = FileResponse::new("x".to_string(), b"Hello World".to_vec(), Vec::new());
    assert!(!response_is_valid(response, compute_merkle_root(&files).unwrap()));
}

fn mock_upload_request(content: &str, filename: &str) -> UploadRequest {
    UploadRequest { content: content.to_string(), filename: filename.to_string() }
}

fn upload_two_files(files: &mut FileMap) {
    for filename in ["hello1.txt", "hello2.txt"] {
        let req = mock_upload_request("SGVsbG8gV29ybGQ=", filename);
        let content = decode_upload(&req).unwrap();
        files.insert(req.filename, content).unwrap();
    }
}

#[test]
fn test_upload() {
    let req = mock_upload_request("SGVsbG8gV29ybGQ=", "hello.txt");
    let resp = decode_upload(&req).map(|_| merkle_rs::common::UploadResponse::uploaded());

    assert!(resp.is_ok());
    assert_eq!(
        resp.ok().unwrap().message,
        "File uploaded succesfully".to_string()
    );
}

#[test]
fn test_request_file() {
    let mut files = FileMap::new();
    upload_two_files(&mut files);

    let filename = "hello1.txt".to_string();
    let content = files.get(&filename).unwrap().clone();
    let resp = prove_file(filename, content, &files);

    assert!(resp.is_ok());
    let file_response = resp.ok().unwrap();
    assert_eq!(file_response.filename, "hello1.txt".to_string());
    assert_eq!(
        file_response.content,
        vec![72, 101, 108, 108, 111, 32, 87, 111, 114, 108, 100]
    ); // "Hello World" in bytes
}
