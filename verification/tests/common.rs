use merkle_rs::common::{content_from_decoder, FileResponse, UploadRequest, UploadResponse};
use merkle_rs::merkle_tree::{NodeOrder, ProofListItem};

#[test]
fn file_response_keeps_what_it_is_given() {
    let proof = vec![ProofListItem::new(vec![1, 2, 3], Some(NodeOrder::Left))];
    let response = FileResponse::new("hello1.txt".to_string(), vec![72, 101], proof);
    assert_eq!(response.filename, "hello1.txt");
    assert_eq!(response.content, vec![72, 101]);
    assert_eq!(response.merkle_proof.len(), 1);
    assert_eq!(response.merkle_proof[0].hash, vec![1, 2, 3]);
    assert_eq!(response.merkle_proof[0].order, Some(NodeOrder::Left));
}

#[test]
fn upload_carries_the_content_in_base64() {
    let request = UploadRequest::for_file("hello.txt".to_string(), &b"Hello World".to_vec());
    assert_eq!(request.filename, "hello.txt");
    assert_eq!(request.content, "SGVsbG8gV29ybGQ=");
}

#[test]
fn base64_pads_the_last_group() {
    let encode = |data: &[u8]| UploadRequest::for_file(String::new(), &data.to_vec()).content;
    assert_eq!(encode(b""), "");
    assert_eq!(encode(b"f"), "Zg==");
    assert_eq!(encode(b"fo"), "Zm8=");
    assert_eq!(encode(b"foo"), "Zm9v");
    assert_eq!(encode(b"foob"), "Zm9vYg==");
    assert_eq!(encode(&[0xfb, 0xff, 0xbe]), "+/++");
}

#[test]
fn upload_content_is_decoded() {
    let request =
        UploadRequest { filename: "hello1.txt".to_string(), content: "SGVsbG8gV29ybGQ=".to_string() };
    assert_eq!(
        request.decoded_content(),
        Some(vec![72, 101, 108, 108, 111, 32, 87, 111, 114, 108, 100])
    );
}

#[test]
fn content_that_is_not_base64_is_not_decoded() {
    for text in ["SGVsbG8gV29ybGQ", "not base64!", "SGVsbG8=V29ybGQ=", "Zh=="] {
        let request = UploadRequest { filename: "x".to_string(), content: text.to_string() };
        assert_eq!(request.decoded_content(), None);
    }
}

#[test]
fn encoded_content_decodes_to_itself() {
    let data: Vec<u8> = (0..=255).collect();
    for len in [0, 1, 2, 3, 4, 5, 64, 255, 256] {
        let request = UploadRequest::for_file("f".to_string(), &data[..len].to_vec());
        assert_eq!(request.decoded_content(), Some(data[..len].to_vec()));
    }
}

#[test]
fn decoder_outcome_becomes_an_option() {
    assert_eq!(content_from_decoder(Ok(vec![1, 2])), Some(vec![1, 2]));
    assert_eq!(content_from_decoder(Err(base64::DecodeError::InvalidLength)), None);
    assert_eq!(content_from_decoder(Err(base64::DecodeError::InvalidPadding)), None);
}

#[test]
fn upload_is_answered_with_its_message() {
    assert_eq!(UploadResponse::uploaded().message, "File uploaded succesfully");
}
