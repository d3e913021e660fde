use localhost::upload::{parse_multipart, MultipartError};

#[test]
fn single_file_part() {
    let body = b"--XyZ\r\nContent-Disposition: form-data; name=\"f\"; filename=\"notes.txt\"\r\nContent-Type: text/plain\r\n\r\nhello\nworld\r\n--XyZ--\r\n";
    let parts = parse_multipart(body, "XyZ").unwrap();
    assert_eq!(parts.len(), 1);
    assert_eq!(parts[0].filename, "notes.txt");
    assert_eq!(parts[0].content, b"hello\nworld".to_vec());
}

#[test]
fn two_file_parts_in_order() {
    let body = b"--b\r\nContent-Disposition: form-data; filename=\"a.bin\"\r\n\r\nAAA\r\n--b\r\nContent-Disposition: form-data; filename= b.bin \r\n\r\nBB\r\n--b--";
    let parts = parse_multipart(body, "b").unwrap();
    assert_eq!(parts.len(), 2);
    assert_eq!(parts[0].filename, "a.bin");
    assert_eq!(parts[0].content, b"AAA".to_vec());
    assert_eq!(parts[1].filename, "b.bin");
    assert_eq!(parts[1].content, b"BB".to_vec());
}

#[test]
fn part_without_file_name_has_empty_name() {
    let body = b"--b\r\nContent-Disposition: form-data; name=\"field\"\r\n\r\nvalue\r\n--b--";
    let parts = parse_multipart(body, "b").unwrap();
    assert_eq!(parts.len(), 1);
    assert_eq!(parts[0].filename, "");
    assert_eq!(parts[0].content, b"value".to_vec());
}

#[test]
fn body_without_boundary_has_no_parts() {
    let parts = parse_multipart(b"just some bytes", "b").unwrap();
    assert!(parts.is_empty());
}

#[test]
fn part_headers_must_be_utf8() {
    let body = b"--b\r\nContent-Disposition: \xff\r\n\r\nx\r\n--b--";
    assert!(matches!(parse_multipart(body, "b"), Err(MultipartError::HeaderUtf8)));
}

#[test]
fn delimiter_right_after_headers_gives_empty_content() {
    let parts = parse_multipart(b"--b\r\nX: y\r\n\r\n--b--", "b").unwrap();
    assert_eq!(parts.len(), 1);
    assert_eq!(parts[0].filename, "");
    assert!(parts[0].content.is_empty());
    let parts = parse_multipart(b"--B\r\nX\r\n\r\n--B", "B").unwrap();
    assert_eq!(parts.len(), 1);
    assert!(parts[0].content.is_empty());
}
