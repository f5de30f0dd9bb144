use localhost::config::RouteConfig;
use localhost::handler::route_relative;
use localhost::headers::HeaderMap;
use localhost::http::Request;
use localhost::multipart::{multipart_filename, parse_multipart_file};

fn upload_route() -> RouteConfig {
    RouteConfig {
        path: "/uploads".into(),
        methods: vec!["GET".into(), "POST".into(), "DELETE".into()],
        root: "./public/uploads".into(),
        index: None,
        autoindex: true,
        redirect: None,
        cgi: vec![],
    }
}

fn form(content_type: Option<&str>, body: &[u8]) -> Request {
    let mut headers = HeaderMap::new();
    if let Some(value) = content_type {
        headers.insert("content-type".into(), value.to_string());
    }
    Request {
        method: "POST".into(),
        target: "/uploads".into(),
        path: "/uploads".into(),
        query: String::new(),
        version: "HTTP/1.1".into(),
        headers,
        body: body.to_vec(),
    }
}

fn error(content_type: Option<&str>, body: &[u8]) -> String {
    parse_multipart_file(&form(content_type, body)).unwrap_err()
}

#[test]
fn route_relative_strips_location_prefix() {
    assert_eq!(
        route_relative(&upload_route(), "/uploads/a.txt"),
        "a.txt"
    );
}

#[test]
fn route_relative_of_other_paths() {
    let mut root = upload_route();
    root.path = "/".into();
    assert_eq!(route_relative(&root, "/a/b"), "a/b");
    assert_eq!(route_relative(&root, "/"), "");
    assert_eq!(route_relative(&upload_route(), "/uploads"), "");
    assert_eq!(route_relative(&upload_route(), "/elsewhere"), "");
}

#[test]
fn extracts_multipart_file() {
    let boundary = "abc123";
    let body = format!(
        "--{boundary}\r\nContent-Disposition: form-data; name=\"file\"; filename=\"hello.txt\"\r\nContent-Type: text/plain\r\n\r\nhello\r\n--{boundary}--\r\n"
    )
    .into_bytes();
    let mut headers = HeaderMap::new();
    headers.insert(
        "content-type".into(),
        format!("multipart/form-data; boundary={boundary}"),
    );
    let req = Request {
        method: "POST".into(),
        target: "/uploads".into(),
        path: "/uploads".into(),
        query: String::new(),
        version: "HTTP/1.1".into(),
        headers,
        body,
    };
    let (name, bytes) = parse_multipart_file(&req).unwrap();
    assert_eq!(name, "hello.txt");
    assert_eq!(bytes, b"hello");
}

#[test]
fn upload_keeps_every_byte() {
    let mut data: Vec<u8> = (0..=255).collect();
    data.extend_from_slice(b"\r\n--b\r\n\r\n--");
    let mut body = b"--bb\r\nContent-Disposition: form-data; name=a\r\n\r\nvalue\r\n--bb\r\nCONTENT-disposition: form-data; filename=\"dir/x y\"\r\n\r\n".to_vec();
    body.extend_from_slice(&data);
    body.extend_from_slice(b"\r\n--bb--\r\n");
    let request = form(Some("multipart/form-data; boundary=\"bb\""), &body);
    let (name, content) = parse_multipart_file(&request).unwrap();
    assert_eq!(name, "x_y");
    assert_eq!(content, data);
}

#[test]
fn parts_without_a_file_are_passed_over() {
    let body = b"--b\r\nX: 1\r\n\r\none\r\n--b\r\nX: 2\r\n\r\n\r\n--b\r\nContent-Disposition: x; filename=f\r\n\r\nfile\r\n--b anything";
    let request = form(Some("multipart/form-data; boundary=b"), body);
    assert_eq!(parse_multipart_file(&request).unwrap(), ("f".to_string(), b"file".to_vec()));
    let body = b"--b\r\nX: 1\r\n\r\none\r\n--b\r\nX: 2\r\n\r\n\r\n--b--\r\n";
    assert_eq!(
        error(Some("multipart/form-data; boundary=b"), body),
        "multipart body contains no file part"
    );
}

#[test]
fn names_what_is_wrong_with_a_form() {
    let b = Some("multipart/form-data; boundary=b");
    assert_eq!(error(None, b""), "multipart request has no Content-Type");
    assert_eq!(error(Some("multipart/form-data"), b""), "multipart boundary is missing");
    assert_eq!(error(Some("multipart/form-data; boundary=\"\""), b""), "multipart boundary is missing");
    assert_eq!(error(b, b""), "multipart body contains no file part");
    assert_eq!(error(b, b"--b--\r\n"), "multipart body contains no file part");
    assert_eq!(error(b, b"--bx"), "malformed multipart boundary");
    assert_eq!(error(b, b"--b\r\nX: y\r\n"), "malformed multipart headers");
    assert_eq!(error(b, b"--b\r\nX: y\r\n\r\ndata"), "unterminated multipart part");
    assert_eq!(
        error(b, b"--b\r\nContent-Disposition: x; filename=\"..\"\r\n\r\n\r\n--b--"),
        "invalid multipart filename"
    );
}

#[test]
fn file_names_are_read_from_dispositions() {
    assert_eq!(
        multipart_filename("X: filename=a\r\ncontent-disposition: form-data ; filename=\"b\" ; c"),
        Some("b".to_string())
    );
    assert_eq!(multipart_filename("Content-Disposition: form-data; name=\"f\""), None);
}

#[test]
fn invalid_text_in_part_headers_is_replaced() {
    let body = b"--b\r\nContent-Disposition: x; filename=a\xff.txt\r\n\r\nd\r\n--b--";
    let request = form(Some("multipart/form-data; boundary=b"), body);
    assert_eq!(parse_multipart_file(&request).unwrap(), ("a_.txt".to_string(), b"d".to_vec()));
}
