use localhost::date::push_http_date;
use localhost::response::{mime_type, reason_phrase, Response};

fn date(seconds: u64) -> String {
    let mut out = String::new();
    push_http_date(&mut out, seconds);
    out
}

#[test]
fn response_is_head_and_body() {
    let response = Response::new(201, b"hi".to_vec()).header("X-A", "b");
    assert_eq!(
        response.to_bytes_at(true, 0),
        b"HTTP/1.1 201 Created\r\nX-A: b\r\nContent-Type: text/plain; charset=utf-8\r\nContent-Length: 2\r\nConnection: keep-alive\r\nDate: Thu, 01 Jan 1970 00:00:00 GMT\r\nServer: localhost/0.1\r\n\r\nhi"
    );
}

#[test]
fn own_headers_are_kept() {
    let response = Response::new(200, Vec::new())
        .header("content-TYPE", "a/b")
        .header("Content-length", "0")
        .header("CONNECTION", "upgrade")
        .header("date", "never");
    assert_eq!(
        response.to_bytes_at(false, 9),
        b"HTTP/1.1 200 OK\r\ncontent-TYPE: a/b\r\nContent-length: 0\r\nCONNECTION: upgrade\r\ndate: never\r\nServer: localhost/0.1\r\n\r\n"
    );
}

#[test]
fn response_is_dated_by_the_clock() {
    let text = String::from_utf8(Response::new(204, Vec::new()).to_bytes(false)).unwrap();
    assert!(text.starts_with("HTTP/1.1 204 No Content\r\n"));
    assert!(text.contains("Connection: close\r\n"));
    assert!(text.contains("\r\nDate: "));
    assert!(!text.contains("1970"));
}

#[test]
fn dates_follow_the_calendar() {
    assert_eq!(date(784111777), "Sun, 06 Nov 1994 08:49:37 GMT");
    assert_eq!(date(951782400), "Tue, 29 Feb 2000 00:00:00 GMT");
    assert_eq!(date(1709251199), "Thu, 29 Feb 2024 23:59:59 GMT");
    assert_eq!(date(4107542400), "Mon, 01 Mar 2100 00:00:00 GMT");
    assert_eq!(date(13574606400), "Tue, 29 Feb 2400 12:00:00 GMT");
}

#[test]
fn statuses_have_reasons() {
    let known = [
        (200, "OK"),
        (201, "Created"),
        (204, "No Content"),
        (301, "Moved Permanently"),
        (302, "Found"),
        (303, "See Other"),
        (307, "Temporary Redirect"),
        (308, "Permanent Redirect"),
        (400, "Bad Request"),
        (403, "Forbidden"),
        (404, "Not Found"),
        (405, "Method Not Allowed"),
        (408, "Request Timeout"),
        (413, "Payload Too Large"),
        (500, "Internal Server Error"),
        (502, "Bad Gateway"),
        (504, "Gateway Timeout"),
        (418, "Unknown"),
    ];
    for (status, reason) in known {
        assert_eq!(reason_phrase(status), reason);
    }
}

#[test]
fn files_have_types() {
    let known = [
        ("index.html", "text/html; charset=utf-8"),
        ("a/b.HTM", "text/html; charset=utf-8"),
        ("x.css", "text/css; charset=utf-8"),
        ("x.js", "application/javascript; charset=utf-8"),
        ("x.json", "application/json; charset=utf-8"),
        ("x.txt", "text/plain; charset=utf-8"),
        ("x.svg", "image/svg+xml"),
        ("x.png", "image/png"),
        ("x.jpeg", "image/jpeg"),
        ("x.jpg", "image/jpeg"),
        ("x.gif", "image/gif"),
        ("x.webp", "image/webp"),
        ("x.ico", "image/x-icon"),
        ("x.pdf", "application/pdf"),
        ("x.wasm", "application/wasm"),
        ("archive.tar.gz", "application/octet-stream"),
        (".html", "application/octet-stream"),
        ("html", "application/octet-stream"),
        ("dir.html/file", "application/octet-stream"),
    ];
    for (path, kind) in known {
        assert_eq!(mime_type(path), kind);
    }
}

#[test]
fn response_without_content_ends_with_its_head() {
    let response = Response::new(204, b"ignored".to_vec());
    assert_eq!(
        response.to_bytes_at(true, 0),
        b"HTTP/1.1 204 No Content\r\nContent-Type: text/plain; charset=utf-8\r\nConnection: keep-alive\r\nDate: Thu, 01 Jan 1970 00:00:00 GMT\r\nServer: localhost/0.1\r\n\r\n"
    );
}
