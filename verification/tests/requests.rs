use localhost::chunk::{decode_chunked, find_bytes, reached_length};
use localhost::headers::HeaderMap;
use localhost::http::{announcement, try_parse_request, ParseResult, Request, RequestParser};

fn error(raw: &[u8], limit: usize) -> String {
    match try_parse_request(raw, limit) {
        ParseResult::Error(message) => message,
        other => panic!("unexpected result: {other:?}"),
    }
}

fn complete(raw: &[u8]) -> (Request, usize) {
    match try_parse_request(raw, 4096) {
        ParseResult::Complete { request, consumed } => (request, consumed),
        other => panic!("unexpected result: {other:?}"),
    }
}

#[test]
fn parses_content_length_request() {
    let raw = b"POST /api/echo HTTP/1.1\r\nHost: localhost\r\nContent-Length: 5\r\n\r\nhello";
    match try_parse_request(raw, 1024) {
        ParseResult::Complete { request, .. } => assert_eq!(request.body, b"hello"),
        other => panic!("unexpected result: {other:?}"),
    }
}

#[test]
fn parses_chunked_request() {
    let raw = b"POST / HTTP/1.1\r\nHost: localhost\r\nTransfer-Encoding: chunked\r\n\r\n4\r\nWiki\r\n5\r\npedia\r\n0\r\n\r\n";
    match try_parse_request(raw, 1024) {
        ParseResult::Complete { request, .. } => assert_eq!(request.body, b"Wikipedia"),
        other => panic!("unexpected result: {other:?}"),
    }
}

#[test]
fn preserves_pipelined_request_after_empty_chunk_trailers() {
    let first = b"POST /upload HTTP/1.1\r\nHost: localhost\r\nTransfer-Encoding: chunked\r\n\r\n4\r\nWiki\r\n0\r\n\r\n";
    let second = b"GET /next HTTP/1.1\r\nHost: localhost\r\nConnection: close\r\n\r\n";
    let mut raw = Vec::from(first.as_slice());
    raw.extend_from_slice(second);

    match try_parse_request(&raw, 4096) {
        ParseResult::Complete {
            request,
            consumed,
        } => {
            assert_eq!(request.body, b"Wiki");
            assert_eq!(consumed, first.len());
            assert_eq!(&raw[consumed..], second);
        }
        other => panic!("unexpected result: {other:?}"),
    }
}

#[test]
fn rejects_conflicting_framing() {
    let raw = b"POST / HTTP/1.1\r\nHost: localhost\r\nContent-Length: 4\r\nTransfer-Encoding: chunked\r\n\r\n";
    assert!(matches!(try_parse_request(raw, 1024), ParseResult::Error(_)));
}

#[test]
fn reads_the_parts_of_a_request() {
    let raw = b"post /a/b?x=1&y=2 HTTP/1.1\r\nHost:  Example.org:8080 \r\nX-Thing: one\r\nx-thing: two\r\nCookie: a=b\r\n\r\nrest";
    let (request, consumed) = complete(raw);
    assert_eq!(request.method, "POST");
    assert_eq!(request.target, "/a/b?x=1&y=2");
    assert_eq!(request.path, "/a/b");
    assert_eq!(request.query, "x=1&y=2");
    assert_eq!(request.version, "HTTP/1.1");
    assert_eq!(request.host(), "Example.org:8080");
    assert_eq!(request.header("X-THING"), Some("two"));
    assert_eq!(request.header("cookie"), Some("a=b"));
    assert_eq!(request.header("missing"), None);
    assert!(request.body.is_empty());
    assert_eq!(&raw[consumed..], b"rest");
}

#[test]
fn waits_for_the_rest_of_a_request() {
    assert!(matches!(try_parse_request(b"GET / HTTP/1.1\r\nHost: x\r\n", 1024), ParseResult::NeedMore));
    let raw = b"POST / HTTP/1.1\r\nHost: x\r\nContent-Length: 9\r\n\r\nhello";
    assert!(matches!(try_parse_request(raw, 1024), ParseResult::NeedMore));
    let raw = b"POST / HTTP/1.1\r\nHost: x\r\nTransfer-Encoding: chunked\r\n\r\n5\r\nhel";
    assert!(matches!(try_parse_request(raw, 1024), ParseResult::NeedMore));
}

#[test]
fn names_what_is_wrong_with_a_request() {
    assert_eq!(error(b"GET / HTTP/1.1\r\n\r\n", 8), "request exceeds hard server limit");
    assert_eq!(error(b"GET /\xff HTTP/1.1\r\nHost: x\r\n\r\n", 999), "headers are not valid UTF-8");
    assert_eq!(error(b"GET /\r\nHost: x\r\n\r\n", 999), "invalid request line");
    assert_eq!(error(b"G3T / HTTP/1.1\r\nHost: x\r\n\r\n", 999), "invalid HTTP method");
    assert_eq!(error(b"GET / HTTP/2\r\nHost: x\r\n\r\n", 999), "only HTTP/1.1 is supported");
    assert_eq!(
        error(b"GET http://x/ HTTP/1.1\r\nHost: x\r\n\r\n", 999),
        "request target must use origin-form"
    );
    assert_eq!(error(b"GET / HTTP/1.1\r\nHost\r\n\r\n", 999), "malformed header line");
    assert_eq!(error(b"GET / HTTP/1.1\r\nHo st: x\r\n\r\n", 999), "invalid header name");
    assert_eq!(
        error(b"GET / HTTP/1.1\r\nHost: x\r\nContent-Length: 1\r\nContent-Length: 2\r\n\r\n", 999),
        "conflicting Content-Length headers"
    );
    assert_eq!(error(b"GET / HTTP/1.1\r\nAccept: x\r\n\r\n", 999), "HTTP/1.1 Host header is required");
    assert_eq!(
        error(b"GET / HTTP/1.1\r\nHost: x\r\nTransfer-Encoding: gzip\r\n\r\n", 999),
        "unsupported Transfer-Encoding"
    );
    assert_eq!(
        error(b"GET / HTTP/1.1\r\nHost: x\r\nContent-Length: many\r\n\r\n", 999),
        "invalid Content-Length"
    );
    assert_eq!(
        error(b"GET / HTTP/1.1\r\nHost: x\r\nContent-Length: 1000\r\n\r\n", 999),
        "request body exceeds hard server limit"
    );
}

#[test]
fn names_what_is_wrong_with_a_chunked_body() {
    assert_eq!(decode_chunked(b"\xff\r\n", 99), Err("invalid chunk size line".to_string()));
    assert_eq!(decode_chunked(b";x\r\n", 99), Err("empty chunk size".to_string()));
    assert_eq!(decode_chunked(b"xyz\r\n", 99), Err("invalid hexadecimal chunk size".to_string()));
    assert_eq!(
        decode_chunked(b"64\r\n", 99),
        Err("decoded chunked body exceeds hard server limit".to_string())
    );
    assert_eq!(
        decode_chunked(b"2\r\nabc\r\n", 99),
        Err("chunk data is not followed by CRLF".to_string())
    );
}

#[test]
fn decodes_chunks_with_extensions_and_trailers() {
    assert_eq!(
        decode_chunked(b"a;x=y\r\n0123456789\r\n0\r\nTrailer: z\r\n\r\nGET", 99),
        Ok(Some((b"0123456789".to_vec(), 36)))
    );
    assert_eq!(decode_chunked(b"3\r\nabc\r\n0\r\n", 99), Ok(None));
    assert_eq!(decode_chunked(b"3\r\nab", 99), Ok(None));
    assert_eq!(decode_chunked(b"0\r\n\r\n", 0), Ok(Some((Vec::new(), 5))));
}

#[test]
fn body_cut_into_chunks_arrives_whole() {
    let pieces: [&[u8]; 3] = [b"one", b"and another one", b"!"];
    let mut sent = Vec::new();
    for piece in pieces {
        sent.extend_from_slice(format!("{:x}\r\n", piece.len()).as_bytes());
        sent.extend_from_slice(piece);
        sent.extend_from_slice(b"\r\n");
    }
    sent.extend_from_slice(b"0\r\n\r\n");
    let used = sent.len();
    sent.extend_from_slice(b"GET / HTTP/1.1");
    assert_eq!(decode_chunked(&sent, 100), Ok(Some((b"oneand another one!".to_vec(), used))));
}

#[test]
fn reads_split_anywhere_give_the_same_request() {
    let raw = b"POST / HTTP/1.1\r\nHost: h\r\nTransfer-Encoding: chunked\r\n\r\n4\r\nWiki\r\n5\r\npedia\r\n0\r\n\r\nGET";
    for cut in 0..raw.len() {
        let mut parser = RequestParser::new();
        let early = parser.advance(&raw[..cut], 1024);
        let result = match early {
            ParseResult::NeedMore => parser.advance(raw, 1024),
            done => done,
        };
        match result {
            ParseResult::Complete { request, consumed } => {
                assert_eq!(request.body, b"Wikipedia");
                assert_eq!(consumed, raw.len() - 3);
            }
            other => panic!("unexpected result: {other:?}"),
        }
    }
}

#[test]
fn incomplete_request_announces_host_and_length() {
    let mut parser = RequestParser::new();
    let raw = b"POST / HTTP/1.1\r\nHost: h\r\nTransfer-Encoding: chunked\r\n\r\n4\r\nWiki\r\nff\r\npe";
    assert!(matches!(parser.advance(raw, 1024), ParseResult::NeedMore));
    assert_eq!(parser.host_announced(), Some("h"));
    assert_eq!(parser.body_announced(), 4 + 255);

    let mut parser = RequestParser::new();
    let raw = b"POST / HTTP/1.1\r\nHost: h\r\nContent-Length: 77\r\n\r\nx";
    assert!(matches!(parser.advance(raw, 1024), ParseResult::NeedMore));
    assert_eq!(parser.body_announced(), 77);

    let mut parser = RequestParser::new();
    assert!(matches!(parser.advance(b"POST / HTTP/1.1\r\n", 1024), ParseResult::NeedMore));
    assert_eq!(parser.host_announced(), None);
    assert_eq!(parser.body_announced(), 0);
}

#[test]
fn announcements_know_no_limit() {
    let raw = b"POST / HTTP/1.1\r\nHost: h\r\nContent-Length: 99999999999\r\n\r\nx";
    assert_eq!(announcement(raw), Some(("h".to_string(), 99_999_999_999)));
    let raw = b"POST / HTTP/1.0\r\nTransfer-Encoding: chunked\r\n\r\n3\r\nabc\r\nffffffffffffffff\r\n";
    assert_eq!(announcement(raw), Some((String::new(), 18_446_744_073_709_551_618)));
    assert_eq!(announcement(b"GET / HTTP/1.1\r\nHost: h\r\n\r\n"), Some(("h".to_string(), 0)));
    assert_eq!(announcement(b"GET / HTTP/1.1\r\nHost: h\r\n"), None);
    assert_eq!(announcement(b"nonsense\r\n\r\n"), None);
    assert_eq!(reached_length(b"2\r\nab\r\n5\r\nabcdeXX"), 7);
    assert_eq!(reached_length(b"2\r\nab\r\nzz\r\n"), 2);
    assert_eq!(reached_length(b"2\r\nab\r\n0\r\n\r\n"), 2);
}

#[test]
fn requests_are_read_as_written() {
    let raw = "pUt /é?q HTTP/1.0\r\nX_1: a: b é\r\nContent-Length: +03\r\nx_1: \r\ncontent-length: +03\r\n\r\nabcGET".as_bytes();
    let (request, consumed) = complete(raw);
    assert_eq!(request.method, "PUT");
    assert_eq!(request.path, "/é");
    assert_eq!(request.query, "q");
    assert_eq!(request.version, "HTTP/1.0");
    assert_eq!(request.header("x_1"), Some(""));
    assert_eq!(request.body, b"abc");
    assert_eq!(&raw[consumed..], b"GET");
}

#[test]
fn connections_persist_by_version() {
    let keeps = |raw: &[u8]| !complete(raw).0.wants_close();
    assert!(keeps(b"GET / HTTP/1.1\r\nHost: x\r\n\r\n"));
    assert!(!keeps(b"GET / HTTP/1.1\r\nHost: x\r\nConnection: Close\r\n\r\n"));
    assert!(!keeps(b"GET / HTTP/1.0\r\n\r\n"));
    assert!(keeps(b"GET / HTTP/1.0\r\nConnection: Keep-Alive\r\n\r\n"));
}

#[test]
fn header_names_are_kept_once() {
    let mut headers = HeaderMap::new();
    headers.insert("a".to_string(), "1".to_string());
    headers.insert("b".to_string(), "2".to_string());
    headers.insert("a".to_string(), "3".to_string());
    assert_eq!(headers.get("a"), Some("3"));
    assert_eq!(headers.get("b"), Some("2"));
    assert_eq!(headers.get("A"), None);
    assert!(headers.contains_key("b"));
    assert_eq!(headers.clone().get("a"), Some("3"));
}

#[test]
fn finds_the_first_occurrence() {
    assert_eq!(find_bytes(b"abcabc", b"ca"), Some(2));
    assert_eq!(find_bytes(b"abcabc", b"abc"), Some(0));
    assert_eq!(find_bytes(b"abc", b"abcd"), None);
    assert_eq!(find_bytes(b"", b"a"), None);
}
