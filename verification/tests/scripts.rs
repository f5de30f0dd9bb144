use localhost::cgi::{
    cgi_error_response, cgi_input_closed_error, parse_cgi_output, response_from_output, CgiEnd,
    CgiLaunch, CgiSpec, CgiTask, ChildStatus, InputStep, IoFailure,
};
use localhost::dispatch::{cgi_not_started, cgi_reply};
use localhost::headers::HeaderMap;
use localhost::http::Request;
use localhost::reply::Reply;

fn request(body: &[u8]) -> Request {
    let mut headers = HeaderMap::new();
    headers.insert("host".to_string(), "h:80".to_string());
    headers.insert("cookie".to_string(), "a=b".to_string());
    Request {
        method: "POST".to_string(),
        target: "/cgi-bin/x.py/info?q=1".to_string(),
        path: "/cgi-bin/x.py/info".to_string(),
        query: "q=1".to_string(),
        version: "HTTP/1.1".to_string(),
        headers,
        body: body.to_vec(),
    }
}

fn spec() -> CgiSpec {
    CgiSpec {
        interpreter: "/usr/bin/python3".to_string(),
        script: "./cgi-bin/x.py".to_string(),
        path_info: "/info".to_string(),
    }
}

fn task(body: &[u8], now: u64) -> CgiTask {
    let spec = spec();
    let request = request(body);
    CgiTask::start(
        &CgiLaunch {
            client_fd: 7,
            server_index: 3,
            spec: &spec,
            request: &request,
            server_port: 8080,
            keep_alive: true,
        },
        now,
    )
}

#[test]
fn parses_lf_only_cgi_headers() {
    let raw = b"Status: 201 Created\nContent-Type: text/plain\n\nhello";
    let response = parse_cgi_output(raw).unwrap();
    assert_eq!(response.status, 201);
    assert_eq!(response.body, b"hello");
}

#[test]
fn output_gives_status_headers_and_body() {
    let raw = b"Content-Type:  text/html \r\nX-A: b:c\r\n\r\n\n\nbody";
    let response = parse_cgi_output(raw).unwrap();
    assert_eq!(response.status, 200);
    assert_eq!(
        response.headers,
        vec![
            ("Content-Type".to_string(), "text/html".to_string()),
            ("X-A".to_string(), "b:c".to_string()),
        ]
    );
    assert_eq!(response.body, b"\n\nbody");
}

#[test]
fn invalid_text_in_output_is_replaced() {
    let response = parse_cgi_output(b"X: a\xffb\n\n").unwrap();
    assert_eq!(response.headers[0].1, "a\u{fffd}b");
}

#[test]
fn names_what_is_wrong_with_output() {
    let error = |raw: &[u8]| parse_cgi_output(raw).unwrap_err();
    assert_eq!(error(b"hello"), "CGI did not emit a header/body separator");
    assert_eq!(error(b"hello\n\n"), "malformed CGI header `hello`");
    assert_eq!(error(b"Status:\n\n"), "empty CGI Status header");
    assert_eq!(error(b"Status: ok\n\n"), "invalid CGI status ` ok`");
    assert_eq!(error(b"status: 99\n\n"), "invalid CGI status 99");
    assert_eq!(error(b"status: 600\n\n"), "invalid CGI status 600");
    assert_eq!(response_from_output("Status: 404 x", b"b").unwrap().status, 404);
}

#[test]
fn failed_script_has_a_page() {
    let response = cgi_error_response(502, "a<b");
    assert_eq!(response.status, 502);
    assert_eq!(
        response.body,
        b"<!doctype html><html><body><h1>502 Bad Gateway</h1><p>a&lt;b</p></body></html>"
    );
    assert_eq!(
        response.headers,
        vec![("Content-Type".to_string(), "text/html; charset=utf-8".to_string())]
    );
}

#[test]
fn script_is_given_its_variables() {
    let spec = spec();
    let request = request(b"hello");
    let launch = CgiLaunch {
        client_fd: 7,
        server_index: 0,
        spec: &spec,
        request: &request,
        server_port: 8080,
        keep_alive: true,
    };
    let variables = launch.environment("/srv/cgi-bin/x.py");
    let value = |name: &str| {
        variables.iter().find(|(n, _)| n == name).map(|(_, v)| v.as_str())
    };
    assert_eq!(variables.len(), 13);
    assert_eq!(value("GATEWAY_INTERFACE"), Some("CGI/1.1"));
    assert_eq!(value("SERVER_PROTOCOL"), Some("HTTP/1.1"));
    assert_eq!(value("SERVER_SOFTWARE"), Some("localhost/0.1"));
    assert_eq!(value("REQUEST_METHOD"), Some("POST"));
    assert_eq!(value("REQUEST_URI"), Some("/cgi-bin/x.py/info?q=1"));
    assert_eq!(value("QUERY_STRING"), Some("q=1"));
    assert_eq!(value("PATH_INFO"), Some("/info"));
    assert_eq!(value("SCRIPT_FILENAME"), Some("/srv/cgi-bin/x.py"));
    assert_eq!(value("SCRIPT_NAME"), Some("./cgi-bin/x.py"));
    assert_eq!(value("CONTENT_LENGTH"), Some("5"));
    assert_eq!(value("SERVER_PORT"), Some("8080"));
    assert_eq!(value("HTTP_HOST"), Some("h:80"));
    assert_eq!(value("HTTP_COOKIE"), Some("a=b"));
    assert_eq!(value("CONTENT_TYPE"), None);
}

#[test]
fn body_reaches_the_script_and_then_ends() {
    let mut task = task(b"hello world", 0);
    let mut got = Vec::new();
    for count in [4, 1, 6] {
        assert_eq!(task.next_input(), InputStep::Send);
        got.extend_from_slice(&task.remaining_input()[..count]);
        let last = got.len() == 11;
        let expected = if last { InputStep::Shutdown } else { InputStep::Idle };
        assert_eq!(task.write_once(Ok(count)), Ok(expected));
    }
    assert_eq!(got, b"hello world");
    assert_eq!(task.next_input(), InputStep::Shutdown);
    assert_eq!(task.close_input(Ok(())), Ok(()));
    assert_eq!(task.next_input(), InputStep::Idle);
    assert!(!task.wants_write());
}

#[test]
fn empty_body_is_closed_at_once() {
    let mut task = task(b"", 0);
    assert!(!task.wants_write());
    assert_eq!(task.next_input(), InputStep::Shutdown);
}

#[test]
fn writes_can_fail() {
    let mut task = task(b"hello", 0);
    assert_eq!(task.write_once(Err(IoFailure::WouldBlock)), Ok(InputStep::Idle));
    assert!(task.wants_write());
    assert_eq!(task.write_once(Err(IoFailure::Other)), Err(IoFailure::Other));
    assert!(task.wants_write());
    assert_eq!(task.close_input(Err(IoFailure::Other)), Err(IoFailure::Other));
    assert!(task.wants_write());
    assert_eq!(task.write_once(Err(IoFailure::BrokenPipe)), Ok(InputStep::Idle));
    assert!(!task.wants_write());
    assert!(cgi_input_closed_error(IoFailure::ConnectionReset));
    assert!(cgi_input_closed_error(IoFailure::NotConnected));
    assert!(!cgi_input_closed_error(IoFailure::WouldBlock));
}

#[test]
fn output_is_collected_until_it_ends() {
    let mut task = task(b"x", 0);
    assert_eq!(task.read_once(Ok(b"ab")), Ok(()));
    assert_eq!(task.read_once(Err(IoFailure::WouldBlock)), Ok(()));
    assert_eq!(task.read_once(Err(IoFailure::Other)), Err(IoFailure::Other));
    assert_eq!(task.read_once(Ok(b"c")), Ok(()));
    assert_eq!(task.output, b"abc");
    assert!(task.interest().read);
    assert!(task.interest().write);
    assert!(task.react(true, false).read);
    assert_eq!(task.read_once(Ok(b"")), Ok(()));
    assert!(task.io_eof);
    assert!(!task.interest().read);
    assert_eq!(task.next_input(), InputStep::Idle);
    assert!(!task.wants_write());
}

#[test]
fn script_ends_in_three_ways() {
    let mut slow = task(b"", 100);
    assert_eq!(slow.poll(ChildStatus::Running, 5099), None);
    assert!(!slow.timed_out(5099));
    assert_eq!(slow.poll(ChildStatus::Running, 5100), Some(CgiEnd::TimedOut));
    let mut failed = task(b"", 0);
    assert_eq!(failed.poll(ChildStatus::Failed, 1), Some(CgiEnd::Failed));
    let mut done = task(b"", 0);
    assert_eq!(done.poll(ChildStatus::Succeeded, 1), None);
    assert_eq!(done.read_once(Ok(b"")), Ok(()));
    assert_eq!(done.poll(ChildStatus::Running, 2), Some(CgiEnd::Finished));
}

#[test]
fn ended_scripts_are_answered() {
    let failure = |reply: Reply| match reply {
        Reply::Error { status, message, .. } => (status, message),
        Reply::Page(_) => panic!("page"),
    };
    assert_eq!(failure(cgi_reply(CgiEnd::TimedOut, b"")), (504, "CGI execution timed out".to_string()));
    assert_eq!(
        failure(cgi_reply(CgiEnd::Failed, b"X: y\n\n")),
        (502, "CGI process exited unsuccessfully".to_string())
    );
    assert_eq!(
        failure(cgi_reply(CgiEnd::Finished, b"nothing")),
        (502, "CGI did not emit a header/body separator".to_string())
    );
    assert_eq!(failure(cgi_not_started("no such file")), (500, "cannot start CGI: no such file".to_string()));
    match cgi_reply(CgiEnd::Finished, b"Status: 302\n\nx") {
        Reply::Page(response) => assert_eq!((response.status, response.body), (302, b"x".to_vec())),
        Reply::Error { .. } => panic!("error"),
    }
}
