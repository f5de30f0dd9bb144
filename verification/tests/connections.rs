use localhost::addr::ListenAddr;
use localhost::cgi::{CgiLaunch, CgiTask, ChildStatus, InputStep, IoFailure};
use localhost::client::{Reaction, Readiness};
use localhost::config::{parse_config, ServerConfig};
use localhost::dispatch::{
    default_server_for_client, finish_reply, group_listeners, reply_page,
    resolve_server_for_request,
};
use localhost::handler::{Answer, PathKind, Step};
use localhost::reply::{error_page_path, error_response, Reply};
use localhost::server::{HttpServer, Job, Next};
use localhost::session::Stamp;
use localhost::token::{next_generation, Token};

const TEXT: &str = "server {
    listen 127.0.0.1:80
    listen 127.0.0.1:81
    server_name one uno
    client_max_body_size 8
    error_page 404 /errors/404.html
    location / {
        methods GET POST
        root one
        cgi_extension .py /bin/py
    }
}
server {
    listen 127.0.0.1:80
    server_name two
    location / {
        root two
    }
}
";

fn configs() -> Vec<ServerConfig> {
    parse_config(TEXT).unwrap()
}

fn stamp(now: u64) -> Stamp {
    Stamp { pid: 1, millis: 2, now }
}

fn connected(listener: usize) -> HttpServer {
    let mut server = HttpServer::new(configs());
    server.accept_once(listener, 5, 0);
    server
}

fn failure(next: Next) -> (usize, u16, String, bool) {
    match next {
        Next::Reply { server_index, reply: Reply::Error { status, message, .. }, keep_alive } => {
            (server_index, status, message, keep_alive)
        }
        other => panic!("unexpected outcome: {other:?}"),
    }
}

fn job(next: Next) -> Job {
    match next {
        Next::Work(job) => job,
        other => panic!("unexpected outcome: {other:?}"),
    }
}

fn get(path: &str, host: &str) -> Vec<u8> {
    format!("GET {path} HTTP/1.1\r\nHost: {host}\r\n\r\n").into_bytes()
}

fn ready(readable: bool, writable: bool) -> Readiness {
    Readiness { failed: false, hung_up: false, peer_closed: false, readable, writable }
}

fn task(now: u64, body: &[u8]) -> CgiTask {
    let mut server = connected(0);
    let mut raw = format!("POST /x.py HTTP/1.1\r\nHost: one\r\nContent-Length: {}\r\n\r\n", body.len()).into_bytes();
    raw.extend_from_slice(body);
    let job = job(server.read_once(5, Ok(&raw), stamp(0)));
    let job = server.advance(job, Answer::Kind(PathKind::File));
    match &job.step {
        Step::Launch(spec) => CgiTask::start(
            &CgiLaunch {
                client_fd: 5,
                server_index: job.server_index,
                spec,
                request: &job.request,
                server_port: server.server_port(5),
                keep_alive: job.keep_alive,
            },
            now,
        ),
        other => panic!("unexpected step: {other:?}"),
    }
}

#[test]
fn servers_share_listeners() {
    let listeners = group_listeners(&configs());
    assert_eq!(listeners.len(), 2);
    assert_eq!(listeners[0].addr, ListenAddr::V4 { ipv4: 0x7f00_0001, port: 80 });
    assert_eq!(listeners[0].server_indices, vec![0, 1]);
    assert_eq!(listeners[1].server_indices, vec![0]);
    let server = HttpServer::new(configs());
    assert_eq!(server.listeners().len(), 2);
    assert_eq!(server.configs().len(), 2);
}

#[test]
fn host_header_chooses_the_server() {
    let configs = configs();
    let chosen = |host: &str| resolve_server_for_request(&configs, &[0, 1], host);
    assert_eq!(chosen("two"), Some(1));
    assert_eq!(chosen(" TWO:8080"), Some(1));
    assert_eq!(chosen("UNO"), Some(0));
    assert_eq!(chosen("unknown"), Some(0));
    assert_eq!(chosen(""), Some(0));
    assert_eq!(resolve_server_for_request(&configs, &[1, 0], "x"), Some(1));
    assert_eq!(resolve_server_for_request(&configs, &[], "one"), None);
    assert_eq!(resolve_server_for_request(&configs, &[7], "one"), None);
    assert_eq!(default_server_for_client(&[4, 2]), Some(4));
    assert_eq!(default_server_for_client(&[]), None);
}

#[test]
fn work_ends_in_a_response() {
    let mut server = connected(0);
    let first = job(server.read_once(5, Ok(&get("//a.txt", "two")), stamp(1)));
    assert_eq!((first.server_index, first.route_index, first.keep_alive), (1, 0, true));
    assert_eq!(first.request.path, "/a.txt");
    let step = server.advance(first, Answer::Kind(PathKind::File));
    let step = server.advance(step, Answer::Content(Some(b"hi".to_vec())));
    let reply = match step.step {
        Step::Reply(reply) => reply,
        other => panic!("unexpected step: {other:?}"),
    };
    server.queue_reply(5, 1, reply, None, true, 0, 2);
    let interest = server.interest(5).unwrap();
    assert!(interest.write && !interest.read);
    assert_eq!(server.react(5, ready(true, true)), Reaction::Write);
    let output = server.pending_output(5).unwrap().to_vec();
    assert!(output.starts_with(b"HTTP/1.1 200 OK\r\n"));
    assert!(output.ends_with(b"\r\n\r\nhi"));
    assert!(matches!(server.write_once(5, Ok(10), stamp(3)), Next::Wait));
    assert_eq!(server.pending_output(5).unwrap(), &output[10..]);
    assert!(matches!(server.write_once(5, Ok(output.len() - 10), stamp(4)), Next::Wait));
    assert!(server.interest(5).unwrap().read);
}

#[test]
fn refused_requests_are_answered() {
    let mut server = connected(0);
    assert_eq!(
        failure(server.read_once(5, Ok(b"nonsense\r\n\r\n"), stamp(1))),
        (0, 400, "invalid request line".to_string(), false)
    );
    let mut server = connected(0);
    assert_eq!(
        failure(server.read_once(5, Ok(&get("/%2e%2e/x", "two")), stamp(1))),
        (1, 400, "parent path traversal is forbidden".to_string(), false)
    );
    let mut server = connected(0);
    let raw = b"POST / HTTP/1.1\r\nHost: one\r\nContent-Length: 9\r\n\r\n123456789";
    assert_eq!(
        failure(server.read_once(5, Ok(raw), stamp(1))),
        (0, 413, "request body exceeds configured limit".to_string(), true)
    );
}

#[test]
fn long_bodies_are_refused_early() {
    let mut server = connected(0);
    let raw = b"POST / HTTP/1.1\r\nHost: one\r\nContent-Length: 9\r\n\r\n1";
    assert_eq!(
        failure(server.read_once(5, Ok(raw), stamp(1))),
        (0, 413, "request body exceeds configured limit".to_string(), false)
    );
    let mut server = connected(0);
    let raw = b"POST / HTTP/1.1\r\nHost: one\r\nTransfer-Encoding: chunked\r\n\r\n4\r\nabcd\r\n5\r\n";
    assert_eq!(
        failure(server.read_once(5, Ok(raw), stamp(1))),
        (0, 413, "request body exceeds configured limit".to_string(), false)
    );
    let mut server = connected(0);
    let raw = b"POST / HTTP/1.1\r\nHost: two\r\nContent-Length: 9\r\n\r\n1";
    assert!(matches!(server.read_once(5, Ok(raw), stamp(1)), Next::Wait));
}

#[test]
fn bodies_above_the_hard_limit_are_refused_by_their_server() {
    let message = "request body exceeds configured limit".to_string();
    let too_long = (1, 413, message, false);
    let mut server = connected(0);
    let raw = b"POST / HTTP/1.1\r\nHost: two\r\nContent-Length: 40000000\r\n\r\n";
    assert_eq!(failure(server.read_once(5, Ok(raw), stamp(1))), too_long);
    let mut server = connected(0);
    let raw = b"POST / HTTP/1.1\r\nHost: two\r\nTransfer-Encoding: chunked\r\n\r\n2\r\nab\r\n4000000\r\n";
    assert_eq!(failure(server.read_once(5, Ok(raw), stamp(1))), too_long);

    let mut server = connected(0);
    let mut raw = b"POST / HTTP/1.1\r\nHost: two\r\nContent-Length: 40000000\r\n\r\n".to_vec();
    raw.resize(33_554_433, b'x');
    assert_eq!(failure(server.read_once(5, Ok(&raw), stamp(1))), too_long);

    let large = TEXT.replace("client_max_body_size 8", "client_max_body_size 64m");
    let mut server = HttpServer::new(parse_config(&large).unwrap());
    server.accept_once(0, 5, 0);
    let raw = b"POST / HTTP/1.1\r\nHost: one\r\nContent-Length: 40000000\r\n\r\n";
    assert_eq!(
        failure(server.read_once(5, Ok(raw), stamp(1))),
        (0, 400, "request body exceeds hard server limit".to_string(), false)
    );
}

#[test]
fn pipelined_requests_are_taken_in_order() {
    let mut server = connected(0);
    let mut raw = get("/1", "one");
    raw.extend_from_slice(&get("/2", "one"));
    let first = job(server.read_once(5, Ok(&raw), stamp(1)));
    assert_eq!(first.request.path, "/1");
    server.queue_reply(5, 0, Reply::error(404, "no"), None, true, 0, 2);
    let n = server.pending_output(5).unwrap().len();
    let second = job(server.write_once(5, Ok(n), stamp(3)));
    assert_eq!(second.request.path, "/2");
}

#[test]
fn connection_closes_after_the_last_byte() {
    let mut server = connected(0);
    server.queue_reply(5, 0, Reply::error(400, "no"), None, false, 0, 2);
    let n = server.pending_output(5).unwrap().len();
    assert!(matches!(server.write_once(5, Ok(n - 1), stamp(3)), Next::Wait));
    assert!(matches!(server.write_once(5, Ok(1), stamp(3)), Next::Close));
}

#[test]
fn io_failures_end_connections() {
    let mut server = connected(0);
    assert!(matches!(server.read_once(5, Err(IoFailure::WouldBlock), stamp(1)), Next::Wait));
    assert!(matches!(server.read_once(5, Err(IoFailure::Other), stamp(1)), Next::Close));
    assert!(matches!(server.read_once(5, Ok(b""), stamp(1)), Next::Close));
    assert!(matches!(server.read_once(6, Ok(b""), stamp(1)), Next::Wait));
    assert!(matches!(server.write_once(5, Ok(0), stamp(1)), Next::Close));
    assert!(matches!(server.write_once(5, Err(IoFailure::WouldBlock), stamp(1)), Next::Wait));
    assert!(matches!(server.write_once(5, Err(IoFailure::Other), stamp(1)), Next::Close));
    assert!(matches!(server.write_once(6, Ok(0), stamp(1)), Next::Wait));
}

#[test]
fn events_lead_to_one_read_or_write() {
    let mut server = connected(0);
    assert_eq!(server.react(5, ready(true, true)), Reaction::Read);
    assert_eq!(server.react(5, ready(false, true)), Reaction::Ignore);
    assert_eq!(server.react(6, ready(true, true)), Reaction::Ignore);
    let broken = Readiness { hung_up: true, ..ready(true, true) };
    assert_eq!(server.react(5, broken), Reaction::Close);
    let broken = Readiness { failed: true, ..ready(true, true) };
    assert_eq!(server.react(5, broken), Reaction::Close);
}

#[test]
fn half_closed_connection_is_still_answered() {
    let mut server = connected(0);
    server.queue_reply(5, 0, Reply::error(400, "no"), None, true, 0, 2);
    assert!(server.interest(5).unwrap().peer_close);
    let half = Readiness { peer_closed: true, ..ready(false, true) };
    assert_eq!(server.react(5, half), Reaction::Write);
    assert!(!server.interest(5).unwrap().peer_close);
}

#[test]
fn idle_connections_expire() {
    let mut server = connected(0);
    server.accept_once(0, 6, 10);
    assert!(server.expire_clients(14_999).is_empty());
    assert_eq!(server.expire_clients(15_000), vec![5]);
    assert!(server.start_cgi(5, task(0, b""), 0));
    assert!(server.expire_clients(15_000).is_empty());
    assert!(server.remove_client(5));
    assert!(!server.remove_client(5));
    assert!(!server.remove_client(6));
    assert_eq!(server.interest(5), None);
    assert!(server.cgi_tokens().is_empty());
}

#[test]
fn script_works_for_its_connection() {
    let mut server = connected(1);
    assert_eq!(server.server_port(5), 81);
    assert_eq!(server.server_port(6), 0);
    assert!(!server.start_cgi(6, task(0, b"in"), 0));
    assert!(server.start_cgi(5, task(0, b"in"), 0));
    assert_eq!(server.cgi_tokens(), vec![5]);
    assert_eq!(server.react(5, ready(true, true)), Reaction::Ignore);
    assert_eq!(server.next_cgi_input(5), InputStep::Send);
    assert_eq!(server.task(5).unwrap().remaining_input(), b"in");
    assert_eq!(server.cgi_written(5, Ok(1)), Ok(InputStep::Idle));
    assert_eq!(server.cgi_written(5, Ok(1)), Ok(InputStep::Shutdown));
    assert_eq!(server.cgi_input_closed(5, Ok(())), Ok(()));
    assert_eq!(server.next_cgi_input(5), InputStep::Idle);
    assert_eq!(server.cgi_received(5, Ok(b"X: y\n\nout")), Ok(()));
    assert!(server.poll_cgi_task(5, ChildStatus::Succeeded, 1).is_none());
    assert_eq!(server.cgi_received(5, Err(IoFailure::WouldBlock)), Ok(()));
    assert!(!server.task(5).unwrap().io_eof);
    assert_eq!(server.cgi_received(5, Err(IoFailure::ConnectionReset)), Ok(()));
    let ended = server.poll_cgi_task(5, ChildStatus::Succeeded, 2).unwrap();
    assert_eq!((ended.server_index, ended.keep_alive), (0, true));
    match ended.reply {
        Reply::Page(response) => assert_eq!(response.body, b"out"),
        Reply::Error { message, .. } => panic!("{message}"),
    }
    assert!(server.task(5).is_none());
    assert_eq!(server.react(5, ready(true, false)), Reaction::Read);
    assert!(server.poll_cgi_task(5, ChildStatus::Failed, 3).is_none());
}

#[test]
fn failing_scripts_are_answered() {
    let mut server = connected(0);
    assert!(server.start_cgi(5, task(0, b"in"), 0));
    assert_eq!(server.cgi_written(5, Err(IoFailure::Other)), Err(IoFailure::Other));
    assert_eq!(server.cgi_received(5, Err(IoFailure::Other)), Err(IoFailure::Other));
    assert_eq!(server.cgi_input_closed(5, Err(IoFailure::Other)), Err(IoFailure::Other));
    let ended = server.poll_cgi_task(5, ChildStatus::Failed, 1).unwrap();
    match ended.reply {
        Reply::Error { status, .. } => assert_eq!(status, 502),
        Reply::Page(_) => panic!("page"),
    }
}

#[test]
fn server_pages_stand_for_errors() {
    let configs = configs();
    assert_eq!(error_page_path(&configs[0], 404), Some("one/errors/404.html".to_string()));
    assert_eq!(error_page_path(&configs[0], 500), None);
    assert_eq!(error_page_path(&configs[1], 404), None);
    let own = error_response(&configs[0], 404, "gone", Some(b"mine".to_vec()));
    assert_eq!((own.status, own.body.as_slice()), (404, b"mine".as_slice()));
    let plain = error_response(&configs[0], 404, "<gone>", None);
    assert_eq!(
        plain.body,
        b"<!doctype html><html><head><meta charset=\"utf-8\"><title>404</title></head><body><h1>404</h1><p>&lt;gone&gt;</p></body></html>"
    );
    assert_eq!(plain.headers[0].1, "text/html; charset=utf-8");
}

#[test]
fn replies_become_responses() {
    let configs = configs();
    let refused = || Reply::Error { status: 405, message: "no".into(), allow: Some("GET".into()) };
    assert_eq!(reply_page(&configs, 0, &Reply::error(404, "x")), Some("one/errors/404.html".to_string()));
    assert_eq!(reply_page(&configs, 9, &Reply::error(404, "x")), None);
    let response = finish_reply(&configs, 0, refused(), None);
    assert_eq!(response.headers[1], ("Allow".to_string(), "GET".to_string()));
    let response = finish_reply(&configs, 9, refused(), None);
    assert_eq!(response.status, 405);
    assert!(String::from_utf8(response.body).unwrap().contains("<h1>405 Method Not Allowed</h1>"));
}

#[test]
fn tokens_tell_generations_apart() {
    let old = Token { generation: 1, fd: 9 };
    let new = Token { generation: next_generation(1), fd: 9 };
    assert_ne!(old.pack(), new.pack());
    assert_eq!(Token::unpack(new.pack()), new);
    assert_eq!(new.pack(), 0x2_0000_0009);
    assert_eq!(next_generation(u32::MAX), 0);
}

#[test]
fn sessions_expire_with_the_clock() {
    let mut server = connected(0);
    let first = job(server.read_once(5, Ok(b"GET /session HTTP/1.1\r\nHost: one\r\nCookie: session_id=a\r\n\r\n"), stamp(0)));
    assert!(matches!(first.step, Step::Reply(Reply::Page(_))));
    server.expire_sessions(3_600_000);
    let again = job(server.read_once(5, Ok(b"GET /session HTTP/1.1\r\nHost: one\r\nCookie: session_id=a\r\n\r\n"), stamp(3_600_000)));
    match again.step {
        Step::Reply(Reply::Page(response)) => {
            assert!(String::from_utf8(response.body).unwrap().contains("\"visits\":1"))
        }
        other => panic!("unexpected step: {other:?}"),
    }
}

#[test]
fn connections_are_apart() {
    let mut server = connected(0);
    server.accept_once(1, 6, 0);
    let half = &get("/one", "one")[..9];
    assert!(matches!(server.read_once(6, Ok(half), stamp(1)), Next::Wait));
    let first = job(server.read_once(5, Ok(&get("/a", "one")), stamp(1)));
    assert_eq!(first.request.path, "/a");
    server.remove_client(5);
    let rest = &get("/one", "one")[9..];
    let second = job(server.read_once(6, Ok(rest), stamp(2)));
    assert_eq!(second.request.path, "/one");
    assert_eq!(server.react(5, ready(true, true)), Reaction::Ignore);
}
