use localhost::headers::HeaderMap;
use localhost::http::Request;
use localhost::session::{SessionStore, Stamp};

fn request(query: &str, cookie: Option<&str>) -> Request {
    let mut headers = HeaderMap::new();
    if let Some(value) = cookie {
        headers.insert("cookie".to_string(), value.to_string());
    }
    Request {
        method: "GET".to_string(),
        target: "/session".to_string(),
        path: "/session".to_string(),
        query: query.to_string(),
        version: "HTTP/1.1".to_string(),
        headers,
        body: Vec::new(),
    }
}

fn at(now: u64) -> Stamp {
    Stamp { pid: 255, millis: 4096, now }
}

#[test]
fn new_visitor_gets_a_session() {
    let mut store = SessionStore::new();
    let response = store.session_response(&request("user=J%22", None), at(5));
    assert_eq!(response.status, 200);
    assert_eq!(
        response.body,
        b"{\"session_id\":\"ff10001\",\"user\":\"J\\\"\",\"visits\":1}"
    );
    assert_eq!(
        response.headers,
        vec![
            ("Content-Type".to_string(), "application/json; charset=utf-8".to_string()),
            (
                "Set-Cookie".to_string(),
                "session_id=ff10001; Path=/; Max-Age=3600; SameSite=Lax".to_string()
            ),
        ]
    );
}

#[test]
fn cookie_brings_the_session_back() {
    let mut store = SessionStore::new();
    store.session_response(&request("", None), at(0));
    store.session_response(&request("", None), at(0));
    let second = store.session_response(&request("user=Ann", Some("x=1; session_id=ff10001")), at(10));
    assert_eq!(second.body, b"{\"session_id\":\"ff10001\",\"user\":\"Ann\",\"visits\":2}");
    let third = store.session_response(&request("user=", Some("session_id=ff10001")), at(20));
    assert_eq!(third.body, b"{\"session_id\":\"ff10001\",\"user\":\"Ann\",\"visits\":3}");
    let other = store.get("ff10002").unwrap();
    assert_eq!((other.username.as_str(), other.visits), ("auditor", 1));
}

#[test]
fn unknown_cookie_starts_a_session_of_its_name() {
    let mut store = SessionStore::new();
    let response = store.session_response(&request("user=", Some("session_id=mine")), at(0));
    assert_eq!(response.body, b"{\"session_id\":\"mine\",\"user\":\"\",\"visits\":1}");
}

#[test]
fn idle_sessions_are_forgotten_after_an_hour() {
    let mut store = SessionStore::new();
    store.session_response(&request("", Some("session_id=a")), at(0));
    store.session_response(&request("", Some("session_id=b")), at(1));
    store.session_response(&request("", Some("session_id=c")), at(0));
    store.expire_sessions(3_599_999);
    assert!(store.get("a").is_some());
    store.expire_sessions(3_600_000);
    assert!(store.get("a").is_none());
    assert!(store.get("b").is_some());
    assert!(store.get("c").is_none());
}

#[test]
fn identifiers_count_up() {
    let mut store = SessionStore::new();
    assert_eq!(store.new_session_id(16, 31), "101f1");
    assert_eq!(store.new_session_id(16, 31), "101f2");
}
