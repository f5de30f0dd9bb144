use localhost::config::{CgiMapping, RouteConfig};
use localhost::handler::{build_action, find_cgi, Answer, PathKind, Step};
use localhost::headers::HeaderMap;
use localhost::http::Request;
use localhost::listing::{directory_listing, is_listed, sort_entries, Entry};
use localhost::reply::Reply;
use localhost::response::Response;
use localhost::session::{SessionStore, Stamp};

fn route(path: &str) -> RouteConfig {
    RouteConfig {
        path: path.to_string(),
        methods: vec!["GET".into(), "POST".into(), "DELETE".into(), "PUT".into()],
        root: "root".to_string(),
        index: Some("index.html".to_string()),
        autoindex: true,
        redirect: None,
        cgi: vec![
            CgiMapping { extension: ".py".into(), interpreter: "/bin/py".into() },
            CgiMapping { extension: ".php".into(), interpreter: "/bin/php".into() },
        ],
    }
}

fn request(method: &str, path: &str, headers: &[(&str, &str)], body: &[u8]) -> Request {
    let mut map = HeaderMap::new();
    for (name, value) in headers {
        map.insert(name.to_string(), value.to_string());
    }
    Request {
        method: method.to_string(),
        target: path.to_string(),
        path: path.to_string(),
        query: String::new(),
        version: "HTTP/1.1".to_string(),
        headers: map,
        body: body.to_vec(),
    }
}

fn begin(route: &RouteConfig, request: &Request) -> Step {
    let mut sessions = SessionStore::new();
    build_action(route, request, &mut sessions, Stamp { pid: 1, millis: 2, now: 3 })
}

fn page(step: Step) -> Response {
    match step {
        Step::Reply(Reply::Page(response)) => response,
        other => panic!("unexpected step: {other:?}"),
    }
}

fn failure(step: Step) -> (u16, String) {
    match step {
        Step::Reply(Reply::Error { status, message, .. }) => (status, message),
        other => panic!("unexpected step: {other:?}"),
    }
}

fn header(response: &Response, name: &str) -> Option<String> {
    response.headers.iter().find(|(n, _)| n == name).map(|(_, v)| v.clone())
}

fn kind(kind: PathKind) -> Answer {
    Answer::Kind(kind)
}

#[test]
fn other_methods_are_refused() {
    let mut location = route("/");
    location.methods = vec!["GET".into(), "POST".into()];
    match begin(&location, &request("DELETE", "/x", &[], b"")) {
        Step::Reply(Reply::Error { status, message, allow }) => {
            assert_eq!(status, 405);
            assert_eq!(message, "method is not allowed for this route");
            assert_eq!(allow, Some("GET, POST".to_string()));
        }
        other => panic!("unexpected step: {other:?}"),
    }
    assert_eq!(
        failure(begin(&route("/"), &request("PUT", "/x", &[], b""))),
        (405, "unsupported method".to_string())
    );
}

#[test]
fn locations_redirect() {
    let mut location = route("/");
    location.redirect = Some((301, "/elsewhere".to_string()));
    let response = page(begin(&location, &request("GET", "/x.py", &[], b"")));
    assert_eq!(response.status, 301);
    assert_eq!(header(&response, "Location"), Some("/elsewhere".to_string()));
}

#[test]
fn scripts_take_the_rest_of_the_path() {
    let spec = find_cgi(&route("/cgi"), "/cgi/a/b.PY/c/d.php").unwrap();
    assert_eq!(spec.interpreter, "/bin/py");
    assert_eq!(spec.script, "root/a/b.PY");
    assert_eq!(spec.path_info, "/c/d.php");
    let spec = find_cgi(&route("/"), "/x.php").unwrap();
    assert_eq!((spec.interpreter.as_str(), spec.path_info.as_str()), ("/bin/php", ""));
    assert!(find_cgi(&route("/cgi"), "/cgi/a").is_none());
    assert!(find_cgi(&route("/cgi"), "/cgi/../x.py").is_none());
}

#[test]
fn scripts_are_run_where_they_are_files() {
    let location = route("/");
    let asked = request("GET", "/x.py", &[], b"");
    match begin(&location, &asked).advance(&location, &asked, kind(PathKind::File)) {
        Step::Launch(spec) => assert_eq!(spec.script, "root/x.py"),
        other => panic!("unexpected step: {other:?}"),
    }
    assert_eq!(
        failure(begin(&location, &asked).advance(&location, &asked, kind(PathKind::Missing))),
        (404, "CGI script not found".to_string())
    );
}

#[test]
fn echo_gives_the_body_back() {
    let asked = request("POST", "/api/echo", &[("content-type", "a/b")], b"hello");
    let response = page(begin(&route("/api/echo"), &asked));
    assert_eq!((response.status, response.body.as_slice()), (200, b"hello".as_slice()));
    assert_eq!(header(&response, "Content-Type"), Some("a/b".to_string()));
    let asked = request("POST", "/other", &[("content-type", "a/b")], b"hello");
    let response = page(begin(&route("/"), &asked));
    assert_eq!(response.body, b"hello");
    assert_eq!(header(&response, "Content-Type"), Some("application/octet-stream".to_string()));
}

#[test]
fn session_path_shows_the_session() {
    let response = page(begin(&route("/"), &request("GET", "/session", &[], b"")));
    assert_eq!(response.body, b"{\"session_id\":\"121\",\"user\":\"auditor\",\"visits\":1}");
}

#[test]
fn files_are_read() {
    let location = route("/");
    let asked = request("GET", "/a/b.css", &[], b"");
    let step = begin(&location, &asked);
    assert!(matches!(&step, Step::ProbeTarget(path) if path == "root/a/b.css"));
    let step = step.advance(&location, &asked, kind(PathKind::File));
    assert!(matches!(&step, Step::ReadTarget(path) if path == "root/a/b.css"));
    let response = page(step.advance(&location, &asked, Answer::Content(Some(b"body".to_vec()))));
    assert_eq!((response.status, response.body.as_slice()), (200, b"body".as_slice()));
    assert_eq!(header(&response, "Content-Type"), Some("text/css; charset=utf-8".to_string()));
    let step = begin(&location, &asked).advance(&location, &asked, kind(PathKind::File));
    assert_eq!(
        failure(step.advance(&location, &asked, Answer::Content(None))),
        (403, "file cannot be read".to_string())
    );
    for missing in [PathKind::Missing, PathKind::Other] {
        assert_eq!(
            failure(begin(&location, &asked).advance(&location, &asked, kind(missing))),
            (404, "resource not found".to_string())
        );
    }
}

#[test]
fn directories_have_index_files() {
    let location = route("/");
    let asked = request("GET", "/d", &[], b"");
    let step = begin(&location, &asked).advance(&location, &asked, kind(PathKind::Directory));
    assert!(matches!(&step, Step::ProbeIndex { index, .. } if index == "root/d/index.html"));
    let step = step.advance(&location, &asked, kind(PathKind::File));
    assert!(matches!(&step, Step::ReadIndex(path) if path == "root/d/index.html"));
    let response = page(step.advance(&location, &asked, Answer::Content(Some(b"<p>".to_vec()))));
    assert_eq!(header(&response, "Content-Type"), Some("text/html; charset=utf-8".to_string()));
    let step = Step::ReadIndex("root/d/index.html".to_string());
    assert_eq!(
        failure(step.advance(&location, &asked, Answer::Content(None))),
        (403, "index file cannot be read".to_string())
    );
}

#[test]
fn directories_are_listed_where_allowed() {
    let mut location = route("/");
    let asked = request("GET", "/d", &[], b"");
    let step = Step::ProbeIndex { directory: "root/d".to_string(), index: "root/d/i".to_string() };
    let step = step.advance(&location, &asked, kind(PathKind::Missing));
    assert!(matches!(&step, Step::List(path) if path == "root/d"));
    let entries = vec![Entry { name: b"x".to_vec(), directory: false }];
    let response = page(step.advance(&location, &asked, Answer::Entries(Some(entries))));
    assert!(String::from_utf8(response.body).unwrap().contains("<a href=\"/d/x\">x</a>"));
    assert_eq!(
        failure(Step::List("root/d".to_string()).advance(&location, &asked, Answer::Entries(None))),
        (403, "directory cannot be listed".to_string())
    );
    location.index = None;
    location.autoindex = false;
    let step = begin(&location, &asked).advance(&location, &asked, kind(PathKind::Directory));
    assert_eq!(failure(step), (403, "directory listing is disabled".to_string()));
}

#[test]
fn files_are_deleted() {
    let location = route("/uploads");
    let asked = request("DELETE", "/uploads/f", &[], b"");
    let step = begin(&location, &asked);
    assert!(matches!(&step, Step::ProbeVictim(path) if path == "root/f"));
    let step = step.advance(&location, &asked, kind(PathKind::File));
    assert!(matches!(&step, Step::Remove(path) if path == "root/f"));
    let response = page(step.advance(&location, &asked, Answer::Done(Ok(()))));
    assert_eq!((response.status, response.body.len()), (204, 0));
    let answer = |a: Answer| failure(begin(&location, &asked).advance(&location, &asked, a));
    assert_eq!(answer(kind(PathKind::Missing)), (404, "resource not found".to_string()));
    assert_eq!(answer(kind(PathKind::Directory)), (403, "only files may be deleted".to_string()));
    assert_eq!(
        failure(Step::Remove("root/f".to_string()).advance(&location, &asked, Answer::Done(Err("no".into())))),
        (403, "resource cannot be deleted".to_string())
    );
    let root = request("DELETE", "/uploads", &[], b"");
    assert_eq!(failure(begin(&location, &root)), (403, "refusing to delete route root".to_string()));
}

#[test]
fn uploads_are_stored() {
    let location = route("/uploads");
    let ready = |asked: &Request| {
        let step = begin(&location, asked);
        assert!(matches!(&step, Step::MakeDirectory(path) if path == "root"));
        step.advance(&location, asked, Answer::Done(Ok(())))
    };
    let asked = request("POST", "/uploads/a b.txt", &[], b"data");
    let step = ready(&asked);
    match &step {
        Step::Store { file, name, content } => {
            assert_eq!(file, "root/a_b.txt");
            assert_eq!(name, "a_b.txt");
            assert_eq!(content, b"data");
        }
        other => panic!("unexpected step: {other:?}"),
    }
    let response = page(step.advance(&location, &asked, Answer::Done(Ok(()))));
    assert_eq!((response.status, response.body.as_slice()), (201, b"uploaded a_b.txt\n".as_slice()));
    assert_eq!(header(&response, "Location"), Some("/uploads/a_b.txt".to_string()));

    let stored = |asked: &Request| match ready(asked) {
        Step::Store { name, .. } => name,
        other => panic!("unexpected step: {other:?}"),
    };
    assert_eq!(stored(&request("POST", "/uploads", &[], b"")), "payload.bin");
    assert_eq!(stored(&request("POST", "/uploads", &[("x-filename", "../n")], b"")), "n");
    assert_eq!(
        failure(ready(&request("POST", "/uploads", &[("x-filename", "..")], b""))),
        (400, "invalid upload filename".to_string())
    );
    assert_eq!(
        failure(ready(&request("POST", "/uploads", &[("content-type", "Multipart/Form-Data")], b""))),
        (400, "multipart boundary is missing".to_string())
    );
}

#[test]
fn uploads_can_fail() {
    let location = route("/uploads");
    let asked = request("POST", "/uploads/a", &[], b"data");
    let no = || Answer::Done(Err("disk full".to_string()));
    assert_eq!(
        failure(begin(&location, &asked).advance(&location, &asked, no())),
        (500, "cannot create upload directory: disk full".to_string())
    );
    let step = begin(&location, &asked).advance(&location, &asked, Answer::Done(Ok(())));
    assert_eq!(
        failure(step.advance(&location, &asked, no())),
        (500, "cannot store upload: disk full".to_string())
    );
}

#[test]
fn answers_to_other_questions_change_nothing() {
    let location = route("/");
    let asked = request("GET", "/a", &[], b"");
    let step = begin(&location, &asked).advance(&location, &asked, Answer::Done(Ok(())));
    assert!(matches!(step, Step::ProbeTarget(_)));
}

#[test]
fn dot_files_are_not_listed() {
    assert!(!is_listed(b".hidden"));
    assert!(is_listed(b"a."));
    assert!(is_listed(b"\xff"));
    assert!(is_listed(b""));
}

#[test]
fn listing_is_sorted_by_name() {
    let entry = |name: &[u8], directory: bool| Entry { name: name.to_vec(), directory };
    let entries = vec![
        entry(b"b", false),
        entry(b".hidden", false),
        entry(b"a<", true),
        entry(b"B", false),
        entry(b"a", false),
    ];
    assert_eq!(
        directory_listing(entries, "/d"),
        "<!doctype html><html><head><meta charset=\"utf-8\"><title>Index</title></head><body><h1>Index</h1><ul><li><a href=\"/d/B\">B</a></li><li><a href=\"/d/a\">a</a></li><li><a href=\"/d/a%3C/\">a&lt;/</a></li><li><a href=\"/d/b\">b</a></li></ul></body></html>"
    );
    let sorted = sort_entries(vec![entry(b"z", true), entry(b"\xff", false), entry(b"", false)]);
    let names: Vec<&[u8]> = sorted.iter().map(|e| e.name.as_slice()).collect();
    assert_eq!(names, vec![b"".as_slice(), b"z".as_slice(), b"\xff".as_slice()]);
    assert!(directory_listing(vec![entry(b"\xff", false)], "/").contains("<a href=\"/%EF%BF%BD\">\u{fffd}</a>"));
}
