use localhost::params::{cookie_value, host_without_port, json_escape, query_value, url_path_escape};
use localhost::util::{
    follow, html_escape, normalize_url_path, now_millis, percent_decode, safe_join,
    sanitize_filename,
};

#[test]
fn rejects_encoded_parent_traversal() {
    assert!(normalize_url_path("/%2e%2e/etc/passwd").is_err());
}

#[test]
fn sanitizes_upload_name() {
    assert_eq!(sanitize_filename("../../hello world.txt").unwrap(), "hello_world.txt");
}

#[test]
fn resolves_percent_escapes() {
    assert_eq!(percent_decode("/a%20b%C3%a9"), Ok("/a bé".to_string()));
    assert_eq!(percent_decode("é"), Ok("é".to_string()));
    assert_eq!(percent_decode("%2"), Err("truncated percent escape".to_string()));
    assert_eq!(percent_decode("%zz"), Err("invalid percent escape".to_string()));
    assert_eq!(percent_decode("%ff"), Err("URL path is not valid UTF-8".to_string()));
}

#[test]
fn normal_paths_have_no_empty_segments() {
    assert_eq!(normalize_url_path("//a/./b//c/"), Ok("/a/b/c".to_string()));
    assert_eq!(normalize_url_path("/"), Ok("/".to_string()));
    assert_eq!(normalize_url_path("/%2E/x"), Ok("/x".to_string()));
    assert_eq!(normalize_url_path("a"), Err("invalid request path".to_string()));
    assert_eq!(normalize_url_path("/a%00"), Err("invalid request path".to_string()));
    assert_eq!(
        normalize_url_path("/a/../b"),
        Err("parent path traversal is forbidden".to_string())
    );
    assert_eq!(normalize_url_path("/a/..b"), Ok("/a/..b".to_string()));
}

#[test]
fn joined_paths_stay_below_the_root() {
    assert_eq!(safe_join("./public", "a/./b"), Ok("./public/a/b".to_string()));
    assert_eq!(safe_join("/srv/", "a"), Ok("/srv/a".to_string()));
    assert_eq!(safe_join("", "a/b"), Ok("a/b".to_string()));
    assert_eq!(safe_join("root", ""), Ok("root".to_string()));
    assert_eq!(safe_join("root", "../x"), Err("unsafe filesystem path".to_string()));
    assert_eq!(safe_join("root", "/x"), Err("unsafe filesystem path".to_string()));
    assert_eq!(follow("dir", "index.html"), "dir/index.html");
    assert_eq!(follow("dir", "/abs.html"), "/abs.html");
}

#[test]
fn unsafe_upload_names_are_refused() {
    for name in ["", "  ", "..", "a/", "x/.", "a\\..", "b\0"] {
        assert_eq!(sanitize_filename(name), None);
    }
    assert_eq!(sanitize_filename("C:\\dir\\é.png").unwrap(), "_.png");
    assert_eq!(sanitize_filename("...").unwrap(), "...");
}

#[test]
fn markup_is_escaped() {
    assert_eq!(html_escape("<a href=\"x\">'&'</a>"), "&lt;a href=&quot;x&quot;&gt;&#39;&amp;&#39;&lt;/a&gt;");
}

#[test]
fn json_strings_are_escaped() {
    assert_eq!(json_escape("a\"b\\c\nd\re\tf"), "a\\\"b\\\\c\\nd\\re\\tf");
}

#[test]
fn escaped_names_lead_back() {
    assert_eq!(url_path_escape("a b/é~"), "a%20b%2F%C3%A9~");
    for name in ["plain.txt", "a b", "100%", "é/ü?#", "日本"] {
        assert_eq!(percent_decode(&url_path_escape(name)), Ok(name.to_string()));
    }
}

#[test]
fn cookies_are_found_by_name() {
    assert_eq!(cookie_value("a=1; session_id=x=y ;b", "session_id"), Some("x=y".to_string()));
    assert_eq!(cookie_value("xsession_id=1", "session_id"), None);
    assert_eq!(cookie_value("", "session_id"), None);
}

#[test]
fn query_parameters_are_decoded() {
    assert_eq!(query_value("a=1&user=J%C3%A9+D", "user"), Some("Jé D".to_string()));
    assert_eq!(query_value("user", "user"), Some("".to_string()));
    assert_eq!(query_value("user=%zz&user=b", "user"), Some("b".to_string()));
    assert_eq!(query_value("users=1", "user"), None);
}

#[test]
fn hosts_lose_their_port() {
    let host = |text: &str| {
        let chars: Vec<char> = text.chars().collect();
        host_without_port(&chars).iter().collect::<String>()
    };
    assert_eq!(host(" example.org:80 "), "example.org");
    assert_eq!(host("example.org"), "example.org");
    assert_eq!(host("[::1]:80"), "::1");
    assert_eq!(host("[::1"), "[");
    assert_eq!(host(""), "");
}

#[test]
fn clock_runs_since_1970() {
    assert!(now_millis() > 1_600_000_000_000);
}
