use localhost::addr::ListenAddr;
use localhost::config::{parse_config, parse_size, read_config, route_matches};

fn error(text: &str) -> String {
    match parse_config(text) {
        Err(message) => message,
        Ok(_) => panic!("accepted"),
    }
}

fn server_error(lines: &str) -> String {
    error(&format!("server {{\n{lines}\n}}\n"))
}

fn location_error(lines: &str) -> String {
    server_error(&format!("listen 127.0.0.1:80\nlocation /x {{\n{lines}\n}}"))
}

#[test]
fn parses_virtual_host_config() {
    let cfg = r#"
        server {
            listen 127.0.0.1:8080
            server_name localhost test.local
            client_max_body_size 2m
            error_page 404 /error_pages/404.html
            location / {
                methods GET POST
                root ./public
                index index.html
                autoindex off
            }
            location /cgi-bin {
                methods GET POST
                root ./cgi-bin
                cgi_extension .py /usr/bin/python3
            }
        }
        "#;
    let servers = parse_config(cfg).unwrap();
    assert_eq!(servers.len(), 1);
    assert_eq!(servers[0].client_max_body_size, 2 * 1024 * 1024);
    assert_eq!(servers[0].route_for("/cgi-bin/test.py").unwrap().path, "/cgi-bin");
}

#[test]
fn rejects_duplicate_listen_inside_same_server() {
    let cfg = r#"
        server {
            listen 127.0.0.1:8080
            listen 127.0.0.1:8080
            location / {
                root ./public
            }
        }
        "#;
    assert!(parse_config(cfg).is_err());
}

#[test]
fn accepts_same_listener_for_virtual_servers() {
    let cfg = r#"
        server {
            listen 127.0.0.1:8080
            server_name a.test
            location / {
                root ./a
            }
        }
        server {
            listen 127.0.0.1:8080
            server_name b.test
            location / {
                root ./b
            }
        }
        "#;
    assert_eq!(parse_config(cfg).unwrap().len(), 2);
}

#[test]
fn reads_every_directive() {
    let cfg = "# comment\nserver {\n listen 0.0.0.0:80 # here too\n listen [::1]:8080\n server_name A.Test b.test\n server_name C\n client_max_body_size 3K\n error_page 404 /404.html\n error_page 404 /other.html\n location /r {\n return 302 /x\n }\n location / {\n methods get post\n root ./p\n index i.html\n autoindex on\n cgi_extension .PY /usr/bin/py\n }\n}\n";
    let servers = parse_config(cfg).unwrap();
    let server = &servers[0];
    assert_eq!(
        server.listens,
        vec![
            ListenAddr::V4 { ipv4: 0, port: 80 },
            ListenAddr::V6 { ipv6: 1, scope: 0, ipv6_port: 8080 },
        ]
    );
    assert_eq!(server.server_names, vec!["a.test", "b.test", "c"]);
    assert_eq!(server.client_max_body_size, 3072);
    assert_eq!(server.error_pages.get(&404).unwrap(), "/other.html");
    assert_eq!(server.routes[0].redirect, Some((302, "/x".to_string())));
    assert_eq!(server.routes[0].methods, vec!["GET"]);
    assert_eq!(server.routes[0].root, ".");
    let root = &server.routes[1];
    assert_eq!(root.methods, vec!["GET", "POST"]);
    assert_eq!(root.root, "./p");
    assert_eq!(root.index, Some("i.html".to_string()));
    assert!(root.autoindex);
    assert_eq!(root.cgi[0].extension, ".py");
    assert_eq!(root.cgi[0].interpreter, "/usr/bin/py");
    assert_eq!(server.default_root(), Some("./p"));
    let copy = server.clone();
    assert_eq!(copy.server_names, server.server_names);
    assert_eq!(copy.error_pages, server.error_pages);
    assert_eq!(copy.routes[1].methods, root.methods);
    assert_eq!(copy.routes[1].cgi[0].extension, ".py");
}

#[test]
fn body_size_is_one_mebibyte_by_default() {
    let servers = parse_config("server {\nlisten 1.2.3.4:5\nlocation / {\n}\n}").unwrap();
    assert_eq!(servers[0].client_max_body_size, 1048576);
    assert!(servers[0].server_names.is_empty());
}

#[test]
fn longest_location_serves_a_path() {
    let cfg = "server {\nlisten 1.2.3.4:5\nlocation / {\nroot a\n}\nlocation /x {\nroot b\n}\nlocation /x/y {\nroot c\n}\nlocation /x {\nroot d\n}\n}";
    let servers = parse_config(cfg).unwrap();
    let root = |path: &str| servers[0].route_for(path).map(|r| r.root.clone());
    assert_eq!(root("/"), Some("a".to_string()));
    assert_eq!(root("/xy"), Some("a".to_string()));
    assert_eq!(root("/x"), Some("d".to_string()));
    assert_eq!(root("/x/z"), Some("d".to_string()));
    assert_eq!(root("/x/y/z"), Some("c".to_string()));
    assert_eq!(root("relative"), None);
    assert!(route_matches("/x", "/x/y"));
    assert!(!route_matches("/x", "/xy"));
}

#[test]
fn names_what_is_wrong_with_the_blocks() {
    assert_eq!(error(""), "configuration contains no server blocks");
    assert_eq!(error("\nlisten 1.2.3.4:5\n"), "line 2: expected `server {`");
    assert_eq!(error("server {\n}}\n"), "line 2: unmatched closing brace");
    assert_eq!(error("server {\n"), "unterminated server block");
}

#[test]
fn names_what_is_wrong_with_a_server() {
    let skipped = |text: &str| format!("server #1 skipped: {text}");
    assert_eq!(server_error("listen"), skipped("invalid listen directive: listen"));
    assert_eq!(server_error("listen nowhere"), skipped("invalid listen address: nowhere"));
    assert_eq!(
        server_error("listen 127.0.0.1:1\nlisten 127.0.0.1:1"),
        skipped("duplicate listen directive in one server: 127.0.0.1:1")
    );
    assert_eq!(server_error("server_name"), skipped("server_name needs at least one name"));
    assert_eq!(
        server_error("client_max_body_size 1 2"),
        skipped("invalid client_max_body_size: client_max_body_size 1 2")
    );
    assert_eq!(server_error("client_max_body_size x"), skipped("invalid size `x`"));
    assert_eq!(
        server_error("client_max_body_size 18446744073709551615k"),
        skipped("size `18446744073709551615k` is too large")
    );
    assert_eq!(server_error("error_page 404"), skipped("invalid error_page directive: error_page 404"));
    assert_eq!(server_error("error_page 70000 /x"), skipped("invalid error status: 70000"));
    assert_eq!(server_error("speed 9"), skipped("unknown server directive `speed`"));
    assert_eq!(server_error("location{\n}"), skipped("unknown server directive `location{`"));
    assert_eq!(server_error("location {\n}"), skipped("invalid location declaration"));
    assert_eq!(server_error("location x {\n}"), skipped("location path must start with '/': x"));
    assert_eq!(server_error("location / {\n}"), skipped("server has no listen directive"));
    assert_eq!(server_error("listen 1.2.3.4:5"), skipped("server has no locations"));
    assert_eq!(
        server_error("listen 1.2.3.4:5\nlocation /a {\n}"),
        skipped("server needs a `/` location")
    );
}

#[test]
fn names_what_is_wrong_with_a_location() {
    let skipped = |text: &str| format!("server #1 skipped: location /x: {text}");
    assert_eq!(location_error("methods"), skipped("methods list is empty"));
    assert_eq!(location_error("root"), skipped("invalid root"));
    assert_eq!(location_error("index a b"), skipped("invalid index"));
    assert_eq!(location_error("autoindex maybe"), skipped("autoindex must be on/off"));
    assert_eq!(location_error("return 301"), skipped("invalid return directive"));
    assert_eq!(location_error("return x /y"), skipped("invalid redirect status"));
    assert_eq!(location_error("return 200 /y"), skipped("redirect status must be 3xx"));
    assert_eq!(location_error("cgi_extension py /bin/py"), skipped("invalid cgi_extension"));
    assert_eq!(location_error("speed 9"), skipped("unknown directive `speed`"));
}

#[test]
fn conflicting_blocks_are_skipped() {
    let block = |names: &str, port: u16, root: &str| {
        format!("server {{\nlisten 127.0.0.1:{port}\n{names}\nlocation / {{\nroot {root}\n}}\n}}\n")
    };
    let mut text = String::new();
    text.push_str(&block("server_name a b", 80, "one"));
    text.push_str(&block("server_name c B", 80, "two"));
    text.push_str(&block("", 80, "three"));
    text.push_str(&block("", 80, "four"));
    text.push_str(&block("", 81, "five"));
    let report = read_config(&text).unwrap();
    let roots: Vec<&str> = report.servers.iter().map(|s| s.routes[0].root.as_str()).collect();
    assert_eq!(roots, vec!["one", "three", "five"]);
    assert_eq!(
        report.warnings,
        vec![
            "server #2 skipped: conflicting server block on 127.0.0.1:80",
            "server #4 skipped: conflicting server block on 127.0.0.1:80",
        ]
    );
}

#[test]
fn all_reasons_are_given_where_nothing_is_left() {
    assert_eq!(
        error("server {\n}\nserver {\nx\n}\n"),
        "server #1 skipped: server has no listen directive; server #2 skipped: unknown server directive `x`"
    );
}

#[test]
fn sizes_have_units() {
    let size = |text: &str| parse_size(&text.chars().collect::<Vec<char>>());
    assert_eq!(size("17"), Ok(17));
    assert_eq!(size("2k"), Ok(2048));
    assert_eq!(size("2M"), Ok(2097152));
    assert_eq!(size("k"), Err("invalid size `k`".to_string()));
}
