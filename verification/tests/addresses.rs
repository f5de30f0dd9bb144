use localhost::addr::ListenAddr;

fn parse(text: &str) -> Option<ListenAddr> {
    ListenAddr::parse(&text.chars().collect::<Vec<char>>())
}

fn round(text: &str) -> Option<String> {
    parse(text).map(|a| a.to_text())
}

#[test]
fn reads_ipv4_addresses() {
    assert_eq!(parse("127.0.0.1:8080"), Some(ListenAddr::V4 { ipv4: 0x7f00_0001, port: 8080 }));
    assert_eq!(parse("255.255.255.255:65535"), Some(ListenAddr::V4 { ipv4: u32::MAX, port: 65535 }));
    assert_eq!(parse("127.0.0.1"), None);
    assert_eq!(parse("127.0.0.1:65536"), None);
    assert_eq!(parse("256.0.0.1:80"), None);
    assert_eq!(parse("01.0.0.1:80"), None);
    assert_eq!(parse("1.2.3:80"), None);
    assert_eq!(parse("localhost:80"), None);
    assert_eq!(parse("127.0.0.1:+80"), None);
}

#[test]
fn reads_ipv6_addresses() {
    assert_eq!(parse("[::]:80"), Some(ListenAddr::V6 { ipv6: 0, scope: 0, ipv6_port: 80 }));
    assert_eq!(
        parse("[2001:db8::1%3]:80"),
        Some(ListenAddr::V6 {
            ipv6: 0x2001_0db8_0000_0000_0000_0000_0000_0001,
            scope: 3,
            ipv6_port: 80,
        })
    );
    assert_eq!(
        parse("[::ffff:1.2.3.4]:1"),
        Some(ListenAddr::V6 { ipv6: 0xffff_0102_0304, scope: 0, ipv6_port: 1 })
    );
    assert_eq!(parse("::1:80"), None);
    assert_eq!(parse("[1:2:3]:80"), None);
    assert_eq!(parse("[::1]"), None);
}

#[test]
fn addresses_are_written_as_they_are_read() {
    for text in ["127.0.0.1:8080", "0.0.0.0:1", "[::]:80", "[::1]:443", "[2001:db8::1]:80", "[1:2:3:4:5:6:7:8]:9"] {
        assert_eq!(round(text), Some(text.to_string()));
    }
    assert_eq!(round("[0:0:1:0:0:0:0:1]:80"), Some("[0:0:1::1]:80".to_string()));
    assert_eq!(round("[fe80::1%7]:80"), Some("[fe80::1%7]:80".to_string()));
}
