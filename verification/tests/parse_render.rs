use udp_listener::addr::IpAddress;
use udp_listener::addr::SocketAddress;
use udp_listener::addr::parse_socket_address;
use udp_listener::render::render_address;

fn v4(a: u8, b: u8, c: u8, d: u8, port: u16) -> SocketAddress {
    SocketAddress { ip: IpAddress::V4 { a, b, c, d }, port }
}

fn v6(gs: [u16; 8], port: u16) -> SocketAddress {
    SocketAddress {
        ip: IpAddress::V6 {
            g0: gs[0],
            g1: gs[1],
            g2: gs[2],
            g3: gs[3],
            g4: gs[4],
            g5: gs[5],
            g6: gs[6],
            g7: gs[7],
        },
        port,
    }
}

fn parse(text: &str) -> Option<SocketAddress> {
    parse_socket_address(&text.as_bytes().to_vec())
}

#[test]
fn parses_ipv4_literal() {
    assert_eq!(parse("127.0.0.1:80"), Some(v4(127, 0, 0, 1, 80)));
    assert_eq!(parse("0.0.0.0:12345"), Some(v4(0, 0, 0, 0, 12345)));
    assert_eq!(parse("255.255.255.255:65535"), Some(v4(255, 255, 255, 255, 65535)));
}

#[test]
fn parses_port_zero_as_ephemeral_request() {
    assert_eq!(parse("127.0.0.1:0"), Some(v4(127, 0, 0, 1, 0)));
    assert_eq!(parse("[::]:0"), Some(v6([0, 0, 0, 0, 0, 0, 0, 0], 0)));
}

#[test]
fn parses_ipv6_literals() {
    assert_eq!(parse("[::1]:9002"), Some(v6([0, 0, 0, 0, 0, 0, 0, 1], 9002)));
    assert_eq!(
        parse("[1:2:3:4:5:6:7:8]:80"),
        Some(v6([1, 2, 3, 4, 5, 6, 7, 8], 80))
    );
    assert_eq!(
        parse("[2001:db8::8:800:200c:417a]:443"),
        Some(v6([0x2001, 0xdb8, 0, 0, 8, 0x800, 0x200c, 0x417a], 443))
    );
    assert_eq!(parse("[fe80::]:1"), Some(v6([0xfe80, 0, 0, 0, 0, 0, 0, 0], 1)));
    assert_eq!(parse("[AbCd::1]:2"), Some(v6([0xabcd, 0, 0, 0, 0, 0, 0, 1], 2)));
}

#[test]
fn parses_embedded_ipv4_tails() {
    assert_eq!(
        parse("[::ffff:192.168.0.1]:8080"),
        Some(v6([0, 0, 0, 0, 0, 0xffff, 0xc0a8, 0x0001], 8080))
    );
    assert_eq!(parse("[::1.2.3.4]:80"), Some(v6([0, 0, 0, 0, 0, 0, 0x0102, 0x0304], 80)));
    assert_eq!(
        parse("[1:2:3:4:5:6:7.8.9.10]:80"),
        Some(v6([1, 2, 3, 4, 5, 6, 0x0708, 0x090a], 80))
    );
}

#[test]
fn accepts_leading_zeros_in_port_only() {
    assert_eq!(parse("127.0.0.1:080"), Some(v4(127, 0, 0, 1, 80)));
    assert_eq!(parse("[::1]:0000000009002"), Some(v6([0, 0, 0, 0, 0, 0, 0, 1], 9002)));
    assert_eq!(parse("01.2.3.4:80"), None);
    assert_eq!(parse("1.2.3.004:80"), None);
}

#[test]
fn rejects_malformed_literals() {
    for bad in [
        "",
        "help",
        "127.0.0.1",
        "127.0.0.1:",
        ":80",
        "256.0.0.1:80",
        "1.2.3:80",
        "1.2.3.4.5:80",
        "127.0.0.1:65536",
        "127.0.0.1:80x",
        "127.0.0.1::80",
        "::1:80",
        "[::1]:80x",
        "[::1]80",
        "[::1]:",
        "[:::1]:80",
        "[1:2:3:4:5:6:7:8:9]:80",
        "[12345::1]:80",
        "[1:2:3:4:5:6:7]:80",
        "[]:80",
        "[::1%1]:80",
        " 127.0.0.1:80",
        "127.0.0.1:80 ",
        "[1.2.3.4]:80",
        "[::ffff:1.2.3.4.5]:80",
        "[::ffff:1.2.3]:80",
        "[1:2:3:4:5:6:7:1.2.3.4]:80",
        "[1.2.3.4::]:80",
    ] {
        assert_eq!(parse(bad), None, "expected rejection of {:?}", bad);
    }
}

#[test]
fn renders_canonical_forms() {
    assert_eq!(render_address(&v4(1, 2, 3, 4, 80)), b"1.2.3.4:80".to_vec());
    assert_eq!(render_address(&v4(0, 0, 0, 0, 0)), b"0.0.0.0:0".to_vec());
    assert_eq!(
        render_address(&v6([0, 0, 0, 0, 0, 0, 0, 1], 9002)),
        b"[0:0:0:0:0:0:0:1]:9002".to_vec()
    );
    assert_eq!(
        render_address(&v6([0xfe80, 0, 0x1a2b, 0, 0, 0, 0, 0xffff], 65535)),
        b"[fe80:0:1a2b:0:0:0:0:ffff]:65535".to_vec()
    );
}

#[test]
fn round_trips_through_rendering() {
    let samples = [
        v4(127, 0, 0, 1, 0),
        v4(255, 255, 255, 255, 65535),
        v4(10, 0, 0, 7, 53),
        v6([0, 0, 0, 0, 0, 0, 0, 0], 0),
        v6([0x2001, 0xdb8, 0, 0, 8, 0x800, 0x200c, 0x417a], 443),
        v6([0xffff; 8], 1),
    ];
    for sa in samples {
        let rendered = render_address(&sa);
        assert_eq!(parse_socket_address(&rendered), Some(sa));
    }
}
