use service_lifecycle::config::{
    default_listen, load_bootstrap, load_runtime, parse_socket_address_str, CapabilityKind,
    Config, ConfigError, SocketAddress,
};

fn env(pairs: &[(&str, &str)]) -> Vec<(String, String)> {
    pairs.iter().map(|(k, v)| (k.to_string(), v.to_string())).collect()
}

fn addr(a: u8, b: u8, c: u8, d: u8, port: u16) -> SocketAddress {
    SocketAddress::V4 { a, b, c, d, port }
}

#[test]
fn default_listen_is_wildcard_on_3000() {
    assert_eq!(default_listen(), addr(0, 0, 0, 0, 3000));
}

#[test]
fn missing_listen_uses_default() {
    let b = load_bootstrap(&env(&[("PATH", "/bin"), ("listen", "1.2.3.4:5")])).unwrap();
    assert_eq!(b.listen, addr(0, 0, 0, 0, 3000));
    assert!(b.database_url.is_none());
}

#[test]
fn empty_listen_uses_default() {
    let b = load_bootstrap(&env(&[("LISTEN", "")])).unwrap();
    assert_eq!(b.listen, addr(0, 0, 0, 0, 3000));
}

#[test]
fn listen_is_parsed() {
    let b = load_bootstrap(&env(&[("HOME", "/root"), ("LISTEN", "127.0.0.1:8080")])).unwrap();
    assert_eq!(b.listen, addr(127, 0, 0, 1, 8080));
}

#[test]
fn ephemeral_port_is_accepted() {
    let b = load_bootstrap(&env(&[("LISTEN", "127.0.0.1:0")])).unwrap();
    assert_eq!(b.listen, addr(127, 0, 0, 1, 0));
}

#[test]
fn invalid_listen_is_rejected() {
    match load_bootstrap(&env(&[("LISTEN", "not-an-address")])) {
        Err(ConfigError::LoadConfig { value }) => assert_eq!(value, "not-an-address"),
        other => panic!("unexpected result: {:?}", other),
    }
}

#[test]
fn config_from_env_rejects_invalid_listen() {
    assert!(matches!(
        Config::from_env(&env(&[("LISTEN", "localhost:80")])),
        Err(ConfigError::LoadConfig { .. })
    ));
}

#[test]
fn first_listen_variable_counts() {
    let b = load_bootstrap(&env(&[("LISTEN", "10.0.0.1:1"), ("LISTEN", "bad")])).unwrap();
    assert_eq!(b.listen, addr(10, 0, 0, 1, 1));
}

#[test]
fn database_url_is_read() {
    let b = load_bootstrap(&env(&[("DATABASE_URL", "sqlite://todo.db")])).unwrap();
    assert_eq!(b.database_url.as_deref(), Some("sqlite://todo.db"));
}

#[test]
fn runtime_declares_no_capability() {
    let b = load_bootstrap(&env(&[])).unwrap();
    let rt = load_runtime(&b).unwrap();
    assert!(rt.capabilities.is_empty());
    let c = Config::from_env(&env(&[("LISTEN", "0.0.0.0:80")])).unwrap();
    assert_eq!(c.bootstrap.listen, addr(0, 0, 0, 0, 80));
    assert!(!c.runtime.capabilities.contains(&CapabilityKind::Database));
}

#[test]
fn parse_accepts_extremes() {
    assert_eq!(parse_socket_address_str("255.255.255.255:65535"), Some(addr(255, 255, 255, 255, 65535)));
    assert_eq!(parse_socket_address_str("0.0.0.0:0"), Some(addr(0, 0, 0, 0, 0)));
    assert_eq!(parse_socket_address_str("1.2.3.4:0080"), Some(addr(1, 2, 3, 4, 80)));
}

#[test]
fn parse_rejects_out_of_range() {
    assert_eq!(parse_socket_address_str("256.0.0.1:80"), None);
    assert_eq!(parse_socket_address_str("1.2.3.4:65536"), None);
    assert_eq!(parse_socket_address_str("1.2.3.4:99999999999"), None);
}

#[test]
fn parse_rejects_malformed() {
    assert_eq!(parse_socket_address_str("01.2.3.4:80"), None);
    assert_eq!(parse_socket_address_str("1.2.3:80"), None);
    assert_eq!(parse_socket_address_str("1.2.3.4.5:80"), None);
    assert_eq!(parse_socket_address_str("1.2.3.4:"), None);
    assert_eq!(parse_socket_address_str("1.2.3.4"), None);
    assert_eq!(parse_socket_address_str("1.2.3.4:80:81"), None);
    assert_eq!(parse_socket_address_str("1..3.4:80"), None);
    assert_eq!(parse_socket_address_str(" 1.2.3.4:80"), None);
    assert_eq!(parse_socket_address_str("1.2.3.4:+80"), None);
    assert_eq!(parse_socket_address_str(""), None);
}

fn v6(ip: u128, scope_id: u32, port: u16) -> SocketAddress {
    SocketAddress::V6 { ip, scope_id, port }
}

#[test]
fn ipv6_listen_is_parsed() {
    let b = load_bootstrap(&env(&[("LISTEN", "[::1]:80")])).unwrap();
    assert_eq!(b.listen, v6(1, 0, 80));
}

#[test]
fn parse_accepts_ipv6_forms() {
    assert_eq!(parse_socket_address_str("[::]:3000"), Some(v6(0, 0, 3000)));
    assert_eq!(
        parse_socket_address_str("[1:2:3:4:5:6:7:8]:65535"),
        Some(v6(0x0001_0002_0003_0004_0005_0006_0007_0008, 0, 65535))
    );
    assert_eq!(
        parse_socket_address_str("[fe80::1%3]:22"),
        Some(v6((0xfe80u128 << 112) | 1, 3, 22))
    );
    assert_eq!(
        parse_socket_address_str("[::ffff:192.168.0.1]:8080"),
        Some(v6(0xffff_c0a8_0001, 0, 8080))
    );
    assert_eq!(
        parse_socket_address_str("[1:2:3:4:5:6:1.2.3.4]:1"),
        Some(v6(0x0001_0002_0003_0004_0005_0006_0102_0304, 0, 1))
    );
    assert_eq!(
        parse_socket_address_str("[1:2:3:4:5:6:7::]:1"),
        Some(v6(0x0001_0002_0003_0004_0005_0006_0007_0000, 0, 1))
    );
    assert_eq!(parse_socket_address_str("[ABCD::0]:1"), Some(v6(0xabcdu128 << 112, 0, 1)));
    assert_eq!(
        parse_socket_address_str("[1::2:3]:01"),
        Some(v6((1u128 << 112) | 0x0002_0003, 0, 1))
    );
}

#[test]
fn parse_rejects_malformed_ipv6() {
    assert_eq!(parse_socket_address_str("[1::2::3]:80"), None);
    assert_eq!(parse_socket_address_str("[1:2:3:4:5:6:7:8:9]:80"), None);
    assert_eq!(parse_socket_address_str("[1:2:3:4:5:6:7:8::]:80"), None);
    assert_eq!(parse_socket_address_str("[::1]"), None);
    assert_eq!(parse_socket_address_str("::1:80"), None);
    assert_eq!(parse_socket_address_str("[12345::]:80"), None);
    assert_eq!(parse_socket_address_str("[1.2.3.4::]:80"), None);
    assert_eq!(parse_socket_address_str("[::1%]:80"), None);
    assert_eq!(parse_socket_address_str("[::1%4294967296]:80"), None);
    assert_eq!(parse_socket_address_str("[1:2:3:4:5:6:7:1.2.3.4]:80"), None);
    assert_eq!(parse_socket_address_str("[::g]:80"), None);
    assert_eq!(parse_socket_address_str("[:1::]:80"), None);
    assert_eq!(parse_socket_address_str("[::1]:65536"), None);
}
