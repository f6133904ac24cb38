use osu_proxy::host::is_valid_localhost_host;

#[test]
fn test_localhost_valid() {
    assert!(is_valid_localhost_host("localhost"));
    assert!(is_valid_localhost_host("LOCALHOST"));
    assert!(is_valid_localhost_host("LocalHost"));
}

#[test]
fn test_localhost_with_port_valid() {
    assert!(is_valid_localhost_host("localhost:80"));
    assert!(is_valid_localhost_host("localhost:443"));
    assert!(is_valid_localhost_host("localhost:8080"));
}

#[test]
fn test_ipv4_localhost_valid() {
    assert!(is_valid_localhost_host("127.0.0.1"));
    assert!(is_valid_localhost_host("127.0.0.1:80"));
    assert!(is_valid_localhost_host("127.0.0.1:443"));
}

#[test]
fn test_ipv6_localhost_valid() {
    assert!(is_valid_localhost_host("[::1]"));
    assert!(is_valid_localhost_host("[::1]:80"));
    assert!(is_valid_localhost_host("[::1]:443"));
}

#[test]
fn test_localhost_subdomains_valid() {
    assert!(is_valid_localhost_host("osu.localhost"));
    assert!(is_valid_localhost_host("c.localhost"));
    assert!(is_valid_localhost_host("a.localhost"));
    assert!(is_valid_localhost_host("b.localhost"));
    assert!(is_valid_localhost_host("sub.domain.localhost"));
    assert!(is_valid_localhost_host("osu.localhost:80"));
    assert!(is_valid_localhost_host("c.localhost:443"));
}

#[test]
fn test_external_hosts_rejected() {
    assert!(!is_valid_localhost_host("example.com"));
    assert!(!is_valid_localhost_host("osu.ppy.sh"));
    assert!(!is_valid_localhost_host("evil.com"));
    assert!(!is_valid_localhost_host("google.com:443"));
}

#[test]
fn test_malicious_hosts_rejected() {
    assert!(!is_valid_localhost_host("localhost.evil.com"));
    assert!(!is_valid_localhost_host("127.0.0.1.evil.com"));
    assert!(!is_valid_localhost_host("notlocalhost"));
    assert!(!is_valid_localhost_host("localhost@evil.com"));
    assert!(!is_valid_localhost_host("evil.com:localhost"));
}

#[test]
fn test_other_loopback_addresses_rejected() {
    assert!(!is_valid_localhost_host("127.0.0.2"));
    assert!(!is_valid_localhost_host("127.1.1.1"));
}

#[test]
fn test_private_networks_rejected() {
    assert!(!is_valid_localhost_host("192.168.1.1"));
    assert!(!is_valid_localhost_host("10.0.0.1"));
    assert!(!is_valid_localhost_host("172.16.0.1"));
}

#[test]
fn test_empty_host_rejected() {
    assert!(!is_valid_localhost_host(""));
}

#[test]
fn test_ipv6_malformed_rejected() {
    assert!(!is_valid_localhost_host("::1"));
    assert!(!is_valid_localhost_host("[::2]"));
}

#[test]
fn bracketed_host_without_closing_bracket_is_rejected() {
    assert!(!is_valid_localhost_host("[::1"));
}

#[test]
fn ipv6_localhost_port_after_bracket_is_ignored() {
    assert!(is_valid_localhost_host("[::1]:abc"));
}

#[test]
fn mixed_case_subdomain_with_port_is_accepted() {
    assert!(is_valid_localhost_host("OSU.LocalHost:13381"));
}

#[test]
fn kelvin_sign_does_not_spell_localhost() {
    assert!(!is_valid_localhost_host("\u{212A}.example"));
    assert!(!is_valid_localhost_host("LOCALHOST\u{212A}"));
}
