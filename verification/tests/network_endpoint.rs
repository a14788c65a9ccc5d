use yaiko::network_endpoint::{NetworkEndpoint, NetworkError, TlsMode};

#[test]
fn builds_deterministic_endpoint() {
    let e = NetworkEndpoint::from_address("127.0.0.1:8443", 8443).http2(true).tls(TlsMode::Required).unwrap();
    assert_eq!(e.describe(), "https://127.0.0.1:8443?http2=1");
    assert_eq!(e.scheme(), "https");
}

#[test]
fn validates_address_and_tls() {
    assert_eq!(
        NetworkEndpoint::from_address("127.0.0.1:0", 0).tls(TlsMode::Required),
        Err(NetworkError::InvalidTls)
    );
    let plain = NetworkEndpoint::from_address("[::1]:80", 80);
    assert_eq!(plain.describe(), "http://[::1]:80");
    assert_eq!(plain.clone().tls(TlsMode::Disabled).unwrap(), plain);
    assert!(NetworkEndpoint::from_address("0.0.0.0:0", 0).tls(TlsMode::Disabled).is_ok());
}
