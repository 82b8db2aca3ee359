use pi_rs_host::crypto::{execute_crypto, uuid_from_bytes, CryptoOutput};
use pi_rs_host::effects::{osc52_sequence, CryptoRequest, EffectError};
use pi_rs_host::net::{parse_url, url_fields_of, UrlParts};

#[test]
fn sha256_digests_and_limits() {
    match execute_crypto(CryptoRequest::Sha256(b"abc".to_vec())) {
        Ok(CryptoOutput::Bytes(d)) => {
            let hex: String = d.iter().map(|b| format!("{b:02x}")).collect();
            assert_eq!(hex, "ba7816bf8f01cfea414140de5dae2223b00361a396177a9cb410ff61f20015ad");
        }
        _ => panic!("a digest was expected"),
    }
    match execute_crypto(CryptoRequest::Sha256(vec![0u8; 1_048_577])) {
        Err(EffectError::Invalid(m)) => assert_eq!(m, "SHA-256 input must not exceed 1048576 bytes"),
        _ => panic!("an error was expected"),
    }
}

#[test]
fn random_bytes_have_the_asked_length() {
    match execute_crypto(CryptoRequest::RandomBytes(32)) {
        Ok(CryptoOutput::Bytes(v)) => assert_eq!(v.len(), 32),
        _ => panic!("bytes were expected"),
    }
    for bad in [0usize, 1_048_577] {
        match execute_crypto(CryptoRequest::RandomBytes(bad)) {
            Err(EffectError::Invalid(m)) => assert_eq!(m, "random byte length must be in 1..=1048576"),
            _ => panic!("an error was expected"),
        }
    }
}

#[test]
fn uuids_carry_version_and_variant() {
    let bytes: Vec<u8> = (0u8..16).map(|i| i * 17).collect();
    assert_eq!(uuid_from_bytes(&bytes), "00112233-4455-4677-8899-aabbccddeeff");
    assert_eq!(uuid_from_bytes(&vec![0xff; 16]), "ffffffff-ffff-4fff-bfff-ffffffffffff");
    match execute_crypto(CryptoRequest::RandomUuid) {
        Ok(CryptoOutput::Uuid(u)) => {
            assert_eq!(u.len(), 36);
            assert_eq!(&u[14..15], "4");
            assert!(matches!(&u[19..20], "8" | "9" | "a" | "b"));
        }
        _ => panic!("a UUID was expected"),
    }
}

#[test]
fn osc52_wraps_base64_text() {
    assert_eq!(osc52_sequence("hi").as_deref(), Some("\x1b]52;c;aGk=\x07"));
    assert_eq!(osc52_sequence("").as_deref(), Some("\x1b]52;c;\x07"));
    let long = "x".repeat(75_001);
    assert!(osc52_sequence(&long).is_none());
    assert!(osc52_sequence(&"x".repeat(75_000)).is_some());
}

#[test]
fn urls_parse_into_browser_fields() {
    let f = parse_url("https://example.com:8080/a/b?q=1#frag", None).ok().unwrap();
    assert_eq!(f.protocol, "https:");
    assert_eq!(f.host, "example.com");
    assert_eq!(f.hostname, "example.com");
    assert_eq!(f.port, "8080");
    assert_eq!(f.pathname, "/a/b");
    assert_eq!(f.search, "?q=1");
    assert_eq!(f.hash, "#frag");
    assert_eq!(f.href, "https://example.com:8080/a/b?q=1#frag");

    let joined = parse_url("../c", Some("https://example.com/a/b/")).ok().unwrap();
    assert_eq!(joined.href, "https://example.com/a/c");
    assert_eq!(joined.port, "");
    assert_eq!(joined.search, "");

    assert_eq!(parse_url("not a url", None).err().unwrap(), "url.parse: relative URL without a base");
}

#[test]
fn url_fields_from_parts() {
    let parts = UrlParts {
        scheme: "http".to_string(),
        host: Some("h".to_string()),
        port: Some(81),
        path: "/p".to_string(),
        query: None,
        fragment: Some("f".to_string()),
        href: "http://h:81/p#f".to_string(),
    };
    let f = url_fields_of(Ok(parts)).ok().unwrap();
    assert_eq!(f.protocol, "http:");
    assert_eq!(f.host, "h");
    assert_eq!(f.port, "81");
    assert_eq!(f.search, "");
    assert_eq!(f.hash, "#f");
    assert_eq!(url_fields_of(Err("bad".to_string())).err().unwrap(), "url.parse: bad");
}

#[test]
fn osc52_uses_the_standard_alphabet() {
    assert_eq!(osc52_sequence("hé?>~").as_deref(), Some("\x1b]52;c;aMOpPz5+\x07"));
    assert_eq!(osc52_sequence("abc").as_deref(), Some("\x1b]52;c;YWJj\x07"));
}
