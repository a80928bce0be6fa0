use token_gateway::Credential;
use token_gateway::HeaderCarrier;
use token_gateway::HeaderEntry;
use token_gateway::InitPayload;
use token_gateway::PayloadField;
use token_gateway::PayloadValue;
use token_gateway::extract_from_headers;
use token_gateway::extract_from_payload;

fn carrier(entries: Vec<(&[u8], &[u8])>) -> HeaderCarrier {
    HeaderCarrier {
        entries: entries
            .into_iter()
            .map(|(name, value)| HeaderEntry { name: name.to_vec(), value: value.to_vec() })
            .collect(),
    }
}

fn payload(fields: Vec<(&str, PayloadValue)>) -> InitPayload {
    InitPayload {
        fields: fields
            .into_iter()
            .map(|(name, value)| PayloadField { name: name.to_string(), value })
            .collect(),
    }
}

#[test]
fn absent_header_yields_none() {
    let c = carrier(vec![]);
    assert!(extract_from_headers(&c).is_none());

    let c = carrier(vec![(b"content-type", b"application/json"), (b"accept", b"*/*")]);
    assert!(extract_from_headers(&c).is_none());
}

#[test]
fn header_name_matches_without_regard_to_case() {
    for name in [&b"Token"[..], b"token", b"TOKEN", b"tOkEn"] {
        let c = carrier(vec![(name, b"abc123")]);
        let cred = extract_from_headers(&c).expect("credential expected");
        assert_eq!(cred.value().as_slice(), b"abc123");
    }
}

#[test]
fn empty_header_value_yields_none() {
    let c = carrier(vec![(b"Token", b"")]);
    assert!(extract_from_headers(&c).is_none());
}

#[test]
fn unrepresentable_header_value_yields_none() {
    let c = carrier(vec![(b"Token", &[0xffu8, 0x41][..])]);
    assert!(extract_from_headers(&c).is_none());
    let c = carrier(vec![(b"Token", &[0x41u8, 0x07][..])]);
    assert!(extract_from_headers(&c).is_none());
}

#[test]
fn first_matching_header_decides() {
    let c = carrier(vec![(b"Token", b"first"), (b"token", b"second")]);
    let cred = extract_from_headers(&c).expect("credential expected");
    assert_eq!(cred.value().as_slice(), b"first");

    let c = carrier(vec![(b"Token", b""), (b"token", b"second")]);
    assert!(extract_from_headers(&c).is_none());
}

#[test]
fn other_headers_do_not_interfere() {
    let c = carrier(vec![(b"authorization", b"Bearer zzz"), (b"Token", b"abc 123")]);
    let cred = extract_from_headers(&c).expect("credential expected");
    assert_eq!(cred.value().as_slice(), b"abc 123");
}

#[test]
fn absent_payload_field_yields_none() {
    let p = payload(vec![]);
    assert!(extract_from_payload(&p).is_none());

    let p = payload(vec![("user", PayloadValue::Text("u".to_string()))]);
    assert!(extract_from_payload(&p).is_none());
}

#[test]
fn payload_field_name_is_exact() {
    let p = payload(vec![("Token", PayloadValue::Text("abc".to_string()))]);
    assert!(extract_from_payload(&p).is_none());
}

#[test]
fn malformed_payload_field_yields_none() {
    let p = payload(vec![("token", PayloadValue::Text(String::new()))]);
    assert!(extract_from_payload(&p).is_none());
    let p = payload(vec![("token", PayloadValue::Number(7))]);
    assert!(extract_from_payload(&p).is_none());
    let p = payload(vec![("token", PayloadValue::Truth(true))]);
    assert!(extract_from_payload(&p).is_none());
    let p = payload(vec![("token", PayloadValue::Null)]);
    assert!(extract_from_payload(&p).is_none());
}

#[test]
fn payload_text_field_yields_credential() {
    let p = payload(vec![
        ("user", PayloadValue::Null),
        ("token", PayloadValue::Text("abc123".to_string())),
    ]);
    let cred = extract_from_payload(&p).expect("credential expected");
    assert_eq!(cred.value().as_slice(), b"abc123");
}

#[test]
fn credential_equality_is_value_equality() {
    let a = Credential::new(b"abc".to_vec());
    let b = Credential::from_text("abc");
    assert_eq!(a.value(), b.value());
    let c = Credential::from_text("xyz");
    assert_ne!(a.value(), c.value());
    assert_eq!(a.clone().value().as_slice(), b"abc");
}
