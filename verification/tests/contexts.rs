use token_gateway::Credential;
use token_gateway::ExecutionContext;
use token_gateway::HeaderCarrier;
use token_gateway::HeaderEntry;
use token_gateway::build_context;
use token_gateway::prepare_request;

#[test]
fn context_carries_its_credential() {
    let ctx = build_context(Some(Credential::from_text("abc123")));
    let cred = ctx.credential().expect("credential expected");
    assert_eq!(cred.value().as_slice(), b"abc123");
}

#[test]
fn anonymous_context_carries_nothing() {
    let ctx = build_context(None);
    assert!(ctx.credential().is_none());
}

#[test]
fn contexts_are_independent() {
    let ctx_a = build_context(Some(Credential::from_text("alpha")));
    let mut ctx_b = build_context(Some(Credential::from_text("beta")));

    assert_eq!(ctx_a.credential().unwrap().value().as_slice(), b"alpha");
    assert_eq!(ctx_b.credential().unwrap().value().as_slice(), b"beta");

    // Mutating one context never shows through the other.
    ctx_b.insert_credential(Credential::from_text("gamma"));
    assert_eq!(ctx_a.credential().unwrap().value().as_slice(), b"alpha");
    assert_eq!(ctx_b.credential().unwrap().value().as_slice(), b"gamma");
}

#[test]
fn inserting_replaces_the_credential() {
    let mut ctx = ExecutionContext::new();
    assert!(ctx.credential().is_none());
    ctx.insert_credential(Credential::from_text("one"));
    assert_eq!(ctx.credential().unwrap().value().as_slice(), b"one");
    ctx.insert_credential(Credential::from_text("two"));
    assert_eq!(ctx.credential().unwrap().value().as_slice(), b"two");
}

#[test]
fn request_handler_builds_context_from_carrier() {
    // Header carrier {"Token": "abc123"}, query `{ hello }`.
    let carrier = HeaderCarrier {
        entries: vec![HeaderEntry { name: b"Token".to_vec(), value: b"abc123".to_vec() }],
    };
    let prepared = prepare_request(&carrier, b"{ hello }".to_vec(), b"{}".to_vec());
    assert_eq!(prepared.document.as_slice(), b"{ hello }");
    assert_eq!(prepared.variables.as_slice(), b"{}");
    let cred = prepared.context.credential().expect("credential expected");
    assert_eq!(cred.value().as_slice(), b"abc123");
}

#[test]
fn request_handler_without_token_is_anonymous() {
    let carrier = HeaderCarrier {
        entries: vec![HeaderEntry { name: b"accept".to_vec(), value: b"*/*".to_vec() }],
    };
    let prepared = prepare_request(&carrier, b"{ hello }".to_vec(), b"{}".to_vec());
    assert!(prepared.context.credential().is_none());
}
