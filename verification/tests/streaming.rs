use token_gateway::Action;
use token_gateway::CloseReason;
use token_gateway::ConnState;
use token_gateway::Connection;
use token_gateway::Credential;
use token_gateway::Event;
use token_gateway::HandshakeVerdict;
use token_gateway::InitPayload;
use token_gateway::PayloadField;
use token_gateway::PayloadValue;
use token_gateway::Protocol;
use token_gateway::handshake;
use token_gateway::negotiate;
use token_gateway::parse_protocol;

fn open_connection(credential: Option<&str>) -> Connection {
    let offered = vec!["graphql-transport-ws".to_string()];
    let (mut conn, actions) = Connection::new(7, &offered);
    assert!(actions.is_empty());
    assert!(matches!(conn.state(), ConnState::Connecting));
    let verdict = HandshakeVerdict::Accepted {
        credential: credential.map(Credential::from_text),
    };
    let actions = conn.step(Event::Init { verdict });
    assert_eq!(actions.len(), 1);
    assert!(matches!(actions[0], Action::SendAck));
    assert!(matches!(conn.state(), ConnState::Open));
    conn
}

fn start(conn: &mut Connection, id: &str) -> Vec<Action> {
    conn.step(Event::Start {
        id: id.to_string(),
        document: b"subscription { values }".to_vec(),
        variables: b"{}".to_vec(),
    })
}

#[test]
fn negotiation_picks_the_first_known_protocol() {
    assert!(matches!(
        parse_protocol(&"graphql-transport-ws".to_string()),
        Some(Protocol::GraphQlTransportWs)
    ));
    assert!(matches!(parse_protocol(&"graphql-ws".to_string()), Some(Protocol::GraphQlWs)));
    assert!(parse_protocol(&"unknown".to_string()).is_none());

    let offered = vec!["nonsense".to_string(), "graphql-ws".to_string()];
    assert!(matches!(negotiate(&offered), Some(Protocol::GraphQlWs)));
    assert!(negotiate(&vec![]).is_none());
}

#[test]
fn failed_negotiation_closes_at_once() {
    let offered = vec!["nonsense".to_string()];
    let (conn, actions) = Connection::new(1, &offered);
    assert_eq!(conn.id(), 1);
    assert!(matches!(conn.state(), ConnState::Closed));
    assert!(conn.protocol().is_none());
    assert_eq!(actions.len(), 1);
    assert!(matches!(actions[0], Action::Close { reason: CloseReason::ProtocolError }));
}

#[test]
fn handshake_rejection_closes_the_connection() {
    let offered = vec!["graphql-transport-ws".to_string()];
    let (mut conn, _) = Connection::new(2, &offered);
    let actions = conn.step(Event::Init { verdict: HandshakeVerdict::Rejected });
    assert!(matches!(conn.state(), ConnState::Closed));
    assert_eq!(actions.len(), 1);
    assert!(matches!(actions[0], Action::Close { reason: CloseReason::HandshakeRejected }));
}

#[test]
fn operation_before_handshake_is_fatal() {
    let offered = vec!["graphql-transport-ws".to_string()];
    let (mut conn, _) = Connection::new(3, &offered);
    let actions = start(&mut conn, "1");
    assert!(matches!(conn.state(), ConnState::Closed));
    assert_eq!(actions.len(), 1);
    assert!(matches!(actions[0], Action::Close { reason: CloseReason::Unauthorized }));
}

#[test]
fn default_handshake_accepts_with_and_without_credential() {
    let with = InitPayload {
        fields: vec![PayloadField {
            name: "token".to_string(),
            value: PayloadValue::Text("abc123".to_string()),
        }],
    };
    match handshake(&Some(with)) {
        HandshakeVerdict::Accepted { credential: Some(c) } => {
            assert_eq!(c.value().as_slice(), b"abc123")
        }
        _ => panic!("acceptance with credential expected"),
    }
    match handshake(&None) {
        HandshakeVerdict::Accepted { credential: None } => {}
        _ => panic!("anonymous acceptance expected"),
    }
}

#[test]
fn accepted_operation_gets_the_connection_credential() {
    let mut conn = open_connection(Some("abc123"));
    let actions = start(&mut conn, "1");
    assert_eq!(actions.len(), 1);
    match &actions[0] {
        Action::StartExecution { id, document, context, .. } => {
            assert_eq!(id, "1");
            assert_eq!(document.as_slice(), b"subscription { values }");
            let cred = context.credential().expect("credential expected");
            assert_eq!(cred.value().as_slice(), b"abc123");
        }
        _ => panic!("start of execution expected"),
    }
    assert_eq!(conn.active_count(), 1);
}

#[test]
fn duplicate_start_is_rejected_and_first_continues() {
    let mut conn = open_connection(None);
    let first = start(&mut conn, "1");
    assert!(matches!(first[0], Action::StartExecution { .. }));
    assert_eq!(conn.active_count(), 1);

    // The second start under the same id draws a per-operation error and
    // grows the active set by nothing.
    let second = start(&mut conn, "1");
    assert_eq!(second.len(), 1);
    match &second[0] {
        Action::SendDuplicate { id } => assert_eq!(id, "1"),
        _ => panic!("duplicate-id error expected"),
    }
    assert_eq!(conn.active_count(), 1);
    assert!(conn.is_active(&"1".to_string()));

    // The first operation still receives its results.
    let actions = conn.step(Event::EngineNext { id: "1".to_string(), payload: b"r1".to_vec() });
    assert_eq!(actions.len(), 1);
    assert!(matches!(&actions[0], Action::SendNext { id, .. } if id == "1"));
}

#[test]
fn stop_quiesces_one_operation_and_spares_the_other() {
    let mut conn = open_connection(None);
    start(&mut conn, "1");
    start(&mut conn, "2");
    assert_eq!(conn.active_count(), 2);

    let actions = conn.step(Event::Stop { id: "1".to_string() });
    assert_eq!(actions.len(), 1);
    assert!(matches!(&actions[0], Action::CancelExecution { id } if id == "1"));
    assert_eq!(conn.active_count(), 1);

    // No further next message for the stopped id.
    let actions = conn.step(Event::EngineNext { id: "1".to_string(), payload: b"r".to_vec() });
    assert!(actions.is_empty());

    // The sibling operation is unaffected.
    let actions = conn.step(Event::EngineNext { id: "2".to_string(), payload: b"s".to_vec() });
    assert_eq!(actions.len(), 1);
    assert!(matches!(&actions[0], Action::SendNext { id, payload } if id == "2" && payload.as_slice() == b"s"));
}

#[test]
fn stop_for_an_unknown_id_does_nothing() {
    let mut conn = open_connection(None);
    start(&mut conn, "1");
    let actions = conn.step(Event::Stop { id: "9".to_string() });
    assert!(actions.is_empty());
    assert_eq!(conn.active_count(), 1);
}

#[test]
fn transport_close_cancels_every_operation() {
    let mut conn = open_connection(None);
    start(&mut conn, "1");
    start(&mut conn, "2");

    let actions = conn.step(Event::TransportClosed);
    assert!(matches!(conn.state(), ConnState::Closed));
    assert_eq!(conn.active_count(), 0);
    assert_eq!(actions.len(), 2);
    assert!(matches!(&actions[0], Action::CancelExecution { id } if id == "1"));
    assert!(matches!(&actions[1], Action::CancelExecution { id } if id == "2"));

    // No further message of any kind for either operation.
    let actions = conn.step(Event::EngineNext { id: "1".to_string(), payload: b"r".to_vec() });
    assert!(actions.is_empty());
    let actions = conn.step(Event::EngineNext { id: "2".to_string(), payload: b"r".to_vec() });
    assert!(actions.is_empty());
}

#[test]
fn termination_cancels_then_closes() {
    let mut conn = open_connection(None);
    start(&mut conn, "1");
    let actions = conn.step(Event::Terminate);
    assert!(matches!(conn.state(), ConnState::Closing));
    assert_eq!(actions.len(), 2);
    assert!(matches!(&actions[0], Action::CancelExecution { id } if id == "1"));
    assert!(matches!(actions[1], Action::Close { reason: CloseReason::Normal }));

    let actions = conn.step(Event::TransportClosed);
    assert!(actions.is_empty());
    assert!(matches!(conn.state(), ConnState::Closed));
}

#[test]
fn anonymous_subscription_runs_in_order_and_completes() {
    // A connection whose `connection_init` payload carries no credential
    // field, then a subscription under id "1".
    let payload = InitPayload {
        fields: vec![PayloadField { name: "user".to_string(), value: PayloadValue::Null }],
    };
    let offered = vec!["graphql-transport-ws".to_string()];
    let (mut conn, _) = Connection::new(4, &offered);
    let actions = conn.step(Event::Init { verdict: handshake(&Some(payload)) });
    assert!(matches!(actions[0], Action::SendAck));

    let actions = start(&mut conn, "1");
    match &actions[0] {
        Action::StartExecution { context, .. } => assert!(context.credential().is_none()),
        _ => panic!("start of execution expected"),
    }

    // Results are forwarded in arrival order, payloads verbatim.
    for payload in [&b"a"[..], b"b", b"c"] {
        let actions =
            conn.step(Event::EngineNext { id: "1".to_string(), payload: payload.to_vec() });
        assert_eq!(actions.len(), 1);
        assert!(matches!(&actions[0], Action::SendNext { id, payload: p }
            if id == "1" && p.as_slice() == payload));
    }

    // Completion removes the operation from the active set.
    let actions = conn.step(Event::EngineComplete { id: "1".to_string() });
    assert_eq!(actions.len(), 1);
    assert!(matches!(&actions[0], Action::SendComplete { id } if id == "1"));
    assert_eq!(conn.active_count(), 0);
    assert!(!conn.is_active(&"1".to_string()));

    // Nothing more is sent for it afterwards.
    let actions = conn.step(Event::EngineNext { id: "1".to_string(), payload: b"d".to_vec() });
    assert!(actions.is_empty());
}

#[test]
fn engine_error_is_terminal_for_its_operation_only() {
    let mut conn = open_connection(None);
    start(&mut conn, "1");
    start(&mut conn, "2");

    let actions = conn.step(Event::EngineError { id: "1".to_string(), payload: b"boom".to_vec() });
    assert_eq!(actions.len(), 1);
    assert!(matches!(&actions[0], Action::SendError { id, payload } if id == "1" && payload.as_slice() == b"boom"));
    assert_eq!(conn.active_count(), 1);

    // The sibling and the connection live on.
    assert!(matches!(conn.state(), ConnState::Open));
    let actions = conn.step(Event::EngineNext { id: "2".to_string(), payload: b"s".to_vec() });
    assert_eq!(actions.len(), 1);
}

#[test]
fn malformed_message_is_fatal_only_during_handshake() {
    let offered = vec!["graphql-transport-ws".to_string()];
    let (mut conn, _) = Connection::new(5, &offered);
    let actions = conn.step(Event::Malformed);
    assert!(matches!(conn.state(), ConnState::Closed));
    assert!(matches!(actions[0], Action::Close { reason: CloseReason::ProtocolError }));

    let mut conn = open_connection(None);
    let actions = conn.step(Event::Malformed);
    assert!(matches!(conn.state(), ConnState::Open));
    assert_eq!(actions.len(), 1);
    assert!(matches!(actions[0], Action::SendMalformedError));
}

#[test]
fn repeated_initialization_is_fatal() {
    let mut conn = open_connection(None);
    start(&mut conn, "1");
    let actions = conn.step(Event::Init {
        verdict: HandshakeVerdict::Accepted { credential: None },
    });
    assert!(matches!(conn.state(), ConnState::Closed));
    assert_eq!(actions.len(), 2);
    assert!(matches!(&actions[0], Action::CancelExecution { id } if id == "1"));
    assert!(matches!(actions[1], Action::Close { reason: CloseReason::ProtocolError }));
}

#[test]
fn ping_draws_pong() {
    let mut conn = open_connection(None);
    let actions = conn.step(Event::Ping);
    assert_eq!(actions.len(), 1);
    assert!(matches!(actions[0], Action::SendPong));
    let actions = conn.step(Event::Pong);
    assert!(actions.is_empty());
}
