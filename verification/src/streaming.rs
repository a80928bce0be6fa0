//! The streaming channel handler: one connection's state machine.
//!
//! A connection moves through `Connecting → Open → Closing → Closed`; within
//! an open connection, operations multiplexed by client-supplied id move
//! through `Pending → Active` on acceptance and leave the active set on
//! completion, terminal error, or cancellation. The machine is pure: the
//! surrounding application owns the transport and the execution engine, feeds
//! each decoded message or engine event to [`Connection::step`] as an
//! [`Event`], and performs the returned [`Action`]s — one serialization point
//! per connection, so the active set is never mutated concurrently. All
//! authentication semantics live here: the context of every accepted
//! operation carries exactly the connection-level credential captured at
//! handshake.

use crate::context::ExecutionContext;
use crate::context::build_context;
use crate::credential::Credential;
use crate::credential::InitPayload;
use crate::credential::cred_view;
use crate::credential::extract_from_payload;
use crate::credential::payload_extraction;
use vstd::prelude::*;

verus! {

/// The sub-protocols this layer knows how to speak.
#[derive(Clone, Copy, PartialEq, Eq, Structural, Debug)]
pub enum Protocol {
    GraphQlTransportWs,
    GraphQlWs,
}

/// The lifecycle states of one streaming connection.
#[derive(Clone, Copy, PartialEq, Eq, Structural, Debug)]
pub enum ConnState {
    Connecting,
    Open,
    Closing,
    Closed,
}

/// Why a connection is being closed.
#[derive(Clone, Copy, PartialEq, Eq, Structural, Debug)]
pub enum CloseReason {
    /// An orderly shutdown after a client termination message.
    Normal,
    /// A fatal protocol fault: unsupported sub-protocol, a repeated
    /// initialization message, or a malformed message during the handshake.
    ProtocolError,
    /// The authorization hook declined the handshake.
    HandshakeRejected,
    /// An operation arrived before the handshake was accepted.
    Unauthorized,
}

/// The outcome of the handshake hook on a `connection_init` message: accept
/// the connection, optionally capturing a connection-level credential, or
/// reject it.
pub enum HandshakeVerdict {
    Accepted { credential: Option<Credential> },
    Rejected,
}

/// The mathematical shape of a handshake verdict.
pub ghost enum HandshakeVerdictModel {
    Accepted { credential: Option<Seq<u8>> },
    Rejected,
}

impl View for HandshakeVerdict {
    type V = HandshakeVerdictModel;

    open spec fn view(&self) -> HandshakeVerdictModel {
        match self {
            HandshakeVerdict::Accepted { credential } => HandshakeVerdictModel::Accepted {
                credential: cred_view(*credential),
            },
            HandshakeVerdict::Rejected => HandshakeVerdictModel::Rejected,
        }
    }
}

/// One input to the connection state machine: a decoded client message, the
/// handshake hook's verdict on a `connection_init`, an event of the execution
/// engine, or the transport going away.
pub enum Event {
    /// A `connection_init` message, already judged by the handshake hook
    /// (the default hook is [`handshake`]).
    Init { verdict: HandshakeVerdict },
    /// A start/subscribe message: a new operation under a client-supplied id.
    Start { id: String, document: Vec<u8>, variables: Vec<u8> },
    /// A client stop/complete message for one operation id.
    Stop { id: String },
    /// A connection-level liveness probe.
    Ping,
    /// The answer to a liveness probe.
    Pong,
    /// An explicit client termination message.
    Terminate,
    /// A message the transport could not decode.
    Malformed,
    /// The engine produced one result for an operation.
    EngineNext { id: String, payload: Vec<u8> },
    /// The engine signalled a terminal error for an operation.
    EngineError { id: String, payload: Vec<u8> },
    /// The engine exhausted an operation's result sequence.
    EngineComplete { id: String },
    /// The underlying transport dropped.
    TransportClosed,
}

/// The mathematical shape of an event.
pub ghost enum EventModel {
    Init { verdict: HandshakeVerdictModel },
    Start { id: Seq<char>, document: Seq<u8>, variables: Seq<u8> },
    Stop { id: Seq<char> },
    Ping,
    Pong,
    Terminate,
    Malformed,
    EngineNext { id: Seq<char>, payload: Seq<u8> },
    EngineError { id: Seq<char>, payload: Seq<u8> },
    EngineComplete { id: Seq<char> },
    TransportClosed,
}

impl View for Event {
    type V = EventModel;

    open spec fn view(&self) -> EventModel {
        match self {
            Event::Init { verdict } => EventModel::Init { verdict: verdict@ },
            Event::Start { id, document, variables } => EventModel::Start {
                id: id@,
                document: document@,
                variables: variables@,
            },
            Event::Stop { id } => EventModel::Stop { id: id@ },
            Event::Ping => EventModel::Ping,
            Event::Pong => EventModel::Pong,
            Event::Terminate => EventModel::Terminate,
            Event::Malformed => EventModel::Malformed,
            Event::EngineNext { id, payload } => EventModel::EngineNext {
                id: id@,
                payload: payload@,
            },
            Event::EngineError { id, payload } => EventModel::EngineError {
                id: id@,
                payload: payload@,
            },
            Event::EngineComplete { id } => EventModel::EngineComplete { id: id@ },
            Event::TransportClosed => EventModel::TransportClosed,
        }
    }
}

/// One output of the connection state machine, for the application to
/// perform: a message to send to the client, an instruction to the execution
/// engine, or a transport close.
pub enum Action {
    /// Send `connection_ack`.
    SendAck,
    /// Send a `next` message: one result for one operation.
    SendNext { id: String, payload: Vec<u8> },
    /// Send an `error` message: the engine's terminal error, verbatim.
    SendError { id: String, payload: Vec<u8> },
    /// Send an `error` message: the operation id is already active.
    SendDuplicate { id: String },
    /// Send a `complete` message for one operation.
    SendComplete { id: String },
    /// Answer a liveness probe.
    SendPong,
    /// Report a malformed message to the client; the connection stays open.
    SendMalformedError,
    /// Start executing an accepted operation under its own context.
    StartExecution { id: String, document: Vec<u8>, variables: Vec<u8>, context: ExecutionContext },
    /// Stop consuming the engine's results for a cancelled operation and
    /// release what its execution held.
    CancelExecution { id: String },
    /// Close the transport.
    Close { reason: CloseReason },
}

/// The mathematical shape of an action.
pub ghost enum ActionModel {
    SendAck,
    SendNext { id: Seq<char>, payload: Seq<u8> },
    SendError { id: Seq<char>, payload: Seq<u8> },
    SendDuplicate { id: Seq<char> },
    SendComplete { id: Seq<char> },
    SendPong,
    SendMalformedError,
    StartExecution { id: Seq<char>, document: Seq<u8>, variables: Seq<u8>, context: Option<Seq<u8>> },
    CancelExecution { id: Seq<char> },
    Close { reason: CloseReason },
}

impl View for Action {
    type V = ActionModel;

    open spec fn view(&self) -> ActionModel {
        match self {
            Action::SendAck => ActionModel::SendAck,
            Action::SendNext { id, payload } => ActionModel::SendNext {
                id: id@,
                payload: payload@,
            },
            Action::SendError { id, payload } => ActionModel::SendError {
                id: id@,
                payload: payload@,
            },
            Action::SendDuplicate { id } => ActionModel::SendDuplicate { id: id@ },
            Action::SendComplete { id } => ActionModel::SendComplete { id: id@ },
            Action::SendPong => ActionModel::SendPong,
            Action::SendMalformedError => ActionModel::SendMalformedError,
            Action::StartExecution { id, document, variables, context } =>
                ActionModel::StartExecution {
                id: id@,
                document: document@,
                variables: variables@,
                context: context@,
            },
            Action::CancelExecution { id } => ActionModel::CancelExecution { id: id@ },
            Action::Close { reason } => ActionModel::Close { reason: *reason },
        }
    }
}

/// The views of a sequence of actions.
pub open spec fn acts(actions: Seq<Action>) -> Seq<ActionModel> {
    actions.map_values(|a: Action| a@)
}

/// One active operation of a connection: its client-supplied id and the
/// execution context built for it when it was accepted.
pub struct ActiveOp {
    pub id: String,
    pub context: ExecutionContext,
}

/// The mathematical shape of an active operation.
#[verifier::ext_equal]
pub ghost struct OpModel {
    pub id: Seq<char>,
    pub context: Option<Seq<u8>>,
}

impl View for ActiveOp {
    type V = OpModel;

    open spec fn view(&self) -> OpModel {
        OpModel { id: self.id@, context: self.context@ }
    }
}

/// The mathematical shape of a connection: its identifier, lifecycle state,
/// negotiated sub-protocol, connection-level credential, and active
/// operations in order of acceptance.
#[verifier::ext_equal]
pub ghost struct ConnModel {
    pub id: u64,
    pub state: ConnState,
    pub protocol: Option<Protocol>,
    pub credential: Option<Seq<u8>>,
    pub ops: Seq<OpModel>,
}

/// Whether an operation with this id is active.
pub open spec fn has_op(ops: Seq<OpModel>, id: Seq<char>) -> bool {
    exists|i: int| 0 <= i < ops.len() && ops[i].id == id
}

/// The index of the first active operation with this id.
pub open spec fn first_op_index(ops: Seq<OpModel>, id: Seq<char>) -> int
    decreases ops.len(),
{
    if ops.len() == 0 {
        0
    } else if ops[0].id == id {
        0
    } else {
        1 + first_op_index(ops.drop_first(), id)
    }
}

/// Removes the first active operation with this id, if any.
pub open spec fn remove_op(ops: Seq<OpModel>, id: Seq<char>) -> Seq<OpModel> {
    if has_op(ops, id) {
        ops.remove(first_op_index(ops, id))
    } else {
        ops
    }
}

/// One cancellation instruction per operation, in order.
pub open spec fn cancel_actions(ops: Seq<OpModel>) -> Seq<ActionModel> {
    ops.map_values(|op: OpModel| ActionModel::CancelExecution { id: op.id })
}

/// Active operation ids never repeat.
pub open spec fn ids_distinct(ops: Seq<OpModel>) -> bool {
    forall|i: int, j: int| 0 <= i < j < ops.len() ==> ops[i].id != ops[j].id
}

impl ConnModel {
    /// Well-formedness: active ids are distinct, and only an open connection
    /// has active operations.
    pub open spec fn wf(self) -> bool {
        &&& ids_distinct(self.ops)
        &&& (self.state is Open || self.ops.len() == 0)
    }
}

/// The transition function of one connection: from a state and an event to
/// the next state and the actions the application must perform, in order.
/// This function is the protocol; [`Connection::step`] implements it exactly.
pub open spec fn step_spec(m: ConnModel, e: EventModel) -> (ConnModel, Seq<ActionModel>) {
    match m.state {
        ConnState::Connecting => match e {
            EventModel::Init { verdict } => match verdict {
                HandshakeVerdictModel::Accepted { credential } => (
                    ConnModel { state: ConnState::Open, credential, ..m },
                    seq![ActionModel::SendAck],
                ),
                HandshakeVerdictModel::Rejected => (
                    ConnModel { state: ConnState::Closed, ..m },
                    seq![ActionModel::Close { reason: CloseReason::HandshakeRejected }],
                ),
            },
            EventModel::Start { .. } => (
                ConnModel { state: ConnState::Closed, ..m },
                seq![ActionModel::Close { reason: CloseReason::Unauthorized }],
            ),
            EventModel::Malformed => (
                ConnModel { state: ConnState::Closed, ..m },
                seq![ActionModel::Close { reason: CloseReason::ProtocolError }],
            ),
            EventModel::Ping => (m, seq![ActionModel::SendPong]),
            EventModel::Terminate => (ConnModel { state: ConnState::Closed, ..m }, Seq::empty()),
            EventModel::TransportClosed => (
                ConnModel { state: ConnState::Closed, ..m },
                Seq::empty(),
            ),
            _ => (m, Seq::empty()),
        },
        ConnState::Open => match e {
            EventModel::Init { .. } => (
                ConnModel { state: ConnState::Closed, ops: Seq::empty(), ..m },
                cancel_actions(m.ops) + seq![
                    ActionModel::Close { reason: CloseReason::ProtocolError },
                ],
            ),
            EventModel::Start { id, document, variables } => if has_op(m.ops, id) {
                (m, seq![ActionModel::SendDuplicate { id }])
            } else {
                (
                    ConnModel { ops: m.ops.push(OpModel { id, context: m.credential }), ..m },
                    seq![
                        ActionModel::StartExecution {
                            id,
                            document,
                            variables,
                            context: m.credential,
                        },
                    ],
                )
            },
            EventModel::Stop { id } => if has_op(m.ops, id) {
                (
                    ConnModel { ops: remove_op(m.ops, id), ..m },
                    seq![ActionModel::CancelExecution { id }],
                )
            } else {
                (m, Seq::empty())
            },
            EventModel::Ping => (m, seq![ActionModel::SendPong]),
            EventModel::Pong => (m, Seq::empty()),
            EventModel::Terminate => (
                ConnModel { state: ConnState::Closing, ops: Seq::empty(), ..m },
                cancel_actions(m.ops) + seq![ActionModel::Close { reason: CloseReason::Normal }],
            ),
            EventModel::Malformed => (m, seq![ActionModel::SendMalformedError]),
            EventModel::EngineNext { id, payload } => if has_op(m.ops, id) {
                (m, seq![ActionModel::SendNext { id, payload }])
            } else {
                (m, Seq::empty())
            },
            EventModel::EngineError { id, payload } => if has_op(m.ops, id) {
                (
                    ConnModel { ops: remove_op(m.ops, id), ..m },
                    seq![ActionModel::SendError { id, payload }],
                )
            } else {
                (m, Seq::empty())
            },
            EventModel::EngineComplete { id } => if has_op(m.ops, id) {
                (
                    ConnModel { ops: remove_op(m.ops, id), ..m },
                    seq![ActionModel::SendComplete { id }],
                )
            } else {
                (m, Seq::empty())
            },
            EventModel::TransportClosed => (
                ConnModel { state: ConnState::Closed, ops: Seq::empty(), ..m },
                cancel_actions(m.ops),
            ),
        },
        ConnState::Closing => match e {
            EventModel::TransportClosed => (
                ConnModel { state: ConnState::Closed, ..m },
                Seq::empty(),
            ),
            _ => (m, Seq::empty()),
        },
        ConnState::Closed => (m, Seq::empty()),
    }
}

/// One streaming-transport session: created at protocol upgrade, destroyed
/// when the transport closes. Reads of its attributes are free; its state
/// advances only through [`Connection::step`].
pub struct Connection {
    id: u64,
    state: ConnState,
    protocol: Option<Protocol>,
    credential: Option<Credential>,
    ops: Vec<ActiveOp>,
}

impl View for Connection {
    type V = ConnModel;

    closed spec fn view(&self) -> ConnModel {
        ConnModel {
            id: self.id,
            state: self.state,
            protocol: self.protocol,
            credential: cred_view(self.credential),
            ops: self.ops@.map_values(|op: ActiveOp| op@),
        }
    }
}

/// What a sub-protocol name means to this layer.
pub open spec fn spec_parse_protocol(name: Seq<char>) -> Option<Protocol> {
    if name == "graphql-transport-ws"@ {
        Some(Protocol::GraphQlTransportWs)
    } else if name == "graphql-ws"@ {
        Some(Protocol::GraphQlWs)
    } else {
        None
    }
}

/// The first offered sub-protocol name this layer knows, if any.
pub open spec fn spec_negotiate(offered: Seq<Seq<char>>) -> Option<Protocol>
    decreases offered.len(),
{
    if offered.len() == 0 {
        None
    } else if spec_parse_protocol(offered[0]) is Some {
        spec_parse_protocol(offered[0])
    } else {
        spec_negotiate(offered.drop_first())
    }
}

/// The views of a sequence of names.
pub open spec fn name_views(names: Seq<String>) -> Seq<Seq<char>> {
    names.map_values(|s: String| s@)
}

/// Recognizes a sub-protocol name.
pub fn parse_protocol(name: &String) -> (r: Option<Protocol>)
    ensures
        r == spec_parse_protocol(name@),
{
    let transport: String = "graphql-transport-ws".to_owned();
    let legacy: String = "graphql-ws".to_owned();
    if *name == transport {
        Some(Protocol::GraphQlTransportWs)
    } else if *name == legacy {
        proof {
            reveal_strlit("graphql-transport-ws");
            reveal_strlit("graphql-ws");
        }
        Some(Protocol::GraphQlWs)
    } else {
        None
    }
}

/// Negotiates the sub-protocol: the first offered name this layer knows.
pub fn negotiate(offered: &Vec<String>) -> (r: Option<Protocol>)
    ensures
        r == spec_negotiate(name_views(offered@)),
{
    let ghost all = name_views(offered@);
    proof {
        assert(all.skip(0) =~= all);
    }
    let mut i: usize = 0;
    while i < offered.len()
        invariant
            i <= offered.len(),
            all == name_views(offered@),
            all.len() == offered.len(),
            forall|j: int| 0 <= j < all.len() ==> all[j] == offered@[j]@,
            spec_negotiate(all) == spec_negotiate(all.skip(i as int)),
        decreases offered.len() - i,
    {
        proof {
            assert(all.skip(i as int)[0] == all[i as int]);
        }
        let p = parse_protocol(&offered[i]);
        if let Some(p) = p {
            return Some(p);
        }
        proof {
            assert(all.skip(i as int).drop_first() =~= all.skip(i as int + 1));
        }
        i = i + 1;
    }
    proof {
        assert(all.skip(i as int).len() == 0);
    }
    None
}

/// The default handshake hook: accept the connection and capture whatever
/// credential the `connection_init` payload carries — an absent payload or
/// an absent credential field is a valid, anonymous connection.
pub fn handshake(payload: &Option<InitPayload>) -> (v: HandshakeVerdict)
    ensures
        v@ == (HandshakeVerdictModel::Accepted {
            credential: match *payload {
                Some(p) => payload_extraction(p@),
                None => None,
            },
        }),
{
    match payload {
        Some(p) => HandshakeVerdict::Accepted { credential: extract_from_payload(p) },
        None => HandshakeVerdict::Accepted { credential: None },
    }
}

impl Connection {
    /// Creates the session for one accepted transport upgrade. When none of
    /// the offered sub-protocol names is known, negotiation has failed: the
    /// connection is born closed and the only action is a protocol-error
    /// close. Otherwise the connection waits in `Connecting` for the
    /// handshake, with no credential and no active operations.
    pub fn new(id: u64, offered: &Vec<String>) -> (r: (Connection, Vec<Action>))
        ensures
            r.0@.wf(),
            spec_negotiate(name_views(offered@)) is Some ==> r.0@ == (ConnModel {
                id,
                state: ConnState::Connecting,
                protocol: spec_negotiate(name_views(offered@)),
                credential: None,
                ops: Seq::empty(),
            }) && acts(r.1@) == Seq::<ActionModel>::empty(),
            spec_negotiate(name_views(offered@)) is None ==> r.0@ == (ConnModel {
                id,
                state: ConnState::Closed,
                protocol: None,
                credential: None,
                ops: Seq::empty(),
            }) && acts(r.1@) == seq![ActionModel::Close { reason: CloseReason::ProtocolError }],
    {
        let protocol = negotiate(offered);
        match protocol {
            Some(p) => {
                let conn = Connection {
                    id,
                    state: ConnState::Connecting,
                    protocol: Some(p),
                    credential: None,
                    ops: Vec::new(),
                };
                let actions: Vec<Action> = Vec::new();
                proof {
                    assert(conn@.ops =~= Seq::<OpModel>::empty());
                    assert(acts(actions@) =~= Seq::<ActionModel>::empty());
                    assert(conn@ =~= (ConnModel {
                        id,
                        state: ConnState::Connecting,
                        protocol: spec_negotiate(name_views(offered@)),
                        credential: None,
                        ops: Seq::empty(),
                    }));
                }
                (conn, actions)
            },
            None => {
                let conn = Connection {
                    id,
                    state: ConnState::Closed,
                    protocol: None,
                    credential: None,
                    ops: Vec::new(),
                };
                let mut actions: Vec<Action> = Vec::new();
                actions.push(Action::Close { reason: CloseReason::ProtocolError });
                proof {
                    assert(conn@.ops =~= Seq::<OpModel>::empty());
                    assert(acts(actions@) =~= seq![
                        ActionModel::Close { reason: CloseReason::ProtocolError },
                    ]);
                    assert(conn@ =~= (ConnModel {
                        id,
                        state: ConnState::Closed,
                        protocol: None,
                        credential: None,
                        ops: Seq::empty(),
                    }));
                }
                (conn, actions)
            },
        }
    }

    /// The connection's identifier.
    pub fn id(&self) -> (r: u64)
        ensures
            r == self@.id,
    {
        self.id
    }

    /// The connection's lifecycle state.
    pub fn state(&self) -> (r: ConnState)
        ensures
            r == self@.state,
    {
        self.state
    }

    /// The negotiated sub-protocol, if negotiation succeeded.
    pub fn protocol(&self) -> (r: Option<Protocol>)
        ensures
            r == self@.protocol,
    {
        self.protocol
    }

    /// The connection-level credential captured at handshake, if any.
    pub fn credential(&self) -> (r: Option<&Credential>)
        ensures
            match r {
                Some(c) => self@.credential == Some(c@),
                None => self@.credential is None,
            },
    {
        match &self.credential {
            Some(c) => Some(c),
            None => None,
        }
    }

    /// How many operations are active.
    pub fn active_count(&self) -> (r: usize)
        ensures
            r == self@.ops.len(),
    {
        self.ops.len()
    }

    /// Whether an operation with this id is active.
    pub fn is_active(&self, id: &String) -> (r: bool)
        ensures
            r == has_op(self@.ops, id@),
    {
        let r = find_op(&self.ops, id);
        match r {
            Some(k) => {
                proof {
                    assert(self@.ops[k as int].id == id@);
                }
                true
            },
            None => {
                proof {
                    assert forall|i: int| 0 <= i < self@.ops.len() implies self@.ops[i].id != id@ by {
                        assert(self@.ops[i] == self.ops@[i]@);
                    }
                }
                false
            },
        }
    }
}

impl Connection {
    /// Advances the connection by one event and returns the actions the
    /// application must perform, in order. This is the connection's single
    /// serialization point: every message, engine event and transport close
    /// passes through here, so the active set is never mutated concurrently.
    /// The behaviour is exactly [`step_spec`].
    pub fn step(&mut self, event: Event) -> (actions: Vec<Action>)
        requires
            old(self)@.wf(),
        ensures
            final(self)@ == step_spec(old(self)@, event@).0,
            acts(actions@) == step_spec(old(self)@, event@).1,
            final(self)@.wf(),
    {
        let ghost m = self@;
        let ghost ev = event@;
        match self.state {
            ConnState::Connecting => match event {
                Event::Init { verdict } => match verdict {
                    HandshakeVerdict::Accepted { credential } => {
                        self.state = ConnState::Open;
                        self.credential = credential;
                        let mut actions: Vec<Action> = Vec::new();
                        actions.push(Action::SendAck);
                        proof {
                            assert(self@ =~= step_spec(m, ev).0);
                            assert(acts(actions@) =~= step_spec(m, ev).1);
                        }
                        actions
                    },
                    HandshakeVerdict::Rejected => {
                        self.state = ConnState::Closed;
                        let mut actions: Vec<Action> = Vec::new();
                        actions.push(Action::Close { reason: CloseReason::HandshakeRejected });
                        proof {
                            assert(self@ =~= step_spec(m, ev).0);
                            assert(acts(actions@) =~= step_spec(m, ev).1);
                        }
                        actions
                    },
                },
                Event::Start { .. } => {
                    self.state = ConnState::Closed;
                    let mut actions: Vec<Action> = Vec::new();
                    actions.push(Action::Close { reason: CloseReason::Unauthorized });
                    proof {
                        assert(self@ =~= step_spec(m, ev).0);
                        assert(acts(actions@) =~= step_spec(m, ev).1);
                    }
                    actions
                },
                Event::Malformed => {
                    self.state = ConnState::Closed;
                    let mut actions: Vec<Action> = Vec::new();
                    actions.push(Action::Close { reason: CloseReason::ProtocolError });
                    proof {
                        assert(self@ =~= step_spec(m, ev).0);
                        assert(acts(actions@) =~= step_spec(m, ev).1);
                    }
                    actions
                },
                Event::Ping => {
                    let mut actions: Vec<Action> = Vec::new();
                    actions.push(Action::SendPong);
                    proof {
                        assert(acts(actions@) =~= step_spec(m, ev).1);
                    }
                    actions
                },
                Event::Terminate | Event::TransportClosed => {
                    self.state = ConnState::Closed;
                    let actions: Vec<Action> = Vec::new();
                    proof {
                        assert(self@ =~= step_spec(m, ev).0);
                        assert(acts(actions@) =~= step_spec(m, ev).1);
                    }
                    actions
                },
                _ => {
                    let actions: Vec<Action> = Vec::new();
                    proof {
                        assert(acts(actions@) =~= step_spec(m, ev).1);
                    }
                    actions
                },
            },
            ConnState::Open => match event {
                Event::Init { .. } => {
                    let mut actions = cancel_ops(&mut self.ops);
                    self.state = ConnState::Closed;
                    actions.push(Action::Close { reason: CloseReason::ProtocolError });
                    proof {
                        assert(self@.ops =~= Seq::<OpModel>::empty());
                        assert(self@ =~= step_spec(m, ev).0);
                        assert(acts(actions@) =~= step_spec(m, ev).1);
                    }
                    actions
                },
                Event::Start { id, document, variables } => {
                    let ghost gid = id@;
                    match find_op(&self.ops, &id) {
                        Some(k) => {
                            proof {
                                assert(m.ops[k as int] == self.ops@[k as int]@);
                                assert(has_op(m.ops, gid));
                            }
                            let mut actions: Vec<Action> = Vec::new();
                            actions.push(Action::SendDuplicate { id });
                            proof {
                                assert(acts(actions@) =~= step_spec(m, ev).1);
                            }
                            actions
                        },
                        None => {
                            proof {
                                assert forall|i: int| 0 <= i < m.ops.len() implies m.ops[i].id
                                    != gid by {
                                    assert(m.ops[i] == self.ops@[i]@);
                                }
                                assert(!has_op(m.ops, gid));
                            }
                            let cred = match &self.credential {
                                Some(c) => Some(c.clone()),
                                None => None,
                            };
                            proof {
                                assert(cred_view(cred) == m.credential);
                            }
                            let context = build_context(cred);
                            let op = ActiveOp { id: id.clone(), context: context.clone() };
                            let ghost old_ops = self.ops@;
                            self.ops.push(op);
                            let mut actions: Vec<Action> = Vec::new();
                            actions.push(
                                Action::StartExecution { id, document, variables, context },
                            );
                            proof {
                                lemma_map_push(old_ops, op);
                                assert(op@ == (OpModel { id: gid, context: m.credential }));
                                assert(self@.ops =~= m.ops.push(
                                    OpModel { id: gid, context: m.credential },
                                ));
                                assert(self@ =~= step_spec(m, ev).0);
                                assert(acts(actions@) =~= step_spec(m, ev).1);
                                lemma_distinct_push(
                                    m.ops,
                                    OpModel { id: gid, context: m.credential },
                                );
                            }
                            actions
                        },
                    }
                },
                Event::Stop { id } => {
                    let ghost gid = id@;
                    match find_op(&self.ops, &id) {
                        Some(k) => {
                            proof {
                                assert(m.ops[k as int] == self.ops@[k as int]@);
                                assert(has_op(m.ops, gid));
                                lemma_first_op_index(m.ops, gid);
                                let fi = first_op_index(m.ops, gid);
                                if fi < k as int {
                                    assert(self.ops@[fi].id@ != gid);
                                    assert(m.ops[fi] == self.ops@[fi]@);
                                    assert(false);
                                }
                                if (k as int) < fi {
                                    assert(false);
                                }
                            }
                            let ghost old_ops = self.ops@;
                            let _removed = self.ops.remove(k);
                            let mut actions: Vec<Action> = Vec::new();
                            actions.push(Action::CancelExecution { id });
                            proof {
                                lemma_map_remove(old_ops, k as int);
                                assert(self@.ops =~= remove_op(m.ops, gid));
                                assert(self@ =~= step_spec(m, ev).0);
                                assert(acts(actions@) =~= step_spec(m, ev).1);
                                lemma_distinct_remove(m.ops, k as int);
                            }
                            actions
                        },
                        None => {
                            proof {
                                assert forall|i: int| 0 <= i < m.ops.len() implies m.ops[i].id
                                    != gid by {
                                    assert(m.ops[i] == self.ops@[i]@);
                                }
                                assert(!has_op(m.ops, gid));
                            }
                            let actions: Vec<Action> = Vec::new();
                            proof {
                                assert(acts(actions@) =~= step_spec(m, ev).1);
                            }
                            actions
                        },
                    }
                },
                Event::Ping => {
                    let mut actions: Vec<Action> = Vec::new();
                    actions.push(Action::SendPong);
                    proof {
                        assert(acts(actions@) =~= step_spec(m, ev).1);
                    }
                    actions
                },
                Event::Pong => {
                    let actions: Vec<Action> = Vec::new();
                    proof {
                        assert(acts(actions@) =~= step_spec(m, ev).1);
                    }
                    actions
                },
                Event::Terminate => {
                    let mut actions = cancel_ops(&mut self.ops);
                    self.state = ConnState::Closing;
                    actions.push(Action::Close { reason: CloseReason::Normal });
                    proof {
                        assert(self@.ops =~= Seq::<OpModel>::empty());
                        assert(self@ =~= step_spec(m, ev).0);
                        assert(acts(actions@) =~= step_spec(m, ev).1);
                    }
                    actions
                },
                Event::Malformed => {
                    let mut actions: Vec<Action> = Vec::new();
                    actions.push(Action::SendMalformedError);
                    proof {
                        assert(acts(actions@) =~= step_spec(m, ev).1);
                    }
                    actions
                },
                Event::EngineNext { id, payload } => {
                    let ghost gid = id@;
                    match find_op(&self.ops, &id) {
                        Some(k) => {
                            proof {
                                assert(m.ops[k as int] == self.ops@[k as int]@);
                                assert(has_op(m.ops, gid));
                            }
                            let mut actions: Vec<Action> = Vec::new();
                            actions.push(Action::SendNext { id, payload });
                            proof {
                                assert(acts(actions@) =~= step_spec(m, ev).1);
                            }
                            actions
                        },
                        None => {
                            proof {
                                assert forall|i: int| 0 <= i < m.ops.len() implies m.ops[i].id
                                    != gid by {
                                    assert(m.ops[i] == self.ops@[i]@);
                                }
                                assert(!has_op(m.ops, gid));
                            }
                            let actions: Vec<Action> = Vec::new();
                            proof {
                                assert(acts(actions@) =~= step_spec(m, ev).1);
                            }
                            actions
                        },
                    }
                },
                Event::EngineError { id, payload } => {
                    let ghost gid = id@;
                    match find_op(&self.ops, &id) {
                        Some(k) => {
                            proof {
                                assert(m.ops[k as int] == self.ops@[k as int]@);
                                assert(has_op(m.ops, gid));
                                lemma_first_op_index(m.ops, gid);
                                let fi = first_op_index(m.ops, gid);
                                if fi < k as int {
                                    assert(self.ops@[fi].id@ != gid);
                                    assert(m.ops[fi] == self.ops@[fi]@);
                                    assert(false);
                                }
                                if (k as int) < fi {
                                    assert(false);
                                }
                            }
                            let ghost old_ops = self.ops@;
                            let _removed = self.ops.remove(k);
                            let mut actions: Vec<Action> = Vec::new();
                            actions.push(Action::SendError { id, payload });
                            proof {
                                lemma_map_remove(old_ops, k as int);
                                assert(self@.ops =~= remove_op(m.ops, gid));
                                assert(self@ =~= step_spec(m, ev).0);
                                assert(acts(actions@) =~= step_spec(m, ev).1);
                                lemma_distinct_remove(m.ops, k as int);
                            }
                            actions
                        },
                        None => {
                            proof {
                                assert forall|i: int| 0 <= i < m.ops.len() implies m.ops[i].id
                                    != gid by {
                                    assert(m.ops[i] == self.ops@[i]@);
                                }
                                assert(!has_op(m.ops, gid));
                            }
                            let actions: Vec<Action> = Vec::new();
                            proof {
                                assert(acts(actions@) =~= step_spec(m, ev).1);
                            }
                            actions
                        },
                    }
                },
                Event::EngineComplete { id } => {
                    let ghost gid = id@;
                    match find_op(&self.ops, &id) {
                        Some(k) => {
                            proof {
                                assert(m.ops[k as int] == self.ops@[k as int]@);
                                assert(has_op(m.ops, gid));
                                lemma_first_op_index(m.ops, gid);
                                let fi = first_op_index(m.ops, gid);
                                if fi < k as int {
                                    assert(self.ops@[fi].id@ != gid);
                                    assert(m.ops[fi] == self.ops@[fi]@);
                                    assert(false);
                                }
                                if (k as int) < fi {
                                    assert(false);
                                }
                            }
                            let ghost old_ops = self.ops@;
                            let _removed = self.ops.remove(k);
                            let mut actions: Vec<Action> = Vec::new();
                            actions.push(Action::SendComplete { id });
                            proof {
                                lemma_map_remove(old_ops, k as int);
                                assert(self@.ops =~= remove_op(m.ops, gid));
                                assert(self@ =~= step_spec(m, ev).0);
                                assert(acts(actions@) =~= step_spec(m, ev).1);
                                lemma_distinct_remove(m.ops, k as int);
                            }
                            actions
                        },
                        None => {
                            proof {
                                assert forall|i: int| 0 <= i < m.ops.len() implies m.ops[i].id
                                    != gid by {
                                    assert(m.ops[i] == self.ops@[i]@);
                                }
                                assert(!has_op(m.ops, gid));
                            }
                            let actions: Vec<Action> = Vec::new();
                            proof {
                                assert(acts(actions@) =~= step_spec(m, ev).1);
                            }
                            actions
                        },
                    }
                },
                Event::TransportClosed => {
                    let actions = cancel_ops(&mut self.ops);
                    self.state = ConnState::Closed;
                    proof {
                        assert(self@.ops =~= Seq::<OpModel>::empty());
                        assert(self@ =~= step_spec(m, ev).0);
                        assert(acts(actions@) =~= step_spec(m, ev).1);
                    }
                    actions
                },
            },
            ConnState::Closing => match event {
                Event::TransportClosed => {
                    self.state = ConnState::Closed;
                    let actions: Vec<Action> = Vec::new();
                    proof {
                        assert(self@ =~= step_spec(m, ev).0);
                        assert(acts(actions@) =~= step_spec(m, ev).1);
                    }
                    actions
                },
                _ => {
                    let actions: Vec<Action> = Vec::new();
                    proof {
                        assert(acts(actions@) =~= step_spec(m, ev).1);
                    }
                    actions
                },
            },
            ConnState::Closed => {
                let actions: Vec<Action> = Vec::new();
                proof {
                    assert(acts(actions@) =~= step_spec(m, ev).1);
                }
                actions
            },
        }
    }
}

/// The first index holding this id is within bounds, holds it, and nothing
/// before it does.
proof fn lemma_first_op_index(ops: Seq<OpModel>, id: Seq<char>)
    requires
        has_op(ops, id),
    ensures
        0 <= first_op_index(ops, id) < ops.len(),
        ops[first_op_index(ops, id)].id == id,
        forall|j: int| 0 <= j < first_op_index(ops, id) ==> ops[j].id != id,
    decreases ops.len(),
{
    if ops[0].id == id {
    } else {
        let i = choose|i: int| 0 <= i < ops.len() && ops[i].id == id;
        assert(ops.drop_first()[i - 1] == ops[i]);
        assert(has_op(ops.drop_first(), id));
        lemma_first_op_index(ops.drop_first(), id);
        let k = first_op_index(ops.drop_first(), id);
        assert(ops[1 + k] == ops.drop_first()[k]);
        assert forall|j: int| 0 <= j < 1 + k implies ops[j].id != id by {
            if j > 0 {
                assert(ops.drop_first()[j - 1] == ops[j]);
            }
        }
    }
}

/// Mapping to models commutes with appending one operation.
proof fn lemma_map_push(s: Seq<ActiveOp>, op: ActiveOp)
    ensures
        s.push(op).map_values(|o: ActiveOp| o@) =~= s.map_values(|o: ActiveOp| o@).push(op@),
{
}

/// Mapping to models commutes with removing one operation.
proof fn lemma_map_remove(s: Seq<ActiveOp>, k: int)
    requires
        0 <= k < s.len(),
    ensures
        s.remove(k).map_values(|o: ActiveOp| o@) =~= s.map_values(|o: ActiveOp| o@).remove(k),
{
}

/// Appending an operation under a fresh id keeps ids distinct.
proof fn lemma_distinct_push(ops: Seq<OpModel>, op: OpModel)
    requires
        ids_distinct(ops),
        !has_op(ops, op.id),
    ensures
        ids_distinct(ops.push(op)),
{
    assert forall|i: int, j: int| 0 <= i < j < ops.push(op).len() implies ops.push(op)[i].id
        != ops.push(op)[j].id by {
        if j < ops.len() {
        } else {
            assert(ops.push(op)[i] == ops[i]);
        }
    }
}

/// Removing an operation keeps ids distinct.
proof fn lemma_distinct_remove(ops: Seq<OpModel>, k: int)
    requires
        ids_distinct(ops),
        0 <= k < ops.len(),
    ensures
        ids_distinct(ops.remove(k)),
{
    assert forall|i: int, j: int| 0 <= i < j < ops.remove(k).len() implies ops.remove(k)[i].id
        != ops.remove(k)[j].id by {
        let i0: int = if i < k {
            i
        } else {
            i + 1
        };
        let j0: int = if j < k {
            j
        } else {
            j + 1
        };
        assert(ops.remove(k)[i] == ops[i0]);
        assert(ops.remove(k)[j] == ops[j0]);
    }
}

/// With distinct ids, removing the first operation holding an id removes the
/// only one: the id is no longer active.
proof fn lemma_remove_op_removes(ops: Seq<OpModel>, id: Seq<char>)
    requires
        ids_distinct(ops),
    ensures
        !has_op(remove_op(ops, id), id),
{
    if has_op(ops, id) {
        lemma_first_op_index(ops, id);
        let k = first_op_index(ops, id);
        let rest = ops.remove(k);
        assert forall|i: int| 0 <= i < rest.len() implies rest[i].id != id by {
            let i0: int = if i < k {
                i
            } else {
                i + 1
            };
            assert(rest[i] == ops[i0]);
        }
    }
}

/// Cancels every active operation: empties the set and returns one
/// cancellation instruction per operation, in order.
fn cancel_ops(ops: &mut Vec<ActiveOp>) -> (actions: Vec<Action>)
    ensures
        final(ops)@.len() == 0,
        acts(actions@) == cancel_actions(old(ops)@.map_values(|o: ActiveOp| o@)),
{
    let ghost m0 = ops@.map_values(|o: ActiveOp| o@);
    let mut actions: Vec<Action> = Vec::new();
    proof {
        assert(acts(actions@) =~= cancel_actions(m0.subrange(0, 0)));
    }
    let mut i: usize = 0;
    while i < ops.len()
        invariant
            i <= ops.len(),
            m0 == ops@.map_values(|o: ActiveOp| o@),
            m0.len() == ops@.len(),
            acts(actions@) == cancel_actions(m0.subrange(0, i as int)),
        decreases ops.len() - i,
    {
        let ghost prev = actions@;
        actions.push(Action::CancelExecution { id: ops[i].id.clone() });
        proof {
            assert(m0[i as int] == ops@[i as int]@);
            assert(acts(prev).len() == prev.len());
            assert(cancel_actions(m0.subrange(0, i as int)).len() == i as int);
            assert(prev.len() == i as int);
            assert(actions@ == prev.push(actions@[i as int]));
            assert(actions@[i as int]@ == (ActionModel::CancelExecution { id: m0[i as int].id }));
            assert forall|j: int| 0 <= j < i + 1 implies acts(actions@)[j] == cancel_actions(
                m0.subrange(0, i as int + 1),
            )[j] by {
                assert(acts(actions@)[j] == actions@[j]@);
                assert(cancel_actions(m0.subrange(0, i as int + 1))[j]
                    == (ActionModel::CancelExecution { id: m0.subrange(0, i as int + 1)[j].id }));
                if j < i {
                    assert(actions@[j] == prev[j]);
                    assert(prev[j]@ == cancel_actions(m0.subrange(0, i as int))[j]);
                    assert(m0.subrange(0, i as int + 1)[j] == m0[j]);
                    assert(m0.subrange(0, i as int)[j] == m0[j]);
                }
            }
            assert(acts(actions@) =~= cancel_actions(m0.subrange(0, i as int + 1)));
        }
        i = i + 1;
    }
    ops.clear();
    proof {
        assert(m0.subrange(0, m0.len() as int) =~= m0);
    }
    actions
}

/// Finds the first active operation with this id.
fn find_op(ops: &Vec<ActiveOp>, id: &String) -> (r: Option<usize>)
    ensures
        match r {
            Some(k) => k < ops@.len() && ops@[k as int].id@ == id@ && forall|j: int|
                0 <= j < k ==> ops@[j].id@ != id@,
            None => forall|j: int| 0 <= j < ops@.len() ==> ops@[j].id@ != id@,
        },
{
    let mut i: usize = 0;
    while i < ops.len()
        invariant
            i <= ops.len(),
            forall|j: int| 0 <= j < i ==> ops@[j].id@ != id@,
        decreases ops.len() - i,
    {
        if ops[i].id == *id {
            return Some(i);
        }
        i = i + 1;
    }
    None
}

/// The machine run over a sequence of events: the final state and all
/// emitted actions, in order.
pub open spec fn run_spec(m: ConnModel, events: Seq<EventModel>) -> (ConnModel, Seq<ActionModel>)
    decreases events.len(),
{
    if events.len() == 0 {
        (m, Seq::empty())
    } else {
        let first = step_spec(m, events[0]);
        let rest = run_spec(first.0, events.drop_first());
        (rest.0, first.1 + rest.1)
    }
}

/// Whether an event starts an operation under this id.
pub open spec fn is_start_for(e: EventModel, id: Seq<char>) -> bool {
    e matches EventModel::Start { id: sid, .. } && sid == id
}

/// No event of the sequence starts an operation under this id.
pub open spec fn no_start_for(events: Seq<EventModel>, id: Seq<char>) -> bool {
    forall|i: int| 0 <= i < events.len() ==> !is_start_for(#[trigger] events[i], id)
}

/// Whether an action sends a `next` message for this id.
pub open spec fn sends_next_for(a: ActionModel, id: Seq<char>) -> bool {
    a matches ActionModel::SendNext { id: nid, .. } && nid == id
}

/// No action of the sequence sends a `next` message for this id.
pub open spec fn no_next_for(actions: Seq<ActionModel>, id: Seq<char>) -> bool {
    forall|i: int| 0 <= i < actions.len() ==> !sends_next_for(#[trigger] actions[i], id)
}

/// Appending an operation under another id keeps an absent id absent.
proof fn lemma_push_keeps_absent(ops: Seq<OpModel>, op: OpModel, id: Seq<char>)
    requires
        !has_op(ops, id),
        op.id != id,
    ensures
        !has_op(ops.push(op), id),
{
    assert forall|i: int| 0 <= i < ops.push(op).len() implies ops.push(op)[i].id != id by {
        if i < ops.len() {
            assert(ops.push(op)[i] == ops[i]);
        }
    }
}

/// Removing an operation keeps an absent id absent.
proof fn lemma_remove_keeps_absent(ops: Seq<OpModel>, k: int, id: Seq<char>)
    requires
        !has_op(ops, id),
        0 <= k < ops.len(),
    ensures
        !has_op(ops.remove(k), id),
{
    assert forall|i: int| 0 <= i < ops.remove(k).len() implies ops.remove(k)[i].id != id by {
        let i0: int = if i < k {
            i
        } else {
            i + 1
        };
        assert(ops.remove(k)[i] == ops[i0]);
    }
}

/// Cancellation instructions never send a `next` message.
proof fn lemma_cancel_actions_no_next(ops: Seq<OpModel>, id: Seq<char>)
    ensures
        no_next_for(cancel_actions(ops), id),
{
    assert forall|i: int| 0 <= i < cancel_actions(ops).len() implies !sends_next_for(
        cancel_actions(ops)[i],
        id,
    ) by {
        assert(cancel_actions(ops)[i] == (ActionModel::CancelExecution { id: ops[i].id }));
    }
}

/// One step on an inactive id that nothing restarts: the id stays inactive
/// and no `next` message for it is emitted.
proof fn lemma_step_silent_for(m: ConnModel, e: EventModel, id: Seq<char>)
    requires
        !has_op(m.ops, id),
        !is_start_for(e, id),
    ensures
        !has_op(step_spec(m, e).0.ops, id),
        no_next_for(step_spec(m, e).1, id),
{
    let r = step_spec(m, e);
    match m.state {
        ConnState::Open => match e {
            EventModel::Start { id: sid, .. } => {
                if !has_op(m.ops, sid) {
                    lemma_push_keeps_absent(m.ops, OpModel { id: sid, context: m.credential }, id);
                }
            },
            EventModel::Stop { id: sid } => {
                if has_op(m.ops, sid) {
                    lemma_first_op_index(m.ops, sid);
                    lemma_remove_keeps_absent(m.ops, first_op_index(m.ops, sid), id);
                }
            },
            EventModel::EngineError { id: sid, .. } => {
                if has_op(m.ops, sid) {
                    lemma_first_op_index(m.ops, sid);
                    lemma_remove_keeps_absent(m.ops, first_op_index(m.ops, sid), id);
                }
            },
            EventModel::EngineComplete { id: sid } => {
                if has_op(m.ops, sid) {
                    lemma_first_op_index(m.ops, sid);
                    lemma_remove_keeps_absent(m.ops, first_op_index(m.ops, sid), id);
                }
            },
            EventModel::Init { .. } => {
                lemma_cancel_actions_no_next(m.ops, id);
            },
            EventModel::Terminate => {
                lemma_cancel_actions_no_next(m.ops, id);
            },
            EventModel::TransportClosed => {
                lemma_cancel_actions_no_next(m.ops, id);
            },
            _ => {},
        },
        _ => {},
    }
}

/// A run on an inactive id that no event restarts: the id stays inactive and
/// no `next` message for it is ever emitted.
pub proof fn lemma_inactive_stays_silent(m: ConnModel, events: Seq<EventModel>, id: Seq<char>)
    requires
        !has_op(m.ops, id),
        no_start_for(events, id),
    ensures
        !has_op(run_spec(m, events).0.ops, id),
        no_next_for(run_spec(m, events).1, id),
    decreases events.len(),
{
    if events.len() > 0 {
        lemma_step_silent_for(m, events[0], id);
        assert forall|i: int| 0 <= i < events.drop_first().len() implies !is_start_for(
            #[trigger] events.drop_first()[i],
            id,
        ) by {
            assert(events.drop_first()[i] == events[i + 1]);
        }
        lemma_inactive_stays_silent(step_spec(m, events[0]).0, events.drop_first(), id);
    }
}

/// An accepted operation's context reflects exactly the credential visible
/// to it at the moment it was accepted: the connection-level credential
/// captured at handshake — both in the context the execution is started
/// under and in the one the active set keeps for the operation.
pub proof fn lemma_operation_context_is_handshake_credential(
    m: ConnModel,
    id: Seq<char>,
    document: Seq<u8>,
    variables: Seq<u8>,
)
    requires
        m.state is Open,
        !has_op(m.ops, id),
    ensures
        step_spec(m, EventModel::Start { id, document, variables }).1 == seq![
            ActionModel::StartExecution { id, document, variables, context: m.credential },
        ],
        step_spec(m, EventModel::Start { id, document, variables }).0.ops == m.ops.push(
            OpModel { id, context: m.credential },
        ),
{
}

/// A duplicate start is rejected with a per-operation error: the connection
/// and every active operation — the first one under that id included — are
/// left exactly as they were, so the active count does not change.
pub proof fn lemma_duplicate_start_rejected(
    m: ConnModel,
    id: Seq<char>,
    document: Seq<u8>,
    variables: Seq<u8>,
)
    requires
        m.state is Open,
        has_op(m.ops, id),
    ensures
        step_spec(m, EventModel::Start { id, document, variables }).0 == m,
        step_spec(m, EventModel::Start { id, document, variables }).1 == seq![
            ActionModel::SendDuplicate { id },
        ],
{
}

/// A start message grows the active set by at most one, and every operation
/// active before it is still active after it.
pub proof fn lemma_start_adds_at_most_one(
    m: ConnModel,
    id: Seq<char>,
    document: Seq<u8>,
    variables: Seq<u8>,
)
    ensures
        step_spec(m, EventModel::Start { id, document, variables }).0.ops.len() <= m.ops.len() + 1,
        forall|y: Seq<char>|
            has_op(m.ops, y) ==> has_op(
                #[trigger] step_spec(m, EventModel::Start { id, document, variables }).0.ops,
                y,
            ),
{
    let r = step_spec(m, EventModel::Start { id, document, variables });
    assert forall|y: Seq<char>| has_op(m.ops, y) implies has_op(r.0.ops, y) by {
        let i = choose|i: int| 0 <= i < m.ops.len() && m.ops[i].id == y;
        if m.state is Open && !has_op(m.ops, id) {
            assert(r.0.ops[i] == m.ops[i]);
        } else {
            assert(r.0.ops == m.ops);
        }
    }
}

/// Stopping operation X quiesces it: X leaves the active set at once, and no
/// later event — short of a new start for X — makes the machine emit another
/// `next` message for X.
pub proof fn lemma_stop_quiesces_operation(m: ConnModel, x: Seq<char>, events: Seq<EventModel>)
    requires
        m.wf(),
        no_start_for(events, x),
    ensures
        !has_op(step_spec(m, EventModel::Stop { id: x }).0.ops, x),
        no_next_for(run_spec(step_spec(m, EventModel::Stop { id: x }).0, events).1, x),
{
    let after = step_spec(m, EventModel::Stop { id: x }).0;
    if m.state is Open {
        lemma_remove_op_removes(m.ops, x);
    }
    lemma_inactive_stays_silent(after, events, x);
}

/// Stopping X leaves a sibling operation Y untouched: Y stays active and the
/// engine's next result for Y is still forwarded.
pub proof fn lemma_stop_leaves_siblings(m: ConnModel, x: Seq<char>, y: Seq<char>, payload: Seq<u8>)
    requires
        m.state is Open,
        y != x,
        has_op(m.ops, y),
    ensures
        has_op(step_spec(m, EventModel::Stop { id: x }).0.ops, y),
        step_spec(
            step_spec(m, EventModel::Stop { id: x }).0,
            EventModel::EngineNext { id: y, payload },
        ).1 == seq![ActionModel::SendNext { id: y, payload }],
{
    let after = step_spec(m, EventModel::Stop { id: x }).0;
    if has_op(m.ops, x) {
        lemma_first_op_index(m.ops, x);
        let k = first_op_index(m.ops, x);
        let j = choose|j: int| 0 <= j < m.ops.len() && m.ops[j].id == y;
        if j < k {
            assert(after.ops[j] == m.ops[j]);
        } else {
            assert(j != k);
            assert(after.ops[j - 1] == m.ops[j]);
        }
    }
}

/// Losing the transport cancels everything: the connection is closed, every
/// active operation is cancelled — one cancellation instruction each, in
/// order — and no message of any kind is sent for any operation.
pub proof fn lemma_close_cancels_all(m: ConnModel)
    requires
        m.state is Open,
    ensures
        step_spec(m, EventModel::TransportClosed).0.state is Closed,
        step_spec(m, EventModel::TransportClosed).0.ops.len() == 0,
        step_spec(m, EventModel::TransportClosed).1 == cancel_actions(m.ops),
        forall|id: Seq<char>| no_next_for(#[trigger] step_spec(m, EventModel::TransportClosed).1, id),
{
    assert forall|id: Seq<char>| no_next_for(
        #[trigger] step_spec(m, EventModel::TransportClosed).1,
        id,
    ) by {
        lemma_cancel_actions_no_next(m.ops, id);
    }
}

/// An explicit termination message cancels everything in the same way; the
/// connection enters `Closing` and the transport is told to close.
pub proof fn lemma_terminate_cancels_all(m: ConnModel)
    requires
        m.state is Open,
    ensures
        step_spec(m, EventModel::Terminate).0.state is Closing,
        step_spec(m, EventModel::Terminate).0.ops.len() == 0,
        step_spec(m, EventModel::Terminate).1 == cancel_actions(m.ops) + seq![
            ActionModel::Close { reason: CloseReason::Normal },
        ],
        forall|id: Seq<char>| no_next_for(#[trigger] step_spec(m, EventModel::Terminate).1, id),
{
    assert forall|id: Seq<char>| no_next_for(
        #[trigger] step_spec(m, EventModel::Terminate).1,
        id,
    ) by {
        lemma_cancel_actions_no_next(m.ops, id);
        let all = step_spec(m, EventModel::Terminate).1;
        assert forall|i: int| 0 <= i < all.len() implies !sends_next_for(all[i], id) by {
            if i < cancel_actions(m.ops).len() {
                assert(all[i] == cancel_actions(m.ops)[i]);
            } else {
                assert(all[i] == (ActionModel::Close { reason: CloseReason::Normal }));
            }
        }
    }
}

/// A connection that is closing or closed emits nothing, whatever else
/// arrives.
pub proof fn lemma_closed_stays_silent(m: ConnModel, events: Seq<EventModel>)
    requires
        m.state is Closing || m.state is Closed,
    ensures
        run_spec(m, events).1.len() == 0,
    decreases events.len(),
{
    if events.len() > 0 {
        lemma_closed_stays_silent(step_spec(m, events[0]).0, events.drop_first());
    }
}

/// Results for one operation are forwarded in arrival order: a run of engine
/// results for an active operation emits exactly one `next` message per
/// result, in the same order, with the payloads verbatim.
pub proof fn lemma_next_messages_in_order(m: ConnModel, x: Seq<char>, payloads: Seq<Seq<u8>>)
    requires
        m.state is Open,
        has_op(m.ops, x),
    ensures
        run_spec(
            m,
            payloads.map_values(|p: Seq<u8>| EventModel::EngineNext { id: x, payload: p }),
        ).1 == payloads.map_values(|p: Seq<u8>| ActionModel::SendNext { id: x, payload: p }),
    decreases payloads.len(),
{
    let events = payloads.map_values(|p: Seq<u8>| EventModel::EngineNext { id: x, payload: p });
    let sent = payloads.map_values(|p: Seq<u8>| ActionModel::SendNext { id: x, payload: p });
    if payloads.len() == 0 {
        assert(run_spec(m, events).1 =~= sent);
    } else {
        assert(events[0] == (EventModel::EngineNext { id: x, payload: payloads[0] }));
        let first = step_spec(m, events[0]);
        assert(first.0 == m);
        assert(first.1 == seq![ActionModel::SendNext { id: x, payload: payloads[0] }]);
        assert(events.drop_first() =~= payloads.drop_first().map_values(
            |p: Seq<u8>| EventModel::EngineNext { id: x, payload: p },
        ));
        lemma_next_messages_in_order(m, x, payloads.drop_first());
        assert(run_spec(m, events).1 =~= sent) by {
            assert(run_spec(m, events).1 == first.1 + run_spec(m, events.drop_first()).1);
            assert(run_spec(m, events.drop_first()).1 == payloads.drop_first().map_values(
                |p: Seq<u8>| ActionModel::SendNext { id: x, payload: p },
            ));
        }
    }
}

} // verus!
