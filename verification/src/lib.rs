//! Transport-agnostic authentication and context propagation for a
//! query-execution gateway.
//!
//! A bearer credential arrives out of band — in a header map on the
//! request/response transport, or in the `connection_init` payload of the
//! streaming transport. This crate extracts it, normalizes it into an opaque
//! [`credential::Credential`], injects it into a per-operation
//! [`context::ExecutionContext`], and drives the streaming transport's
//! connection state machine. The execution engine and the listeners are
//! external collaborators: they live outside this crate and exchange plain
//! values with it.

pub mod context;
pub mod credential;
pub mod request;
pub mod streaming;

pub use context::ExecutionContext;
pub use context::build_context;
pub use credential::Credential;
pub use credential::HeaderCarrier;
pub use credential::HeaderEntry;
pub use credential::InitPayload;
pub use credential::PayloadField;
pub use credential::PayloadValue;
pub use credential::extract_from_headers;
pub use credential::extract_from_payload;
pub use request::PreparedOperation;
pub use request::prepare_request;
pub use streaming::Action;
pub use streaming::CloseReason;
pub use streaming::ConnState;
pub use streaming::Connection;
pub use streaming::Event;
pub use streaming::HandshakeVerdict;
pub use streaming::Protocol;
pub use streaming::handshake;
pub use streaming::negotiate;
pub use streaming::parse_protocol;
