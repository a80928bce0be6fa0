//! The request/response channel handler's verified half.
//!
//! One exchange carries one operation. The handler extracts the credential
//! from the exchange's header carrier, builds the operation's context, and
//! hands both to the execution engine. The engine call itself may suspend and
//! belongs to the surrounding application; what this module guarantees is
//! that the operation reaches the engine verbatim, under a context that
//! carries exactly the credential the carrier held. The engine's result is
//! returned to the caller verbatim — no retry, no caching — so no logic of
//! this layer stands after the call.

use crate::context::ExecutionContext;
use crate::context::build_context;
use crate::credential::HeaderCarrier;
use crate::credential::extract_from_headers;
use crate::credential::header_extraction;
use vstd::prelude::*;

verus! {

/// One operation ready for the execution engine: the document and variables
/// as the client sent them, under the context of this exchange.
pub struct PreparedOperation {
    pub document: Vec<u8>,
    pub variables: Vec<u8>,
    pub context: ExecutionContext,
}

/// Prepares one request/response exchange: extracts the credential from the
/// carrier and builds a fresh context that carries exactly that credential.
/// The operation document and variables pass through unmodified. Nothing is
/// kept across calls: the handler is stateless per exchange.
pub fn prepare_request(carrier: &HeaderCarrier, document: Vec<u8>, variables: Vec<u8>) -> (p:
    PreparedOperation)
    ensures
        p.context@ == header_extraction(carrier@),
        p.document@ == document@,
        p.variables@ == variables@,
{
    let credential = extract_from_headers(carrier);
    PreparedOperation { document, variables, context: build_context(credential) }
}

} // verus!
