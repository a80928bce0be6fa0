//! The per-operation execution context.
//!
//! A context is built once per accepted operation and owned by that operation
//! alone. Downstream resolver logic queries it for the credential under the
//! well-known key; when no credential was supplied, that lookup yields
//! nothing, never a default or sentinel credential. The execution engine
//! itself is an external collaborator and is handed the context by the
//! surrounding application, so it never learns how the credential arrived.

use crate::credential::Credential;
use crate::credential::cred_view;
use vstd::prelude::*;

verus! {

/// The execution context of exactly one operation: a mapping from typed keys
/// to values, of which this layer owns the credential key. Its view is what a
/// lookup of that key yields.
pub struct ExecutionContext {
    credential: Option<Credential>,
}

impl View for ExecutionContext {
    type V = Option<Seq<u8>>;

    closed spec fn view(&self) -> Option<Seq<u8>> {
        cred_view(self.credential)
    }
}

impl ExecutionContext {
    /// A fresh context with nothing under the credential key.
    pub fn new() -> (ctx: ExecutionContext)
        ensures
            ctx@ is None,
    {
        ExecutionContext { credential: None }
    }

    /// Puts a credential under the well-known key, replacing what was there.
    pub fn insert_credential(&mut self, credential: Credential)
        ensures
            final(self)@ == Some(credential@),
    {
        self.credential = Some(credential);
    }

    /// What the well-known credential key holds: the credential of this
    /// operation, or nothing when the operation is anonymous.
    pub fn credential(&self) -> (r: Option<&Credential>)
        ensures
            match r {
                Some(c) => self@ == Some(c@),
                None => self@ is None,
            },
    {
        match &self.credential {
            Some(c) => Some(c),
            None => None,
        }
    }
}

impl Clone for ExecutionContext {
    fn clone(&self) -> (ctx: Self)
        ensures
            ctx@ == self@,
    {
        ExecutionContext {
            credential: match &self.credential {
                Some(c) => Some(c.clone()),
                None => None,
            },
        }
    }
}

/// Builds the context of one operation: a fresh, independent value that
/// carries exactly the given credential under the well-known key — the
/// credential visible to the operation at the moment it was accepted.
pub fn build_context(credential: Option<Credential>) -> (ctx: ExecutionContext)
    ensures
        ctx@ == cred_view(credential),
{
    ExecutionContext { credential }
}

/// Contexts are independent: a context reflects exactly the credential it
/// was built from, so the contexts of two operations built from different
/// credentials never observe each other's credential.
pub proof fn lemma_contexts_independent(
    a: Option<Credential>,
    b: Option<Credential>,
    ctx_a: ExecutionContext,
    ctx_b: ExecutionContext,
)
    requires
        ctx_a@ == cred_view(a),
        ctx_b@ == cred_view(b),
        cred_view(a) != cred_view(b),
    ensures
        ctx_a@ != ctx_b@,
        ctx_a@ == cred_view(a),
        ctx_b@ == cred_view(b),
{
}

} // verus!
