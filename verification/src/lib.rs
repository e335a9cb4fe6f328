//! Delegated, attenuated permissions embedded in a sign-in message.
//!
//! A capability maps targets (absolute URIs) to granted abilities
//! (`namespace/name` tokens) with attached constraint records, plus a set of
//! content-addressed references to parent delegations.  The capability is
//! carried in the message's resource list as a canonical, base64-encoded
//! payload, and described to the signer by a deterministic clause appended
//! to the message's statement; a verifier re-derives the clause from the
//! payload and requires the statement to end with it, so the displayed text
//! cannot diverge from the encoded permissions.

pub mod ability;
pub mod action;
pub mod capability;
pub mod codec;
pub mod eq_set;
pub mod error;
pub mod message;
pub mod namespace;
pub mod outside;
pub mod set;
pub mod statement;
pub mod text;
pub mod value;

use vstd::prelude::*;

verus! {

/// Scheme prefix that marks a resource-list entry as carrying an encoded
/// capability payload.
pub const RESOURCE_PREFIX: &'static str = "urn:recap:";

} // verus!
