//! Verified core of a TCP log-forwarding system: clients frame log records,
//! a server batches the records it receives and forwards them, and a
//! destination splits each forwarded batch back into lines.
use vstd::prelude::*;

pub mod batch;
pub mod client;
pub mod destination;
pub mod laws;
pub mod outside;
pub mod server;
pub mod text;

verus! {

} // verus!
