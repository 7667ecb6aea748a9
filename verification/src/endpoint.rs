//! Outbound endpoints: the registry's handle to one live connection.
//!
//! A connection is represented by a stable numeric identity, chosen at
//! accept time and unique per connection, paired with the connection's
//! outbound frame queue. All identity comparisons — leaving a channel,
//! pruning a dead subscriber — go by that identity, never by the address
//! or value of a queue handle.

use tokio::sync::mpsc::UnboundedSender;
use vstd::prelude::*;

verus! {

/// tokio's unbounded queue sender, opaque to the verifier. Frames pushed
/// into it are drained by the connection's writer loop outside this crate.
#[verifier::external_type_specification]
#[verifier::external_body]
#[verifier::reject_recursive_types(T)]
pub struct ExUnboundedSender<T>(UnboundedSender<T>);

/// Relies on `tokio::sync::mpsc::UnboundedSender::send`: it enqueues without
/// blocking and fails exactly when the receiver half is closed or dropped;
/// it never panics. Nothing is promised of the result here, because whether
/// the receiving half is still open depends on the outside world.
#[verifier::external_body]
fn send_frame(tx: &UnboundedSender<String>, frame: String) -> (ok: bool) {
    tx.send(frame).is_ok()
}

/// Relies on `tokio::sync::mpsc::UnboundedSender::clone`: the clone feeds
/// the same queue as the original.
#[verifier::external_body]
fn clone_sender(tx: &UnboundedSender<String>) -> (r: UnboundedSender<String>) {
    tx.clone()
}

/// The registry's handle to one live connection.
pub struct Endpoint {
    id: u64,
    tx: UnboundedSender<String>,
}

impl View for Endpoint {
    type V = u64;

    /// An endpoint is abstractly just its connection identity.
    closed spec fn view(&self) -> u64 {
        self.id
    }
}

impl Endpoint {
    /// Wraps a connection's outbound queue under the identity `id`.
    pub fn new(id: u64, tx: UnboundedSender<String>) -> (r: Endpoint)
        ensures
            r@ == id,
    {
        Endpoint { id, tx }
    }

    /// The connection identity this endpoint carries.
    pub fn id(&self) -> (r: u64)
        ensures
            r == self@,
    {
        self.id
    }

    /// A second handle to the same connection: same identity, same queue.
    pub fn duplicate(&self) -> (r: Endpoint)
        ensures
            r@ == self@,
    {
        Endpoint { id: self.id, tx: clone_sender(&self.tx) }
    }

    /// Enqueues one frame for the connection's writer loop. `true` means the
    /// queue accepted it; `false` means the connection is gone. Never blocks,
    /// and never fails the caller.
    pub fn deliver(&self, frame: String) -> (ok: bool) {
        send_frame(&self.tx, frame)
    }
}

} // verus!
