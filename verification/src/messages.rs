//! The messages the nodes and their transfer agents exchange.
//!
//! A node is named by an opaque identity; a running transfer agent by an
//! address (node identity plus process name).  The host runtime moves these
//! messages; the library only decides what to send and what a received one
//! means.

use vstd::prelude::*;

verus! {

/// A node's opaque, globally unique identity.
pub type NodeId = String;

/// The address of one running process: a node and a process name on it.
#[derive(Debug)]
pub struct Address {
    pub node: String,
    pub process: String,
}

impl Clone for Address {
    fn clone(&self) -> (r: Address)
        ensures
            r == *self,
    {
        Address { node: self.node.clone(), process: self.process.clone() }
    }
}

impl PartialEq for Address {
    fn eq(&self, other: &Address) -> (r: bool) {
        self.node == other.node && self.process == other.process
    }
}

impl vstd::std_specs::cmp::PartialEqSpecImpl for Address {
    open spec fn obeys_eq_spec() -> bool {
        true
    }

    open spec fn eq_spec(&self, other: &Address) -> bool {
        self.node@ == other.node@ && self.process@ == other.process@
    }
}

impl Eq for Address {

}

/// What a local user asks of their own node.
#[derive(Debug)]
pub enum UiRequest {
    /// Ask `node_id` to store a backup, encrypting with `password_hash`.
    BackupRequest { node_id: NodeId, size: u64, password_hash: String },
    /// Ask `node_id` to send a stored backup back.
    BackupRetrieve { node_id: NodeId },
    /// Decrypt a retrieved backup with `password_hash`.
    Decrypt { password_hash: String },
}

/// What a client node asks of a server node.
#[derive(Debug)]
pub enum ClientRequest {
    /// Announce a backup of roughly `size` bytes and ask for acceptance.
    BackupRequest { size: u64 },
    /// Ask the server to send the stored backup to `worker_address`.
    BackupRetrieve { worker_address: Address },
}

/// A server node's answer to a backup request.
#[derive(Debug)]
pub enum BackupRequestResponse {
    /// Accepted: send the data to this receiving agent.
    Confirm { worker_address: Address },
    /// Refused.
    Decline,
}

/// What a server node answers a client.
#[derive(Debug)]
pub enum ServerResponse {
    BackupRequestResponse(BackupRequestResponse),
    /// The time the server last accepted a backup from this client, if ever.
    BackupRetrieveResponse(Option<i64>),
}

/// What a transfer agent is told, by its orchestrator or by its peer agent.
#[derive(Debug)]
pub enum WorkerRequest {
    /// Become the sending end: stream the files under `sending_from_dir` to
    /// `target_worker`, encrypting when a secret is given.
    InitializeSenderWorker {
        target_worker: Address,
        password_hash: Option<String>,
        sending_from_dir: String,
    },
    /// Become the receiving end: store arriving chunks under
    /// `receive_to_dir`, which starts from a clean slate.
    InitializeReceiverWorker { receive_to_dir: String },
    /// One unit of the transfer stream; the payload travels beside it as a
    /// binary attachment.  `done` with an empty name ends the whole transfer.
    Chunk { done: bool, file_name: String },
}

/// What an agent reports to its own orchestrator when it finishes.
#[derive(Debug)]
pub enum WorkerStatus {
    Done,
}

} // verus!
