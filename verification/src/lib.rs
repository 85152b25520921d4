//! Peer-to-peer encrypted backup and restore of a local document tree.
//!
//! One node (the client) asks another (the server) to store an encrypted
//! snapshot of its files, or to return a previously stored snapshot.  The
//! library holds the verified core: the chunked symmetric-encryption codec,
//! the directory-snapshot path logic, the transfer-agent send/receive state
//! machines, and the backup orchestrator's handshake decisions.  The host
//! runtime (message transport, file store) lives outside the library and
//! calls into it with plain values.

pub mod agent;
pub mod chunks;
pub mod codec;
pub mod messages;
pub mod orchestrator;
pub mod prompts;
pub mod restore;
pub mod snapshot;
pub mod store;
