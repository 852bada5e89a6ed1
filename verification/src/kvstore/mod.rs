//! The system under test: a replicated key-value store built on Raft.
//!
//! Bytes come in through [`server`], which hands consensus traffic to [`raft`]
//! and applies what is committed to the state machine in [`machine`]. What a
//! node sends is framed and checked by [`codec`] and [`wire`]; what it writes is
//! laid out by [`log`] and read back by [`recovery`], with [`persist`] keeping
//! the order of writes, syncs and replies.
//!
//! [`raft_model`] states what each handler of a Raft node does; [`raft_laws`],
//! [`raft_vote_laws`], [`raft_durable_laws`] and [`layout_laws`] state what
//! follows from it.

pub mod bug;
pub mod codec;
pub mod layout_laws;
pub mod log;
pub mod machine;
pub mod persist;
pub mod raft;
pub mod raft_action_laws;
pub mod raft_durable_laws;
pub mod raft_laws;
pub mod raft_model;
pub mod raft_replication_laws;
pub mod raft_vote_laws;
pub mod recovery;
pub mod server;
pub mod service_laws;
pub mod storage_laws;
pub mod table;
pub mod wire;

pub use self::log::{Command, Entry, Op, RaftLog};
pub use self::machine::{ClientMsg, Outcome};
pub use self::raft::Raft;
pub use self::raft_model::Role;
pub use self::server::KvServer;
pub use self::wire::{Message, RaftMsg};
