//! `motif_core`: a tiny embedded follower graph store.
//!
//! The store is a single append-only log of framed, binary-encoded
//! mutations behind a 16-byte header; the engine replays it on open and
//! keeps in-memory indexes of where each live node and edge was written.
//! A hand-written Cypher subset (lexer, parser, interpreter) runs queries
//! against the engine. Every committed mutation is also buffered for an
//! upstream controller, which confirms or corrects it.

pub mod text;
pub mod value;
pub mod strmap;
pub mod graph;
pub mod schema;
pub mod sync;
pub mod wire;
pub mod record;
pub mod storage;
pub mod log;
pub mod config;
pub mod engine;
pub mod capability;
pub mod float;
pub mod query;
pub mod messages;

pub use capability::resolve as resolve_capability;
pub use config::{CapabilityConfig, ControllerConfig, EdgeConfig, IdentityConfig, MotifConfig, StorageConfig};
pub use engine::{Engine, EngineError};
pub use graph::{Edge, Node, Properties};
pub use query::eval::{InterpretError, Params};
pub use query::result::{QueryResult, ResultCell};
pub use query::run::{QueryError, parse};
pub use schema::{PropertyType, Schema, TableKind, TableSchema};
pub use storage::{MemoryStorage, Storage, StorageError};
pub use sync::controller::ControllerError;
pub use sync::mutation::{ActorId, Mutation, MutationOp};
pub use sync::mutation_log::MutationLog;
pub use value::Value;
