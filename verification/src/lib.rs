//! A persistent, log-structured key-value store with a verified storage
//! engine and a verified wire codec.
//!
//! Commands are appended to segment files grouped into generation
//! directories; an in-memory index maps each live key to the position of
//! its latest `Set` record.  The same self-delimiting text grammar encodes
//! on-disk records, client requests and server responses.

pub mod config;
pub mod de;
pub mod engine;
pub mod err;
pub mod index;
pub mod kv;
pub mod proto;
pub mod ser;
pub mod server;

pub use config::Engine;
pub use config::resolve_engine;
pub use de::Decode;
pub use de::Deserializer;
pub use de::from_str;
pub use engine::KvsEngine;
pub use err::KvsError;
pub use index::Index;
pub use kv::FsAction;
pub use kv::KvStore;
pub use kv::Position;
pub use kv::get_file_path;
pub use kv::get_store_dir_by;
pub use kv::select_generation;
pub use proto::Command;
pub use proto::CommandView;
pub use proto::Request;
pub use proto::RequestView;
pub use proto::Response;
pub use proto::response_result;
pub use proto::ResponseView;
pub use ser::Encode;
pub use ser::Serializer;
pub use ser::to_string;
pub use server::execute;
pub use server::respond;
