//! A minimal log-structured key-value store.
//!
//! Values are appended to a single log of length-prefixed records, and an
//! index maps each key to the offset of its most recent record. The modules,
//! leaf first:
//!
//! * [`codec`]: the binary layout of one record, and reading records off a log;
//! * [`index`]: the mapping from keys to log offsets;
//! * [`store`]: the store itself, built from a log and an index;
//! * [`laws`]: what holds of the store's operations taken together;
//! * [`shell`]: the commands of the interactive front end.

pub mod codec;
pub mod error;
pub mod index;
pub mod laws;
pub mod shell;
pub mod store;

pub use codec::{encode, KeyValuePair, LogReader, RecordError};
pub use error::KVError;
pub use index::Index;
pub use shell::{execute, tokenize, Command, Outcome, ShellError};
pub use store::{ActionKV, StoreView};
