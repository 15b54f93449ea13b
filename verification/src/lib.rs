//! Indexing and export of files that hold length-prefixed binary documents
//! back to back.
//!
//! The crate locates document boundaries from the length prefixes alone,
//! stores and reloads that boundary index, cuts single documents out of the
//! source, carries document values into and out of the value model of an
//! embedded scripting runtime, and plans the export of the documents in
//! batches. Every function is verified against a contract over
//! mathematical models of its data. Calls into other crates are confined
//! to small wrappers whose contracts are assumed; each wrapper says in its
//! documentation which call it makes and what is assumed of it.
//!
//! * [`record`], [`scanner`]: boundary records and the scan that finds them.
//! * [`index_store`]: the stored form of an index.
//! * [`loader`]: the bytes and the decoded document of a record.
//! * [`value`], [`script`]: documents, and the values that a script sees.
//! * [`bridge`], [`round_trip`], [`display`], [`builtins`]: the way into
//!   the scripting runtime and back, what survives it, and what a script can
//!   call.
//! * [`engine`]: the embedded interpreter that runs a script on a document.
//! * [`slice`], [`config`]: range selection and the settings of a run.
//! * [`export`], [`aggregate`]: batches, output names, failure policy, and
//!   one output in record order from batches that finish in any order.
//! * [`text`]: numbers and bytes as text.

pub mod aggregate;
pub mod bridge;
pub mod builtins;
pub mod config;
pub mod display;
pub mod engine;
pub mod export;
pub mod index_store;
mod key_index;
pub mod loader;
pub mod record;
pub mod round_trip;
pub mod scanner;
pub mod script;
pub mod slice;
pub mod text;
pub mod value;
