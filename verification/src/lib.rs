//! Build orchestration core for a tree of independently versioned extension
//! projects: metadata validation, the lock store that assigns each extension a
//! stable identity, the decision whether an extension needs rebuilding, stale
//! entry reconciliation, packaging layout, and the generated server index.
//!
//! All file reading and writing, process spawning and logging stays with the
//! caller; the functions here work on plain values and carry contracts.

pub mod binary;
pub mod lock;
pub mod orchestrator;
pub mod numbers;
pub mod server;
pub mod storage;
pub mod structs;
pub mod util;
pub mod validator;
