//! Turns secrets fetched from a secret store into a shell-sourceable
//! environment file: payloads are merged into one key/value set, keys are
//! renamed by a naming policy, and each pair is rendered as an `export` line.

pub mod aggregate;
pub mod invocation;
pub mod naming;
pub mod pairs;
pub mod parse;
pub mod payload;
pub mod render;
pub mod set;
mod text;
