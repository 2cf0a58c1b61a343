//! Live process monitoring and control engine: snapshots of the process table,
//! hierarchy reconstruction, filtering, and the decision logic behind process
//! control actions.

pub mod text;
pub mod record;
pub mod filter;
pub mod tree;
pub mod drawing;
pub mod command;
pub mod store;
pub mod columns;
pub mod sampling;
pub mod cli;
pub mod bridge;
