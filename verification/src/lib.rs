//! Verified core of a terminal wrapper that watches a shell's output,
//! notices when a command fails, and stages fixes behind confirmations.

pub mod text;
pub mod boundary;
pub mod buffer;
pub mod safety;
pub mod ipc_client;
pub mod doctor;
pub mod session;
pub mod pty;
