//! diskmap: a disk space explorer for Windows volumes.
//!
//! The library holds everything the explorer decides or computes; the program
//! around it only talks to the disk, to the network and to the clock.

pub mod aggregate;
pub mod cache;
pub mod clock;
pub mod delete;
pub mod explorer;
pub mod http;
pub mod launch;
pub mod laws;
pub mod le;
pub mod links;
pub mod listing;
pub mod order;
pub mod path;
pub mod protect;
pub mod records;
pub mod refusal;
pub mod snapshot;
pub mod split;
pub mod table;
pub mod text;
pub mod walk;
pub mod win32;
