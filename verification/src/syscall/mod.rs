//! System call handlers.
pub mod process;
