//! Volumes behind network protocols.
pub mod laws;
pub mod webdav;
