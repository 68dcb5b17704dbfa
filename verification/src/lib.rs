//! A small file system that lives on any set of readable and writable devices.
#![allow(unused_imports)]
use vstd::prelude::*;

pub mod addr;
pub mod bfs;
pub mod block;
pub mod codec;
pub mod config;
pub mod config_laws;
pub mod crypto;
pub mod device;
pub mod disk;
pub mod error;
pub mod interface;
pub mod messages;
pub mod path_laws;
pub mod plan;
pub mod report;
pub mod report_laws;
pub mod servers;
pub mod text;
pub mod utils;
pub mod xhfs;
