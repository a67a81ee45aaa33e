//! The life of a node: how it is provisioned, recovered, tested and operated.

pub mod selftest;
pub mod provision;
pub mod recovery;
pub mod admin;
pub mod plane;
pub mod drill;
