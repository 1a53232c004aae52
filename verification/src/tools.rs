//! Requests that the vault's tools take.

pub mod write;
