//! Shared utility helpers across the crate.

pub mod random;
