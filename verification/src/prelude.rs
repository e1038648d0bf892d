//! Convenience re-export of the `Cleaner` entry point.

pub use crate::nmuidi::Cleaner;
