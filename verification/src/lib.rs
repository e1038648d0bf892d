//! Deletes a directory tree as fast as possible.
//!
//! The engine walks the tree once, removing every file and symbolic link it
//! meets, clearing read-only bits that would block removal, treating
//! junction-like directories as single removable units, and recording every
//! plain directory together with its depth.  The recorded directories are
//! then erased level by level, deepest first, so that no directory is removed
//! before all of its descendants are gone.
//!
//! The decision logic — which action each entry gets, and the depth-ordered
//! erase schedule — is verified here; the filesystem calls that carry the
//! actions out live with the caller.

pub mod nmuidi;
pub mod prelude;
