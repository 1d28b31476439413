//! Verified core of a markdown-viewer backend.
//!
//! The library covers the logic behind three operations a host shell
//! exposes to a front end: reading a file (here: the construction of its
//! failure message), listing a directory (hidden-entry filtering,
//! extension-based classification, and a three-tier stable sort), and
//! capturing the launch path handed to the process at startup.  All
//! file-system access itself stays with the caller, which hands the
//! library plain values.

pub mod casefold;
pub mod entry;
pub mod launch;
pub mod listing;
pub mod messages;
pub mod order;
