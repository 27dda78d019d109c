//! Guest-facing file management bridge for an app-sandboxed filesystem.
//!
//! Guest programs issue high-level file and directory calls against a
//! POSIX-like sandboxed view of storage. This crate provides the path
//! virtualization and directory-traversal layer of that bridge:
//!
//! * [`path`] — virtual paths: parsing, normalization (with clamping at the
//!   sandbox root, so no `..` segment can escape the sandbox), and rendering;
//! * [`storage`] — the sandboxed virtual filesystem a session works against,
//!   modelled as a finite map from absolute normalized paths to nodes;
//! * [`enumerator`] — the stateful, pull-based directory enumerator handed
//!   out to guests, iterating over a snapshot taken at creation time;
//! * [`resolver`] — resolution of symbolic search-path domains (documents,
//!   application support, home, temporary) to canonical sandbox locations;
//! * [`manager`] — the guest-visible file-operations facade and the
//!   lazily-initialized default-instance holder;
//! * [`outcome`] — the guest-observable outcomes that are not plain booleans,
//!   chiefly the explicit unsupported-feature signal.

pub mod enumerator;
pub mod manager;
pub mod outcome;
pub mod path;
pub mod resolver;
pub mod storage;
