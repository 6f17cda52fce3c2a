//! A radix-tree router: maps an (HTTP method, URL path) pair to a
//! previously registered handler value.
//!
//! Paths are split into segments at `/`. A literal segment matches
//! byte-for-byte, a segment written `$name` binds one non-empty segment of
//! the looked-up path as a named parameter, and a final `*` consumes the
//! whole remainder of the path. Sibling literal branches share common
//! prefixes, so the tree stays compact under many registrations.

pub mod method;
pub mod tree;
