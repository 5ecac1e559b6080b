//! Verified reconciliation engine for one-way synchronization of directory
//! subtrees between two LDAP servers with different naming contexts.
//!
//! The crate models directory entries, diffs a source store against a
//! destination store into an ordered plan of add/modify/delete operations,
//! rewrites DN-valued references from the source base DN to the destination
//! base DN, and prepares the byte-level requests that a directory client
//! issues to apply the plan.
pub mod text;
pub mod values;
pub mod dn;
pub mod schema;
pub mod entry;
pub mod ops;
pub mod rewrite;
pub mod diff;
pub mod plan;
pub mod apply;
pub mod laws;
pub mod filter;
