//! Scope patterns for capability-based authorization.
//!
//! A scope is a byte string; a scope that ends in `*` is a prefix pattern that
//! covers every scope starting with the bytes before the `*`.  The crate
//! defines the order in which scopes sort, the removal of scopes that a
//! pattern in the same sorted list already covers, and the compilation of a
//! set of expansion rules into a byte-indexed trie.
pub mod lex;
pub mod scopes;
pub mod rules;
pub mod sorting;
pub mod trie;
pub mod render;
