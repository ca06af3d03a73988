//! An immutable, columnar, append-once storage format (a "jar") together with
//! the two index structures that make it queryable without linear scans: a
//! cuckoo membership filter and a minimal perfect hash over the key set.
//!
//! The jar lives in [`jar`], on top of [`cuckoo`], [`filter`], [`phf`],
//! [`column`] and [`codec`]. Around it stand a few helpers of the node that
//! uses it: numbers on the command line ([`args`]), 256-bit numbers in JSON
//! ([`json_u256`]), transaction requests ([`request`]) and event listeners
//! ([`event_listeners`]).
//!
//! Every function in this crate is verified with Verus; the few calls into
//! other crates sit behind small trusted wrappers whose contracts are spelled
//! out where they are declared.

pub mod args;
pub mod bytes;
pub mod codec;
pub mod column;
pub mod cuckoo;
pub mod error;
pub mod event_listeners;
pub mod filter;
pub mod hash;
pub mod jar;
pub mod json_u256;
pub mod phf;
pub mod primitives;
pub mod request;
pub mod snapshot;
pub mod text;
