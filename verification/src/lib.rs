//! Content-addressed storage for agent state.
//!
//! Blocks are immutable and named by the hash of their bytes. They live in
//! append-only segment files ([`segment`], [`image`], [`store`]) below a warm
//! tier in memory ([`tiered`]). What prefix of a token stream is held by which
//! blocks is metadata ([`cache_key`], [`manifest`], [`control`]), which a
//! cluster agrees on and agents sign for ([`identity`], [`signing`]). What a
//! node answers is decided in [`api`]; [`batch`] and [`stream`] frame what
//! travels.
//!
//! Files, networks and consensus are left to the program around the library,
//! which hands in bytes and takes decisions back; see [`io`] for the one place
//! where the library calls out to a device.

pub mod api;
pub mod batch;
pub mod block;
pub mod bytes;
pub mod cache_key;
pub mod cli;
pub mod client;
pub mod control;
pub mod digest;
pub mod error;
pub mod hexadecimal;
pub mod identity;
pub mod image;
pub mod io;
pub mod key_table;
pub mod layout;
pub mod lines;
pub mod manifest;
pub mod memory;
pub mod metrics;
pub mod pki;
pub mod segment;
pub mod signing;
pub mod store;
pub mod stream;
pub mod table;
pub mod text;
pub mod tiered;
pub mod uring;
pub mod vectors;
pub mod workload;
