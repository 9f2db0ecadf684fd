//! Merkle hash trees over named file contents.
//!
//! A snapshot of files ([`file_map`]) is built into a binary hash tree
//! ([`merkle_tree`]); the tree gives an audit path for each file, and a
//! replay of the path ([`utils`]) says whether a content is under a root
//! digest. [`theorems`] holds what is proved of the three together. Digests
//! are SHA-256 ([`digest`]).
//!
//! Around this core stand the text forms of trees and steps ([`render`]),
//! what client and server send each other ([`common`]), and what each of
//! them decides ([`client`], [`server`], [`audit`]), with the arguments of
//! the programs ([`args`], [`client_args`], [`server_args`]).

pub mod args;
pub mod audit;
pub mod client;
pub mod client_args;
pub mod common;
pub mod digest;
pub mod file_map;
pub mod merkle_tree;
pub mod render;
pub mod server;
pub mod server_args;
pub mod theorems;
pub mod utils;
