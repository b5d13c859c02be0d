//! A key/value store in a single file.
//!
//! The store is a persistent binary search tree over an append-only file.
//! The first 512 bytes of the file are the superblock, which records the
//! address of the root; everything behind them is the data region, to
//! which records are only ever added. A change writes fresh records for
//! the nodes on its way and leaves all other records alone, so every root
//! that was ever committed stays readable; a commit is the one write that
//! records the new root.
//!
//! The library works on the image of the file. Reading the file, holding
//! the lock on it for the length of a transaction and writing the
//! committed bytes back are the caller's part.
//!
//! - `storage`: the file image, its superblock and its data region.
//! - `serde_interface`: the codecs of texts, node records and the
//!   superblock record.
//! - `disk`: what a file holds at an address and under its root.
//! - `tree`: the mathematical tree that the store stands for, with the
//!   meaning of search, insertion and deletion and the laws that they obey.
//! - `agent`: the handles that load a node or a value on demand and store
//!   it once, and the trait `Agent` that says what every such handle
//!   offers.
//! - `logical_tree`: the tree over agents, the trait `DBTree` that says
//!   what the handle asks of a tree, and the handle with its transactions.
//! - `error`: the errors.

pub mod agent;
pub mod disk;
pub mod error;
pub mod logical_tree;
pub mod serde_interface;
pub mod storage;
pub mod tree;
