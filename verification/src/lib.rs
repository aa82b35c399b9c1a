//! A multi-version page store on top of an ordered key-value database.
//!
//! A namespace is a sequence of pages, kept at many versions. A client opens a transaction
//! at some version, reads and writes pages, and commits; a commit goes through only if
//! nothing that the transaction depends on has changed meanwhile. Page contents are stored
//! under their hashes, so that a content is stored once however often it is written.
//!
//! This crate decides; it does not talk to the database. Whatever a step needs from the
//! database, the clock or the network is handed in as a plain value, and whatever has to be
//! done there is handed out as one.
//!
//! - [`version`], [`order`] and [`text`]: versions, their texts, and how they compare.
//! - [`client`], [`transaction`] and [`commit`]: the client of a namespace, its transactions,
//!   and how they are committed.
//! - [`namespace`], [`read`], [`write`] and [`store`]: the side of the store.
//! - [`temperature`]: which pages commits should be careful with.
//! - [`boot`]: the start of the database client.
//! - [`bench`] and [`stress`]: what the benchmark and the stress test do.
//! - [`outside`]: the calls into other crates, and what is taken for granted about them.

pub mod bench;
pub mod boot;
pub mod client;
pub mod commit;
pub mod hashes;
pub mod namespace;
pub mod order;
pub mod outside;
pub mod read;
pub mod store;
pub mod stress;
pub mod temperature;
pub mod text;
pub mod transaction;
pub mod version;
pub mod write;
