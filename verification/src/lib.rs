//! A breeding game core: entities ("kitties") with a 16-byte genome, a
//! monotonic identifier allocator, and a per-owner enumeration index kept as a
//! doubly linked list inside a point-access key/value store.
//!
//! * [`dna`]: genomes and the bitwise mixing law.
//! * [`randomness`]: the hash that turns what the chain knows into 16 bytes.
//! * [`linked_list`]: the model of the ownership index and its laws.
//! * [`owned_kitties`]: the ownership index itself.
//! * [`module`]: allocator, entity store and the requests of the game.

pub mod dna;
pub mod linked_list;
pub mod module;
pub mod owned_kitties;
pub mod randomness;

pub use crate::dna::Kitty;
pub use crate::linked_list::{AccountId, KittyIndex, KittyLinkedItem};
pub use crate::module::{Error, Module};
pub use crate::owned_kitties::OwnedKitties;
