//! Region-file chunk storage: chunk codec, Anvil and Linear region formats,
//! compression codecs and the decision logic of the region cache.
pub mod anvil;
pub mod be;
pub mod block_property;
pub mod cache;
pub mod chunk;
pub mod compression;
pub mod command;
pub mod config;
pub mod coords;
pub mod document;
pub mod errors;
pub mod grouping;
pub mod linear;
pub mod palette;
pub mod region;
