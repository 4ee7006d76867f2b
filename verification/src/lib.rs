//! Codecs for the save files of a persistent game world: the compressed
//! container around the property tree, and the guild and character records
//! that the tree carries as byte blobs.
#![allow(non_snake_case)]

pub mod error;
pub mod stream;
pub mod wire;
pub mod guid;
pub mod fstring;
pub mod group_guild;
pub mod sav;
pub mod character_save_parameter;
pub mod repair;
