//! The verified core of a music library: tags arranged in a tree, music and clips
//! that carry them, and the metadata read from audio files.
pub mod albums;
pub mod base64;
pub mod candidates;
pub mod catalog;
pub mod clips;
pub mod failure;
pub mod id3;
pub mod laws;
pub mod legacy;
pub mod library;
pub mod library_tags;
pub mod links;
pub mod listing;
pub mod locations;
pub mod lookup;
pub mod messages;
pub mod migrate;
pub mod mp3;
pub mod music;
pub mod naming;
pub mod order;
pub mod paths;
pub mod probe;
pub mod relocation;
pub mod rows;
pub mod schema;
pub mod seconds;
pub mod soundness;
pub mod sources;
pub mod standard;
pub mod tags;
pub mod text;
pub mod tree;
