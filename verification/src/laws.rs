//! What the operations are for: what their results satisfy, said of rows, bytes and texts as
//! they are handed over and found again.
pub mod albums;
pub mod base64;
pub mod categories;
pub mod clips;
pub mod files;
pub mod id3;
pub mod legacy;
pub mod listing;
pub mod locations;
pub mod media;
pub mod messages;
pub mod migration;
pub mod music;
pub mod naming;
pub mod records;
pub mod refusals;
pub mod relocation;
pub mod schema;
pub mod seconds;
pub mod sources;
pub mod standard;
pub mod tags;
pub mod text;
