//! Named Binary Tag codec: a tag-prefixed, big-endian binary tree format.
//!
//! The tree type and its mathematical model live in `tag`, UTF-8 text in
//! `text`, the fixed-width big-endian fields in `wire`, the writer in
//! `encode`, the reader in `decode`, whole documents (gzip or plain) in
//! `gzip`, the laws that relate writer and reader in `laws`, and the test
//! for the trees that those laws speak of in `valid`.

pub mod tag;
pub mod text;
pub mod wire;
pub mod encode;
pub mod decode;
pub mod gzip;
pub mod laws;
pub mod valid;
