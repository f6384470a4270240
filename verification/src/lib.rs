//! Codec for turning a byte stream (in practice a local database file) into a
//! single encrypted, compressed container and back: chunked parallel
//! compression into self-terminating frames, an authenticated passphrase
//! envelope around their concatenation, and a streaming multi-frame
//! decompressor that walks the frame boundaries with no length table.
//! Alongside the codec live the self-update helpers (platform detection,
//! semantic versions, release-asset selection) and small view helpers.

pub mod app;
pub mod codec;
pub mod text;
pub mod ui;
pub mod update;
